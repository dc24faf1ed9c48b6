//! The decisions of the command line: which backend, database and plugins
//! a new project gets, under which feature names, and what `configure` is
//! asked to do.

use vstd::prelude::*;
use crate::bytes::{is_word, text};

verus! {

/// The web frameworks that a backend can be built on.
#[derive(Clone, Copy, Debug, PartialEq, Eq, Structural)]
pub enum BackendFramework {
    ActixWeb,
    Poem,
}

/// The databases that a backend can store its data in.
#[derive(Clone, Copy, Debug, PartialEq, Eq, Structural)]
pub enum BackendDatabase {
    Postgres,
    Sqlite,
}

/// The plugins that can be installed into a new project, in the order in
/// which they are offered and installed.
#[derive(Clone, Copy, Debug, PartialEq, Eq, Structural)]
pub enum Plugin {
    Auth,
    Container,
    Dev,
    Storage,
    GraphQl,
    Utoipa,
}

/// What `configure` can be asked to do.
#[derive(Clone, Copy, Debug, PartialEq, Eq, Structural)]
pub enum ConfigureTask {
    /// Generate the typed client of the backend.
    QuerySync,
    /// Add a model and a service to the backend.
    NewService,
    /// Leave everything as it is.
    Cancel,
}

/// How a setting of a new project is come by.
#[derive(Debug, PartialEq, Eq)]
pub enum Choice<T> {
    /// It was given on the command line.
    Given(T),
    /// It was not given, and the user is to be asked.
    Ask,
    /// It was not given, and nobody can be asked.
    Missing,
}

/// Whether the client can be generated for a backend.
#[derive(Clone, Copy, Debug, PartialEq, Eq, Structural)]
pub enum Support {
    /// It can, for this framework.
    Supported(BackendFramework),
    /// The framework is known, but the client cannot be generated for it.
    NotImplemented,
    /// No framework was selected.
    Unknown,
}

/// How a setting is come by: as given, else by asking where the run is
/// interactive.
pub open spec fn choice_of<T>(given: Option<T>, interactive: bool) -> Choice<T> {
    match given {
        Some(value) => Choice::Given(value),
        None => if interactive {
            Choice::Ask
        } else {
            Choice::Missing
        },
    }
}

/// Whether the client can be generated for the framework at a position of
/// the framework menu: for `actix_web` only.
pub open spec fn support_at(selection: Option<usize>) -> Support {
    match framework_at(selection) {
        Some(BackendFramework::ActixWeb) => Support::Supported(BackendFramework::ActixWeb),
        Some(BackendFramework::Poem) => Support::NotImplemented,
        None => Support::Unknown,
    }
}

/// The database at a position of the database menu.
pub open spec fn database_at(selection: Option<usize>) -> Option<BackendDatabase> {
    match selection {
        Some(i) => if i == 0 {
            Some(BackendDatabase::Postgres)
        } else if i == 1 {
            Some(BackendDatabase::Sqlite)
        } else {
            None
        },
        None => None,
    }
}

/// The framework at a position of the framework menu.
pub open spec fn framework_at(selection: Option<usize>) -> Option<BackendFramework> {
    match selection {
        Some(i) => if i == 0 {
            Some(BackendFramework::ActixWeb)
        } else if i == 1 {
            Some(BackendFramework::Poem)
        } else {
            None
        },
        None => None,
    }
}

/// The position of a plugin in the plugin menu.
pub open spec fn plugin_index(p: Plugin) -> int {
    match p {
        Plugin::Auth => 0,
        Plugin::Container => 1,
        Plugin::Dev => 2,
        Plugin::Storage => 3,
        Plugin::GraphQl => 4,
        Plugin::Utoipa => 5,
    }
}

/// All plugins, in the order of the menu.
pub open spec fn all_plugins() -> Seq<Plugin> {
    seq![
        Plugin::Auth,
        Plugin::Container,
        Plugin::Dev,
        Plugin::Storage,
        Plugin::GraphQl,
        Plugin::Utoipa,
    ]
}

/// The plugin that a name on the command line stands for. `utoipa` is
/// offered in the menu only.
pub open spec fn plugin_named(name: Seq<u8>) -> Option<Plugin> {
    if name == text("auth") {
        Some(Plugin::Auth)
    } else if name == text("container") {
        Some(Plugin::Container)
    } else if name == text("dev") {
        Some(Plugin::Dev)
    } else if name == text("storage") {
        Some(Plugin::Storage)
    } else if name == text("graphql") {
        Some(Plugin::GraphQl)
    } else {
        None
    }
}

/// The feature name of a plugin.
pub open spec fn plugin_feature(p: Plugin) -> Seq<u8> {
    match p {
        Plugin::Auth => text("plugin_auth"),
        Plugin::Container => text("plugin_container"),
        Plugin::Dev => text("plugin_dev"),
        Plugin::Storage => text("plugin_storage"),
        Plugin::GraphQl => text("plugin_graphql"),
        Plugin::Utoipa => text("plugin_utoipa"),
    }
}

/// The feature name of a database.
pub open spec fn database_feature(d: BackendDatabase) -> Seq<u8> {
    match d {
        BackendDatabase::Postgres => text("database_postgres"),
        BackendDatabase::Sqlite => text("database_sqlite"),
    }
}

/// The feature name of a framework.
pub open spec fn framework_feature(f: BackendFramework) -> Seq<u8> {
    match f {
        BackendFramework::ActixWeb => text("backend_actix-web"),
        BackendFramework::Poem => text("backend_poem"),
    }
}

/// Those of the first `n` plugins of the menu whose position is among
/// `chosen`, in the order of the menu.
pub open spec fn chosen_plugins(chosen: Seq<usize>, n: int) -> Seq<Plugin>
    decreases n,
{
    if n <= 0 {
        Seq::empty()
    } else if chosen.contains((n - 1) as usize) {
        chosen_plugins(chosen, n - 1).push(all_plugins()[n - 1])
    } else {
        chosen_plugins(chosen, n - 1)
    }
}

/// The plugins that the first `n` names stand for, or nothing where one of
/// them is no plugin's name.
pub open spec fn named_plugins(names: Seq<Seq<u8>>, n: int) -> Option<Seq<Plugin>>
    decreases n,
{
    if n <= 0 {
        Some(Seq::empty())
    } else {
        match (named_plugins(names, n - 1), plugin_named(names[n - 1])) {
            (Some(acc), Some(p)) => Some(acc.push(p)),
            _ => None,
        }
    }
}

/// The feature names of the first `n` plugins, in order.
pub open spec fn plugin_features(plugins: Seq<Plugin>, n: int) -> Seq<Seq<u8>>
    decreases n,
{
    if n <= 0 {
        Seq::empty()
    } else {
        plugin_features(plugins, n - 1).push(plugin_feature(plugins[n - 1]))
    }
}

/// The features that a new project is created with: those of its plugins,
/// then that of its database, then that of its framework.
pub open spec fn enabled_features(
    plugins: Seq<Plugin>,
    database: BackendDatabase,
    framework: BackendFramework,
) -> Seq<Seq<u8>> {
    plugin_features(plugins, plugins.len() as int).push(database_feature(database)).push(
        framework_feature(framework),
    )
}

/// What `configure` is asked to do by its flags alone; nothing where the
/// menu has to be shown.
pub open spec fn task_of_flags(query_sync: bool, new_service: bool) -> Option<ConfigureTask> {
    if query_sync {
        Some(ConfigureTask::QuerySync)
    } else if new_service {
        Some(ConfigureTask::NewService)
    } else {
        None
    }
}

/// The task at a position of the `configure` menu.
pub open spec fn task_at(selection: usize) -> Option<ConfigureTask> {
    if selection == 0 {
        Some(ConfigureTask::QuerySync)
    } else if selection == 1 {
        Some(ConfigureTask::NewService)
    } else if selection == 2 {
        Some(ConfigureTask::Cancel)
    } else {
        None
    }
}

/// Decides how a setting of a new project is come by.
pub fn decide<T>(given: Option<T>, interactive: bool) -> (r: Choice<T>)
    ensures
        r == choice_of(given, interactive),
{
    match given {
        Some(value) => Choice::Given(value),
        None => if interactive {
            Choice::Ask
        } else {
            Choice::Missing
        },
    }
}

/// Whether the client can be generated for the framework that was selected
/// in the framework menu.
pub fn query_sync_support(selection: Option<usize>) -> (r: Support)
    ensures
        r == support_at(selection),
{
    match select_framework(selection) {
        Some(BackendFramework::ActixWeb) => Support::Supported(BackendFramework::ActixWeb),
        Some(BackendFramework::Poem) => Support::NotImplemented,
        None => Support::Unknown,
    }
}

/// The paths that the client is generated from: those given, or the
/// directory of the services.
pub fn input_paths(given: Option<Vec<Vec<u8>>>) -> (r: Vec<Vec<u8>>)
    ensures
        match given {
            Some(paths) => r == paths,
            None => crate::model::views(r@) == seq![text("backend/services")],
        },
{
    match given {
        Some(paths) => paths,
        None => {
            let mut out: Vec<Vec<u8>> = Vec::new();
            out.push(crate::bytes::word("backend/services"));
            assert(crate::model::views(out@) =~= seq![text("backend/services")]);
            out
        },
    }
}

/// The path that the client is written to: the one given, or the generated
/// file of the frontend.
pub fn output_path(given: Option<Vec<u8>>) -> (r: Vec<u8>)
    ensures
        match given {
            Some(path) => r == path,
            None => r@ == text("frontend/src/api.generated.ts"),
        },
{
    match given {
        Some(path) => path,
        None => crate::bytes::word("frontend/src/api.generated.ts"),
    }
}

/// The database that was selected in the database menu.
pub fn select_database(selection: Option<usize>) -> (r: Option<BackendDatabase>)
    ensures
        r == database_at(selection),
{
    match selection {
        Some(0) => Some(BackendDatabase::Postgres),
        Some(1) => Some(BackendDatabase::Sqlite),
        _ => None,
    }
}

/// The framework that was selected in the framework menu.
pub fn select_framework(selection: Option<usize>) -> (r: Option<BackendFramework>)
    ensures
        r == framework_at(selection),
{
    match selection {
        Some(0) => Some(BackendFramework::ActixWeb),
        Some(1) => Some(BackendFramework::Poem),
        _ => None,
    }
}

/// The plugin that a name on the command line stands for.
pub fn plugin_for(name: &[u8]) -> (r: Option<Plugin>)
    ensures
        r == plugin_named(name@),
{
    if is_word(name, "auth") {
        Some(Plugin::Auth)
    } else if is_word(name, "container") {
        Some(Plugin::Container)
    } else if is_word(name, "dev") {
        Some(Plugin::Dev)
    } else if is_word(name, "storage") {
        Some(Plugin::Storage)
    } else if is_word(name, "graphql") {
        Some(Plugin::GraphQl)
    } else {
        None
    }
}

/// The name of the feature that a plugin is enabled by.
pub fn feature_of_plugin(p: Plugin) -> (r: &'static str)
    ensures
        text(r) == plugin_feature(p),
{
    match p {
        Plugin::Auth => "plugin_auth",
        Plugin::Container => "plugin_container",
        Plugin::Dev => "plugin_dev",
        Plugin::Storage => "plugin_storage",
        Plugin::GraphQl => "plugin_graphql",
        Plugin::Utoipa => "plugin_utoipa",
    }
}

/// The name of the feature that a database is enabled by.
pub fn feature_of_database(d: BackendDatabase) -> (r: &'static str)
    ensures
        text(r) == database_feature(d),
{
    match d {
        BackendDatabase::Postgres => "database_postgres",
        BackendDatabase::Sqlite => "database_sqlite",
    }
}

/// The name of the feature that a framework is enabled by.
pub fn feature_of_framework(f: BackendFramework) -> (r: &'static str)
    ensures
        text(r) == framework_feature(f),
{
    match f {
        BackendFramework::ActixWeb => "backend_actix-web",
        BackendFramework::Poem => "backend_poem",
    }
}

fn holds_index(chosen: &Vec<usize>, index: usize) -> (r: bool)
    ensures
        r == chosen@.contains(index),
{
    let mut i: usize = 0;
    while i < chosen.len()
        invariant
            i <= chosen.len(),
            forall|k: int| 0 <= k < i ==> chosen@[k] != index,
        decreases chosen.len() - i,
    {
        if chosen[i] == index {
            return true;
        }
        i += 1;
    }
    false
}

fn plugin_at(index: usize) -> (r: Plugin)
    requires
        index < 6,
    ensures
        r == all_plugins()[index as int],
{
    match index {
        0 => Plugin::Auth,
        1 => Plugin::Container,
        2 => Plugin::Dev,
        3 => Plugin::Storage,
        4 => Plugin::GraphQl,
        _ => Plugin::Utoipa,
    }
}

/// The plugins whose positions in the menu were chosen, in the order of the
/// menu.
pub fn select_plugins(chosen: &Vec<usize>) -> (r: Vec<Plugin>)
    ensures
        r@ == chosen_plugins(chosen@, 6),
{
    let mut out: Vec<Plugin> = Vec::new();
    let mut i: usize = 0;
    while i < 6
        invariant
            i <= 6,
            out@ == chosen_plugins(chosen@, i as int),
        decreases 6 - i,
    {
        if holds_index(chosen, i) {
            out.push(plugin_at(i));
        }
        i += 1;
    }
    out
}

/// The plugins that the names on the command line stand for; nothing where
/// one of them is no plugin's name.
pub fn plugins_for(names: &Vec<Vec<u8>>) -> (r: Option<Vec<Plugin>>)
    ensures
        match r {
            Some(plugins) => named_plugins(crate::model::views(names@), names.len() as int)
                == Some(plugins@),
            None => named_plugins(crate::model::views(names@), names.len() as int) is None,
        },
{
    let ghost nv = crate::model::views(names@);
    let mut out: Vec<Plugin> = Vec::new();
    let mut i: usize = 0;
    while i < names.len()
        invariant
            i <= names.len(),
            nv == crate::model::views(names@),
            named_plugins(nv, i as int) == Some(out@),
        decreases names.len() - i,
    {
        match plugin_for(names[i].as_slice()) {
            Some(p) => out.push(p),
            None => {
                proof {
                    lemma_named_plugins_fails(nv, i + 1, nv.len() as int);
                }
                return None;
            },
        }
        i += 1;
    }
    Some(out)
}

/// A name that is no plugin's fails every later bound.
pub proof fn lemma_named_plugins_fails(names: Seq<Seq<u8>>, n: int, m: int)
    requires
        n <= m,
        named_plugins(names, n) is None,
    ensures
        named_plugins(names, m) is None,
    decreases m - n,
{
    if n < m {
        lemma_named_plugins_fails(names, n, m - 1);
    }
}

/// The names of the features that a new project is created with.
pub fn features_for(plugins: &Vec<Plugin>, database: BackendDatabase, framework: BackendFramework) -> (r:
    Vec<Vec<u8>>)
    ensures
        crate::model::views(r@) == enabled_features(plugins@, database, framework),
{
    let mut out: Vec<Vec<u8>> = Vec::new();
    let mut i: usize = 0;
    assert(crate::model::views(out@) =~= plugin_features(plugins@, 0));
    while i < plugins.len()
        invariant
            i <= plugins.len(),
            crate::model::views(out@) == plugin_features(plugins@, i as int),
        decreases plugins.len() - i,
    {
        let ghost before = crate::model::views(out@);
        let name = crate::bytes::word(feature_of_plugin(plugins[i]));
        out.push(name);
        assert(crate::model::views(out@) =~= before.push(plugin_feature(plugins@[i as int])));
        i += 1;
    }
    let ghost listed = crate::model::views(out@);
    out.push(crate::bytes::word(feature_of_database(database)));
    out.push(crate::bytes::word(feature_of_framework(framework)));
    assert(crate::model::views(out@) =~= listed.push(database_feature(database)).push(
        framework_feature(framework),
    ));
    out
}

/// Whether a plugin is among those of a project.
pub fn has_plugin(plugins: &Vec<Plugin>, p: Plugin) -> (r: bool)
    ensures
        r == plugins@.contains(p),
{
    let mut i: usize = 0;
    while i < plugins.len()
        invariant
            i <= plugins.len(),
            forall|k: int| 0 <= k < i ==> plugins@[k] != p,
        decreases plugins.len() - i,
    {
        if plugins[i] == p {
            return true;
        }
        i += 1;
    }
    false
}

/// Those of the plugins of a project that are installed, each once, in the
/// order of the menu.
pub fn install_order(plugins: &Vec<Plugin>) -> (r: Vec<Plugin>)
    ensures
        r@ == installed(plugins@, 6),
{
    let mut out: Vec<Plugin> = Vec::new();
    let mut i: usize = 0;
    while i < 6
        invariant
            i <= 6,
            out@ == installed(plugins@, i as int),
        decreases 6 - i,
    {
        if has_plugin(plugins, plugin_at(i)) {
            out.push(plugin_at(i));
        }
        i += 1;
    }
    out
}

/// Those of the first `n` plugins of the menu that are among `plugins`.
pub open spec fn installed(plugins: Seq<Plugin>, n: int) -> Seq<Plugin>
    decreases n,
{
    if n <= 0 {
        Seq::empty()
    } else if plugins.contains(all_plugins()[n - 1]) {
        installed(plugins, n - 1).push(all_plugins()[n - 1])
    } else {
        installed(plugins, n - 1)
    }
}

/// What `configure` is asked to do by its flags alone. The two flags
/// exclude each other.
pub fn task_from_flags(query_sync: bool, new_service: bool) -> (r: Option<ConfigureTask>)
    requires
        !(query_sync && new_service),
    ensures
        r == task_of_flags(query_sync, new_service),
{
    if query_sync {
        Some(ConfigureTask::QuerySync)
    } else if new_service {
        Some(ConfigureTask::NewService)
    } else {
        None
    }
}

/// The task that was selected in the `configure` menu.
pub fn task_from_menu(selection: usize) -> (r: Option<ConfigureTask>)
    ensures
        r == task_at(selection),
{
    match selection {
        0 => Some(ConfigureTask::QuerySync),
        1 => Some(ConfigureTask::NewService),
        2 => Some(ConfigureTask::Cancel),
        _ => None,
    }
}

} // verus!
