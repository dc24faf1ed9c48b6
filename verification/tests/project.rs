use create_rust_app::project::{
    decide, feature_of_database, feature_of_framework, feature_of_plugin, features_for, has_plugin,
    input_paths, install_order, output_path, plugin_for, plugins_for, query_sync_support, select_database,
    select_framework, select_plugins, task_from_flags, task_from_menu, BackendDatabase, BackendFramework,
    Choice, ConfigureTask, Plugin, Support,
};

fn strings(features: Vec<Vec<u8>>) -> Vec<String> {
    features.into_iter().map(|f| String::from_utf8(f).unwrap()).collect()
}

#[test]
fn the_database_menu() {
    assert_eq!(select_database(Some(0)), Some(BackendDatabase::Postgres));
    assert_eq!(select_database(Some(1)), Some(BackendDatabase::Sqlite));
    assert_eq!(select_database(Some(2)), None);
    assert_eq!(select_database(None), None);
}

#[test]
fn the_framework_menu() {
    assert_eq!(select_framework(Some(0)), Some(BackendFramework::ActixWeb));
    assert_eq!(select_framework(Some(1)), Some(BackendFramework::Poem));
    assert_eq!(select_framework(Some(7)), None);
    assert_eq!(select_framework(None), None);
}

#[test]
fn plugin_names_of_the_command_line() {
    assert_eq!(plugin_for(b"auth"), Some(Plugin::Auth));
    assert_eq!(plugin_for(b"container"), Some(Plugin::Container));
    assert_eq!(plugin_for(b"dev"), Some(Plugin::Dev));
    assert_eq!(plugin_for(b"storage"), Some(Plugin::Storage));
    assert_eq!(plugin_for(b"graphql"), Some(Plugin::GraphQl));
    assert_eq!(plugin_for(b"utoipa"), None);
    assert_eq!(plugin_for(b"Auth"), None);
    assert_eq!(plugin_for(b""), None);
}

#[test]
fn plugins_for_names_keep_their_order() {
    let names = vec![b"dev".to_vec(), b"auth".to_vec(), b"dev".to_vec()];
    assert_eq!(plugins_for(&names), Some(vec![Plugin::Dev, Plugin::Auth, Plugin::Dev]));
    assert_eq!(plugins_for(&vec![]), Some(vec![]));
    assert_eq!(plugins_for(&vec![b"auth".to_vec(), b"nope".to_vec(), b"dev".to_vec()]), None);
}

#[test]
fn feature_names() {
    assert_eq!(feature_of_plugin(Plugin::Auth), "plugin_auth");
    assert_eq!(feature_of_plugin(Plugin::Container), "plugin_container");
    assert_eq!(feature_of_plugin(Plugin::Dev), "plugin_dev");
    assert_eq!(feature_of_plugin(Plugin::Storage), "plugin_storage");
    assert_eq!(feature_of_plugin(Plugin::GraphQl), "plugin_graphql");
    assert_eq!(feature_of_plugin(Plugin::Utoipa), "plugin_utoipa");
    assert_eq!(feature_of_database(BackendDatabase::Postgres), "database_postgres");
    assert_eq!(feature_of_database(BackendDatabase::Sqlite), "database_sqlite");
    assert_eq!(feature_of_framework(BackendFramework::ActixWeb), "backend_actix-web");
    assert_eq!(feature_of_framework(BackendFramework::Poem), "backend_poem");
}

#[test]
fn chosen_positions_give_plugins_in_menu_order() {
    assert_eq!(select_plugins(&vec![4, 0, 2]), vec![Plugin::Auth, Plugin::Dev, Plugin::GraphQl]);
    assert_eq!(select_plugins(&vec![5, 5, 9]), vec![Plugin::Utoipa]);
    assert_eq!(select_plugins(&vec![]), vec![]);
    assert_eq!(
        select_plugins(&vec![0, 1, 2, 3, 4, 5]),
        vec![Plugin::Auth, Plugin::Container, Plugin::Dev, Plugin::Storage, Plugin::GraphQl, Plugin::Utoipa]
    );
}

#[test]
fn features_are_plugins_then_database_then_framework() {
    let features = features_for(&vec![Plugin::Storage, Plugin::Auth], BackendDatabase::Sqlite, BackendFramework::Poem);
    assert_eq!(strings(features), vec!["plugin_storage", "plugin_auth", "database_sqlite", "backend_poem"]);
    let bare = features_for(&vec![], BackendDatabase::Postgres, BackendFramework::ActixWeb);
    assert_eq!(strings(bare), vec!["database_postgres", "backend_actix-web"]);
}

#[test]
fn plugins_are_installed_once_in_menu_order() {
    let plugins = vec![Plugin::Utoipa, Plugin::Dev, Plugin::Auth, Plugin::Dev];
    assert_eq!(install_order(&plugins), vec![Plugin::Auth, Plugin::Dev, Plugin::Utoipa]);
    assert_eq!(install_order(&vec![]), vec![]);
    assert!(has_plugin(&plugins, Plugin::Dev));
    assert!(!has_plugin(&plugins, Plugin::Storage));
}

#[test]
fn flags_decide_before_the_menu() {
    assert_eq!(task_from_flags(true, false), Some(ConfigureTask::QuerySync));
    assert_eq!(task_from_flags(false, true), Some(ConfigureTask::NewService));
    assert_eq!(task_from_flags(false, false), None);
}

#[test]
fn the_configure_menu() {
    assert_eq!(task_from_menu(0), Some(ConfigureTask::QuerySync));
    assert_eq!(task_from_menu(1), Some(ConfigureTask::NewService));
    assert_eq!(task_from_menu(2), Some(ConfigureTask::Cancel));
    assert_eq!(task_from_menu(3), None);
}

#[test]
fn a_setting_is_given_or_asked_for_or_missing() {
    assert_eq!(decide(Some(BackendDatabase::Sqlite), false), Choice::Given(BackendDatabase::Sqlite));
    assert_eq!(decide(Some(BackendDatabase::Sqlite), true), Choice::Given(BackendDatabase::Sqlite));
    assert_eq!(decide::<BackendDatabase>(None, true), Choice::Ask);
    assert_eq!(decide::<BackendDatabase>(None, false), Choice::Missing);
}

#[test]
fn the_client_is_generated_for_actix_only() {
    assert_eq!(query_sync_support(Some(0)), Support::Supported(BackendFramework::ActixWeb));
    assert_eq!(query_sync_support(Some(1)), Support::NotImplemented);
    assert_eq!(query_sync_support(Some(2)), Support::Unknown);
    assert_eq!(query_sync_support(None), Support::Unknown);
}

#[test]
fn paths_that_are_not_given_have_defaults() {
    assert_eq!(input_paths(None), vec![b"backend/services".to_vec()]);
    assert_eq!(input_paths(Some(vec![])), Vec::<Vec<u8>>::new());
    assert_eq!(input_paths(Some(vec![b"a".to_vec(), b"b".to_vec()])), vec![b"a".to_vec(), b"b".to_vec()]);
    assert_eq!(output_path(None), b"frontend/src/api.generated.ts".to_vec());
    assert_eq!(output_path(Some(b"out.ts".to_vec())), b"out.ts".to_vec());
}
