//! What holds of every run, stated over the specifications that the
//! functions of the other modules are proved against.

use vstd::prelude::*;
use crate::emitter::{
    emission, lemma_type_blocks, render_decl, render_type, EmissionPlanView,
};
use crate::model::{
    views, RouteDeclView, SourceUnitView, SyncErrorView, TypeDecl, TypeDeclView, TypeRefView,
};
use crate::order::{lemma_sorted, lemma_sorted_pairwise, sorted};
use crate::parser::ParsedView;
use crate::pipeline::{collected, compiled, delivered, processed, DeliveryView};
use crate::reach::{reachable, reaches, refers};
use crate::resolver::{
    distinct_names, known_decls, known_type, lemma_closed_mentions, lemma_resolved_table, mentions,
    names_of, primitive_of, resolved, resolved_table,
};
use crate::routes::routes_resolved;
use crate::scanner::{first_absent, gathered, ScanEntry, ScanEntryView};

verus! {

/// A run is a function of what the input holds: two inputs that hold the
/// same paths and the same texts give the same text, byte for byte, or the
/// same error.
pub proof fn law_same_input_same_output(a: Seq<ScanEntry>, b: Seq<ScanEntry>)
    requires
        views(a) == views(b),
    ensures
        processed(views(a)) == processed(views(b)),
{
}

/// Where the declarations of the source units hold one name twice, the run
/// fails with `DuplicateType` for a name that is declared, and gives no
/// text.
pub proof fn law_duplicate_type(units: Seq<SourceUnitView>, all: ParsedView, i: int, j: int)
    requires
        units.len() > 0,
        collected(units, units.len() as int) == Ok::<ParsedView, SyncErrorView>(all),
        0 <= i < j < all.types.len(),
        all.types[i].name == all.types[j].name,
    ensures
        compiled(units) matches Err(SyncErrorView::DuplicateType { name, .. }) && names_of(
            all.types,
        ).contains(name),
{
    lemma_resolved_table(all.types);
    assert(names_of(all.types)[i] == names_of(all.types)[j]);
}

/// The name stands in one of the types of the route.
pub open spec fn route_mentions(r: RouteDeclView, name: Seq<u8>) -> bool {
    ||| exists|k: int| 0 <= k < r.path_params.len() && mentions(#[trigger] r.path_params[k].ty, name)
    ||| exists|k: int|
        0 <= k < r.query_params.len() && mentions(#[trigger] r.query_params[k].ty, name)
    ||| r.body matches Some(t) && mentions(t, name)
    ||| mentions(r.response, name)
}

/// The route leads to the type called `name`: the name stands in one of
/// the route's types, or a chain of references leads to it from a name that
/// does.
pub open spec fn route_leads_to(table: Seq<TypeDeclView>, r: RouteDeclView, name: Seq<u8>) -> bool {
    route_mentions(r, name) || exists|mid: Seq<u8>|
        route_mentions(r, mid) && #[trigger] reachable(table, mid, name)
}

/// The block at `b` of the plan is the rendering of the declaration called
/// `name`.
pub open spec fn block_of(
    table: Seq<TypeDeclView>,
    plan: EmissionPlanView,
    b: int,
    name: Seq<u8>,
) -> bool {
    0 <= b < plan.types.len() && b < table.len() && sorted::<TypeDecl>(table)[b].name == name
        && plan.types[b] == render_decl(sorted::<TypeDecl>(table)[b])
}

/// What a chain of references in a resolved table leads to is declared.
pub proof fn lemma_reaches_declared(
    table: Seq<TypeDeclView>,
    from: Seq<u8>,
    to: Seq<u8>,
    steps: nat,
)
    requires
        resolved(table),
        reaches(table, from, to, steps),
    ensures
        names_of(table).contains(to),
    decreases steps,
{
    if refers(table, from, to) {
        let (i, k) = choose|i: int, k: int|
            0 <= i < table.len() && 0 <= k < table[i].fields.len() && table[i].name == from
                && mentions(#[trigger] table[i].fields[k].ty, to);
        lemma_closed_mentions(names_of(table), table[i].fields[k].ty, to);
    } else {
        let mid = choose|mid: Seq<u8>| #[trigger]
            refers(table, from, mid) && reaches(table, mid, to, (steps - 1) as nat);
        lemma_reaches_declared(table, mid, to, (steps - 1) as nat);
    }
}

/// Every type that a route of the model leads to, directly or through other
/// types, has exactly one block in the emission plan, however many routes
/// and types refer to it.
pub proof fn law_reachable_types_emitted_once(
    table: Seq<TypeDeclView>,
    routes: Seq<RouteDeclView>,
    plan: EmissionPlanView,
    r: int,
    name: Seq<u8>,
)
    requires
        resolved(table),
        routes_resolved(names_of(table), routes),
        emission(table, routes) == Ok::<EmissionPlanView, SyncErrorView>(plan),
        0 <= r < routes.len(),
        route_leads_to(table, routes[r], name),
    ensures
        exists|b: int|
            #![trigger block_of(table, plan, b, name)]
            block_of(table, plan, b, name) && forall|c: int|
                block_of(table, plan, c, name) ==> c == b,
{
    broadcast use vstd::seq_lib::group_to_multiset_ensures;

    let names = names_of(table);
    let route = routes[r];
    assert(crate::routes::route_resolved(names, route));
    assert forall|n: Seq<u8>| route_mentions(route, n) implies names.contains(n) by {
        if exists|k: int|
            0 <= k < route.path_params.len() && mentions(#[trigger] route.path_params[k].ty, n) {
            let k = choose|k: int|
                0 <= k < route.path_params.len() && mentions(#[trigger] route.path_params[k].ty, n);
            lemma_closed_mentions(names, route.path_params[k].ty, n);
        } else if exists|k: int|
            0 <= k < route.query_params.len() && mentions(#[trigger] route.query_params[k].ty, n) {
            let k = choose|k: int|
                0 <= k < route.query_params.len() && mentions(
                    #[trigger] route.query_params[k].ty,
                    n,
                );
            lemma_closed_mentions(names, route.query_params[k].ty, n);
        } else if route.body matches Some(t) && mentions(t, n) {
            lemma_closed_mentions(names, route.body->0, n);
        } else {
            lemma_closed_mentions(names, route.response, n);
        }
    }
    if !route_mentions(route, name) {
        let mid = choose|mid: Seq<u8>|
            route_mentions(route, mid) && #[trigger] reachable(table, mid, name);
        let steps = choose|steps: nat| reaches(table, mid, name, steps);
        lemma_reaches_declared(table, mid, name, steps);
    }
    let i = choose|i: int| 0 <= i < names.len() && names[i] == name;
    let out = sorted::<TypeDecl>(table);
    lemma_sorted::<TypeDecl>(table);
    assert(out.to_multiset().count(table[i]) > 0);
    assert(out.contains(table[i]));
    let b = choose|b: int| 0 <= b < out.len() && out[b] == table[i];
    lemma_type_blocks(out, out.len() as int);
    let apart = |x: TypeDeclView, y: TypeDeclView| x.name != y.name;
    assert forall|x: int, y: int|
        0 <= x < table.len() && 0 <= y < table.len() && x != y implies apart(table[x], table[y]) by {
        if x < y {
            assert(names[x] != names[y]);
        } else {
            assert(names[y] != names[x]);
        }
    }
    lemma_sorted_pairwise::<TypeDecl>(table, apart);
    assert(block_of(table, plan, b, name));
    assert forall|c: int| block_of(table, plan, c, name) implies c == b by {
        if c != b {
            assert(apart(out[c], out[b]));
        }
    }
}

/// Whether the declarations refer to each other in a circle plays no part
/// in resolution: declarations with distinct names whose members name only
/// primitives and declared types resolve, to a table that is closed and
/// holds the same names. A reference to a declared type is rendered as the
/// name alone.
pub proof fn law_cycles_resolve(raw: Seq<TypeDeclView>)
    requires
        distinct_names(names_of(raw)),
        known_decls(raw),
    ensures
        resolved_table(raw) matches Ok(table) && resolved(table) && names_of(table) == names_of(
            raw,
        ),
        forall|name: Seq<u8>| render_type(TypeRefView::NamedType(name)) == name,
{
    lemma_resolved_table(raw);
}

/// Where no name is declared twice and a member's type holds a name that
/// is neither a primitive's nor declared in any source unit, the run fails
/// with `UnknownType`, for a name that is neither, in a member of a
/// declared type, and gives no text.
pub proof fn law_unknown_type(units: Seq<SourceUnitView>, all: ParsedView, i: int, k: int)
    requires
        units.len() > 0,
        collected(units, units.len() as int) == Ok::<ParsedView, SyncErrorView>(all),
        distinct_names(names_of(all.types)),
        0 <= i < all.types.len(),
        0 <= k < all.types[i].fields.len(),
        !known_type(names_of(all.types), all.types[i].fields[k].ty),
    ensures
        compiled(units) matches Err(SyncErrorView::UnknownType { name, owner, .. })
            && primitive_of(name) is None && !names_of(all.types).contains(name) && names_of(
            all.types,
        ).contains(owner),
{
    lemma_resolved_table(all.types);
}

/// Where every input path exists and no source file is found under any of
/// them, the run fails with `EmptyInput`, whatever the files hold.
pub proof fn law_empty_input(entries: Seq<ScanEntryView>)
    requires
        first_absent(entries, entries.len() as int) is None,
        gathered(entries, entries.len() as int).len() == 0,
    ensures
        processed(entries) == Err::<Seq<u8>, SyncErrorView>(SyncErrorView::EmptyInput),
{
}

/// In debug mode the text of a run is never for the output file.
pub proof fn law_debug_prints(text: Seq<u8>)
    ensures
        delivered(text, true) == DeliveryView::Print(text),
        delivered(text, false) == DeliveryView::Write(text),
{
}

} // verus!
