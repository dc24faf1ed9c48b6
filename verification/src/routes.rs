//! The route model builder: resolves the types of every handler against the
//! symbol table, holds the path template against the path parameters,
//! refuses a second handler for one method and path, and orders the routes
//! by path, then method.

use vstd::prelude::*;
use crate::bytes::{comes_before, same_bytes, slice_of, text, word};
use crate::lexer::{LBRACE, RBRACE};
use crate::model::{
    views, Field, FieldView, Method, RouteDecl, RouteDeclView, SyncError, SyncErrorView, TypeRefView,
};
use crate::order::{ascending, lemma_sorted, sort, sorted, Ranked, SortKey};
use crate::resolver::{
    closed_type, known_type, lemma_resolve_members, lemma_resolve_type, names_of, resolve_members,
    resolve_type, SymbolTable,
};

verus! {

/// The first index at or after `i` that holds a closing brace, or the
/// length of `s`.
pub open spec fn brace_end(s: Seq<u8>, i: int) -> int
    decreases s.len() - i,
{
    if i >= s.len() {
        s.len() as int
    } else if s[i] == RBRACE {
        i
    } else {
        brace_end(s, i + 1)
    }
}

/// The closing brace is looked for from the start on, inside the template.
pub proof fn lemma_brace_end(s: Seq<u8>, i: int)
    requires
        0 <= i <= s.len(),
    ensures
        i <= brace_end(s, i) <= s.len(),
    decreases s.len() - i,
{
    if i < s.len() && s[i] != RBRACE {
        lemma_brace_end(s, i + 1);
    }
}

/// The placeholders of a path template from index `i` on: what stands
/// between each opening brace and the next closing one.
pub open spec fn placeholders_from(s: Seq<u8>, i: int) -> Seq<Seq<u8>>
    decreases s.len() - i,
{
    if i < 0 || i >= s.len() {
        Seq::empty()
    } else if s[i] == LBRACE {
        proof {
            lemma_brace_end(s, i + 1);
        }
        let e = brace_end(s, i + 1);
        seq![s.subrange(i + 1, e)] + placeholders_from(s, if e < s.len() { e + 1 } else { e })
    } else {
        placeholders_from(s, i + 1)
    }
}

/// The placeholders of a path template, in order: `/a/{x}/b/{y}` has `x`
/// and `y`.
pub open spec fn placeholders(path: Seq<u8>) -> Seq<Seq<u8>> {
    placeholders_from(path, 0)
}

/// The names of the members, in order.
pub open spec fn names_in(fields: Seq<FieldView>) -> Seq<Seq<u8>> {
    Seq::new(fields.len(), |i: int| fields[i].name)
}

/// The first of `wanted`, from index `from` on, that is not among `have`.
pub open spec fn first_missing(wanted: Seq<Seq<u8>>, have: Seq<Seq<u8>>, from: int) -> Option<
    Seq<u8>,
>
    decreases wanted.len() - from,
{
    if from >= wanted.len() {
        None
    } else if !have.contains(wanted[from]) {
        Some(wanted[from])
    } else {
        first_missing(wanted, have, from + 1)
    }
}

/// What is reported as missing is wanted and not had; nothing is reported
/// exactly where all that is wanted is had.
pub proof fn lemma_first_missing(wanted: Seq<Seq<u8>>, have: Seq<Seq<u8>>, from: int)
    requires
        0 <= from,
    ensures
        match first_missing(wanted, have, from) {
            Some(n) => wanted.contains(n) && !have.contains(n),
            None => forall|k: int| from <= k < wanted.len() ==> have.contains(#[trigger] wanted[k]),
        },
    decreases wanted.len() - from,
{
    if from < wanted.len() && have.contains(wanted[from]) {
        lemma_first_missing(wanted, have, from + 1);
    }
}

/// The name on which a path template and the path parameters disagree: the
/// first placeholder without a parameter, or else the first parameter
/// without a placeholder.
pub open spec fn path_mismatch(path: Seq<u8>, params: Seq<FieldView>) -> Option<Seq<u8>> {
    match first_missing(placeholders(path), names_in(params), 0) {
        Some(n) => Some(n),
        None => first_missing(names_in(params), placeholders(path), 0),
    }
}

/// Every placeholder of the template names a path parameter, and every
/// path parameter a placeholder.
pub open spec fn path_consistent(path: Seq<u8>, params: Seq<FieldView>) -> bool {
    &&& forall|k: int|
        0 <= k < placeholders(path).len() ==> names_in(params).contains(
            #[trigger] placeholders(path)[k],
        )
    &&& forall|k: int|
        0 <= k < params.len() ==> placeholders(path).contains(#[trigger] names_in(params)[k])
}

/// A mismatch is reported exactly where template and parameters are not
/// consistent, and the name reported stands on one side only.
pub proof fn lemma_path_mismatch(path: Seq<u8>, params: Seq<FieldView>)
    ensures
        path_mismatch(path, params) is None <==> path_consistent(path, params),
        path_mismatch(path, params) matches Some(n) ==> placeholders(path).contains(n)
            != names_in(params).contains(n),
{
    lemma_first_missing(placeholders(path), names_in(params), 0);
    lemma_first_missing(names_in(params), placeholders(path), 0);
    if let Some(n) = first_missing(placeholders(path), names_in(params), 0) {
        let k = choose|k: int| 0 <= k < placeholders(path).len() && placeholders(path)[k] == n;
        assert(!names_in(params).contains(placeholders(path)[k]));
    } else if let Some(n) = first_missing(names_in(params), placeholders(path), 0) {
        let k = choose|k: int| 0 <= k < names_in(params).len() && names_in(params)[k] == n;
        assert(!placeholders(path).contains(names_in(params)[k]));
    }
}

/// The error for the unknown name `name` in the part `field` of the route.
pub open spec fn unknown_in(r: RouteDeclView, field: Seq<u8>, name: Seq<u8>) -> SyncErrorView {
    SyncErrorView::UnknownType { name, file: r.file, owner: r.name, field }
}

/// The route `r` with its types resolved against `names`. The types are
/// resolved in the order path parameters, query parameters, body, response;
/// the first unknown name is reported with the parameter it stands in
/// (`body` and `response` for those two). A route whose types resolve is
/// then held against its path template.
pub open spec fn resolve_route(names: Seq<Seq<u8>>, r: RouteDeclView) -> Result<
    RouteDeclView,
    SyncErrorView,
> {
    match resolve_members(names, r.path_params, r.path_params.len() as int) {
        Err((field, name)) => Err(unknown_in(r, field, name)),
        Ok(path_params) => match resolve_members(
            names,
            r.query_params,
            r.query_params.len() as int,
        ) {
            Err((field, name)) => Err(unknown_in(r, field, name)),
            Ok(query_params) => match resolve_body(names, r.body) {
                Err(name) => Err(unknown_in(r, text("body"), name)),
                Ok(body) => match resolve_type(names, r.response) {
                    Err(name) => Err(unknown_in(r, text("response"), name)),
                    Ok(response) => match path_mismatch(r.path, r.path_params) {
                        Some(param) => Err(
                            SyncErrorView::PathParamMismatch { file: r.file, owner: r.name, param },
                        ),
                        None => Ok(
                            RouteDeclView { path_params, query_params, body, response, ..r },
                        ),
                    },
                },
            },
        },
    }
}

/// The body with its type resolved, where the route has one.
pub open spec fn resolve_body(names: Seq<Seq<u8>>, body: Option<TypeRefView>) -> Result<
    Option<TypeRefView>,
    Seq<u8>,
> {
    match body {
        None => Ok(None),
        Some(t) => match resolve_type(names, t) {
            Ok(r) => Ok(Some(r)),
            Err(n) => Err(n),
        },
    }
}

/// The first `n` routes resolved, or the error of the first below `n` that
/// does not resolve.
pub open spec fn resolve_routes(names: Seq<Seq<u8>>, raw: Seq<RouteDeclView>, n: int) -> Result<
    Seq<RouteDeclView>,
    SyncErrorView,
>
    decreases n,
{
    if n <= 0 {
        Ok(Seq::empty())
    } else {
        match resolve_routes(names, raw, n - 1) {
            Err(e) => Err(e),
            Ok(acc) => match resolve_route(names, raw[n - 1]) {
                Ok(r) => Ok(acc.push(r)),
                Err(e) => Err(e),
            },
        }
    }
}

/// A route that does not resolve fails every later bound.
pub proof fn lemma_resolve_routes_fails(
    names: Seq<Seq<u8>>,
    raw: Seq<RouteDeclView>,
    n: int,
    m: int,
)
    requires
        n <= m,
        resolve_routes(names, raw, n) is Err,
    ensures
        resolve_routes(names, raw, m) == resolve_routes(names, raw, n),
    decreases m - n,
{
    if n < m {
        lemma_resolve_routes_fails(names, raw, n, m - 1);
    }
}

/// Two routes answer the same method on the same path.
pub open spec fn same_route(a: RouteDeclView, b: RouteDeclView) -> bool {
    a.method == b.method && a.path == b.path
}

/// An earlier route answers the method and path of the route at `j`.
pub open spec fn repeats(rs: Seq<RouteDeclView>, j: int) -> bool {
    exists|i: int| 0 <= i < j && same_route(#[trigger] rs[i], rs[j])
}

/// The first route below `n` that repeats an earlier one.
pub open spec fn first_repeat(rs: Seq<RouteDeclView>, n: int) -> Option<int>
    decreases n,
{
    if n <= 0 {
        None
    } else {
        match first_repeat(rs, n - 1) {
            Some(j) => Some(j),
            None => if repeats(rs, n - 1) {
                Some(n - 1)
            } else {
                None
            },
        }
    }
}

/// No two routes answer the same method on the same path.
pub open spec fn distinct_routes(rs: Seq<RouteDeclView>) -> bool {
    forall|i: int, j: int| 0 <= i < j < rs.len() ==> !same_route(rs[i], rs[j])
}

/// A repeat is reported exactly where two of the first `n` routes answer
/// the same method and path, and it is the first such route.
pub proof fn lemma_first_repeat(rs: Seq<RouteDeclView>, n: int)
    requires
        0 <= n <= rs.len(),
    ensures
        match first_repeat(rs, n) {
            Some(j) => 0 <= j < n && repeats(rs, j) && distinct_routes(rs.take(j)),
            None => distinct_routes(rs.take(n)),
        },
    decreases n,
{
    if n > 0 {
        lemma_first_repeat(rs, n - 1);
        if first_repeat(rs, n - 1) is None && !repeats(rs, n - 1) {
            assert forall|i: int, j: int| 0 <= i < j < n implies !same_route(
                rs.take(n)[i],
                rs.take(n)[j],
            ) by {
                if j < n - 1 {
                    assert(!same_route(rs.take(n - 1)[i], rs.take(n - 1)[j]));
                }
            }
        }
    }
}

/// A repeat below `n` is the repeat below every later bound.
pub proof fn lemma_first_repeat_found(rs: Seq<RouteDeclView>, n: int, m: int)
    requires
        n <= m,
        first_repeat(rs, n) is Some,
    ensures
        first_repeat(rs, m) == first_repeat(rs, n),
    decreases m - n,
{
    if n < m {
        lemma_first_repeat_found(rs, n, m - 1);
    }
}

/// The place of a method in the alphabetical order of the upper-case
/// method names.
pub open spec fn method_rank(m: Method) -> int {
    match m {
        Method::Delete => 0,
        Method::Get => 1,
        Method::Patch => 2,
        Method::Post => 3,
        Method::Put => 4,
    }
}

fn rank_of(m: Method) -> (r: u8)
    ensures
        r == method_rank(m),
{
    match m {
        Method::Delete => 0,
        Method::Get => 1,
        Method::Patch => 2,
        Method::Post => 3,
        Method::Put => 4,
    }
}

impl Ranked for RouteDecl {
    /// Routes are ordered by path template, then by method.
    open spec fn key(v: RouteDeclView) -> SortKey {
        SortKey { major: 0, text: v.path, minor: method_rank(v.method) }
    }

    fn ranks_before(&self, other: &Self) -> (r: bool) {
        comes_before(self.path.as_slice(), other.path.as_slice()) || (same_bytes(
            self.path.as_slice(),
            other.path.as_slice(),
        ) && rank_of(self.method) < rank_of(other.method))
    }
}

/// The route model of the handlers `raw` over the declared names `names`:
/// the resolved routes ordered by path, then method; or the error of the
/// first handler that does not resolve; or, where all resolve, the first
/// handler that repeats the method and path of an earlier one.
pub open spec fn built_routes(names: Seq<Seq<u8>>, raw: Seq<RouteDeclView>) -> Result<
    Seq<RouteDeclView>,
    SyncErrorView,
> {
    match resolve_routes(names, raw, raw.len() as int) {
        Err(e) => Err(e),
        Ok(rs) => match first_repeat(rs, rs.len() as int) {
            Some(j) => Err(
                SyncErrorView::DuplicateRoute {
                    method: rs[j].method,
                    path: rs[j].path,
                    file: rs[j].file,
                    owner: rs[j].name,
                },
            ),
            None => Ok(sorted::<RouteDecl>(rs)),
        },
    }
}

/// The types of a route are closed over `names`, and its path template is
/// consistent with its path parameters.
pub open spec fn route_resolved(names: Seq<Seq<u8>>, r: RouteDeclView) -> bool {
    &&& forall|k: int|
        0 <= k < r.path_params.len() ==> closed_type(names, (#[trigger] r.path_params[k]).ty)
    &&& forall|k: int|
        0 <= k < r.query_params.len() ==> closed_type(names, (#[trigger] r.query_params[k]).ty)
    &&& r.body matches Some(t) ==> closed_type(names, t)
    &&& closed_type(names, r.response)
    &&& path_consistent(r.path, r.path_params)
}

/// What holds of a route model: every route is resolved, no two answer the
/// same method and path, and the routes stand in the order of their paths,
/// then methods.
pub open spec fn routes_resolved(names: Seq<Seq<u8>>, rs: Seq<RouteDeclView>) -> bool {
    &&& forall|i: int| 0 <= i < rs.len() ==> route_resolved(names, #[trigger] rs[i])
    &&& distinct_routes(rs)
    &&& ascending::<RouteDecl>(rs)
}

/// Every name in the types of the route is that of a primitive or one of
/// `names`.
pub open spec fn route_known(names: Seq<Seq<u8>>, r: RouteDeclView) -> bool {
    &&& forall|k: int|
        0 <= k < r.path_params.len() ==> known_type(names, (#[trigger] r.path_params[k]).ty)
    &&& forall|k: int|
        0 <= k < r.query_params.len() ==> known_type(names, (#[trigger] r.query_params[k]).ty)
    &&& r.body matches Some(t) ==> known_type(names, t)
    &&& known_type(names, r.response)
}

/// A route resolves exactly where every name in its types is known and its
/// path template is consistent with its path parameters; an unknown name
/// is reported before a mismatch. The resolved route answers the same
/// method and path under the same name, and its types are closed.
pub proof fn lemma_resolve_route(names: Seq<Seq<u8>>, r: RouteDeclView)
    ensures
        resolve_route(names, r) is Ok <==> route_known(names, r) && path_consistent(
            r.path,
            r.path_params,
        ),
        resolve_route(names, r) matches Err(SyncErrorView::UnknownType { .. }) <==> !route_known(
            names,
            r,
        ),
        match resolve_route(names, r) {
            Ok(out) => route_resolved(names, out) && same_route(out, r) && out.name == r.name
                && out.file == r.file && names_in(out.path_params) == names_in(r.path_params)
                && path_consistent(r.path, r.path_params),
            Err(SyncErrorView::UnknownType { name, owner, .. }) => owner == r.name
                && crate::resolver::primitive_of(name) is None && !names.contains(name),
            Err(SyncErrorView::PathParamMismatch { owner, param, .. }) => owner == r.name
                && !path_consistent(r.path, r.path_params) && placeholders(r.path).contains(param)
                != names_in(r.path_params).contains(param),
            Err(_) => false,
        },
{
    lemma_resolve_members(names, r.path_params, r.path_params.len() as int);
    lemma_resolve_members(names, r.query_params, r.query_params.len() as int);
    lemma_resolve_type(names, r.response);
    lemma_path_mismatch(r.path, r.path_params);
    if let Some(t) = r.body {
        lemma_resolve_type(names, t);
    }
    match resolve_members(names, r.path_params, r.path_params.len() as int) {
        Err((field, name)) => {
            let k = choose|k: int|
                0 <= k < r.path_params.len() && resolve_type(names, r.path_params[k].ty) == Err::<
                    TypeRefView,
                    Seq<u8>,
                >(name);
            lemma_resolve_type(names, r.path_params[k].ty);
        },
        Ok(path_params) => {
            assert(names_in(path_params) =~= names_in(r.path_params));
            assert forall|k: int| 0 <= k < r.path_params.len() implies known_type(
                names,
                (#[trigger] r.path_params[k]).ty,
            ) by {
                assert(path_params[k].name == r.path_params[k].name);
                lemma_resolve_type(names, r.path_params[k].ty);
            }
            match resolve_members(names, r.query_params, r.query_params.len() as int) {
                Err((field, name)) => {
                    let k = choose|k: int|
                        0 <= k < r.query_params.len() && resolve_type(names, r.query_params[k].ty)
                            == Err::<TypeRefView, Seq<u8>>(name);
                    lemma_resolve_type(names, r.query_params[k].ty);
                },
                Ok(query_params) => {
                    assert forall|k: int| 0 <= k < r.query_params.len() implies known_type(
                        names,
                        (#[trigger] r.query_params[k]).ty,
                    ) by {
                        assert(query_params[k].name == r.query_params[k].name);
                        lemma_resolve_type(names, r.query_params[k].ty);
                    }
                },
            }
        },
    }
}

/// The routes resolve exactly where each of them does, one for one.
pub proof fn lemma_resolve_routes(names: Seq<Seq<u8>>, raw: Seq<RouteDeclView>, n: int)
    requires
        0 <= n <= raw.len(),
    ensures
        match resolve_routes(names, raw, n) {
            Ok(rs) => rs.len() == n && forall|i: int|
                0 <= i < n ==> resolve_route(names, raw[i]) == Ok::<RouteDeclView, SyncErrorView>(
                    #[trigger] rs[i],
                ),
            Err(e) => exists|i: int|
                0 <= i < n && resolve_route(names, raw[i]) == Err::<RouteDeclView, SyncErrorView>(
                    e,
                ),
        },
    decreases n,
{
    if n > 0 {
        lemma_resolve_routes(names, raw, n - 1);
    }
}

/// What a route model asks of the handlers: every name in their types is
/// known, each path template is consistent with the path parameters, and no
/// two handlers answer the same method and path.
pub open spec fn routes_sound(names: Seq<Seq<u8>>, raw: Seq<RouteDeclView>) -> bool {
    &&& forall|i: int|
        0 <= i < raw.len() ==> route_known(names, #[trigger] raw[i]) && path_consistent(
            raw[i].path,
            raw[i].path_params,
        )
    &&& distinct_routes(raw)
}

/// There is a route model exactly for sound handlers. It
/// is resolved, without repeats and in
/// order, and holds as many routes as there are handlers. `DuplicateRoute` is reported only
/// where two handlers answer one method and path, `PathParamMismatch` only
/// for a handler whose template and parameters disagree.
pub proof fn lemma_built_routes(names: Seq<Seq<u8>>, raw: Seq<RouteDeclView>)
    ensures
        built_routes(names, raw) is Ok <==> routes_sound(names, raw),
        match built_routes(names, raw) {
            Ok(rs) => routes_resolved(names, rs) && rs.len() == raw.len() && distinct_routes(raw)
                && forall|i: int|
                0 <= i < raw.len() ==> path_consistent(
                    (#[trigger] raw[i]).path,
                    raw[i].path_params,
                ),
            Err(SyncErrorView::DuplicateRoute { method, path, .. }) => !distinct_routes(raw),
            Err(SyncErrorView::PathParamMismatch { owner, param, .. }) => exists|i: int|
                0 <= i < raw.len() && (#[trigger] raw[i]).name == owner && !path_consistent(
                    raw[i].path,
                    raw[i].path_params,
                ),
            Err(SyncErrorView::UnknownType { name, .. }) => crate::resolver::primitive_of(name)
                is None && !names.contains(name),
            Err(_) => false,
        },
{
    broadcast use vstd::seq_lib::group_to_multiset_ensures;

    lemma_resolve_routes(names, raw, raw.len() as int);
    match resolve_routes(names, raw, raw.len() as int) {
        Err(e) => {
            let i = choose|i: int|
                0 <= i < raw.len() && resolve_route(names, raw[i]) == Err::<
                    RouteDeclView,
                    SyncErrorView,
                >(e);
            lemma_resolve_route(names, raw[i]);
        },
        Ok(rs) => {
            assert forall|i: int| 0 <= i < rs.len() implies route_resolved(names, #[trigger] rs[i])
                && same_route(rs[i], raw[i]) && path_consistent(raw[i].path, raw[i].path_params)
                && route_known(names, raw[i]) by {
                assert(resolve_route(names, raw[i]) == Ok::<RouteDeclView, SyncErrorView>(rs[i]));
                lemma_resolve_route(names, raw[i]);
            }
            assert forall|i: int| 0 <= i < raw.len() implies route_known(names, #[trigger] raw[i])
                && path_consistent(raw[i].path, raw[i].path_params) by {
                assert(route_resolved(names, rs[i]));
            }
            lemma_first_repeat(rs, rs.len() as int);
            assert(rs.take(rs.len() as int) =~= rs);
            match first_repeat(rs, rs.len() as int) {
                Some(j) => {
                    let i = choose|i: int| 0 <= i < j && same_route(#[trigger] rs[i], rs[j]);
                    assert(same_route(raw[i], raw[j]));
                },
                None => {
                    let out = sorted::<RouteDecl>(rs);
                    lemma_sorted::<RouteDecl>(rs);
                    assert forall|i: int, j: int| 0 <= i < j < raw.len() implies !same_route(
                        raw[i],
                        raw[j],
                    ) by {
                        assert(!same_route(rs[i], rs[j]));
                    }
                    assert forall|i: int| 0 <= i < out.len() implies route_resolved(
                        names,
                        #[trigger] out[i],
                    ) by {
                        assert(out.to_multiset().count(out[i]) > 0);
                        assert(rs.contains(out[i]));
                        let k = choose|k: int| 0 <= k < rs.len() && rs[k] == out[i];
                        assert(route_resolved(names, rs[k]));
                    }
                    assert forall|i: int| 0 <= i < raw.len() implies path_consistent(
                        (#[trigger] raw[i]).path,
                        raw[i].path_params,
                    ) by {
                        assert(route_resolved(names, rs[i]));
                    }
                    lemma_sorted_distinct(rs);
                },
            }
        },
    }
}

/// Sorting routes that do not repeat gives routes that do not repeat.
pub proof fn lemma_sorted_distinct(rs: Seq<RouteDeclView>)
    requires
        distinct_routes(rs),
    ensures
        distinct_routes(sorted::<RouteDecl>(rs)),
{
    let apart = |a: RouteDeclView, b: RouteDeclView| !same_route(a, b);
    assert forall|i: int, j: int| 0 <= i < rs.len() && 0 <= j < rs.len() && i != j implies apart(
        rs[i],
        rs[j],
    ) by {
        if i < j {
            assert(!same_route(rs[i], rs[j]));
        } else {
            assert(!same_route(rs[j], rs[i]));
        }
    }
    crate::order::lemma_sorted_pairwise::<RouteDecl>(rs, apart);
    let out = sorted::<RouteDecl>(rs);
    assert forall|i: int, j: int| 0 <= i < j < out.len() implies !same_route(out[i], out[j]) by {
        assert(apart(out[i], out[j]));
    }
}

fn scan_brace(path: &[u8], start: usize) -> (r: usize)
    requires
        start <= path@.len(),
    ensures
        r == brace_end(path@, start as int),
        start <= r <= path@.len(),
{
    let mut i: usize = start;
    while i < path.len() && path[i] != RBRACE
        invariant
            start <= i <= path@.len(),
            brace_end(path@, start as int) == brace_end(path@, i as int),
        decreases path@.len() - i,
    {
        i += 1;
    }
    i
}

/// The placeholders of a path template, in order.
pub fn placeholders_in(path: &[u8]) -> (r: Vec<Vec<u8>>)
    ensures
        views(r@) == placeholders(path@),
{
    let mut out: Vec<Vec<u8>> = Vec::new();
    let mut i: usize = 0;
    assert(views(out@) + placeholders_from(path@, 0) =~= placeholders(path@));
    while i < path.len()
        invariant
            i <= path@.len(),
            views(out@) + placeholders_from(path@, i as int) == placeholders(path@),
        decreases path@.len() - i,
    {
        if path[i] == LBRACE {
            let ghost before = views(out@);
            let ghost rest = placeholders_from(path@, i as int);
            let e = scan_brace(path, i + 1);
            out.push(slice_of(path, i + 1, e));
            proof {
                let name = path@.subrange(i + 1, e as int);
                assert(views(out@) =~= before.push(name));
                assert(before.push(name) + placeholders_from(
                    path@,
                    if e < path@.len() {
                        e + 1
                    } else {
                        e as int
                    },
                ) =~= before + rest);
            }
            i = if e < path.len() {
                e + 1
            } else {
                e
            };
        } else {
            i += 1;
        }
    }
    assert(views(out@) + placeholders_from(path@, i as int) =~= views(out@));
    out
}

fn holds_name(names: &Vec<Vec<u8>>, name: &[u8]) -> (r: bool)
    ensures
        r == views(names@).contains(name@),
{
    let mut i: usize = 0;
    while i < names.len()
        invariant
            i <= names.len(),
            forall|k: int| 0 <= k < i ==> views(names@)[k] != name@,
        decreases names.len() - i,
    {
        if same_bytes(names[i].as_slice(), name) {
            assert(views(names@)[i as int] == name@);
            return true;
        }
        i += 1;
    }
    false
}

fn holds_member(fields: &Vec<Field>, name: &[u8]) -> (r: bool)
    ensures
        r == names_in(views(fields@)).contains(name@),
{
    let mut i: usize = 0;
    while i < fields.len()
        invariant
            i <= fields.len(),
            forall|k: int| 0 <= k < i ==> names_in(views(fields@))[k] != name@,
        decreases fields.len() - i,
    {
        if same_bytes(fields[i].name.as_slice(), name) {
            assert(names_in(views(fields@))[i as int] == name@);
            return true;
        }
        i += 1;
    }
    false
}

/// The name on which a path template and the path parameters disagree.
pub fn check_path(path: &[u8], params: &Vec<Field>) -> (r: Option<Vec<u8>>)
    ensures
        match r {
            Some(n) => path_mismatch(path@, views(params@)) == Some(n@),
            None => path_mismatch(path@, views(params@)) is None,
        },
{
    let holes = placeholders_in(path);
    let ghost wanted = placeholders(path@);
    let ghost have = names_in(views(params@));
    let mut i: usize = 0;
    while i < holes.len()
        invariant
            i <= holes.len(),
            views(holes@) == wanted,
            wanted == placeholders(path@),
            have == names_in(views(params@)),
            first_missing(wanted, have, 0) == first_missing(wanted, have, i as int),
        decreases holes.len() - i,
    {
        assert(wanted[i as int] == holes@[i as int]@);
        if !holds_member(params, holes[i].as_slice()) {
            return Some(holes[i].clone());
        }
        i += 1;
    }
    let mut k: usize = 0;
    while k < params.len()
        invariant
            k <= params.len(),
            views(holes@) == wanted,
            wanted == placeholders(path@),
            have == names_in(views(params@)),
            first_missing(wanted, have, 0) is None,
            first_missing(have, wanted, 0) == first_missing(have, wanted, k as int),
        decreases params.len() - k,
    {
        assert(have[k as int] == params@[k as int].name@);
        if !holds_name(&holes, params[k].name.as_slice()) {
            return Some(params[k].name.clone());
        }
        k += 1;
    }
    None
}

fn unknown(r: &RouteDecl, field: Vec<u8>, name: Vec<u8>) -> (e: SyncError)
    ensures
        e@ == unknown_in(r@, field@, name@),
{
    SyncError::UnknownType { name, file: r.file.clone(), owner: r.name.clone(), field }
}

/// Resolves the types of one handler against the table and holds its path
/// template against its path parameters.
pub fn build_route(table: &SymbolTable, r: &RouteDecl) -> (out: Result<RouteDecl, SyncError>)
    ensures
        match out {
            Ok(d) => resolve_route(names_of(table@), r@) == Ok::<RouteDeclView, SyncErrorView>(d@),
            Err(e) => resolve_route(names_of(table@), r@) == Err::<RouteDeclView, SyncErrorView>(
                e@,
            ),
        },
        out is Ok <==> route_known(names_of(table@), r@) && path_consistent(
            r@.path,
            r@.path_params,
        ),
{
    proof {
        lemma_resolve_route(names_of(table@), r@);
    }
    let path_params = match table.resolve_members(&r.path_params) {
        Ok(fields) => fields,
        Err((field, name)) => { return Err(unknown(r, field, name)); },
    };
    let query_params = match table.resolve_members(&r.query_params) {
        Ok(fields) => fields,
        Err((field, name)) => { return Err(unknown(r, field, name)); },
    };
    let body = match &r.body {
        None => None,
        Some(t) => match table.resolve(t) {
            Ok(ty) => Some(ty),
            Err(name) => { return Err(unknown(r, word("body"), name)); },
        },
    };
    let response = match table.resolve(&r.response) {
        Ok(ty) => ty,
        Err(name) => { return Err(unknown(r, word("response"), name)); },
    };
    match check_path(r.path.as_slice(), &r.path_params) {
        Some(param) => Err(
            SyncError::PathParamMismatch { file: r.file.clone(), owner: r.name.clone(), param },
        ),
        None => Ok(
            RouteDecl {
                method: r.method,
                path: r.path.clone(),
                name: r.name.clone(),
                path_params,
                query_params,
                body,
                response,
                file: r.file.clone(),
            },
        ),
    }
}

/// Builds the route model of the handlers `raw`, the handlers of all files
/// in the order of the files.
pub fn build_routes(table: &SymbolTable, raw: &Vec<RouteDecl>) -> (out: Result<
    Vec<RouteDecl>,
    SyncError,
>)
    ensures
        match out {
            Ok(rs) => built_routes(names_of(table@), views(raw@)) == Ok::<
                Seq<RouteDeclView>,
                SyncErrorView,
            >(views(rs@)) && routes_resolved(names_of(table@), views(rs@)),
            Err(e) => built_routes(names_of(table@), views(raw@)) == Err::<
                Seq<RouteDeclView>,
                SyncErrorView,
            >(e@),
        },
        out is Ok <==> routes_sound(names_of(table@), views(raw@)),
{
    let ghost names = names_of(table@);
    let ghost rawv = views(raw@);
    let mut rs: Vec<RouteDecl> = Vec::new();
    let mut i: usize = 0;
    assert(views(rs@) =~= Seq::<RouteDeclView>::empty());
    while i < raw.len()
        invariant
            i <= raw.len(),
            rawv == views(raw@),
            names == names_of(table@),
            resolve_routes(names, rawv, i as int) == Ok::<Seq<RouteDeclView>, SyncErrorView>(
                views(rs@),
            ),
        decreases raw.len() - i,
    {
        assert(rawv[i as int] == raw@[i as int]@);
        match build_route(table, &raw[i]) {
            Ok(d) => {
                let ghost grown = views(rs@).push(d@);
                rs.push(d);
                assert(views(rs@) =~= grown);
            },
            Err(e) => {
                proof {
                    lemma_resolve_routes_fails(names, rawv, i + 1, raw.len() as int);
                    lemma_built_routes(names, rawv);
                }
                return Err(e);
            },
        }
        i += 1;
    }
    let ghost rv = views(rs@);
    let mut j: usize = 0;
    while j < rs.len()
        invariant
            j <= rs.len(),
            rv == views(rs@),
            rawv == views(raw@),
            names == names_of(table@),
            resolve_routes(names, rawv, rawv.len() as int) == Ok::<
                Seq<RouteDeclView>,
                SyncErrorView,
            >(rv),
            first_repeat(rv, j as int) is None,
        decreases rs.len() - j,
    {
        let mut k: usize = 0;
        while k < j
            invariant
                k <= j < rs.len(),
                rv == views(rs@),
                rawv == views(raw@),
                names == names_of(table@),
                resolve_routes(names, rawv, rawv.len() as int) == Ok::<
                    Seq<RouteDeclView>,
                    SyncErrorView,
                >(rv),
                first_repeat(rv, j as int) is None,
                forall|l: int| 0 <= l < k ==> !same_route(#[trigger] rv[l], rv[j as int]),
            decreases j - k,
        {
            if rs[k].method == rs[j].method && same_bytes(
                rs[k].path.as_slice(),
                rs[j].path.as_slice(),
            ) {
                proof {
                    assert(same_route(rv[k as int], rv[j as int]));
                    lemma_first_repeat_found(rv, j + 1, rv.len() as int);
                    lemma_built_routes(names, rawv);
                }
                return Err(
                    SyncError::DuplicateRoute {
                        method: rs[j].method,
                        path: rs[j].path.clone(),
                        file: rs[j].file.clone(),
                        owner: rs[j].name.clone(),
                    },
                );
            }
            k += 1;
        }
        j += 1;
    }
    proof {
        lemma_built_routes(names, rawv);
    }
    Ok(sort(rs))
}

} // verus!
