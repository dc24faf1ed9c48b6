//! The code emitter: renders the symbol table and the route model as
//! TypeScript, one block per declared type in the order of the names, then
//! one request function per route in the order of the route model.

use vstd::prelude::*;
use crate::bytes::{comes_before, put, put_bytes, text, word};
use crate::model::{
    views, Field, FieldView, Kind, Method, Primitive, RouteDecl, RouteDeclView, SyncError,
    SyncErrorView, TypeDecl, TypeDeclView, TypeRef, TypeRefView,
};
use crate::order::{lemma_sorted, lemma_sorted_contains, sort, sorted, Ranked, SortKey};
use crate::resolver::SymbolTable;

verus! {

/// Whether a type has a rendering: all but those that hold a 128-bit
/// integer.
pub open spec fn supported(ty: TypeRefView) -> bool
    decreases ty,
{
    match ty {
        TypeRefView::Primitive(p) => p != Primitive::Wide,
        TypeRefView::NamedType(_) => true,
        TypeRefView::List(a) => supported(*a),
        TypeRefView::Optional(a) => supported(*a),
        TypeRefView::MapOf(k, v) => supported(*k) && supported(*v),
    }
}

/// The rendering of a type: primitives by their TypeScript names, a
/// declared type by its name, `Array<T>`, `(T | null)` and `Record<K, V>`
/// for lists, optional values and maps.
pub open spec fn render_type(ty: TypeRefView) -> Seq<u8>
    decreases ty,
{
    match ty {
        TypeRefView::Primitive(Primitive::Bool) => text("boolean"),
        TypeRefView::Primitive(Primitive::Number) => text("number"),
        TypeRefView::Primitive(Primitive::Text) => text("string"),
        TypeRefView::Primitive(Primitive::Wide) => text("never"),
        TypeRefView::NamedType(n) => n,
        TypeRefView::List(a) => text("Array<") + render_type(*a) + text(">"),
        TypeRefView::Optional(a) => text("(") + render_type(*a) + text(" | null)"),
        TypeRefView::MapOf(k, v) => text("Record<") + render_type(*k) + text(", ") + render_type(
            *v,
        ) + text(">"),
    }
}

/// The lines that a member can be rendered as.
#[derive(Clone, Copy, Debug, PartialEq, Eq, Structural)]
pub enum Piece {
    /// A field of an interface.
    Field,
    /// An alternative of a union.
    Variant,
    /// A parameter of a request function; an optional one may be
    /// `undefined`, wherever it stands among the parameters.
    Param,
    /// The substitution of a path parameter into the path.
    Replace,
    /// The addition of a query parameter to the query string.
    Query,
}

/// `?` for an optional member.
pub open spec fn mark(f: FieldView) -> Seq<u8> {
    if f.optional {
        text("?")
    } else {
        Seq::empty()
    }
}

/// The rendering of the member `f` as the given piece.
pub open spec fn render_piece(piece: Piece, f: FieldView) -> Seq<u8> {
    match piece {
        Piece::Field => text("  ") + f.name + mark(f) + text(": ") + render_type(f.ty) + text(
            ";\n",
        ),
        Piece::Variant => text("\n  | { ") + f.name + mark(f) + text(": ") + render_type(f.ty)
            + text(" }"),
        Piece::Param => text("  ") + f.name + text(": ") + render_type(f.ty) + (if f.optional {
            text(" | undefined,\n")
        } else {
            text(",\n")
        }),
        Piece::Replace => text("\n    .replace(\"{") + f.name + text(
            "}\", encodeURIComponent(String(",
        ) + f.name + text(")))"),
        Piece::Query => if f.optional {
            text("  if (") + f.name + text(" !== undefined) query.set(\"") + f.name + text(
                "\", String(",
            ) + f.name + text("));\n")
        } else {
            text("  query.set(\"") + f.name + text("\", String(") + f.name + text("));\n")
        },
    }
}

/// The renderings of the first `n` members, one after the other.
pub open spec fn render_pieces(piece: Piece, fs: Seq<FieldView>, n: int) -> Seq<u8>
    decreases n,
{
    if n <= 0 {
        Seq::empty()
    } else {
        render_pieces(piece, fs, n - 1) + render_piece(piece, fs[n - 1])
    }
}

/// The block of a declared type: an interface for a product, a union of
/// single-member objects for a sum, `never` for a sum without variants.
pub open spec fn render_decl(d: TypeDeclView) -> Seq<u8> {
    match d.kind {
        Kind::Product => text("export interface ") + d.name + text(" {\n") + render_pieces(
            Piece::Field,
            d.fields,
            d.fields.len() as int,
        ) + text("}\n"),
        Kind::Sum => text("export type ") + d.name + text(" =") + (if d.fields.len() == 0 {
            text(" never")
        } else {
            render_pieces(Piece::Variant, d.fields, d.fields.len() as int)
        }) + text(";\n"),
    }
}

/// The upper-case name of a method.
pub open spec fn method_name(m: Method) -> Seq<u8> {
    match m {
        Method::Delete => text("DELETE"),
        Method::Get => text("GET"),
        Method::Patch => text("PATCH"),
        Method::Post => text("POST"),
        Method::Put => text("PUT"),
    }
}

/// The body parameter of a request function, where the route has a body.
pub open spec fn render_body_param(body: Option<TypeRefView>) -> Seq<u8> {
    match body {
        Some(t) => text("  body: ") + render_type(t) + text(",\n"),
        None => Seq::empty(),
    }
}

/// The lines that send the body, where the route has one.
pub open spec fn render_body_lines(body: Option<TypeRefView>) -> Seq<u8> {
    match body {
        Some(_) => text(
            "    headers: { \"Content-Type\": \"application/json\" },\n    body: JSON.stringify(body),\n",
        ),
        None => Seq::empty(),
    }
}

/// The block of a route: an asynchronous function named after the handler
/// that takes the path parameters, the query parameters and the body, and
/// returns a promise of the response type.
pub open spec fn render_route(r: RouteDeclView) -> Seq<u8> {
    text("export async function ") + r.name + text("(\n") + render_pieces(
        Piece::Param,
        r.path_params,
        r.path_params.len() as int,
    ) + render_pieces(Piece::Param, r.query_params, r.query_params.len() as int)
        + render_body_param(r.body) + text("): Promise<") + render_type(r.response) + text(
        "> {\n  const path = \"",
    ) + r.path + text("\"") + render_pieces(
        Piece::Replace,
        r.path_params,
        r.path_params.len() as int,
    ) + text(";\n  const query = new URLSearchParams();\n") + render_pieces(
        Piece::Query,
        r.query_params,
        r.query_params.len() as int,
    ) + text("  const response = await fetch(path + \"?\" + query.toString(), {\n    method: \"")
        + method_name(r.method) + text("\",\n") + render_body_lines(r.body) + text(
        "  });\n  return response.json();\n}\n",
    )
}

/// The name of the first member below `n` whose type has no rendering.
pub open spec fn first_unsupported(fs: Seq<FieldView>, n: int) -> Option<Seq<u8>>
    decreases n,
{
    if n <= 0 {
        None
    } else {
        match first_unsupported(fs, n - 1) {
            Some(name) => Some(name),
            None => if supported(fs[n - 1].ty) {
                None
            } else {
                Some(fs[n - 1].name)
            },
        }
    }
}

/// Every one of the members has a type with a rendering.
pub open spec fn members_supported(fs: Seq<FieldView>) -> bool {
    forall|k: int| 0 <= k < fs.len() ==> supported((#[trigger] fs[k]).ty)
}

/// Every type of the route has a rendering.
pub open spec fn route_supported(r: RouteDeclView) -> bool {
    &&& members_supported(r.path_params)
    &&& members_supported(r.query_params)
    &&& r.body matches Some(t) ==> supported(t)
    &&& supported(r.response)
}

/// Every member of every declaration and every type of every route has a
/// rendering.
pub open spec fn all_supported(table: Seq<TypeDeclView>, routes: Seq<RouteDeclView>) -> bool {
    &&& forall|i: int| 0 <= i < table.len() ==> members_supported((#[trigger] table[i]).fields)
    &&& forall|j: int| 0 <= j < routes.len() ==> route_supported(#[trigger] routes[j])
}

/// A member is reported exactly where one of the first `n` has a type
/// without a rendering, and it is the first such.
pub proof fn lemma_first_unsupported(fs: Seq<FieldView>, n: int)
    requires
        0 <= n <= fs.len(),
    ensures
        match first_unsupported(fs, n) {
            Some(name) => exists|k: int|
                0 <= k < n && fs[k].name == name && !supported(fs[k].ty) && forall|l: int|
                    0 <= l < k ==> supported((#[trigger] fs[l]).ty),
            None => forall|k: int| 0 <= k < n ==> supported((#[trigger] fs[k]).ty),
        },
    decreases n,
{
    if n > 0 {
        lemma_first_unsupported(fs, n - 1);
    }
}

/// A declaration has a block exactly where all its members are supported.
pub proof fn lemma_decl_unsupported(d: TypeDeclView)
    ensures
        decl_unsupported(d) is None <==> members_supported(d.fields),
{
    lemma_first_unsupported(d.fields, d.fields.len() as int);
}

/// A route has a block exactly where all its types are supported.
pub proof fn lemma_route_unsupported(r: RouteDeclView)
    ensures
        route_unsupported(r) is None <==> route_supported(r),
{
    lemma_first_unsupported(r.path_params, r.path_params.len() as int);
    lemma_first_unsupported(r.query_params, r.query_params.len() as int);
}

/// An unsupported member below `n` is the one reported for every later
/// bound.
pub proof fn lemma_first_unsupported_found(fs: Seq<FieldView>, n: int, m: int)
    requires
        n <= m,
        first_unsupported(fs, n) is Some,
    ensures
        first_unsupported(fs, m) == first_unsupported(fs, n),
    decreases m - n,
{
    if n < m {
        lemma_first_unsupported_found(fs, n, m - 1);
    }
}

/// The member of a declaration that has no rendering, if there is one.
pub open spec fn decl_unsupported(d: TypeDeclView) -> Option<SyncErrorView> {
    match first_unsupported(d.fields, d.fields.len() as int) {
        Some(field) => Some(SyncErrorView::UnsupportedType { file: d.file, owner: d.name, field }),
        None => None,
    }
}

/// The part of a route that has no rendering, if there is one: the first
/// such path parameter, else query parameter, else `body`, else `response`.
pub open spec fn route_unsupported(r: RouteDeclView) -> Option<SyncErrorView> {
    let field = match first_unsupported(r.path_params, r.path_params.len() as int) {
        Some(name) => Some(name),
        None => match first_unsupported(r.query_params, r.query_params.len() as int) {
            Some(name) => Some(name),
            None => if r.body matches Some(t) && !supported(t) {
                Some(text("body"))
            } else if !supported(r.response) {
                Some(text("response"))
            } else {
                None
            },
        },
    };
    match field {
        Some(field) => Some(SyncErrorView::UnsupportedType { file: r.file, owner: r.name, field }),
        None => None,
    }
}

/// The blocks of the first `n` declarations, or the error of the first
/// below `n` that has no rendering.
pub open spec fn type_blocks(decls: Seq<TypeDeclView>, n: int) -> Result<
    Seq<Seq<u8>>,
    SyncErrorView,
>
    decreases n,
{
    if n <= 0 {
        Ok(Seq::empty())
    } else {
        match type_blocks(decls, n - 1) {
            Err(e) => Err(e),
            Ok(acc) => match decl_unsupported(decls[n - 1]) {
                Some(e) => Err(e),
                None => Ok(acc.push(render_decl(decls[n - 1]))),
            },
        }
    }
}

/// The blocks of the first `n` routes, or the error of the first below `n`
/// that has no rendering.
pub open spec fn route_blocks(routes: Seq<RouteDeclView>, n: int) -> Result<
    Seq<Seq<u8>>,
    SyncErrorView,
>
    decreases n,
{
    if n <= 0 {
        Ok(Seq::empty())
    } else {
        match route_blocks(routes, n - 1) {
            Err(e) => Err(e),
            Ok(acc) => match route_unsupported(routes[n - 1]) {
                Some(e) => Err(e),
                None => Ok(acc.push(render_route(routes[n - 1]))),
            },
        }
    }
}

/// A declaration without a rendering fails every later bound.
pub proof fn lemma_type_blocks_fails(decls: Seq<TypeDeclView>, n: int, m: int)
    requires
        n <= m,
        type_blocks(decls, n) is Err,
    ensures
        type_blocks(decls, m) == type_blocks(decls, n),
    decreases m - n,
{
    if n < m {
        lemma_type_blocks_fails(decls, n, m - 1);
    }
}

/// A route without a rendering fails every later bound.
pub proof fn lemma_route_blocks_fails(routes: Seq<RouteDeclView>, n: int, m: int)
    requires
        n <= m,
        route_blocks(routes, n) is Err,
    ensures
        route_blocks(routes, m) == route_blocks(routes, n),
    decreases m - n,
{
    if n < m {
        lemma_route_blocks_fails(routes, n, m - 1);
    }
}

/// There is one block for each declaration, in order, and each is the
/// rendering of its declaration.
pub proof fn lemma_type_blocks(decls: Seq<TypeDeclView>, n: int)
    requires
        0 <= n <= decls.len(),
    ensures
        match type_blocks(decls, n) {
            Ok(blocks) => blocks.len() == n && forall|i: int|
                0 <= i < n ==> #[trigger] blocks[i] == render_decl(decls[i]) && decl_unsupported(
                    decls[i],
                ) is None,
            Err(e) => exists|i: int| 0 <= i < n && decl_unsupported(decls[i]) == Some(e),
        },
    decreases n,
{
    if n > 0 {
        lemma_type_blocks(decls, n - 1);
    }
}

/// There is one block for each route, in order, and each is the rendering
/// of its route.
pub proof fn lemma_route_blocks(routes: Seq<RouteDeclView>, n: int)
    requires
        0 <= n <= routes.len(),
    ensures
        match route_blocks(routes, n) {
            Ok(blocks) => blocks.len() == n && forall|i: int|
                0 <= i < n ==> #[trigger] blocks[i] == render_route(routes[i])
                    && route_unsupported(routes[i]) is None,
            Err(e) => exists|i: int| 0 <= i < n && route_unsupported(routes[i]) == Some(e),
        },
    decreases n,
{
    if n > 0 {
        lemma_route_blocks(routes, n - 1);
        match route_blocks(routes, n - 1) {
            Ok(acc) => {
                match route_unsupported(routes[n - 1]) {
                    Some(e) => {
                        assert(route_unsupported(routes[n - 1]) == Some(e));
                    },
                    None => {
                        let blocks = acc.push(render_route(routes[n - 1]));
                        assert forall|i: int| 0 <= i < n implies #[trigger] blocks[i]
                            == render_route(routes[i]) && route_unsupported(routes[i]) is None by {
                            if i < n - 1 {
                                assert(blocks[i] == acc[i]);
                            }
                        }
                    },
                }
            },
            Err(_) => {},
        }
    }
}

impl Ranked for TypeDecl {
    /// Declarations are ordered by name.
    open spec fn key(v: TypeDeclView) -> SortKey {
        SortKey { major: 0, text: v.name, minor: 0 }
    }

    fn ranks_before(&self, other: &Self) -> (r: bool) {
        comes_before(self.name.as_slice(), other.name.as_slice())
    }
}

/// The rendered blocks, in the order in which they are written.
#[derive(Debug, PartialEq, Eq)]
pub struct EmissionPlan {
    pub types: Vec<Vec<u8>>,
    pub routes: Vec<Vec<u8>>,
}

/// An emission plan as a mathematical value.
pub struct EmissionPlanView {
    pub types: Seq<Seq<u8>>,
    pub routes: Seq<Seq<u8>>,
}

impl View for EmissionPlan {
    type V = EmissionPlanView;

    open spec fn view(&self) -> EmissionPlanView {
        EmissionPlanView { types: views(self.types@), routes: views(self.routes@) }
    }
}

/// The emission plan of a symbol table and a route model: the blocks of
/// the declarations in the order of their names, then the blocks of the
/// routes in their order; or the error of the first of these without a
/// rendering.
pub open spec fn emission(table: Seq<TypeDeclView>, routes: Seq<RouteDeclView>) -> Result<
    EmissionPlanView,
    SyncErrorView,
> {
    match type_blocks(sorted::<TypeDecl>(table), table.len() as int) {
        Err(e) => Err(e),
        Ok(types) => match route_blocks(routes, routes.len() as int) {
            Err(e) => Err(e),
            Ok(routes) => Ok(EmissionPlanView { types, routes }),
        },
    }
}

/// There is an emission plan exactly where everything has a rendering. It
/// holds one block for each declaration, in the order of the names, and one
/// for each route, in the order of the routes. The only error of emission
/// is `UnsupportedType`.
pub proof fn lemma_emission(table: Seq<TypeDeclView>, routes: Seq<RouteDeclView>)
    ensures
        emission(table, routes) is Ok <==> all_supported(table, routes),
        match emission(table, routes) {
            Ok(plan) => plan.types.len() == table.len() && plan.routes.len() == routes.len()
                && (forall|i: int|
                0 <= i < table.len() ==> #[trigger] plan.types[i] == render_decl(
                    sorted::<TypeDecl>(table)[i],
                )) && (forall|j: int|
                0 <= j < routes.len() ==> #[trigger] plan.routes[j] == render_route(routes[j])),
            Err(e) => e is UnsupportedType,
        },
{
    let ordered = sorted::<TypeDecl>(table);
    lemma_sorted::<TypeDecl>(table);
    lemma_type_blocks(ordered, ordered.len() as int);
    lemma_route_blocks(routes, routes.len() as int);
    assert forall|d: TypeDeclView| decl_unsupported(d) is None <==> members_supported(d.fields) by {
        lemma_decl_unsupported(d);
    }
    assert forall|r: RouteDeclView| route_unsupported(r) is None <==> route_supported(r) by {
        lemma_route_unsupported(r);
    }
    match type_blocks(ordered, ordered.len() as int) {
        Err(e) => {
            let i = choose|i: int| 0 <= i < ordered.len() && decl_unsupported(ordered[i]) == Some(e);
            lemma_sorted_contains::<TypeDecl>(table, ordered[i]);
            assert(ordered.contains(ordered[i]));
            let k = choose|k: int| 0 <= k < table.len() && table[k] == ordered[i];
            assert(!members_supported(table[k].fields));
        },
        Ok(types) => {
            assert forall|k: int| 0 <= k < table.len() implies members_supported(
                (#[trigger] table[k]).fields,
            ) by {
                lemma_sorted_contains::<TypeDecl>(table, table[k]);
                assert(table.contains(table[k]));
                let i = choose|i: int| 0 <= i < ordered.len() && ordered[i] == table[k];
                assert(types[i] == render_decl(ordered[i]));
            }
            match route_blocks(routes, routes.len() as int) {
                Err(e) => {
                    let j = choose|j: int|
                        0 <= j < routes.len() && route_unsupported(routes[j]) == Some(e);
                    assert(!route_supported(routes[j]));
                },
                Ok(blocks) => {
                    assert forall|j: int| 0 <= j < routes.len() implies route_supported(
                        #[trigger] routes[j],
                    ) by {
                        assert(blocks[j] == render_route(routes[j]));
                    }
                },
            }
        },
    }
}

/// The first `n` blocks, one after the other.
pub open spec fn joined(blocks: Seq<Seq<u8>>, n: int) -> Seq<u8>
    decreases n,
{
    if n <= 0 {
        Seq::empty()
    } else {
        joined(blocks, n - 1) + blocks[n - 1]
    }
}

/// The text of an emission plan: all type blocks, then all route blocks.
pub open spec fn rendered(plan: EmissionPlanView) -> Seq<u8> {
    joined(plan.types, plan.types.len() as int) + joined(plan.routes, plan.routes.len() as int)
}

/// Whether a type has a rendering.
pub fn is_supported(ty: &TypeRef) -> (r: bool)
    ensures
        r == supported(ty@),
    decreases ty,
{
    match ty {
        TypeRef::Primitive(p) => match p {
            Primitive::Wide => false,
            _ => true,
        },
        TypeRef::NamedType(_) => true,
        TypeRef::List(a) => is_supported(a),
        TypeRef::Optional(a) => is_supported(a),
        TypeRef::MapOf(k, v) => is_supported(k) && is_supported(v),
    }
}

/// Appends the rendering of a type.
pub fn emit_type(out: &mut Vec<u8>, ty: &TypeRef)
    ensures
        final(out)@ == old(out)@ + render_type(ty@),
    decreases ty,
{
    let ghost start = out@;
    match ty {
        TypeRef::Primitive(p) => match p {
            Primitive::Bool => put(out, "boolean"),
            Primitive::Number => put(out, "number"),
            Primitive::Text => put(out, "string"),
            Primitive::Wide => put(out, "never"),
        },
        TypeRef::NamedType(n) => put_bytes(out, n.as_slice()),
        TypeRef::List(a) => {
            put(out, "Array<");
            emit_type(out, a);
            put(out, ">");
            assert(out@ =~= start + render_type(ty@));
        },
        TypeRef::Optional(a) => {
            put(out, "(");
            emit_type(out, a);
            put(out, " | null)");
            assert(out@ =~= start + render_type(ty@));
        },
        TypeRef::MapOf(k, v) => {
            put(out, "Record<");
            emit_type(out, k);
            put(out, ", ");
            emit_type(out, v);
            put(out, ">");
            assert(out@ =~= start + render_type(ty@));
        },
    }
}

fn emit_mark(out: &mut Vec<u8>, f: &Field)
    ensures
        final(out)@ == old(out)@ + mark(f@),
{
    if f.optional {
        put(out, "?");
    } else {
        assert(out@ =~= out@ + Seq::<u8>::empty());
    }
}

/// Appends the rendering of a member as the given piece.
pub fn emit_piece(out: &mut Vec<u8>, piece: Piece, f: &Field)
    ensures
        final(out)@ == old(out)@ + render_piece(piece, f@),
{
    let ghost start = out@;
    let name = f.name.as_slice();
    match piece {
        Piece::Field => {
            put(out, "  ");
            put_bytes(out, name);
            emit_mark(out, f);
            put(out, ": ");
            emit_type(out, &f.ty);
            put(out, ";\n");
        },
        Piece::Variant => {
            put(out, "\n  | { ");
            put_bytes(out, name);
            emit_mark(out, f);
            put(out, ": ");
            emit_type(out, &f.ty);
            put(out, " }");
        },
        Piece::Param => {
            put(out, "  ");
            put_bytes(out, name);
            put(out, ": ");
            emit_type(out, &f.ty);
            if f.optional {
                put(out, " | undefined,\n");
            } else {
                put(out, ",\n");
            }
        },
        Piece::Replace => {
            put(out, "\n    .replace(\"{");
            put_bytes(out, name);
            put(out, "}\", encodeURIComponent(String(");
            put_bytes(out, name);
            put(out, ")))");
        },
        Piece::Query => {
            if f.optional {
                put(out, "  if (");
                put_bytes(out, name);
                put(out, " !== undefined) query.set(\"");
            } else {
                put(out, "  query.set(\"");
            }
            put_bytes(out, name);
            put(out, "\", String(");
            put_bytes(out, name);
            put(out, "));\n");
        },
    }
    assert(out@ =~= start + render_piece(piece, f@));
}

/// Appends the renderings of the members, one after the other.
pub fn emit_pieces(out: &mut Vec<u8>, piece: Piece, fs: &Vec<Field>)
    ensures
        final(out)@ == old(out)@ + render_pieces(piece, views(fs@), fs.len() as int),
{
    let ghost start = out@;
    let mut i: usize = 0;
    assert(out@ =~= start + render_pieces(piece, views(fs@), 0));
    while i < fs.len()
        invariant
            i <= fs.len(),
            out@ == start + render_pieces(piece, views(fs@), i as int),
        decreases fs.len() - i,
    {
        emit_piece(out, piece, &fs[i]);
        assert(out@ =~= start + render_pieces(piece, views(fs@), i + 1));
        i += 1;
    }
}

fn unsupported_among(fs: &Vec<Field>) -> (r: Option<Vec<u8>>)
    ensures
        match r {
            Some(name) => first_unsupported(views(fs@), fs.len() as int) == Some(name@),
            None => first_unsupported(views(fs@), fs.len() as int) is None,
        },
{
    let mut i: usize = 0;
    while i < fs.len()
        invariant
            i <= fs.len(),
            first_unsupported(views(fs@), i as int) is None,
        decreases fs.len() - i,
    {
        if !is_supported(&fs[i].ty) {
            proof {
                lemma_first_unsupported_found(views(fs@), i + 1, fs.len() as int);
            }
            return Some(fs[i].name.clone());
        }
        i += 1;
    }
    None
}

/// Renders the block of a declared type.
pub fn emit_decl(d: &TypeDecl) -> (r: Result<Vec<u8>, SyncError>)
    ensures
        match r {
            Ok(block) => decl_unsupported(d@) is None && block@ == render_decl(d@),
            Err(e) => decl_unsupported(d@) == Some(e@),
        },
        r is Ok <==> members_supported(d@.fields),
{
    proof {
        lemma_decl_unsupported(d@);
    }
    match unsupported_among(&d.fields) {
        Some(field) => {
            return Err(
                SyncError::UnsupportedType { file: d.file.clone(), owner: d.name.clone(), field },
            );
        },
        None => {},
    }
    let mut out: Vec<u8> = Vec::new();
    match d.kind {
        Kind::Product => {
            put(&mut out, "export interface ");
            put_bytes(&mut out, d.name.as_slice());
            put(&mut out, " {\n");
            emit_pieces(&mut out, Piece::Field, &d.fields);
            put(&mut out, "}\n");
        },
        Kind::Sum => {
            put(&mut out, "export type ");
            put_bytes(&mut out, d.name.as_slice());
            put(&mut out, " =");
            if d.fields.len() == 0 {
                put(&mut out, " never");
            } else {
                emit_pieces(&mut out, Piece::Variant, &d.fields);
            }
            put(&mut out, ";\n");
        },
    }
    assert(out@ =~= render_decl(d@));
    Ok(out)
}

fn method_word(m: Method) -> (r: &'static str)
    ensures
        text(r) == method_name(m),
{
    match m {
        Method::Delete => "DELETE",
        Method::Get => "GET",
        Method::Patch => "PATCH",
        Method::Post => "POST",
        Method::Put => "PUT",
    }
}

fn route_check(r: &RouteDecl) -> (e: Option<SyncError>)
    ensures
        match e {
            Some(e) => route_unsupported(r@) == Some(e@),
            None => route_unsupported(r@) is None,
        },
{
    let field = match unsupported_among(&r.path_params) {
        Some(name) => Some(name),
        None => match unsupported_among(&r.query_params) {
            Some(name) => Some(name),
            None => {
                let body_fails = match &r.body {
                    Some(t) => !is_supported(t),
                    None => false,
                };
                if body_fails {
                    Some(word("body"))
                } else if !is_supported(&r.response) {
                    Some(word("response"))
                } else {
                    None
                }
            },
        },
    };
    match field {
        Some(field) => Some(
            SyncError::UnsupportedType { file: r.file.clone(), owner: r.name.clone(), field },
        ),
        None => None,
    }
}

/// Renders the block of a route.
pub fn emit_route(r: &RouteDecl) -> (out: Result<Vec<u8>, SyncError>)
    ensures
        match out {
            Ok(block) => route_unsupported(r@) is None && block@ == render_route(r@),
            Err(e) => route_unsupported(r@) == Some(e@),
        },
        out is Ok <==> route_supported(r@),
{
    proof {
        lemma_route_unsupported(r@);
    }
    match route_check(r) {
        Some(e) => { return Err(e); },
        None => {},
    }
    let mut out: Vec<u8> = Vec::new();
    put(&mut out, "export async function ");
    put_bytes(&mut out, r.name.as_slice());
    put(&mut out, "(\n");
    emit_pieces(&mut out, Piece::Param, &r.path_params);
    emit_pieces(&mut out, Piece::Param, &r.query_params);
    let ghost before_body = out@;
    match &r.body {
        Some(t) => {
            put(&mut out, "  body: ");
            emit_type(&mut out, t);
            put(&mut out, ",\n");
        },
        None => {},
    }
    assert(out@ =~= before_body + render_body_param(r@.body));
    put(&mut out, "): Promise<");
    emit_type(&mut out, &r.response);
    put(&mut out, "> {\n  const path = \"");
    put_bytes(&mut out, r.path.as_slice());
    put(&mut out, "\"");
    emit_pieces(&mut out, Piece::Replace, &r.path_params);
    put(&mut out, ";\n  const query = new URLSearchParams();\n");
    emit_pieces(&mut out, Piece::Query, &r.query_params);
    put(&mut out, "  const response = await fetch(path + \"?\" + query.toString(), {\n    method: \"");
    put(&mut out, method_word(r.method));
    put(&mut out, "\",\n");
    let ghost before_lines = out@;
    if r.body.is_some() {
        put(
            &mut out,
            "    headers: { \"Content-Type\": \"application/json\" },\n    body: JSON.stringify(body),\n",
        );
    }
    assert(out@ =~= before_lines + render_body_lines(r@.body));
    put(&mut out, "  });\n  return response.json();\n}\n");
    assert(out@ =~= render_route(r@));
    Ok(out)
}

fn copy_decls(decls: &Vec<TypeDecl>) -> (r: Vec<TypeDecl>)
    ensures
        views(r@) == views(decls@),
{
    let mut out: Vec<TypeDecl> = Vec::new();
    let mut i: usize = 0;
    while i < decls.len()
        invariant
            i <= decls.len(),
            out@.len() == i,
            forall|k: int| 0 <= k < i ==> out@[k]@ == decls@[k]@,
        decreases decls.len() - i,
    {
        out.push(decls[i].clone());
        i += 1;
    }
    assert(views(out@) =~= views(decls@));
    out
}

/// Renders the symbol table and the route model into an emission plan.
pub fn emit(table: &SymbolTable, routes: &Vec<RouteDecl>) -> (r: Result<EmissionPlan, SyncError>)
    ensures
        match r {
            Ok(plan) => emission(table@, views(routes@)) == Ok::<EmissionPlanView, SyncErrorView>(
                plan@,
            ),
            Err(e) => emission(table@, views(routes@)) == Err::<EmissionPlanView, SyncErrorView>(
                e@,
            ),
        },
        r is Ok <==> all_supported(table@, views(routes@)),
{
    let decls = sort(copy_decls(table.decls()));
    let ghost dv = sorted::<TypeDecl>(table@);
    let ghost rv = views(routes@);
    proof {
        crate::order::lemma_sorted::<TypeDecl>(table@);
    }
    let mut types: Vec<Vec<u8>> = Vec::new();
    let mut i: usize = 0;
    assert(views(types@) =~= Seq::<Seq<u8>>::empty());
    while i < decls.len()
        invariant
            i <= decls.len(),
            dv == views(decls@),
            rv == views(routes@),
            dv == sorted::<TypeDecl>(table@),
            dv.len() == table@.len(),
            type_blocks(dv, i as int) == Ok::<Seq<Seq<u8>>, SyncErrorView>(views(types@)),
        decreases decls.len() - i,
    {
        assert(dv[i as int] == decls@[i as int]@);
        match emit_decl(&decls[i]) {
            Ok(block) => {
                let ghost grown = views(types@).push(block@);
                types.push(block);
                assert(views(types@) =~= grown);
            },
            Err(e) => {
                proof {
                    lemma_type_blocks_fails(dv, i + 1, dv.len() as int);
                    lemma_emission(table@, rv);
                }
                return Err(e);
            },
        }
        i += 1;
    }
    let mut blocks: Vec<Vec<u8>> = Vec::new();
    let mut j: usize = 0;
    assert(views(blocks@) =~= Seq::<Seq<u8>>::empty());
    while j < routes.len()
        invariant
            j <= routes.len(),
            rv == views(routes@),
            dv == sorted::<TypeDecl>(table@),
            type_blocks(dv, table@.len() as int) == Ok::<Seq<Seq<u8>>, SyncErrorView>(
                views(types@),
            ),
            route_blocks(rv, j as int) == Ok::<Seq<Seq<u8>>, SyncErrorView>(views(blocks@)),
        decreases routes.len() - j,
    {
        assert(rv[j as int] == routes@[j as int]@);
        match emit_route(&routes[j]) {
            Ok(block) => {
                let ghost grown = views(blocks@).push(block@);
                blocks.push(block);
                assert(views(blocks@) =~= grown);
            },
            Err(e) => {
                proof {
                    lemma_route_blocks_fails(rv, j + 1, rv.len() as int);
                    lemma_emission(table@, rv);
                }
                return Err(e);
            },
        }
        j += 1;
    }
    proof {
        lemma_emission(table@, rv);
    }
    Ok(EmissionPlan { types, routes: blocks })
}

fn put_blocks(out: &mut Vec<u8>, blocks: &Vec<Vec<u8>>)
    ensures
        final(out)@ == old(out)@ + joined(views(blocks@), blocks.len() as int),
{
    let ghost start = out@;
    let mut i: usize = 0;
    assert(out@ =~= start + joined(views(blocks@), 0));
    while i < blocks.len()
        invariant
            i <= blocks.len(),
            out@ == start + joined(views(blocks@), i as int),
        decreases blocks.len() - i,
    {
        put_bytes(out, blocks[i].as_slice());
        assert(out@ =~= start + joined(views(blocks@), i + 1));
        i += 1;
    }
}

impl EmissionPlan {
    /// The text of the plan: all type blocks, then all route blocks.
    pub fn render(&self) -> (r: Vec<u8>)
        ensures
            r@ == rendered(self@),
    {
        let mut out: Vec<u8> = Vec::new();
        put_blocks(&mut out, &self.types);
        put_blocks(&mut out, &self.routes);
        assert(out@ =~= rendered(self@));
        out
    }
}

} // verus!
