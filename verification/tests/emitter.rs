use create_rust_app::emitter::{
    emit, emit_decl, emit_piece, emit_pieces, emit_route, emit_type, is_supported, EmissionPlan, Piece,
};
use create_rust_app::model::{Field, Kind, Method, Primitive, RouteDecl, SourceUnit, SyncError, TypeDecl, TypeRef};
use create_rust_app::parser::parse_source;
use create_rust_app::resolver::SymbolTable;
use create_rust_app::routes::build_routes;

fn named(name: &str) -> TypeRef {
    TypeRef::NamedType(name.as_bytes().to_vec())
}

fn prim(p: Primitive) -> TypeRef {
    TypeRef::Primitive(p)
}

fn rendered(ty: &TypeRef) -> String {
    let mut out = b"<".to_vec();
    emit_type(&mut out, ty);
    String::from_utf8(out).unwrap()
}

fn piece(piece: Piece, name: &str, ty: TypeRef, optional: bool) -> String {
    let mut out = Vec::new();
    emit_piece(&mut out, piece, &Field { name: name.as_bytes().to_vec(), ty, optional });
    String::from_utf8(out).unwrap()
}

fn text(block: Result<Vec<u8>, SyncError>) -> Result<String, SyncError> {
    block.map(|b| String::from_utf8(b).unwrap())
}

fn model(text: &str) -> (SymbolTable, Vec<RouteDecl>) {
    let parsed =
        parse_source(&SourceUnit { path: b"a.rs".to_vec(), text: text.as_bytes().to_vec() }).unwrap();
    let table = SymbolTable::build(&parsed.types).unwrap();
    let routes = build_routes(&table, &parsed.routes).unwrap();
    (table, routes)
}

#[test]
fn every_type_has_one_rendering() {
    assert_eq!(rendered(&prim(Primitive::Bool)), "<boolean");
    assert_eq!(rendered(&prim(Primitive::Number)), "<number");
    assert_eq!(rendered(&prim(Primitive::Text)), "<string");
    assert_eq!(rendered(&named("Item")), "<Item");
    assert_eq!(rendered(&TypeRef::List(Box::new(named("Item")))), "<Array<Item>");
    assert_eq!(rendered(&TypeRef::Optional(Box::new(named("Item")))), "<(Item | null)");
    assert_eq!(
        rendered(&TypeRef::MapOf(Box::new(prim(Primitive::Text)), Box::new(prim(Primitive::Number)))),
        "<Record<string, number>"
    );
    let nested = TypeRef::List(Box::new(TypeRef::Optional(Box::new(TypeRef::MapOf(
        Box::new(prim(Primitive::Text)),
        Box::new(TypeRef::List(Box::new(named("A")))),
    )))));
    assert_eq!(rendered(&nested), "<Array<(Record<string, Array<A>> | null)>");
}

#[test]
fn wide_integers_are_not_supported() {
    assert!(is_supported(&prim(Primitive::Bool)));
    assert!(is_supported(&named("A")));
    assert!(!is_supported(&prim(Primitive::Wide)));
    assert!(!is_supported(&TypeRef::List(Box::new(prim(Primitive::Wide)))));
    assert!(!is_supported(&TypeRef::Optional(Box::new(prim(Primitive::Wide)))));
    assert!(!is_supported(&TypeRef::MapOf(Box::new(prim(Primitive::Text)), Box::new(prim(Primitive::Wide)))));
    assert!(!is_supported(&TypeRef::MapOf(Box::new(prim(Primitive::Wide)), Box::new(prim(Primitive::Text)))));
    assert!(is_supported(&TypeRef::MapOf(Box::new(prim(Primitive::Text)), Box::new(named("A")))));
}

#[test]
fn the_pieces_of_a_member() {
    assert_eq!(piece(Piece::Field, "a", named("A"), false), "  a: A;\n");
    assert_eq!(piece(Piece::Field, "a", named("A"), true), "  a?: A;\n");
    assert_eq!(piece(Piece::Variant, "V", named("A"), false), "\n  | { V: A }");
    assert_eq!(piece(Piece::Variant, "V", named("A"), true), "\n  | { V?: A }");
    assert_eq!(piece(Piece::Param, "p", prim(Primitive::Number), false), "  p: number,\n");
    assert_eq!(piece(Piece::Param, "p", prim(Primitive::Number), true), "  p: number | undefined,\n");
    assert_eq!(
        piece(Piece::Replace, "id", named("A"), false),
        "\n    .replace(\"{id}\", encodeURIComponent(String(id)))"
    );
    assert_eq!(piece(Piece::Query, "q", named("A"), false), "  query.set(\"q\", String(q));\n");
    assert_eq!(
        piece(Piece::Query, "q", named("A"), true),
        "  if (q !== undefined) query.set(\"q\", String(q));\n"
    );
}

#[test]
fn pieces_follow_each_other() {
    let fields = vec![
        Field { name: b"a".to_vec(), ty: named("A"), optional: false },
        Field { name: b"b".to_vec(), ty: named("B"), optional: true },
    ];
    let mut out = b"x".to_vec();
    emit_pieces(&mut out, Piece::Field, &fields);
    assert_eq!(String::from_utf8(out).unwrap(), "x  a: A;\n  b?: B;\n");
    let mut none = b"x".to_vec();
    emit_pieces(&mut none, Piece::Field, &vec![]);
    assert_eq!(none, b"x".to_vec());
}

#[test]
fn a_product_is_an_interface() {
    let d = TypeDecl {
        name: b"Item".to_vec(),
        kind: Kind::Product,
        fields: vec![
            Field { name: b"id".to_vec(), ty: prim(Primitive::Number), optional: false },
            Field { name: b"note".to_vec(), ty: prim(Primitive::Text), optional: true },
        ],
        file: b"a.rs".to_vec(),
    };
    assert_eq!(text(emit_decl(&d)), Ok("export interface Item {\n  id: number;\n  note?: string;\n}\n".to_string()));
    let empty = TypeDecl { name: b"E".to_vec(), kind: Kind::Product, fields: vec![], file: vec![] };
    assert_eq!(text(emit_decl(&empty)), Ok("export interface E {\n}\n".to_string()));
}

#[test]
fn a_sum_is_a_union() {
    let d = TypeDecl {
        name: b"Reply".to_vec(),
        kind: Kind::Sum,
        fields: vec![
            Field { name: b"Found".to_vec(), ty: named("Item"), optional: false },
            Field { name: b"Missing".to_vec(), ty: prim(Primitive::Text), optional: false },
        ],
        file: b"a.rs".to_vec(),
    };
    assert_eq!(
        text(emit_decl(&d)),
        Ok("export type Reply =\n  | { Found: Item }\n  | { Missing: string };\n".to_string())
    );
    let empty = TypeDecl { name: b"E".to_vec(), kind: Kind::Sum, fields: vec![], file: vec![] };
    assert_eq!(text(emit_decl(&empty)), Ok("export type E = never;\n".to_string()));
}

#[test]
fn a_member_of_a_wide_type_is_unsupported() {
    let d = TypeDecl {
        name: b"Big".to_vec(),
        kind: Kind::Product,
        fields: vec![
            Field { name: b"ok".to_vec(), ty: prim(Primitive::Number), optional: false },
            Field { name: b"first".to_vec(), ty: TypeRef::List(Box::new(prim(Primitive::Wide))), optional: false },
            Field { name: b"second".to_vec(), ty: prim(Primitive::Wide), optional: false },
        ],
        file: b"a.rs".to_vec(),
    };
    assert_eq!(
        emit_decl(&d),
        Err(SyncError::UnsupportedType { file: b"a.rs".to_vec(), owner: b"Big".to_vec(), field: b"first".to_vec() })
    );
}

fn route(path_ty: TypeRef, query_ty: TypeRef, body: Option<TypeRef>, response: TypeRef) -> RouteDecl {
    RouteDecl {
        method: Method::Patch,
        path: b"/a/{p}".to_vec(),
        name: b"f".to_vec(),
        path_params: vec![Field { name: b"p".to_vec(), ty: path_ty, optional: false }],
        query_params: vec![Field { name: b"q".to_vec(), ty: query_ty, optional: false }],
        body,
        response,
        file: b"h.rs".to_vec(),
    }
}

#[test]
fn the_first_unsupported_part_of_a_route_is_reported() {
    let wide = || prim(Primitive::Wide);
    let fine = || prim(Primitive::Bool);
    let unsupported = |field: &str| {
        Err(SyncError::UnsupportedType {
            file: b"h.rs".to_vec(),
            owner: b"f".to_vec(),
            field: field.as_bytes().to_vec(),
        })
    };
    assert_eq!(emit_route(&route(wide(), wide(), Some(wide()), wide())), unsupported("p"));
    assert_eq!(emit_route(&route(fine(), wide(), Some(wide()), wide())), unsupported("q"));
    assert_eq!(emit_route(&route(fine(), fine(), Some(wide()), wide())), unsupported("body"));
    assert_eq!(emit_route(&route(fine(), fine(), Some(fine()), wide())), unsupported("response"));
    assert_eq!(emit_route(&route(fine(), fine(), None, wide())), unsupported("response"));
    assert!(emit_route(&route(fine(), fine(), None, fine())).is_ok());
}

#[test]
fn a_route_is_a_request_function() {
    let expected = "export async function f(\n  p: boolean,\n  q: number,\n  body: Array<A>,\n): Promise<(A | null)> {\n  \
                    const path = \"/a/{p}\"\n    .replace(\"{p}\", encodeURIComponent(String(p)));\n  \
                    const query = new URLSearchParams();\n  query.set(\"q\", String(q));\n  \
                    const response = await fetch(path + \"?\" + query.toString(), {\n    method: \"PATCH\",\n    \
                    headers: { \"Content-Type\": \"application/json\" },\n    body: JSON.stringify(body),\n  });\n  \
                    return response.json();\n}\n";
    let r = route(
        prim(Primitive::Bool),
        prim(Primitive::Number),
        Some(TypeRef::List(Box::new(named("A")))),
        TypeRef::Optional(Box::new(named("A"))),
    );
    assert_eq!(text(emit_route(&r)), Ok(expected.to_string()));
}

#[test]
fn every_method_has_its_name() {
    for (method, name) in [
        (Method::Delete, "DELETE"),
        (Method::Get, "GET"),
        (Method::Patch, "PATCH"),
        (Method::Post, "POST"),
        (Method::Put, "PUT"),
    ] {
        let r = RouteDecl {
            method,
            path: b"/".to_vec(),
            name: b"f".to_vec(),
            path_params: vec![],
            query_params: vec![],
            body: None,
            response: prim(Primitive::Bool),
            file: vec![],
        };
        let block = text(emit_route(&r)).unwrap();
        assert!(block.contains(&format!("    method: \"{}\",\n  }});\n", name)));
    }
}

#[test]
fn types_are_emitted_in_the_order_of_their_names() {
    let (table, routes) = model(
        "#[tsync] struct b { }\n#[tsync] struct Zed { }\n#[tsync] struct Ab { }\n#[tsync] struct A { }\n\
         #[get(\"/\")] fn f() -> A",
    );
    let plan = emit(&table, &routes).unwrap();
    let heads: Vec<String> =
        plan.types.iter().map(|b| String::from_utf8(b.clone()).unwrap().lines().next().unwrap().to_string()).collect();
    assert_eq!(
        heads,
        vec!["export interface A {", "export interface Ab {", "export interface Zed {", "export interface b {"]
    );
    assert_eq!(plan.routes.len(), 1);
}

#[test]
fn an_unsupported_type_is_reported_before_an_unsupported_route() {
    let (table, routes) = model(
        "#[tsync] struct Z { w: u128 }\n#[tsync] struct A { x: u8 }\n#[get(\"/\")] fn f() -> i128",
    );
    assert_eq!(
        emit(&table, &routes),
        Err(SyncError::UnsupportedType { file: b"a.rs".to_vec(), owner: b"Z".to_vec(), field: b"w".to_vec() })
    );
    let (table, routes) = model("#[tsync] struct A { x: u8 }\n#[get(\"/\")] fn f() -> i128");
    assert_eq!(
        emit(&table, &routes),
        Err(SyncError::UnsupportedType {
            file: b"a.rs".to_vec(),
            owner: b"f".to_vec(),
            field: b"response".to_vec(),
        })
    );
}

#[test]
fn the_text_of_a_plan_is_its_blocks_in_order() {
    let plan = EmissionPlan {
        types: vec![b"a".to_vec(), b"".to_vec(), b"bc".to_vec()],
        routes: vec![b"d".to_vec(), b"e".to_vec()],
    };
    assert_eq!(plan.render(), b"abcde".to_vec());
    assert_eq!(EmissionPlan { types: vec![], routes: vec![] }.render(), Vec::<u8>::new());
}

#[test]
fn a_type_that_many_refer_to_is_emitted_once() {
    let (table, routes) = model(
        "#[tsync] struct Item { tag: Tag }\n#[tsync] struct Tag { parent: Option<Tag> }\n\
         #[tsync] struct Page { items: Vec<Item>, tags: Vec<Tag> }\n\
         #[get(\"/a\")] fn a() -> Page\n#[get(\"/b\")] fn b() -> Item\n#[post(\"/c\")] fn c(t: Json<Tag>) -> Tag",
    );
    let out = String::from_utf8(emit(&table, &routes).unwrap().render()).unwrap();
    assert_eq!(out.matches("export interface Tag {").count(), 1);
    assert_eq!(out.matches("export interface Item {").count(), 1);
    assert_eq!(out.matches("export interface Page {").count(), 1);
    assert_eq!(out.matches("export ").count(), 6);
}

#[test]
fn a_recursive_type_is_rendered_by_name() {
    let (table, routes) = model(
        "#[tsync] struct Node { next: Option<Node>, peers: Vec<Node> }\n\
         #[tsync] struct Ping { pong: Pong }\n#[tsync] struct Pong { ping: Option<Ping> }",
    );
    let out = String::from_utf8(emit(&table, &routes).unwrap().render()).unwrap();
    assert_eq!(
        out,
        "export interface Node {\n  next?: Node;\n  peers: Array<Node>;\n}\n\
         export interface Ping {\n  pong: Pong;\n}\nexport interface Pong {\n  ping?: Ping;\n}\n"
    );
}
