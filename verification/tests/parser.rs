use create_rust_app::lexer::tokenize;
use create_rust_app::model::{
    Field, Kind, Method, Primitive, RouteDecl, SourceUnit, SyncError, TypeDecl, TypeRef,
};
use create_rust_app::parser::{
    make_member, method_for, parse_field, parse_fields, parse_source, parse_type, Parsed,
};

fn unit(text: &str) -> SourceUnit {
    SourceUnit { path: b"src/api.rs".to_vec(), text: text.as_bytes().to_vec() }
}

fn named(name: &str) -> TypeRef {
    TypeRef::NamedType(name.as_bytes().to_vec())
}

fn field(name: &str, ty: TypeRef) -> Field {
    Field { name: name.as_bytes().to_vec(), ty, optional: false }
}

fn optional(name: &str, ty: TypeRef) -> Field {
    Field { name: name.as_bytes().to_vec(), ty, optional: true }
}

fn malformed(offset: usize) -> Result<Parsed, SyncError> {
    Err(SyncError::MalformedDeclaration { file: b"src/api.rs".to_vec(), offset })
}

fn types_of(text: &str) -> Vec<TypeDecl> {
    parse_source(&unit(text)).unwrap().types
}

fn routes_of(text: &str) -> Vec<RouteDecl> {
    parse_source(&unit(text)).unwrap().routes
}

#[test]
fn a_file_without_markers_has_no_declarations() {
    let parsed = parse_source(&unit("struct Plain { a: u8 }\nfn get() {}\n"));
    assert_eq!(parsed, Ok(Parsed { types: vec![], routes: vec![] }));
    assert_eq!(parse_source(&unit("")), Ok(Parsed { types: vec![], routes: vec![] }));
}

#[test]
fn a_struct_is_a_product() {
    let decls = types_of("#[tsync]\npub struct Item {\n    pub id: i32,\n    name: String,\n}\n");
    assert_eq!(
        decls,
        vec![TypeDecl {
            name: b"Item".to_vec(),
            kind: Kind::Product,
            fields: vec![field("id", named("i32")), field("name", named("String"))],
            file: b"src/api.rs".to_vec(),
        }]
    );
}

#[test]
fn an_enum_is_a_sum() {
    let decls = types_of("#[tsync] enum Reply { Found(Item), Missing(Option<String>) }");
    assert_eq!(
        decls,
        vec![TypeDecl {
            name: b"Reply".to_vec(),
            kind: Kind::Sum,
            fields: vec![field("Found", named("Item")), optional("Missing", named("String"))],
            file: b"src/api.rs".to_vec(),
        }]
    );
}

#[test]
fn an_empty_body_is_well_formed() {
    assert_eq!(types_of("#[tsync] struct Unit {}")[0].fields, vec![]);
    assert_eq!(types_of("#[tsync] enum Never {}")[0].kind, Kind::Sum);
}

#[test]
fn the_last_comma_is_optional() {
    let with = types_of("#[tsync] struct A { x: u8, y: u8, }");
    let without = types_of("#[tsync] struct A { x: u8, y: u8 }");
    assert_eq!(with, without);
    assert_eq!(with[0].fields.len(), 2);
}

#[test]
fn comments_inside_a_declaration_are_skipped() {
    let decls = types_of("#[tsync] struct A {\n /* columns */\n x: u8, // first\n}");
    assert_eq!(decls[0].fields, vec![field("x", named("u8"))]);
}

#[test]
fn wrappers_nest() {
    let decls = types_of("#[tsync] struct A { m: HashMap<String, Vec<Option<B>>>, t: BTreeMap<u8, B> }");
    let inner = TypeRef::List(Box::new(TypeRef::Optional(Box::new(named("B")))));
    assert_eq!(
        decls[0].fields,
        vec![
            field("m", TypeRef::MapOf(Box::new(named("String")), Box::new(inner))),
            field("t", TypeRef::MapOf(Box::new(named("u8")), Box::new(named("B")))),
        ]
    );
}

#[test]
fn only_the_outermost_option_makes_a_member_optional() {
    let decls = types_of("#[tsync] struct A { x: Option<Option<u8>>, y: Vec<Option<u8>> }");
    assert_eq!(
        decls[0].fields,
        vec![
            optional("x", TypeRef::Optional(Box::new(named("u8")))),
            field("y", TypeRef::List(Box::new(TypeRef::Optional(Box::new(named("u8")))))),
        ]
    );
}

#[test]
fn a_field_without_a_type_is_malformed() {
    assert_eq!(parse_source(&unit("#[tsync] struct A { x }")), malformed(0));
    assert_eq!(parse_source(&unit("#[tsync] struct A { x: }")), malformed(0));
    assert_eq!(parse_source(&unit("#[tsync] struct A { x: u8")), malformed(0));
}

#[test]
fn the_offset_is_that_of_the_marker() {
    assert_eq!(parse_source(&unit("fn a() {}\n#[tsync] struct A { x }")), malformed(10));
    let two = "#[tsync] struct A { x: u8 }\n#[tsync] struct B(u8);";
    assert_eq!(parse_source(&unit(two)), malformed(28));
}

#[test]
fn a_marker_that_nothing_follows_is_malformed() {
    assert_eq!(parse_source(&unit("#[tsync]")), malformed(0));
    assert_eq!(parse_source(&unit("#[tsync] fn f() {}")), malformed(0));
    assert_eq!(parse_source(&unit("#[tsync] #[derive(Debug)] struct A {}")), malformed(0));
}

#[test]
fn an_unknown_wrapper_is_malformed() {
    assert_eq!(parse_source(&unit("#[tsync] struct A { x: Box<u8> }")), malformed(0));
    assert_eq!(parse_source(&unit("#[tsync] struct A { x: Vec<u8, u8> }")), malformed(0));
    assert_eq!(parse_source(&unit("#[tsync] struct A { x: HashMap<u8> }")), malformed(0));
}

#[test]
fn a_variant_without_a_payload_is_malformed() {
    assert_eq!(parse_source(&unit("#[tsync] enum A { X, Y }")), malformed(0));
}

#[test]
fn other_attributes_are_skipped() {
    let text = "#[derive(Debug)]\nstruct Hidden { x: }\n#[tsynced] struct B { }\n#[test] fn t() {}";
    assert_eq!(parse_source(&unit(text)), Ok(Parsed { types: vec![], routes: vec![] }));
}

#[test]
fn a_handler_is_a_route() {
    let text = "#[put(\"/items/{id}\")]\npub async fn update(id: Path<u32>, dry: Query<Option<bool>>, \
                page: Query<u8>, item: Json<Item>) -> Vec<Item> { body() }";
    assert_eq!(
        routes_of(text),
        vec![RouteDecl {
            method: Method::Put,
            path: b"/items/{id}".to_vec(),
            name: b"update".to_vec(),
            path_params: vec![field("id", named("u32"))],
            query_params: vec![optional("dry", named("bool")), field("page", named("u8"))],
            body: Some(named("Item")),
            response: TypeRef::List(Box::new(named("Item"))),
            file: b"src/api.rs".to_vec(),
        }]
    );
}

#[test]
fn a_handler_needs_neither_pub_nor_async_nor_parameters() {
    let routes = routes_of("#[delete(\"/all\")] fn wipe() -> bool");
    assert_eq!(routes.len(), 1);
    assert_eq!(routes[0].method, Method::Delete);
    assert_eq!(routes[0].name, b"wipe".to_vec());
    assert_eq!(routes[0].path_params, vec![]);
    assert_eq!(routes[0].query_params, vec![]);
    assert_eq!(routes[0].body, None);
    assert_eq!(routes[0].response, named("bool"));
}

#[test]
fn an_optional_path_parameter_keeps_its_type() {
    let routes = routes_of("#[get(\"/a/{x}\")] fn a(x: Path<Option<u8>>) -> u8");
    assert_eq!(routes[0].path_params, vec![field("x", TypeRef::Optional(Box::new(named("u8"))))]);
}

#[test]
fn a_handler_without_a_response_type_is_malformed() {
    assert_eq!(parse_source(&unit("#[get(\"/a\")] fn a() { }")), malformed(0));
    assert_eq!(parse_source(&unit("#[get(\"/a\")] fn a()")), malformed(0));
}

#[test]
fn a_parameter_outside_the_three_wrappers_is_malformed() {
    assert_eq!(parse_source(&unit("#[get(\"/a\")] fn a(db: Data<Pool>) -> u8")), malformed(0));
    assert_eq!(parse_source(&unit("#[get(\"/a\")] fn a(x: u8) -> u8")), malformed(0));
}

#[test]
fn a_second_body_is_malformed() {
    let text = "#[post(\"/a\")] fn a(x: Json<A>, y: Json<B>) -> u8";
    assert_eq!(parse_source(&unit(text)), malformed(0));
}

#[test]
fn a_route_marker_without_a_path_is_malformed() {
    assert_eq!(parse_source(&unit("#[get(path)] fn a() -> u8")), malformed(0));
    assert_eq!(parse_source(&unit("#[get(\"/a\", extra)] fn a() -> u8")), malformed(0));
}

#[test]
fn an_attribute_of_another_name_is_no_route_marker() {
    let text = "#[head(\"/a\")] fn a() {}\n#[get] fn b() {}";
    assert_eq!(parse_source(&unit(text)), Ok(Parsed { types: vec![], routes: vec![] }));
}

#[test]
fn declarations_come_in_the_order_of_their_markers() {
    let text = "#[tsync] struct B {}\n#[get(\"/z\")] fn z() -> B\n#[tsync] struct A {}\n#[get(\"/a\")] fn a() -> A";
    let parsed = parse_source(&unit(text)).unwrap();
    let types: Vec<Vec<u8>> = parsed.types.iter().map(|d| d.name.clone()).collect();
    let routes: Vec<Vec<u8>> = parsed.routes.iter().map(|r| r.name.clone()).collect();
    assert_eq!(types, vec![b"B".to_vec(), b"A".to_vec()]);
    assert_eq!(routes, vec![b"z".to_vec(), b"a".to_vec()]);
}

#[test]
fn method_words_are_lower_case() {
    assert_eq!(method_for(b"get"), Some(Method::Get));
    assert_eq!(method_for(b"post"), Some(Method::Post));
    assert_eq!(method_for(b"put"), Some(Method::Put));
    assert_eq!(method_for(b"patch"), Some(Method::Patch));
    assert_eq!(method_for(b"delete"), Some(Method::Delete));
    assert_eq!(method_for(b"GET"), None);
    assert_eq!(method_for(b""), None);
}

#[test]
fn parse_type_gives_the_position_after_the_type() {
    let toks = tokenize(b"Vec<Item> rest");
    assert_eq!(parse_type(&toks, 0), Some((TypeRef::List(Box::new(named("Item"))), 4)));
    assert_eq!(parse_type(&toks, 2), Some((named("Item"), 3)));
    assert_eq!(parse_type(&toks, 1), None);
    assert_eq!(parse_type(&toks, 9), None);
}

#[test]
fn parse_field_by_kind() {
    let toks = tokenize(b"pub a: u8, B(u8)");
    assert_eq!(parse_field(&toks, 0, Kind::Product), Some((field("a", named("u8")), 4)));
    assert_eq!(parse_field(&toks, 5, Kind::Sum), Some((field("B", named("u8")), 9)));
    assert_eq!(parse_field(&toks, 0, Kind::Sum), None);
    assert_eq!(parse_field(&toks, 5, Kind::Product), None);
}

#[test]
fn parse_fields_stops_after_the_brace() {
    let toks = tokenize(b"a: u8, b: u8 } c");
    assert_eq!(
        parse_fields(&toks, 0, Kind::Product),
        Some((vec![field("a", named("u8")), field("b", named("u8"))], 8))
    );
    assert_eq!(parse_fields(&toks, 8, Kind::Product), None);
}

#[test]
fn make_member_unwraps_one_option() {
    assert_eq!(make_member(b"a".to_vec(), named("u8")), field("a", named("u8")));
    assert_eq!(
        make_member(b"a".to_vec(), TypeRef::Optional(Box::new(named("u8")))),
        optional("a", named("u8"))
    );
    assert_eq!(
        make_member(b"a".to_vec(), TypeRef::Primitive(Primitive::Bool)),
        field("a", TypeRef::Primitive(Primitive::Bool))
    );
}
