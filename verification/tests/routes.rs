use create_rust_app::model::{Field, Kind, Method, Primitive, RouteDecl, SourceUnit, SyncError, TypeDecl, TypeRef};
use create_rust_app::parser::parse_source;
use create_rust_app::resolver::SymbolTable;
use create_rust_app::routes::{build_route, build_routes, check_path, placeholders_in};

fn named(name: &str) -> TypeRef {
    TypeRef::NamedType(name.as_bytes().to_vec())
}

fn field(name: &str, ty: TypeRef) -> Field {
    Field { name: name.as_bytes().to_vec(), ty, optional: false }
}

fn table() -> SymbolTable {
    let item = TypeDecl { name: b"Item".to_vec(), kind: Kind::Product, fields: vec![], file: b"m.rs".to_vec() };
    SymbolTable::build(&vec![item]).unwrap()
}

fn routes(text: &str) -> Vec<RouteDecl> {
    parse_source(&SourceUnit { path: b"h.rs".to_vec(), text: text.as_bytes().to_vec() }).unwrap().routes
}

fn names(routes: &[RouteDecl]) -> Vec<String> {
    routes.iter().map(|r| String::from_utf8(r.name.clone()).unwrap()).collect()
}

#[test]
fn placeholders_stand_between_braces() {
    assert_eq!(placeholders_in(b"/items"), Vec::<Vec<u8>>::new());
    assert_eq!(placeholders_in(b""), Vec::<Vec<u8>>::new());
    assert_eq!(placeholders_in(b"/items/{id}"), vec![b"id".to_vec()]);
    assert_eq!(placeholders_in(b"/a/{x}/b/{y}"), vec![b"x".to_vec(), b"y".to_vec()]);
    assert_eq!(placeholders_in(b"{a}{b}"), vec![b"a".to_vec(), b"b".to_vec()]);
    assert_eq!(placeholders_in(b"/{}"), vec![b"".to_vec()]);
}

#[test]
fn an_open_placeholder_runs_to_the_end() {
    assert_eq!(placeholders_in(b"/a/{id"), vec![b"id".to_vec()]);
    assert_eq!(placeholders_in(b"/a/{"), vec![b"".to_vec()]);
    assert_eq!(placeholders_in(b"/a/}"), Vec::<Vec<u8>>::new());
}

#[test]
fn a_placeholder_with_its_parameter_resolves() {
    let raw = routes("#[get(\"/items/{id}\")] fn get_item(id: Path<String>) -> Item");
    let built = build_routes(&table(), &raw).unwrap();
    assert_eq!(built.len(), 1);
    assert_eq!(built[0].path_params, vec![field("id", TypeRef::Primitive(Primitive::Text))]);
    assert_eq!(built[0].response, named("Item"));
}

#[test]
fn a_parameter_under_another_name_is_a_mismatch() {
    let raw = routes("#[get(\"/items/{id}\")] fn get_item(itemId: Path<String>) -> Item");
    assert_eq!(
        build_routes(&table(), &raw),
        Err(SyncError::PathParamMismatch {
            file: b"h.rs".to_vec(),
            owner: b"get_item".to_vec(),
            param: b"id".to_vec(),
        })
    );
}

#[test]
fn a_parameter_without_a_placeholder_is_a_mismatch() {
    let params = vec![field("a", named("u8")), field("b", named("u8"))];
    assert_eq!(check_path(b"/x/{a}", &params), Some(b"b".to_vec()));
    assert_eq!(check_path(b"/x", &params), Some(b"a".to_vec()));
    assert_eq!(check_path(b"/x/{b}/{a}", &params), None);
    assert_eq!(check_path(b"/x/{a}/{c}/{b}", &params), Some(b"c".to_vec()));
    assert_eq!(check_path(b"/x", &vec![]), None);
    assert_eq!(check_path(b"/x/{a}/{a}", &params[..1].to_vec()), None);
}

#[test]
fn query_parameters_need_no_placeholder() {
    let raw = routes("#[get(\"/items\")] fn list(page: Query<u32>) -> Vec<Item>");
    assert!(build_routes(&table(), &raw).is_ok());
}

#[test]
fn unknown_types_name_the_parameter() {
    let unknown = |field: &str| {
        Err(SyncError::UnknownType {
            name: b"Ghost".to_vec(),
            file: b"h.rs".to_vec(),
            owner: b"f".to_vec(),
            field: field.as_bytes().to_vec(),
        })
    };
    let t = table();
    assert_eq!(build_routes(&t, &routes("#[get(\"/{p}\")] fn f(p: Path<Ghost>) -> Item")), unknown("p"));
    assert_eq!(build_routes(&t, &routes("#[get(\"/\")] fn f(q: Query<Vec<Ghost>>) -> Item")), unknown("q"));
    assert_eq!(build_routes(&t, &routes("#[post(\"/\")] fn f(b: Json<Ghost>) -> Item")), unknown("body"));
    assert_eq!(build_routes(&t, &routes("#[get(\"/\")] fn f() -> Option<Ghost>")), unknown("response"));
}

#[test]
fn an_unknown_type_is_reported_before_a_mismatch() {
    let raw = routes("#[get(\"/{x}\")] fn f(y: Path<Ghost>) -> Item");
    assert!(matches!(build_routes(&table(), &raw), Err(SyncError::UnknownType { .. })));
}

#[test]
fn two_handlers_for_one_method_and_path_are_a_duplicate() {
    let raw = routes(
        "#[get(\"/a\")] fn first() -> Item\n#[post(\"/a\")] fn other() -> Item\n#[get(\"/a\")] fn second() -> u8",
    );
    assert_eq!(
        build_routes(&table(), &raw),
        Err(SyncError::DuplicateRoute {
            method: Method::Get,
            path: b"/a".to_vec(),
            file: b"h.rs".to_vec(),
            owner: b"second".to_vec(),
        })
    );
}

#[test]
fn one_path_under_two_methods_is_no_duplicate() {
    let raw = routes("#[get(\"/a\")] fn a() -> Item\n#[post(\"/a\")] fn b() -> Item");
    assert_eq!(build_routes(&table(), &raw).map(|r| r.len()), Ok(2));
}

#[test]
fn routes_are_ordered_by_path_then_method() {
    let raw = routes(
        "#[put(\"/b\")] fn put_b() -> u8\n#[get(\"/b\")] fn get_b() -> u8\n#[post(\"/a\")] fn post_a() -> u8\n\
         #[delete(\"/b\")] fn delete_b() -> u8\n#[patch(\"/b\")] fn patch_b() -> u8\n#[post(\"/b\")] fn post_b() -> u8\n\
         #[get(\"/a/b\")] fn get_ab() -> u8\n#[get(\"/B\")] fn get_upper() -> u8\n#[get(\"/\")] fn root() -> u8",
    );
    let built = build_routes(&table(), &raw).unwrap();
    assert_eq!(
        names(&built),
        vec!["root", "get_upper", "post_a", "get_ab", "delete_b", "get_b", "patch_b", "post_b", "put_b"]
    );
}

#[test]
fn no_handlers_give_no_routes() {
    assert_eq!(build_routes(&table(), &vec![]), Ok(vec![]));
}

#[test]
fn build_route_resolves_every_part() {
    let raw = routes("#[post(\"/i/{id}\")] fn f(id: Path<u8>, q: Query<Option<Item>>, b: Json<Vec<bool>>) -> Item");
    let built = build_route(&table(), &raw[0]).unwrap();
    assert_eq!(built.method, Method::Post);
    assert_eq!(built.path, b"/i/{id}".to_vec());
    assert_eq!(built.name, b"f".to_vec());
    assert_eq!(built.file, b"h.rs".to_vec());
    assert_eq!(built.path_params, vec![field("id", TypeRef::Primitive(Primitive::Number))]);
    assert_eq!(built.query_params, vec![Field { name: b"q".to_vec(), ty: named("Item"), optional: true }]);
    assert_eq!(built.body, Some(TypeRef::List(Box::new(TypeRef::Primitive(Primitive::Bool)))));
    assert_eq!(built.response, named("Item"));
}
