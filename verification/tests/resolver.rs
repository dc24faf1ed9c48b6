use create_rust_app::model::{Field, Kind, Primitive, SourceUnit, SyncError, TypeDecl, TypeRef};
use create_rust_app::parser::parse_source;
use create_rust_app::resolver::{find_below, primitive_for, resolve_in, SymbolTable};

fn named(name: &str) -> TypeRef {
    TypeRef::NamedType(name.as_bytes().to_vec())
}

fn prim(p: Primitive) -> TypeRef {
    TypeRef::Primitive(p)
}

fn decl(file: &str, name: &str, fields: Vec<(&str, TypeRef)>) -> TypeDecl {
    TypeDecl {
        name: name.as_bytes().to_vec(),
        kind: Kind::Product,
        fields: fields
            .into_iter()
            .map(|(n, ty)| Field { name: n.as_bytes().to_vec(), ty, optional: false })
            .collect(),
        file: file.as_bytes().to_vec(),
    }
}

fn parsed(file: &str, text: &str) -> Vec<TypeDecl> {
    parse_source(&SourceUnit { path: file.as_bytes().to_vec(), text: text.as_bytes().to_vec() })
        .unwrap()
        .types
}

#[test]
fn the_primitive_table() {
    assert_eq!(primitive_for(b"bool"), Some(Primitive::Bool));
    for name in ["i8", "i16", "i32", "i64", "isize", "u8", "u16", "u32", "u64", "usize", "f32", "f64"] {
        assert_eq!(primitive_for(name.as_bytes()), Some(Primitive::Number));
    }
    for name in ["String", "str", "char"] {
        assert_eq!(primitive_for(name.as_bytes()), Some(Primitive::Text));
    }
    assert_eq!(primitive_for(b"i128"), Some(Primitive::Wide));
    assert_eq!(primitive_for(b"u128"), Some(Primitive::Wide));
    assert_eq!(primitive_for(b"string"), None);
    assert_eq!(primitive_for(b"Item"), None);
    assert_eq!(primitive_for(b""), None);
}

#[test]
fn an_empty_table_resolves() {
    let table = SymbolTable::build(&vec![]).unwrap();
    assert_eq!(table.len(), 0);
    assert_eq!(table.find(b"A"), None);
}

#[test]
fn names_become_primitives_and_references() {
    let raw = vec![
        decl("a.rs", "A", vec![("n", named("u8")), ("b", TypeRef::List(Box::new(named("B"))))]),
        decl("b.rs", "B", vec![("t", TypeRef::MapOf(Box::new(named("String")), Box::new(named("A"))))]),
    ];
    let table = SymbolTable::build(&raw).unwrap();
    assert_eq!(
        table.decls(),
        &vec![
            decl("a.rs", "A", vec![("n", prim(Primitive::Number)), ("b", TypeRef::List(Box::new(named("B"))))]),
            decl(
                "b.rs",
                "B",
                vec![("t", TypeRef::MapOf(Box::new(prim(Primitive::Text)), Box::new(named("A"))))]
            ),
        ]
    );
    assert_eq!(table.find(b"A"), Some(0));
    assert_eq!(table.find(b"B"), Some(1));
    assert_eq!(table.find(b"C"), None);
}

#[test]
fn a_forward_reference_resolves() {
    let raw = parsed("a.rs", "#[tsync] struct A { b: B }\n#[tsync] struct B { x: bool }");
    assert!(SymbolTable::build(&raw).is_ok());
}

#[test]
fn a_name_declared_in_two_files_is_a_duplicate() {
    let mut raw = parsed("src/a.rs", "#[tsync] struct Item { x: u8 }");
    raw.extend(parsed("src/b.rs", "#[tsync] struct Other { }\n#[tsync] enum Item { }"));
    assert_eq!(
        SymbolTable::build(&raw),
        Err(SyncError::DuplicateType {
            name: b"Item".to_vec(),
            first_file: b"src/a.rs".to_vec(),
            file: b"src/b.rs".to_vec(),
        })
    );
}

#[test]
fn the_first_duplicate_is_reported() {
    let raw = vec![
        decl("1.rs", "A", vec![]),
        decl("2.rs", "B", vec![]),
        decl("3.rs", "B", vec![]),
        decl("4.rs", "A", vec![]),
        decl("5.rs", "A", vec![]),
    ];
    assert_eq!(
        SymbolTable::build(&raw),
        Err(SyncError::DuplicateType {
            name: b"B".to_vec(),
            first_file: b"2.rs".to_vec(),
            file: b"3.rs".to_vec(),
        })
    );
}

#[test]
fn a_duplicate_is_reported_before_an_unknown_type() {
    let raw = vec![
        decl("1.rs", "A", vec![("x", named("Nowhere"))]),
        decl("2.rs", "A", vec![]),
    ];
    assert!(matches!(SymbolTable::build(&raw), Err(SyncError::DuplicateType { .. })));
}

#[test]
fn an_undeclared_name_is_an_unknown_type() {
    let raw = parsed("src/a.rs", "#[tsync] struct Ok { x: u8 }\n#[tsync] struct Item { a: u8, owner: Vec<User> }");
    assert_eq!(
        SymbolTable::build(&raw),
        Err(SyncError::UnknownType {
            name: b"User".to_vec(),
            file: b"src/a.rs".to_vec(),
            owner: b"Item".to_vec(),
            field: b"owner".to_vec(),
        })
    );
}

#[test]
fn the_first_unknown_name_of_a_type_is_reported() {
    let raw = vec![decl(
        "a.rs",
        "A",
        vec![("m", TypeRef::MapOf(Box::new(named("K")), Box::new(named("V"))))],
    )];
    assert_eq!(
        SymbolTable::build(&raw),
        Err(SyncError::UnknownType {
            name: b"K".to_vec(),
            file: b"a.rs".to_vec(),
            owner: b"A".to_vec(),
            field: b"m".to_vec(),
        })
    );
}

#[test]
fn a_primitive_name_wins_over_a_declaration() {
    let raw = vec![decl("a.rs", "u8", vec![]), decl("a.rs", "A", vec![("x", named("u8"))])];
    let table = SymbolTable::build(&raw).unwrap();
    assert_eq!(table.decls()[1].fields[0].ty, prim(Primitive::Number));
}

#[test]
fn a_type_that_refers_to_itself_resolves() {
    let raw = parsed("a.rs", "#[tsync] struct Node { next: Option<Node>, all: Vec<Node> }");
    let table = SymbolTable::build(&raw).unwrap();
    assert_eq!(table.decls()[0].fields[0].ty, named("Node"));
    assert!(table.decls()[0].fields[0].optional);
    assert_eq!(table.is_recursive(0), true);
}

#[test]
fn find_below_looks_below_the_limit_only() {
    let raw = vec![decl("", "A", vec![]), decl("", "B", vec![]), decl("", "A", vec![])];
    assert_eq!(find_below(&raw, 3, b"A"), Some(0));
    assert_eq!(find_below(&raw, 3, b"B"), Some(1));
    assert_eq!(find_below(&raw, 1, b"B"), None);
    assert_eq!(find_below(&raw, 0, b"A"), None);
}

#[test]
fn resolve_in_keeps_the_shape() {
    let decls = vec![decl("", "A", vec![])];
    let ty = TypeRef::Optional(Box::new(TypeRef::List(Box::new(named("A")))));
    assert_eq!(resolve_in(&decls, &ty), Ok(ty.clone()));
    assert_eq!(resolve_in(&decls, &named("bool")), Ok(prim(Primitive::Bool)));
    assert_eq!(resolve_in(&decls, &named("B")), Err(b"B".to_vec()));
    assert_eq!(resolve_in(&decls, &prim(Primitive::Wide)), Ok(prim(Primitive::Wide)));
}

#[test]
fn the_table_resolves_types_and_members() {
    let table = SymbolTable::build(&vec![decl("", "A", vec![])]).unwrap();
    assert_eq!(table.resolve(&named("A")), Ok(named("A")));
    assert_eq!(table.resolve(&named("f64")), Ok(prim(Primitive::Number)));
    assert_eq!(table.resolve(&TypeRef::List(Box::new(named("Z")))), Err(b"Z".to_vec()));
    let fields = vec![
        Field { name: b"a".to_vec(), ty: named("A"), optional: true },
        Field { name: b"z".to_vec(), ty: named("Z"), optional: false },
    ];
    assert_eq!(table.resolve_members(&fields), Err((b"z".to_vec(), b"Z".to_vec())));
    assert_eq!(table.resolve_members(&fields[..1].to_vec()), Ok(fields[..1].to_vec()));
}

#[test]
fn reachability_follows_chains_of_references() {
    // A -> B -> C -> B, D -> A, E alone
    let raw = parsed(
        "a.rs",
        "#[tsync] struct A { b: B }\n#[tsync] struct B { c: Vec<C>, n: u8 }\n\
         #[tsync] struct C { b: Option<B> }\n#[tsync] struct D { a: HashMap<String, A> }\n\
         #[tsync] struct E { x: bool }",
    );
    let table = SymbolTable::build(&raw).unwrap();
    assert_eq!(table.reachable_from(0), vec![false, true, true, false, false]);
    assert_eq!(table.reachable_from(1), vec![false, true, true, false, false]);
    assert_eq!(table.reachable_from(2), vec![false, true, true, false, false]);
    assert_eq!(table.reachable_from(3), vec![true, true, true, false, false]);
    assert_eq!(table.reachable_from(4), vec![false, false, false, false, false]);
    assert_eq!(table.recursive_types(), vec![false, true, true, false, false]);
    assert_eq!(table.is_recursive(0), false);
    assert_eq!(table.is_recursive(2), true);
}

#[test]
fn a_table_without_references_has_no_recursive_type() {
    let table = SymbolTable::build(&vec![decl("", "A", vec![("x", named("u8"))])]).unwrap();
    assert_eq!(table.recursive_types(), vec![false]);
    assert_eq!(SymbolTable::build(&vec![]).unwrap().recursive_types(), Vec::<bool>::new());
}

#[test]
fn a_name_stands_in_a_type_or_not() {
    let ty = TypeRef::MapOf(
        Box::new(named("K")),
        Box::new(TypeRef::List(Box::new(TypeRef::Optional(Box::new(named("V")))))),
    );
    assert!(create_rust_app::reach::type_mentions(&ty, b"K"));
    assert!(create_rust_app::reach::type_mentions(&ty, b"V"));
    assert!(!create_rust_app::reach::type_mentions(&ty, b"X"));
    assert!(!create_rust_app::reach::type_mentions(&prim(Primitive::Text), b"String"));
}
