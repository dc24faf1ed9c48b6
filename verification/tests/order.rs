use create_rust_app::bytes::{comes_before, is_word, put, put_bytes, same_bytes, slice_of, word};
use create_rust_app::model::{Kind, TypeDecl};
use create_rust_app::order::{sort, Ranked};

fn decl(name: &str, file: &str) -> TypeDecl {
    TypeDecl { name: name.as_bytes().to_vec(), kind: Kind::Product, fields: vec![], file: file.as_bytes().to_vec() }
}

#[test]
fn the_lexicographic_order_of_bytes() {
    assert!(comes_before(b"", b"a"));
    assert!(comes_before(b"a", b"b"));
    assert!(comes_before(b"a", b"aa"));
    assert!(comes_before(b"Z", b"a"));
    assert!(comes_before(b"ab", b"b"));
    assert!(!comes_before(b"", b""));
    assert!(!comes_before(b"a", b"a"));
    assert!(!comes_before(b"b", b"a"));
    assert!(!comes_before(b"aa", b"a"));
    assert!(!comes_before(b"a", b""));
    assert!(comes_before(&[0x7f], &[0x80]));
}

#[test]
fn equality_of_bytes() {
    assert!(same_bytes(b"", b""));
    assert!(same_bytes(b"abc", b"abc"));
    assert!(!same_bytes(b"abc", b"abd"));
    assert!(!same_bytes(b"abc", b"ab"));
    assert!(is_word(b"struct", "struct"));
    assert!(!is_word(b"struct", "enum"));
    assert!(!is_word(b"", "enum"));
}

#[test]
fn appending_and_slicing() {
    let mut out = b"a".to_vec();
    put(&mut out, "bc");
    put(&mut out, "");
    put_bytes(&mut out, b"de");
    assert_eq!(out, b"abcde".to_vec());
    assert_eq!(word("fn"), b"fn".to_vec());
    assert_eq!(slice_of(b"abcde", 1, 3), b"bc".to_vec());
    assert_eq!(slice_of(b"abcde", 2, 2), Vec::<u8>::new());
    assert_eq!(slice_of(b"abcde", 0, 5), b"abcde".to_vec());
}

#[test]
fn sorting_is_by_key() {
    let sorted = sort(vec![decl("c", ""), decl("a", ""), decl("b", ""), decl("", ""), decl("B", "")]);
    let names: Vec<Vec<u8>> = sorted.into_iter().map(|d| d.name).collect();
    assert_eq!(names, vec![b"".to_vec(), b"B".to_vec(), b"a".to_vec(), b"b".to_vec(), b"c".to_vec()]);
}

#[test]
fn sorting_keeps_the_order_of_equal_keys() {
    let sorted = sort(vec![decl("b", "1"), decl("a", "2"), decl("b", "3"), decl("a", "4"), decl("b", "5")]);
    assert_eq!(sorted, vec![decl("a", "2"), decl("a", "4"), decl("b", "1"), decl("b", "3"), decl("b", "5")]);
}

#[test]
fn sorting_nothing_gives_nothing() {
    assert_eq!(sort(Vec::<TypeDecl>::new()), vec![]);
    assert_eq!(sort(vec![decl("a", "")]), vec![decl("a", "")]);
}

#[test]
fn ranks_before_is_strict() {
    assert!(decl("a", "").ranks_before(&decl("b", "")));
    assert!(!decl("b", "").ranks_before(&decl("a", "")));
    assert!(!decl("a", "x").ranks_before(&decl("a", "y")));
}
