use create_rust_app::model::{SourceUnit, SyncError};
use create_rust_app::scanner::{depth_of, is_source_path, scan, ScanEntry};

fn unit(path: &str) -> SourceUnit {
    SourceUnit { path: path.as_bytes().to_vec(), text: path.to_uppercase().into_bytes() }
}

fn entry(path: &str, files: &[&str]) -> ScanEntry {
    ScanEntry { path: path.as_bytes().to_vec(), found: Some(files.iter().map(|f| unit(f)).collect()) }
}

fn paths(units: Vec<SourceUnit>) -> Vec<String> {
    units.into_iter().map(|u| String::from_utf8(u.path).unwrap()).collect()
}

#[test]
fn source_files_end_in_rs() {
    assert!(is_source_path(b"a.rs"));
    assert!(is_source_path(b".rs"));
    assert!(is_source_path(b"src/deep/mod.rs"));
    assert!(!is_source_path(b"a.ts"));
    assert!(!is_source_path(b"a.rs.bak"));
    assert!(!is_source_path(b"ars"));
    assert!(!is_source_path(b"rs"));
    assert!(!is_source_path(b""));
    assert!(!is_source_path(b"a.RS"));
}

#[test]
fn depth_counts_separators() {
    assert_eq!(depth_of(b""), 0);
    assert_eq!(depth_of(b"a.rs"), 0);
    assert_eq!(depth_of(b"src/a.rs"), 1);
    assert_eq!(depth_of(b"/src//a.rs"), 3);
}

#[test]
fn a_missing_path_is_not_found() {
    let entries = vec![
        entry("src", &["src/a.rs"]),
        ScanEntry { path: b"first".to_vec(), found: None },
        ScanEntry { path: b"second".to_vec(), found: None },
    ];
    assert_eq!(scan(&entries), Err(SyncError::NotFound { path: b"first".to_vec() }));
}

#[test]
fn a_missing_path_is_reported_before_empty_input() {
    let entries = vec![entry("docs", &["docs/a.md"]), ScanEntry { path: b"gone".to_vec(), found: None }];
    assert_eq!(scan(&entries), Err(SyncError::NotFound { path: b"gone".to_vec() }));
}

#[test]
fn no_source_file_is_empty_input() {
    assert_eq!(scan(&vec![]), Err(SyncError::EmptyInput));
    assert_eq!(scan(&vec![entry("src", &[])]), Err(SyncError::EmptyInput));
    assert_eq!(scan(&vec![entry("src", &["src/a.md", "src/rs"]), entry("b.txt", &["b.txt"])]), Err(SyncError::EmptyInput));
}

#[test]
fn sources_are_ordered_by_depth_then_path() {
    let entries = vec![
        entry("src", &["src/z/a.rs", "src/b.rs", "src/a/b/c.rs", "src/skip.txt", "src/a.rs", "src/B.rs"]),
        entry("top.rs", &["top.rs"]),
        entry("lib", &["lib/x.rs"]),
    ];
    assert_eq!(
        scan(&entries).map(paths),
        Ok(vec![
            "top.rs".to_string(),
            "lib/x.rs".to_string(),
            "src/B.rs".to_string(),
            "src/a.rs".to_string(),
            "src/b.rs".to_string(),
            "src/z/a.rs".to_string(),
            "src/a/b/c.rs".to_string(),
        ])
    );
}

#[test]
fn sources_keep_their_text() {
    let units = scan(&vec![entry("src", &["src/b.rs", "src/a.rs"])]).unwrap();
    assert_eq!(units, vec![unit("src/a.rs"), unit("src/b.rs")]);
}

#[test]
fn a_file_listed_twice_is_read_twice() {
    let first = SourceUnit { path: b"a.rs".to_vec(), text: b"first".to_vec() };
    let second = SourceUnit { path: b"a.rs".to_vec(), text: b"second".to_vec() };
    let entries = vec![
        ScanEntry { path: b"a.rs".to_vec(), found: Some(vec![first.clone()]) },
        ScanEntry { path: b".".to_vec(), found: Some(vec![second.clone()]) },
    ];
    assert_eq!(scan(&entries), Ok(vec![first, second]));
}
