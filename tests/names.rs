use feet::error::StoreError;
use feet::names::{components_of, TableIdentifier, TableName, TablePath};

fn s(x: &str) -> String {
    x.to_string()
}

fn parts(n: &TableName) -> Vec<String> {
    n.parts.clone()
}

#[test]
fn name_to_path_and_back_is_identity() {
    let name = TableName::new(vec![s("sales"), s("q1")], s("/data"));
    let path = TablePath::try_from_name(name).expect("valid name");
    assert_eq!(path.clone().as_csv(), "/data/sales/q1.csv");
    assert_eq!(path.clone().as_dir(), "/data/sales/q1");
    let back = TableName::try_from_path(path).expect("under root");
    assert_eq!(parts(&back), vec![s("sales"), s("q1")]);
    assert_eq!(back.root, "/data");
}

#[test]
fn identifier_round_trips_through_path() {
    let id = TableIdentifier::new(s("a/b/c"), s("/root/tables"));
    let path = TablePath::try_from_identifier(id).expect("valid identifier");
    assert_eq!(path.clone().as_csv(), "/root/tables/a/b/c.csv");
    let id2 = TableIdentifier::try_from_path(path).expect("under root");
    assert_eq!(id2.as_str(), "a/b/c");
}

#[test]
fn identifier_splits_on_slashes_keeping_empty_pieces() {
    let name = TableName::from_identifier(TableIdentifier::new(s("a//b"), s("/r")));
    assert_eq!(parts(&name), vec![s("a"), s(""), s("b")]);
    let empty = TableName::from_identifier(TableIdentifier::new(s(""), s("/r")));
    assert_eq!(parts(&empty), vec![s("")]);
}

#[test]
fn empty_identifier_is_the_root_directory() {
    let path = TablePath::try_from_identifier(TableIdentifier::new(s(""), s("/r"))).unwrap();
    assert_eq!(path.clone().as_dir(), "/r");
    let name = TableName::try_from_path(path).unwrap();
    assert!(name.parts.is_empty());
}

#[test]
fn csv_extension_is_dropped() {
    let path = TablePath::try_new(s("/data/x/t.csv"), s("/data")).unwrap();
    assert_eq!(path.clone().as_dir(), "/data/x/t");
    assert_eq!(path.as_csv(), "/data/x/t.csv");
}

#[test]
fn other_extension_is_refused() {
    let err = TablePath::try_new(s("/data/t.bak"), s("/data")).unwrap_err();
    assert_eq!(err, StoreError::InvalidExtension);
    let name = TableName::new(vec![s("notes.txt")], s("/data"));
    assert_eq!(TablePath::try_from_name(name).unwrap_err(), StoreError::InvalidExtension);
}

#[test]
fn hidden_file_has_no_extension() {
    let path = TablePath::try_new(s("/data/.hidden"), s("/data")).unwrap();
    assert_eq!(path.as_dir(), "/data/.hidden");
}

#[test]
fn path_outside_root_escapes() {
    let path = TablePath::try_new(s("/elsewhere/t.csv"), s("/data")).unwrap();
    assert_eq!(TableName::try_from_path(path).unwrap_err(), StoreError::PathEscapesRoot);
    let rel = TablePath::try_new(s("data/t.csv"), s("/data")).unwrap();
    assert_eq!(TableName::try_from_path(rel).unwrap_err(), StoreError::PathEscapesRoot);
}

#[test]
fn parent_component_escapes() {
    let name = TableName::new(vec![s(".."), s("secret")], s("/data"));
    let path = TablePath::try_from_name(name).unwrap();
    assert_eq!(TableName::try_from_path(path).unwrap_err(), StoreError::PathEscapesRoot);
}

#[test]
fn components_skip_empty_and_dot() {
    assert_eq!(components_of("/a//./b/"), vec![s("a"), s("b")]);
    assert!(components_of("").is_empty());
}

#[test]
fn last_component() {
    let name = TableName::new(vec![s("a"), s("b")], s("/r"));
    assert_eq!(name.last(), Some(s("b")));
    assert_eq!(TableName::new(vec![], s("/r")).last(), None);
}

#[test]
fn relative_root_stays_relative() {
    let path = TablePath::try_from_name(TableName::new(vec![s("t")], s(""))).unwrap();
    assert_eq!(path.clone().as_csv(), "t.csv");
    let name = TableName::try_from_path(path).unwrap();
    assert_eq!(parts(&name), vec![s("t")]);
}
