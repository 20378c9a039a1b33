use feet::codec::Value;
use feet::error::StoreError;
use feet::lines::{get_row_num, Key};
use feet::names::TableName;
use feet::schema::{ColumnType, Schema};
use feet::store::{Config, CsvStore, DirEntry, EntryKind, TableData};

const PEOPLE: &str = "id,name\n1,Alice\n2,Bob\n";

fn store(ignores: &[&str]) -> CsvStore {
    CsvStore::new(Config {
        data_dir: "/data".to_string(),
        ignores: ignores.iter().map(|s| s.to_string()).collect(),
    })
}

fn text(s: &str) -> Value {
    Value::Text(s.to_string())
}

fn entry(name: &str, kind: EntryKind, content: &str) -> DirEntry {
    DirEntry { file_name: name.to_string(), kind, content: content.to_string() }
}

#[test]
fn insert_rows_overwrites_in_place() {
    let out = store(&[])
        .insert_data(PEOPLE, &vec![(Key::I32(1), vec![Value::Int(2), text("Bobby")])])
        .unwrap();
    assert_eq!(out, "id,name\n1,Alice\n2,Bobby\n");
}

#[test]
fn delete_rows_removes_targets_only() {
    let out = store(&[]).delete_data(PEOPLE, &vec![Key::I32(0)]).unwrap();
    assert_eq!(out, "id,name\n2,Bob\n");
}

#[test]
fn delete_rows_keeps_trailing_lines() {
    let content = "h\na\nb\nc\nd\n";
    let out = store(&[]).delete_data(content, &vec![Key::I32(2), Key::I32(0)]).unwrap();
    assert_eq!(out, "h\nb\nd\n");
    let none = store(&[]).delete_data(content, &vec![]).unwrap();
    assert_eq!(none, content);
    let beyond = store(&[]).delete_data(content, &vec![Key::I32(9)]).unwrap();
    assert_eq!(beyond, content);
}

#[test]
fn listing_leaves_out_ignored_names() {
    let entries = vec![entry("t.csv", EntryKind::File, PEOPLE), entry("t.bak", EntryKind::File, "")];
    let nodes = store(&["*.bak"])
        .list_tables(TableName::new(vec![], "/data".to_string()), &entries)
        .unwrap();
    assert_eq!(nodes.len(), 1);
    assert_eq!(nodes[0].name.parts, vec!["t".to_string()]);
    match &nodes[0].data {
        TableData::Table(schema) => {
            assert_eq!(schema.table_name, "t");
            assert_eq!(
                schema.columns,
                vec![("id".to_string(), ColumnType::Int), ("name".to_string(), ColumnType::String)]
            );
        }
        TableData::Dir => panic!("expected a table"),
    }
}

#[test]
fn listing_fails_on_unknown_entries() {
    let s = store(&[]);
    let root = || TableName::new(vec![], "/data".to_string());
    let bak = vec![entry("t.bak", EntryKind::File, "")];
    assert_eq!(s.list_tables(root(), &bak).unwrap_err(), StoreError::InvalidExtension);
    let readme = vec![entry("README", EntryKind::File, "")];
    assert_eq!(s.list_tables(root(), &readme).unwrap_err(), StoreError::NotFileOrDirectory);
    let socket = vec![entry("sock", EntryKind::Other, "")];
    assert_eq!(s.list_tables(root(), &socket).unwrap_err(), StoreError::NotFileOrDirectory);
}

#[test]
fn listing_reports_namespaces() {
    let entries = vec![entry("sub", EntryKind::Directory, ""), entry("a.csv", EntryKind::File, "x\n")];
    let dir = TableName::new(vec!["ns".to_string()], "/data".to_string());
    let nodes = store(&[]).list_tables(dir, &entries).unwrap();
    assert_eq!(nodes.len(), 2);
    assert_eq!(nodes[0].name.parts, vec!["ns".to_string(), "sub".to_string()]);
    assert!(matches!(nodes[0].data, TableData::Dir));
    assert_eq!(nodes[1].name.parts, vec!["ns".to_string(), "a".to_string()]);
}

#[test]
fn invalid_ignore_pattern_is_reported() {
    assert_eq!(store(&["a[".to_string().as_str()]).should_ignore("x"), Err(StoreError::InvalidPattern));
    assert_eq!(store(&["*.bak", ".git"]).should_ignore(".git"), Ok(true));
    assert_eq!(store(&["*.bak"]).should_ignore("t.csv"), Ok(false));
}

#[test]
fn tilde_is_expanded_and_other_dirs_are_kept() {
    assert_eq!(store(&[]).data_dir, "/data");
    let home = CsvStore::new(Config { data_dir: "~/feet".to_string(), ignores: vec![] });
    assert!(home.data_dir.ends_with("/feet"));
    let d = Config::default();
    assert_eq!(d.data_dir, "~/feet");
    assert_eq!(d.ignores, vec![".git".to_string()]);
}

#[test]
fn csv_path_of_identifier() {
    assert_eq!(store(&[]).csv_path("a/b"), Ok("/data/a/b.csv".to_string()));
    assert_eq!(store(&[]).csv_path("a.txt"), Err(StoreError::InvalidExtension));
}

#[test]
fn fetch_schema_of_missing_file_is_none() {
    assert!(store(&[]).fetch_schema("t", None).unwrap().is_none());
    let schema = store(&[]).fetch_schema("t", Some(PEOPLE)).unwrap().unwrap();
    assert_eq!(schema.table_name, "t");
    assert_eq!(schema.columns.len(), 2);
}

#[test]
fn fetch_row_by_ordinal() {
    let s = store(&[]);
    assert_eq!(s.fetch_data(&Key::I32(1), PEOPLE), Ok(Some(vec![Value::Int(2), text("Bob")])));
    assert_eq!(s.fetch_data(&Key::I32(2), PEOPLE), Ok(None));
    assert_eq!(s.fetch_data(&Key::I32(-1), PEOPLE), Err(StoreError::InvalidKey));
    assert_eq!(s.fetch_data(&Key::Other, PEOPLE), Err(StoreError::InvalidKey));
}

#[test]
fn scan_yields_ordinals_in_file_order() {
    let rows = store(&[]).scan_data(PEOPLE).unwrap();
    assert_eq!(
        rows,
        vec![(0, vec![Value::Int(1), text("Alice")]), (1, vec![Value::Int(2), text("Bob")])]
    );
    assert_eq!(store(&[]).scan_data("a,b\n1\n"), Err(StoreError::MalformedRecord));
}

#[test]
fn append_then_scan_keeps_order() {
    let s = store(&[]);
    let added = s
        .append_data(&vec![vec![Value::Int(3), text("Cy")], vec![Value::Int(4), text("Di")]])
        .unwrap();
    assert_eq!(added, "3,Cy\n4,Di\n");
    let content = format!("{}{}", PEOPLE, added);
    let rows = s.scan_data(&content).unwrap();
    let ids: Vec<Value> = rows.into_iter().map(|(_, r)| r[0].clone()).collect();
    assert_eq!(ids, vec![Value::Int(1), Value::Int(2), Value::Int(3), Value::Int(4)]);
}

#[test]
fn insert_past_end_pads_with_blank_lines() {
    let out = store(&[]).insert_data(PEOPLE, &vec![(Key::I32(4), vec![Value::Int(9), text("Z")])]).unwrap();
    assert_eq!(out, "id,name\n1,Alice\n2,Bob\n\n\n9,Z\n");
}

#[test]
fn insert_later_row_wins_on_equal_ordinals() {
    let rows = vec![(Key::I32(0), vec![Value::Int(7), text("A")]), (Key::I32(0), vec![Value::Int(8), text("B")])];
    let out = store(&[]).insert_data(PEOPLE, &rows).unwrap();
    assert_eq!(out, "id,name\n8,B\n2,Bob\n");
}

#[test]
fn insert_errors() {
    let s = store(&[]);
    assert_eq!(s.insert_data(PEOPLE, &vec![(Key::Other, vec![])]), Err(StoreError::InvalidKey));
    assert_eq!(
        s.insert_data(PEOPLE, &vec![(Key::I32(0), vec![Value::Other("Uuid".to_string())])]),
        Err(StoreError::UnsupportedValue)
    );
    assert_eq!(s.delete_data(PEOPLE, &vec![Key::I32(-3)]), Err(StoreError::InvalidKey));
}

#[test]
fn create_and_drop_table_paths() {
    let s = store(&[]);
    let schema = Schema {
        table_name: "ns/t".to_string(),
        columns: vec![("id".to_string(), ColumnType::Int), ("name".to_string(), ColumnType::String)],
    };
    let (path, header) = s.insert_schema(&schema).unwrap();
    assert_eq!(path, "/data/ns/t.csv");
    assert_eq!(header, "id,name\n");
    assert_eq!(s.delete_schema("ns/t"), Ok("/data/ns/t.csv".to_string()));
}

#[test]
fn row_numbers_from_keys() {
    assert_eq!(get_row_num(&Key::I32(5)), Ok(5));
    assert_eq!(get_row_num(&Key::I32(-5)), Err(StoreError::InvalidKey));
}

#[test]
fn every_error_has_a_message() {
    assert_eq!(StoreError::PathEscapesRoot.message(), "path is not in data directory");
    assert_eq!(StoreError::MissingFile.message(), "table file is missing");
    assert_eq!(StoreError::IOError.message(), "i/o error");
}
