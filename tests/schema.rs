use feet::codec::{encode_row, format_value, parse_records, read_csv_record, value_from_str, Value};
use feet::error::StoreError;
use feet::numbers::is_float_text;
use feet::schema::{
    column_types_from_record, determine_column_types, merge_column_types, min_column_type,
    schema_from_records, ColumnType,
};

fn rec(fields: &[&str]) -> Vec<String> {
    fields.iter().map(|f| f.to_string()).collect()
}

#[test]
fn integers_parse_with_optional_sign() {
    assert_eq!(value_from_str("42", ColumnType::Int), Ok(Value::Int(42)));
    assert_eq!(value_from_str("-7", ColumnType::Int), Ok(Value::Int(-7)));
    assert_eq!(value_from_str("+7", ColumnType::Int), Ok(Value::Int(7)));
    assert_eq!(value_from_str("9223372036854775807", ColumnType::Int), Ok(Value::Int(i64::MAX)));
    for bad in ["9223372036854775808", "", "1.0", " 1", "-", "+"] {
        assert_eq!(value_from_str(bad, ColumnType::Int), Err(StoreError::ValueParseError));
    }
}

#[test]
fn float_syntax_follows_std() {
    for ok in ["1.5", "1.", ".5", "1e10", "1E-3", "-2.5e+7", "inf", "-Infinity", "NaN", "+0"] {
        assert!(is_float_text(ok), "{} should read as a float", ok);
        assert!(ok.parse::<f64>().is_ok(), "std agrees on {}", ok);
    }
    for bad in ["", ".", "e5", "1e", "1e+", "abc", "1.2.3", " 1", "infinit", "--1"] {
        assert!(!is_float_text(bad), "{} should not read as a float", bad);
        assert!(bad.parse::<f64>().is_err(), "std agrees on {}", bad);
    }
}

#[test]
fn min_column_type_picks_strictest() {
    assert_eq!(min_column_type("12"), ColumnType::Int);
    assert_eq!(min_column_type("12.5"), ColumnType::Float);
    assert_eq!(min_column_type("99999999999999999999"), ColumnType::Float);
    assert_eq!(min_column_type("Alice"), ColumnType::String);
    assert_eq!(min_column_type(""), ColumnType::String);
}

#[test]
fn merge_takes_wider_type() {
    let a = vec![ColumnType::Int, ColumnType::Float, ColumnType::String];
    let b = vec![ColumnType::Float, ColumnType::Int, ColumnType::Int];
    assert_eq!(
        merge_column_types(&a, &b),
        vec![ColumnType::Float, ColumnType::Float, ColumnType::String]
    );
}

#[test]
fn header_only_table_infers_int() {
    let rows = vec![rec(&["a", "b"])];
    let schema = schema_from_records("t".to_string(), &rows);
    assert_eq!(
        schema.columns,
        vec![("a".to_string(), ColumnType::Int), ("b".to_string(), ColumnType::Int)]
    );
}

#[test]
fn schema_from_text() {
    let rows = parse_records("id,name,score\n1,Alice,3\n2,Bob,4.5\n").unwrap();
    let schema = schema_from_records("people".to_string(), &rows);
    assert_eq!(schema.table_name, "people");
    assert_eq!(
        schema.columns,
        vec![
            ("id".to_string(), ColumnType::Int),
            ("name".to_string(), ColumnType::String),
            ("score".to_string(), ColumnType::Float)
        ]
    );
}

#[test]
fn widening_a_value_never_narrows_its_column() {
    let before = vec![rec(&["1", "x"]), rec(&["2", "y"])];
    let after = vec![rec(&["1.5", "x"]), rec(&["2", "y"])];
    let widest = vec![rec(&["abc", "x"]), rec(&["2", "y"])];
    assert_eq!(determine_column_types(&before, 0, 2)[0], ColumnType::Int);
    assert_eq!(determine_column_types(&after, 0, 2)[0], ColumnType::Float);
    assert_eq!(determine_column_types(&widest, 0, 2)[0], ColumnType::String);
}

#[test]
fn inference_is_the_same_twice() {
    let rows = parse_records("a\n1\n2.0\n").unwrap();
    let first = schema_from_records("t".to_string(), &rows);
    let second = schema_from_records("t".to_string(), &rows);
    assert_eq!(first.columns, second.columns);
}

#[test]
fn record_types() {
    assert_eq!(
        column_types_from_record(&rec(&["1", "2.0", "z"])),
        vec![ColumnType::Int, ColumnType::Float, ColumnType::String]
    );
}

#[test]
fn ragged_records_are_malformed() {
    assert_eq!(parse_records("a,b\n1\n").unwrap_err(), StoreError::MalformedRecord);
}

#[test]
fn values_decode_by_column_type() {
    assert_eq!(value_from_str("5", ColumnType::Int), Ok(Value::Int(5)));
    assert_eq!(value_from_str("5.5", ColumnType::Float), Ok(Value::Float("5.5".to_string())));
    assert_eq!(value_from_str("hi", ColumnType::String), Ok(Value::Text("hi".to_string())));
    assert_eq!(value_from_str("hi", ColumnType::Int), Err(StoreError::ValueParseError));
    assert_eq!(value_from_str("hi", ColumnType::Float), Err(StoreError::ValueParseError));
}

#[test]
fn record_decode_fails_on_a_bad_field() {
    let types = vec![ColumnType::Int, ColumnType::String];
    assert_eq!(
        read_csv_record(&rec(&["1", "a"]), &types),
        Ok(vec![Value::Int(1), Value::Text("a".to_string())])
    );
    assert_eq!(read_csv_record(&rec(&["x", "a"]), &types), Err(StoreError::ValueParseError));
}

#[test]
fn values_encode_in_canonical_text() {
    assert_eq!(format_value(&Value::Int(-42)), Ok("-42".to_string()));
    assert_eq!(format_value(&Value::Float("2.5".to_string())), Ok("2.5".to_string()));
    assert_eq!(format_value(&Value::Text("x".to_string())), Ok("x".to_string()));
    assert_eq!(
        format_value(&Value::Other("Date".to_string())),
        Err(StoreError::UnsupportedValue)
    );
}

#[test]
fn rows_encode_as_one_csv_line() {
    let row = vec![Value::Int(1), Value::Text("a,b".to_string()), Value::Text("q\"t".to_string())];
    assert_eq!(encode_row(&row), Ok("1,\"a,b\",\"q\"\"t\"".to_string()));
    assert_eq!(
        encode_row(&vec![Value::Other("Map".to_string())]),
        Err(StoreError::UnsupportedValue)
    );
}
