use json_core::csv_data::{parse_csv, rows_to_objects, CsvParseResult};
use json_core::value::Value;

fn s(x: &str) -> Value {
    Value::String(x.to_string())
}

fn obj(entries: Vec<(&str, Value)>) -> Value {
    Value::Object(entries.into_iter().map(|(k, v)| (k.to_string(), v)).collect())
}

#[test]
fn parses_rows_into_objects() {
    let r = parse_csv("name,age\nann,3\nbob,4\n").unwrap();
    assert_eq!(
        r,
        Value::Array(vec![
            obj(vec![("name", s("ann")), ("age", s("3"))]),
            obj(vec![("name", s("bob")), ("age", s("4"))]),
        ])
    );
}

#[test]
fn short_and_long_records() {
    let r = parse_csv("a,b\n1\n2,3,4\n").unwrap();
    assert_eq!(
        r,
        Value::Array(vec![obj(vec![("a", s("1"))]), obj(vec![("a", s("2")), ("b", s("3"))])])
    );
}

#[test]
fn header_only_gives_no_rows() {
    assert_eq!(parse_csv("a,b\n").unwrap(), Value::Array(vec![]));
}

#[test]
fn repeated_header_keeps_last_field() {
    let table = CsvParseResult {
        headers: vec!["k".to_string(), "k".to_string()],
        rows: vec![vec!["1".to_string(), "2".to_string()]],
    };
    assert_eq!(rows_to_objects(&table), Value::Array(vec![obj(vec![("k", s("2"))])]));
}
