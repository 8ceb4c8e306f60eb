use json_core::analyzer::{analyze_json_structure, analyze_value, extract_paths, kind_label_of, JsonType};
use json_core::value::Value;

fn s(x: &str) -> Value {
    Value::String(x.to_string())
}

fn n(x: u64) -> Value {
    Value::Number(serde_json::Number::from(x))
}

fn obj(entries: Vec<(&str, Value)>) -> Value {
    Value::Object(entries.into_iter().map(|(k, v)| (k.to_string(), v)).collect())
}

#[test]
fn analyzes_an_object() {
    let v = obj(vec![
        ("name", s("x")),
        ("n", n(1)),
        ("arr", Value::Array(vec![n(1), n(2)])),
        ("nested", obj(vec![("a", Value::Bool(true))])),
        ("z", Value::Null),
    ]);
    let r = analyze_value(&v);
    assert_eq!(r.json_type, JsonType::Object);
    assert_eq!(
        r.structure,
        obj(vec![
            ("name", s("string")),
            ("n", s("number")),
            ("arr", s("array")),
            ("nested", s("object")),
            ("z", s("null")),
        ])
    );
    assert_eq!(r.paths, vec![".name", ".n", ".arr", ".arr[]", ".nested", ".nested.a", ".z"]);
    assert_eq!(r.sample, None);
}

#[test]
fn analyzes_an_array_by_its_first_element() {
    let v = Value::Array(vec![obj(vec![("a", n(1))]), obj(vec![("b", n(2))])]);
    let r = analyze_value(&v);
    assert_eq!(r.json_type, JsonType::Array);
    assert_eq!(r.structure, s("object[]"));
    assert_eq!(r.paths, vec!["[]", "[0].a"]);
    assert_eq!(r.sample, Some(obj(vec![("a", n(1))])));
}

#[test]
fn analyzes_nested_and_empty_arrays() {
    let nested = analyze_value(&Value::Array(vec![Value::Array(vec![n(1)])]));
    assert_eq!(nested.structure, s("array[]"));
    assert_eq!(nested.paths, vec!["[]", "[0].[]"]);
    let empty = analyze_value(&Value::Array(vec![]));
    assert_eq!(empty.json_type, JsonType::Array);
    assert_eq!(empty.structure, s("array"));
    assert_eq!(empty.paths, vec!["[]"]);
    assert_eq!(empty.sample, None);
}

#[test]
fn analyzes_primitives_and_null() {
    let p = analyze_value(&n(5));
    assert_eq!(p.json_type, JsonType::Primitive);
    assert_eq!(p.structure, s("number"));
    assert!(p.paths.is_empty());
    assert_eq!(p.sample, Some(n(5)));
    let b = analyze_value(&Value::Bool(false));
    assert_eq!(b.structure, s("boolean"));
    let z = analyze_value(&Value::Null);
    assert_eq!(z.json_type, JsonType::Null);
    assert_eq!(z.structure, Value::Null);
    assert!(z.paths.is_empty());
    assert_eq!(z.sample, None);
}

#[test]
fn missing_value_is_undefined() {
    let r = analyze_json_structure(&None);
    assert_eq!(r.json_type, JsonType::Undefined);
    assert_eq!(r.structure, Value::Null);
    assert!(r.paths.is_empty());
    assert_eq!(r.sample, None);
    let some = analyze_json_structure(&Some(Value::Null));
    assert_eq!(some.json_type, JsonType::Null);
}

#[test]
fn array_paths_depend_on_first_element_only() {
    let x = obj(vec![("id", n(1)), ("tags", Value::Array(vec![s("t")]))]);
    let a = Value::Array(vec![x.clone(), obj(vec![("other", n(2))]), n(3)]);
    let b = Value::Array(vec![x.clone(), s("changed"), Value::Null]);
    let ra = analyze_value(&a);
    let rb = analyze_value(&b);
    assert_eq!(ra.paths, rb.paths);
    assert_eq!(ra.paths, vec!["[]", "[0].id", "[0].tags", "[0].tags[]"]);
    assert_eq!(ra.structure, rb.structure);
    assert_eq!(ra.sample, rb.sample);
}

#[test]
fn analysis_is_repeatable() {
    let v = obj(vec![("b", n(1)), ("a", obj(vec![("c", n(2))]))]);
    assert_eq!(analyze_value(&v).paths, analyze_value(&v).paths);
    assert_eq!(analyze_value(&v).paths, vec![".b", ".a", ".a.c"]);
}

#[test]
fn kind_labels() {
    assert_eq!(kind_label_of(&Value::Null), "null");
    assert_eq!(kind_label_of(&s("a")), "string");
    assert_eq!(kind_label_of(&Value::Object(vec![])), "object");
}

#[test]
fn extracts_leaf_paths() {
    let v = obj(vec![
        ("a", obj(vec![("b", n(1)), ("c", Value::Array(vec![obj(vec![("d", n(2))]), n(9)]))])),
        ("e", Value::Array(vec![])),
        ("f", obj(vec![])),
        ("g", s("h")),
    ]);
    assert_eq!(extract_paths(&v, ""), vec!["a.b", "a.c[0].d", "e", "f", "g"]);
}

#[test]
fn extracts_with_a_prefix() {
    let v = obj(vec![("x", n(1))]);
    assert_eq!(extract_paths(&v, "root"), vec!["root.x"]);
    assert_eq!(extract_paths(&n(1), "p"), vec!["p"]);
    assert_eq!(extract_paths(&Value::Array(vec![]), "p"), vec!["p"]);
    assert_eq!(extract_paths(&Value::Object(vec![]), "p"), vec!["p"]);
}

#[test]
fn root_leaves_emit_nothing() {
    assert!(extract_paths(&n(1), "").is_empty());
    assert!(extract_paths(&Value::Object(vec![]), "").is_empty());
    assert!(extract_paths(&Value::Array(vec![]), "").is_empty());
}

#[test]
fn extracts_arrays_through_first_element() {
    let v = Value::Array(vec![Value::Array(vec![n(1), n(2)]), n(3)]);
    assert_eq!(extract_paths(&v, ""), vec!["[0][0]"]);
    let w = Value::Array(vec![n(1), n(2)]);
    assert_eq!(extract_paths(&w, ""), vec!["[0]"]);
}
