use json_core::error::DataError;
use json_core::mapper::{apply_mapping, generate_mapping, MappingRule};
use json_core::value::Value;

fn s(x: &str) -> Value {
    Value::String(x.to_string())
}

fn n(x: u64) -> Value {
    Value::Number(serde_json::Number::from(x))
}

fn obj(entries: Vec<(&str, Value)>) -> Value {
    Value::Object(entries.into_iter().map(|(k, v)| (k.to_string(), v)).collect())
}

fn rule(field: &str, source: &str, target: &str, default: Option<Value>) -> Value {
    MappingRule {
        field: field.to_string(),
        source_path: source.to_string(),
        target_path: target.to_string(),
        default_value: default,
    }
    .to_value()
}

#[test]
fn default_value_fills_a_missing_source() {
    let rules = vec![rule("x", "missing", "x", Some(s("Z")))];
    let r = apply_mapping(&obj(vec![]), &rules).unwrap();
    assert_eq!(r, obj(vec![("x", s("Z"))]));
}

#[test]
fn missing_source_without_default_gives_null() {
    let rules = vec![obj(vec![("sourcePath", s("nope")), ("targetPath", s("t"))])];
    let r = apply_mapping(&obj(vec![]), &rules).unwrap();
    assert_eq!(r, obj(vec![("t", Value::Null)]));
}

#[test]
fn rule_without_paths_is_malformed() {
    let rules = vec![obj(vec![("field", s("x"))])];
    let r = apply_mapping(&obj(vec![("x", n(1))]), &rules);
    assert_eq!(r, Err(DataError::MalformedRule("sourcePath".to_string())));
    let r2 = apply_mapping(&Value::Null, &rules);
    assert_eq!(r2, Err(DataError::MalformedRule("sourcePath".to_string())));
}

#[test]
fn rule_without_target_is_malformed() {
    let rules = vec![
        rule("a", "a", "a", None),
        obj(vec![("field", s("x")), ("sourcePath", s("x"))]),
    ];
    let r = apply_mapping(&obj(vec![("a", n(1))]), &rules);
    assert_eq!(r, Err(DataError::MalformedRule("targetPath".to_string())));
}

#[test]
fn non_string_path_is_malformed() {
    let rules = vec![obj(vec![("sourcePath", n(1)), ("targetPath", s("t"))])];
    let r = apply_mapping(&obj(vec![]), &rules);
    assert_eq!(r, Err(DataError::MalformedRule("sourcePath".to_string())));
}

#[test]
fn non_object_rule_is_malformed() {
    let rules = vec![rule("a", "a", "b", None), n(3)];
    let r = apply_mapping(&obj(vec![("a", n(1))]), &rules);
    assert_eq!(r, Err(DataError::MalformedRule("sourcePath".to_string())));
    let r2 = apply_mapping(&Value::Null, &vec![Value::Null]);
    assert_eq!(r2, Err(DataError::MalformedRule("sourcePath".to_string())));
}

#[test]
fn moves_values_between_shapes() {
    let src = obj(vec![("user", obj(vec![("name", s("ann")), ("tags", Value::Array(vec![s("a")]))]))]);
    let rules = vec![
        rule("name", "user.name", "person.fullName", None),
        rule("tag", "user.tags[0]", "person.firstTag", None),
    ];
    let r = apply_mapping(&src, &rules).unwrap();
    assert_eq!(
        r,
        obj(vec![("person", obj(vec![("fullName", s("ann")), ("firstTag", s("a"))]))])
    );
}

#[test]
fn later_rules_overwrite_earlier_ones() {
    let src = obj(vec![("a", n(1)), ("b", n(2))]);
    let rules = vec![rule("a", "a", "t", None), rule("b", "b", "t", None)];
    assert_eq!(apply_mapping(&src, &rules).unwrap(), obj(vec![("t", n(2))]));
}

#[test]
fn conflicting_target_fails() {
    let src = obj(vec![("a", n(1)), ("b", n(2))]);
    let rules = vec![rule("a", "a", "t", None), rule("b", "b", "t.u", None)];
    assert!(matches!(apply_mapping(&src, &rules), Err(DataError::PathConflict(_))));
}

#[test]
fn empty_target_path_is_invalid() {
    let rules = vec![rule("a", "a", "", None)];
    assert!(matches!(
        apply_mapping(&obj(vec![("a", n(1))]), &rules),
        Err(DataError::InvalidPath(_))
    ));
}

#[test]
fn generates_rules_for_shared_and_missing_keys() {
    let src = obj(vec![("name", s("x")), ("info", obj(vec![("age", n(3))]))]);
    let target = obj(vec![
        ("name", s("")),
        ("info", obj(vec![("age", n(0)), ("city", s(""))])),
        ("extra", n(0)),
    ]);
    let rules = generate_mapping(&src, &target);
    let values: Vec<Value> = rules.iter().map(|r| r.to_value()).collect();
    assert_eq!(
        values,
        vec![
            rule("name", "name", "name", None),
            rule("age", "info.age", "info.age", None),
            rule("city", "info.city", "info.city", Some(Value::Null)),
            rule("extra", "extra", "extra", Some(Value::Null)),
        ]
    );
    let applied = apply_mapping(&src, &values).unwrap();
    assert_eq!(
        applied,
        obj(vec![
            ("name", s("x")),
            ("info", obj(vec![("age", n(3)), ("city", Value::Null)])),
            ("extra", Value::Null),
        ])
    );
}

#[test]
fn generation_samples_first_array_elements() {
    let src = Value::Array(vec![obj(vec![("a", n(1))]), obj(vec![("b", n(2))])]);
    let target = Value::Array(vec![obj(vec![("a", n(0)), ("b", n(0))])]);
    let values: Vec<Value> = generate_mapping(&src, &target).iter().map(|r| r.to_value()).collect();
    assert_eq!(
        values,
        vec![rule("a", "a", "a", None), rule("b", "b", "b", Some(Value::Null))]
    );
    assert!(generate_mapping(&Value::Array(vec![]), &target).is_empty());
    assert!(generate_mapping(&n(1), &target).is_empty());
}

#[test]
fn rule_value_has_the_named_fields() {
    let v = rule("f", "s", "t", None);
    assert_eq!(v, obj(vec![("field", s("f")), ("sourcePath", s("s")), ("targetPath", s("t"))]));
    let w = rule("f", "s", "t", Some(n(1)));
    assert_eq!(
        w,
        obj(vec![
            ("field", s("f")),
            ("sourcePath", s("s")),
            ("targetPath", s("t")),
            ("defaultValue", n(1)),
        ])
    );
}
