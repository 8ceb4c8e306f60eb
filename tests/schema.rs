use json_core::schema::{
    check_schema, migrate_schema_value, project_data_to_schema, project_id, schema_to_project_data,
};
use json_core::value::Value;

fn s(x: &str) -> Value {
    Value::String(x.to_string())
}

fn n(x: u64) -> Value {
    Value::Number(serde_json::Number::from(x))
}

fn obj(entries: Vec<(&str, Value)>) -> Value {
    Value::Object(entries.into_iter().map(|(k, v)| (k.to_string(), v)).collect())
}

fn default_canvas() -> Value {
    obj(vec![
        ("showGrid", Value::Bool(false)),
        ("snapToGrid", Value::Bool(false)),
        ("viewportWidth", n(1920)),
        ("activeDevice", s("desktop")),
    ])
}

fn good_schema() -> Value {
    obj(vec![
        ("version", s("1.0.0")),
        ("metadata", obj(vec![("name", s("P")), ("version", s("1.0.0"))])),
        ("components", Value::Array(vec![])),
        ("canvas", obj(vec![("viewportWidth", n(800))])),
        ("dataSources", Value::Array(vec![])),
    ])
}

#[test]
fn complete_schema_is_valid() {
    let r = check_schema(&good_schema());
    assert!(r.valid());
    assert!(r.errors().is_empty());
}

#[test]
fn empty_schema_lists_every_problem() {
    let r = check_schema(&obj(vec![]));
    assert!(!r.valid());
    assert_eq!(
        r.errors(),
        vec![
            "Missing or invalid 'version' field",
            "Missing 'metadata' field",
            "Missing or invalid 'components' field (must be an array)",
            "Missing 'canvas' field",
            "Missing or invalid 'dataSources' field (must be an array)",
        ]
    );
}

#[test]
fn wrong_kinds_and_missing_inner_fields() {
    let schema = obj(vec![
        ("version", n(1)),
        ("metadata", obj(vec![])),
        ("components", obj(vec![])),
        ("canvas", s("big")),
        ("dataSources", Value::Array(vec![])),
    ]);
    assert_eq!(
        check_schema(&schema).errors(),
        vec![
            "Missing or invalid 'version' field",
            "Missing 'metadata.name' field",
            "Missing 'metadata.version' field",
            "Missing or invalid 'components' field (must be an array)",
            "'canvas' must be an object",
        ]
    );
    let other = obj(vec![("metadata", n(1)), ("canvas", obj(vec![]))]);
    let errs = check_schema(&other).errors();
    assert!(errs.contains(&"'metadata' must be an object".to_string()));
    assert!(errs.contains(&"Missing 'canvas.viewportWidth' field".to_string()));
}

#[test]
fn migration_sets_both_versions() {
    let mut v = good_schema();
    migrate_schema_value(&mut v, "1.0.0", "2.0.0");
    assert_eq!(
        v,
        obj(vec![
            ("version", s("2.0.0")),
            ("metadata", obj(vec![("name", s("P")), ("version", s("2.0.0"))])),
            ("components", Value::Array(vec![])),
            ("canvas", obj(vec![("viewportWidth", n(800))])),
            ("dataSources", Value::Array(vec![])),
        ])
    );
}

#[test]
fn migration_to_the_same_version_changes_nothing() {
    let mut v = good_schema();
    migrate_schema_value(&mut v, "1.0.0", "1.0.0");
    assert_eq!(v, good_schema());
}

#[test]
fn migration_adds_no_missing_version() {
    let mut v = obj(vec![("metadata", obj(vec![]))]);
    migrate_schema_value(&mut v, "1", "2");
    assert_eq!(v, obj(vec![("metadata", obj(vec![("version", s("2"))]))]));
}

#[test]
fn project_becomes_schema() {
    let project = obj(vec![("name", s("P")), ("components", Value::Array(vec![n(1)]))]);
    let schema = project_data_to_schema(&project, "T");
    assert_eq!(
        schema,
        obj(vec![
            ("version", s("1.0.0")),
            (
                "metadata",
                obj(vec![
                    ("name", s("P")),
                    ("createdAt", s("T")),
                    ("updatedAt", s("T")),
                    ("version", s("1.0.0")),
                ]),
            ),
            ("components", Value::Array(vec![n(1)])),
            ("canvas", default_canvas()),
            ("theme", obj(vec![])),
            ("dataSources", Value::Array(vec![])),
        ])
    );
    assert!(check_schema(&schema).valid());
}

#[test]
fn unnamed_project_gets_default_name_and_keeps_settings() {
    let project = obj(vec![("description", s("d")), ("settings", obj(vec![("x", n(1))]))]);
    let schema = project_data_to_schema(&project, "now");
    match &schema {
        Value::Object(es) => {
            assert_eq!(
                es[1].1,
                obj(vec![
                    ("name", s("未命名项目")),
                    ("description", s("d")),
                    ("createdAt", s("now")),
                    ("updatedAt", s("now")),
                    ("version", s("1.0.0")),
                ])
            );
            assert_eq!(es.last().unwrap(), &("settings".to_string(), obj(vec![("x", n(1))])));
        }
        _ => panic!("schema is an object"),
    }
}

#[test]
fn schema_becomes_project() {
    let schema = obj(vec![(
        "metadata",
        obj(vec![("name", s("My App")), ("description", s("d")), ("createdAt", s("c"))]),
    )]);
    let project = schema_to_project_data(&schema, 42);
    assert_eq!(
        project,
        obj(vec![
            ("id", s("my-app-42")),
            ("name", s("My App")),
            ("description", s("d")),
            ("createdAt", s("c")),
            ("components", Value::Array(vec![])),
            ("canvas", default_canvas()),
            ("theme", obj(vec![])),
            ("dataSources", Value::Array(vec![])),
            (
                "settings",
                obj(vec![
                    ("activeTab", s("components")),
                    ("sidebarCollapsed", Value::Bool(false)),
                    ("rightPanelCollapsed", Value::Bool(false)),
                    ("leftPanelCollapsed", Value::Bool(false)),
                ]),
            ),
        ])
    );
}

#[test]
fn project_identifier() {
    assert_eq!(project_id("my new app", 7), "my-new-app-7");
    assert_eq!(project_id("", 0), "-0");
}
