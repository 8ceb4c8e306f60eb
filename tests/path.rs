use json_core::analyzer::extract_paths;
use json_core::error::DataError;
use json_core::path::{get_by_path, parse_read_path, set_by_path, PathSegment};
use json_core::value::Value;

fn s(x: &str) -> Value {
    Value::String(x.to_string())
}

fn n(x: u64) -> Value {
    Value::Number(serde_json::Number::from(x))
}

fn obj(entries: Vec<(&str, Value)>) -> Value {
    Value::Object(entries.into_iter().map(|(k, v)| (k.to_string(), v)).collect())
}

fn sample() -> Value {
    obj(vec![
        ("a", obj(vec![("b", Value::Array(vec![obj(vec![("c", n(1))]), obj(vec![("c", n(2))])]))])),
        ("name", s("x")),
        ("nothing", Value::Null),
    ])
}

#[test]
fn absent_differs_from_null() {
    let with_null = obj(vec![("a", Value::Null)]);
    let empty = obj(vec![]);
    assert_eq!(get_by_path(&with_null, "a"), Some(Value::Null));
    assert_eq!(get_by_path(&empty, "a"), None);
    assert_ne!(get_by_path(&with_null, "a"), get_by_path(&empty, "a"));
}

#[test]
fn reads_with_brackets_and_dots() {
    let v = sample();
    assert_eq!(get_by_path(&v, "a.b[0].c"), Some(n(1)));
    assert_eq!(get_by_path(&v, "a.b[1].c"), Some(n(2)));
    assert_eq!(get_by_path(&v, "a.b[2].c"), None);
    assert_eq!(get_by_path(&v, "name"), Some(s("x")));
    assert_eq!(get_by_path(&v, "nothing"), Some(Value::Null));
}

#[test]
fn reads_bare_digits_as_array_index() {
    let v = sample();
    assert_eq!(get_by_path(&v, "a.b.1.c"), Some(n(2)));
    assert_eq!(get_by_path(&v, "a.b.x"), None);
    assert_eq!(get_by_path(&v, "a.b.+1.c"), Some(n(2)));
    assert_eq!(get_by_path(&v, "a.b[+0].c"), Some(n(1)));
    assert_eq!(get_by_path(&v, "a.b.+.c"), None);
    assert_eq!(get_by_path(&v, "a.b.-1.c"), None);
}

#[test]
fn empty_path_reads_root() {
    let v = sample();
    assert_eq!(get_by_path(&v, ""), Some(sample()));
}

#[test]
fn malformed_read_paths_are_absent() {
    let v = sample();
    assert_eq!(get_by_path(&v, "a.b[0"), None);
    assert_eq!(get_by_path(&v, "a.b[x].c"), None);
    assert_eq!(get_by_path(&v, "a]"), None);
    assert!(parse_read_path("a.b[0").is_none());
}

#[test]
fn huge_index_is_absent() {
    let v = sample();
    assert_eq!(get_by_path(&v, "a.b[99999999999999999999999].c"), None);
}

#[test]
fn read_path_segments() {
    let segs = parse_read_path("a.b[0][2].c").unwrap();
    assert_eq!(segs.len(), 5);
    assert!(matches!(&segs[0], PathSegment::Key(k) if k == "a"));
    assert!(matches!(&segs[1], PathSegment::Key(k) if k == "b"));
    assert!(matches!(&segs[2], PathSegment::Index(0)));
    assert!(matches!(&segs[3], PathSegment::Index(2)));
    assert!(matches!(&segs[4], PathSegment::Key(k) if k == "c"));
    let root = parse_read_path("[0]").unwrap();
    assert_eq!(root.len(), 1);
    assert!(matches!(&root[0], PathSegment::Index(0)));
}

#[test]
fn set_single_key_inserts_and_overwrites() {
    let mut t = obj(vec![("a", n(1))]);
    set_by_path(&mut t, "b", n(2)).unwrap();
    assert_eq!(t, obj(vec![("a", n(1)), ("b", n(2))]));
    set_by_path(&mut t, "a", s("z")).unwrap();
    assert_eq!(t, obj(vec![("a", s("z")), ("b", n(2))]));
}

#[test]
fn set_creates_missing_objects() {
    let mut t = obj(vec![]);
    set_by_path(&mut t, "a.b.c", n(7)).unwrap();
    assert_eq!(t, obj(vec![("a", obj(vec![("b", obj(vec![("c", n(7))]))]))]));
    set_by_path(&mut t, "a.d", n(8)).unwrap();
    assert_eq!(
        t,
        obj(vec![("a", obj(vec![("b", obj(vec![("c", n(7))])), ("d", n(8))]))])
    );
}

#[test]
fn set_treats_digits_as_keys() {
    let mut t = obj(vec![]);
    set_by_path(&mut t, "items.0", s("first")).unwrap();
    assert_eq!(t, obj(vec![("items", obj(vec![("0", s("first"))]))]));
}

#[test]
fn set_empty_path_is_invalid() {
    let mut t = obj(vec![("a", n(1))]);
    let r = set_by_path(&mut t, "", n(2));
    assert!(matches!(r, Err(DataError::InvalidPath(_))));
    assert_eq!(t, obj(vec![("a", n(1))]));
}

#[test]
fn set_through_non_object_conflicts() {
    let mut t = obj(vec![("a", n(1))]);
    let r = set_by_path(&mut t, "a.b", n(2));
    assert_eq!(r, Err(DataError::PathConflict("a".to_string())));
    assert_eq!(t, obj(vec![("a", n(1))]));
    let mut arr = obj(vec![("a", Value::Array(vec![]))]);
    let r = set_by_path(&mut arr, "a.0", n(2));
    assert!(matches!(r, Err(DataError::PathConflict(_))));
}

#[test]
fn set_on_non_object_root_conflicts() {
    let mut t = Value::Array(vec![]);
    let r = set_by_path(&mut t, "a", n(1));
    assert!(matches!(r, Err(DataError::PathConflict(_))));
    assert_eq!(t, Value::Array(vec![]));
}

#[test]
fn extracted_paths_round_trip_on_a_sample() {
    let v = obj(vec![
        ("user", obj(vec![("name", s("ann")), ("tags", Value::Array(vec![s("a"), s("b")]))])),
        ("empty", obj(vec![])),
        ("list", Value::Array(vec![obj(vec![("id", n(3))])])),
    ]);
    let paths = extract_paths(&v, "");
    assert_eq!(paths, vec!["user.name", "user.tags[0]", "empty", "list[0].id"]);
    for p in &paths {
        let x = get_by_path(&v, p).expect("every listed path reads a value");
        let mut fresh = obj(vec![]);
        set_by_path(&mut fresh, p, x.clone()).unwrap();
        let mut cur = &fresh;
        for key in p.split('.') {
            match cur {
                Value::Object(es) => {
                    cur = &es.iter().find(|(k, _)| k == key).unwrap().1;
                }
                _ => panic!("not an object"),
            }
        }
        assert_eq!(cur, &x);
    }
}
