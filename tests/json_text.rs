use json_core::json_text::{is_array_format, is_object_format, validate_json};

#[test]
fn test_is_array_format() {
    assert!(is_array_format(r#"[1, 2, 3]"#));
    assert!(!is_array_format(r#"{"a": 1}"#));
}

#[test]
fn test_is_object_format() {
    assert!(is_object_format(r#"{"a": 1}"#));
    assert!(!is_object_format(r#"[1, 2, 3]"#));
}

#[test]
fn validate_json_accepts_and_rejects() {
    assert!(validate_json(r#"{"name": "test", "value": 123}"#));
    assert!(!validate_json(r#"{"name": "test", "value": 123"#));
    assert!(validate_json("null"));
    assert!(!validate_json(""));
}

#[test]
fn formats_of_scalars_and_broken_text() {
    assert!(!is_array_format("42"));
    assert!(!is_object_format("\"text\""));
    assert!(!is_array_format("[1, 2"));
    assert!(!is_object_format("{"));
}
