use json_core::json_format::{adjust_indent, reindent};

const PRETTY: &str = "{\n  \"a\": {\n    \"b\": 1\n  }\n}";

#[test]
fn adjusts_to_four_spaces() {
    assert_eq!(
        adjust_indent(PRETTY, 4),
        "{\n    \"a\": {\n        \"b\": 1\n}\n}"
    );
}

#[test]
fn zero_indent_removes_space_pairs() {
    assert_eq!(adjust_indent(PRETTY, 0), "{\n\"a\": {\n\"b\": 1\n}\n}");
    assert_eq!(adjust_indent("a   b", 0), "a b");
}

#[test]
fn blank_lines_are_dropped() {
    assert_eq!(adjust_indent("[\n\n  1\n]", 3), "[\n   1\n]");
}

#[test]
fn reindents_every_line() {
    assert_eq!(reindent(PRETTY, 4), "{\n    \"a\": {\n        \"b\": 1\n    }\n}");
    assert_eq!(reindent("x\n   \ny", 1), "x\n   \ny");
}
