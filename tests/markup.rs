use json_core::error::DataError;
use json_core::markup::{build_tree_from_markup, MarkupEvent, TreeBuilder};
use json_core::value::Value;

fn s(x: &str) -> Value {
    Value::String(x.to_string())
}

fn obj(entries: Vec<(&str, Value)>) -> Value {
    Value::Object(entries.into_iter().map(|(k, v)| (k.to_string(), v)).collect())
}

fn start(tag: &str) -> MarkupEvent {
    MarkupEvent::Start(tag.to_string(), vec![])
}

fn start_with(tag: &str, attrs: Vec<(&str, &str)>) -> MarkupEvent {
    MarkupEvent::Start(
        tag.to_string(),
        attrs.into_iter().map(|(k, v)| (k.to_string(), v.to_string())).collect(),
    )
}

fn text(t: &str) -> MarkupEvent {
    MarkupEvent::Text(t.to_string())
}

fn end(tag: &str) -> MarkupEvent {
    MarkupEvent::End(tag.to_string())
}

#[test]
fn repeated_tags_become_an_array() {
    let events = vec![start("a"), end("a"), start("a"), end("a")];
    let r = build_tree_from_markup(&events).unwrap();
    assert_eq!(r, obj(vec![("a", Value::Array(vec![obj(vec![]), obj(vec![])]))]));
}

#[test]
fn third_repeat_is_appended() {
    let events = vec![
        start("root"),
        start("item"), text("1"), end("item"),
        start("item"), text("2"), end("item"),
        start("item"), text("3"), end("item"),
        end("root"),
    ];
    let r = build_tree_from_markup(&events).unwrap();
    assert_eq!(
        r,
        obj(vec![("root", obj(vec![("item", Value::Array(vec![s("1"), s("2"), s("3")]))]))])
    );
}

#[test]
fn unclosed_element_fails() {
    let r = build_tree_from_markup(&vec![start("a")]);
    assert_eq!(r, Err(DataError::MarkupSyntax("a".to_string())));
    let r2 = build_tree_from_markup(&vec![start("a"), start("b"), end("b")]);
    assert_eq!(r2, Err(DataError::MarkupSyntax("a".to_string())));
}

#[test]
fn mismatched_end_fails() {
    let r = build_tree_from_markup(&vec![start("a"), end("b")]);
    assert_eq!(r, Err(DataError::MarkupSyntax("b".to_string())));
}

#[test]
fn end_without_start_fails() {
    let r = build_tree_from_markup(&vec![end("a")]);
    assert_eq!(r, Err(DataError::MarkupSyntax("a".to_string())));
}

#[test]
fn text_only_element_collapses_to_string() {
    let r = build_tree_from_markup(&vec![start("a"), text("  hi \n"), end("a")]).unwrap();
    assert_eq!(r, obj(vec![("a", s("hi"))]));
}

#[test]
fn whitespace_text_is_ignored() {
    let r = build_tree_from_markup(&vec![start("a"), text("   "), end("a")]).unwrap();
    assert_eq!(r, obj(vec![("a", obj(vec![]))]));
}

#[test]
fn unicode_whitespace_text_is_ignored() {
    let r = build_tree_from_markup(&vec![start("a"), text("\u{3000}\t\u{a0}"), end("a")]).unwrap();
    assert_eq!(r, obj(vec![("a", obj(vec![]))]));
    let t = build_tree_from_markup(&vec![start("a"), text("\u{2003}x\u{85}"), end("a")]).unwrap();
    assert_eq!(t, obj(vec![("a", s("x"))]));
}

#[test]
fn attributes_children_and_text() {
    let events = vec![
        start_with("a", vec![("id", "1")]),
        text("x"),
        start("b"),
        text("y"),
        end("b"),
        text("z"),
        end("a"),
    ];
    let r = build_tree_from_markup(&events).unwrap();
    assert_eq!(
        r,
        obj(vec![("a", obj(vec![("id", s("1")), ("b", s("y")), ("_text", s("xz"))]))])
    );
}

#[test]
fn text_outside_elements_is_ignored() {
    let r = build_tree_from_markup(&vec![text("stray"), start("a"), end("a")]).unwrap();
    assert_eq!(r, obj(vec![("a", obj(vec![]))]));
}

#[test]
fn empty_stream_is_empty_object() {
    assert_eq!(build_tree_from_markup(&vec![]).unwrap(), obj(vec![]));
}

#[test]
fn builder_keeps_state_after_a_bad_end() {
    let mut b = TreeBuilder::new();
    b.feed(&start("a")).unwrap();
    assert!(b.feed(&end("x")).is_err());
    b.add_text("kept");
    b.feed(&end("a")).unwrap();
    assert_eq!(b.finish().unwrap(), obj(vec![("a", s("kept"))]));
}
