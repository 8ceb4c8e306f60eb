//! Questions about JSON text that only need the variant of its top-level
//! value.

use vstd::prelude::*;

verus! {

/// Which of the six JSON forms a value has.
#[derive(Debug, Clone, Copy, PartialEq, Eq, Structural)]
pub enum JsonVariant {
    Null,
    Bool,
    Number,
    String,
    Array,
    Object,
}

/// The form of the value that JSON text denotes, or `None` where the text
/// is not JSON.
pub uninterp spec fn parsed_variant(text: Seq<char>) -> Option<JsonVariant>;

/// Relies on `serde_json::from_str` into `serde_json::Value`: whether the
/// text parses, and which variant it parses to, depend on the text alone.
#[verifier::external_body]
fn parse_variant(text: &str) -> (r: Option<JsonVariant>)
    ensures
        r == parsed_variant(text@),
{
    match serde_json::from_str::<serde_json::Value>(text) {
        Ok(serde_json::Value::Null) => Some(JsonVariant::Null),
        Ok(serde_json::Value::Bool(_)) => Some(JsonVariant::Bool),
        Ok(serde_json::Value::Number(_)) => Some(JsonVariant::Number),
        Ok(serde_json::Value::String(_)) => Some(JsonVariant::String),
        Ok(serde_json::Value::Array(_)) => Some(JsonVariant::Array),
        Ok(serde_json::Value::Object(_)) => Some(JsonVariant::Object),
        Err(_) => None,
    }
}

/// Whether `text` is JSON.
pub fn validate_json(text: &str) -> (r: bool)
    ensures
        r == parsed_variant(text@) is Some,
{
    parse_variant(text).is_some()
}

/// Whether `text` is a JSON array.
pub fn is_array_format(text: &str) -> (r: bool)
    ensures
        r == (parsed_variant(text@) == Some(JsonVariant::Array)),
{
    match parse_variant(text) {
        Some(JsonVariant::Array) => true,
        _ => false,
    }
}

/// Whether `text` is a JSON object.
pub fn is_object_format(text: &str) -> (r: bool)
    ensures
        r == (parsed_variant(text@) == Some(JsonVariant::Object)),
{
    match parse_variant(text) {
        Some(JsonVariant::Object) => true,
        _ => false,
    }
}

} // verus!
