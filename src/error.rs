//! The failures that the library reports.

use vstd::prelude::*;

verus! {

/// Why an operation failed; each variant carries what localises the fault.
#[derive(Debug, PartialEq)]
pub enum DataError {
    /// The path is empty; carries the path.
    InvalidPath(String),
    /// A step of a write path meets a value that is not an object; carries
    /// that step's key.
    PathConflict(String),
    /// A mapping rule lacks a string field that it needs; carries the field's
    /// name.
    MalformedRule(String),
    /// Markup events that do not nest; carries the offending tag.
    MarkupSyntax(String),
    /// Text that is not CSV; carries the reader's message.
    CsvSyntax(String),
}

} // verus!
