//! Structural introspection and transformation of JSON-like value trees:
//! path resolution, shape analysis, mapping between shapes, and building a
//! tree from a stream of markup events; with CSV rows, project schemas and
//! re-indenting of pretty-printed JSON on the side.

pub mod analyzer;
pub mod csv_data;
pub mod demo;
pub mod error;
pub mod json_format;
pub mod json_text;
pub mod mapper;
pub mod markup;
pub mod path;
pub mod round_trip;
pub mod schema;
pub mod text;
pub mod value;
