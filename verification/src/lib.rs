//! A structured-value encoder for log records.
//!
//! The library walks tree-shaped values and renders them either as an
//! indented, human-readable textual tree, or as a flat ordered mapping of
//! named fields merged with fixed record metadata, serialized as one JSON
//! object per record. Duplicate field names are resolved deterministically
//! (last write wins) and dynamic fields are emitted in ascending
//! lexicographic name order.

pub mod builder;
pub mod flatten;
pub mod json;
pub mod strutil;
pub mod text;
pub mod value;
