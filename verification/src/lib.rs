//! Array literals for PostgreSQL's `COPY`: numbers and nested sequences of
//! numbers are written as brace-delimited, comma-separated text, so that
//! `[1,2]` becomes `{1,2}` and `[[1,2],[3,4]]` becomes `{{1,2},{3,4}}`.
//!
//! Special characters inside text values are written as they are; the caller
//! keeps them out or escapes them elsewhere.

pub mod arr;
pub mod laws;
pub mod scalar;
pub mod shape;
pub mod sink;
pub mod value;
