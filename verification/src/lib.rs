//! A delimiter-based text format for nested values, with configurable
//! delimiters and sentinels: values are written as text and read back.
//!
//! - `value`: the values and their models;
//! - `config`: the settings of the format and their validation;
//! - `text`: chars, decimal numbers, float literals and UTF-8 offsets;
//! - `serializer`: writing values and records;
//! - `parser`: reading values and records;
//! - `roundtrip`: what is read back from what was written;
//! - `ordered`: the key order of objects.

pub mod config;
pub mod ordered;
pub mod parser;
pub mod roundtrip;
pub mod serializer;
pub mod text;
pub mod value;
