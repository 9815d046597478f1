//! Decoding of CSV bytes into rows with a fixed number of columns.

pub mod error;
pub mod flush;
pub mod flushing;
pub mod history;
pub mod laws;
pub mod model;
pub mod outcomes;
pub mod parsing;
pub mod reader;
pub mod records;
pub mod string_records;
pub mod text;
