//! The blocks of an Avro object container file.

pub mod block;
pub mod laws;
pub mod long;
pub mod sessions;
