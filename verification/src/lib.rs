//! Row-oriented input and output for columnar data: a push-based CSV record
//! decoder, Avro block compression, and the block framing of an Avro writer.

pub mod compression;
pub mod csv;
pub mod decimal;
pub mod writer;
