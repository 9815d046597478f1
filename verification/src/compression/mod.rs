//! Compression of Avro data blocks.

pub mod checksum;
pub mod codec;
pub mod external;
pub mod laws;
pub mod level;
