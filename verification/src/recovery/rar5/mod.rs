//! Inline recovery records of RAR 5 archives.
pub mod archive;
pub mod cauchy;
pub mod chunk;
pub mod chunk_laws;
pub mod crc64;
pub mod encoder;
pub mod error;
pub mod field;
pub mod gf16;
pub mod linear;
pub mod order;
pub mod parity;
pub mod plan;
pub mod reconstruct;
pub mod record;
pub mod repair;
pub mod report_laws;
pub mod restore;
pub mod shard_repair;
pub mod sum;
