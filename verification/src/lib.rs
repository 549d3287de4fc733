//! RAR archives: what their writers plan, emit and account for, and how a
//! recovery record repairs one.

pub mod archive_model;
pub mod archive_source;
pub mod bytes;
pub mod civil;
pub mod comments;
pub mod crc32;
pub mod error;
pub mod features;
pub mod filter;
pub mod power;
pub mod rar50;
pub mod read_control;
pub mod reader_scratch;
pub mod recovery;
pub mod rewrite;
pub mod rewrite_delivery;
pub mod rewrite_staging;
pub mod staging_laws;
pub mod streaming;
pub mod text;
pub mod time_laws;
pub mod timestamp;
pub mod tzif;
pub mod version;
pub mod write_plan;
pub mod write_progress;
pub mod zone_laws;
