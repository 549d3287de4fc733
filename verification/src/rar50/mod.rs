//! The RAR 5 container.

pub mod archive;
pub mod archive_walk;
pub mod assembly;
pub mod blocks;
pub mod candidates;
pub mod compress;
pub mod compression_laws;
pub mod container;
pub mod dictionary;
pub mod dispatch;
pub mod encryption;
pub mod engine;
pub mod entry;
pub mod file_header;
pub mod format;
pub mod fragment_hashes;
pub mod fragment_laws;
pub mod fragments;
pub mod headers;
pub mod ladder;
pub mod layout;
pub mod link_name;
pub mod main_back;
pub mod main_header;
pub mod member_progress;
pub mod members;
pub mod metadata;
pub mod options;
pub mod plan;
pub mod prepared_header;
pub mod quick_open;
pub mod read_back;
pub mod reader;
pub mod readings;
pub mod records;
pub mod recovery_service;
pub mod repair_laws;
pub mod request_laws;
pub mod requests;
pub mod retention;
pub mod retention_laws;
pub mod runs;
pub mod seal_laws;
pub mod sealing;
pub mod settled;
pub mod share;
pub mod stream_laws;
pub mod streams;
pub mod vint;
pub mod volume_assembly;
pub mod volume_laws;
pub mod volume_retention;
pub mod volume_set;
pub mod volume_walk;
pub mod volumes;
pub mod walk;
pub mod waves;
pub mod writer;
