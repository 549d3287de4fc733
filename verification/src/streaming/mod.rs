//! Resources that a streaming writer draws on, and the accounts it keeps.

pub mod cancellation;
pub mod ledger;
pub mod memory_spool;
pub mod output;
pub mod preparation;
pub mod resources;
pub mod source;
pub mod spool;
