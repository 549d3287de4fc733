//! Recovery records: parity that lets a damaged archive be put back together.
pub mod rar5;
