//! Disk scratch for large RAR 5 and RAR 7 members.

use vstd::prelude::*;

verus! {

/// Default bound on temporary filter data, 8 MiB.
pub const DEFAULT_FILTER_MEMORY_LIMIT: u64 = 0x80_0000;

/// Opt-in disk scratch in an existing directory that the caller selects.
#[derive(Debug)]
pub struct Rar50Scratch {
    pub directory: String,
    /// Bounds the combined scratch-file lengths of one member.
    pub max_bytes: u64,
    /// Bounds temporary filter data.
    pub filter_memory_limit: u64,
}

impl Rar50Scratch {
    pub fn new(directory: String, max_bytes: u64) -> (scratch: Rar50Scratch)
        ensures
            scratch == (Rar50Scratch {
                directory,
                max_bytes,
                filter_memory_limit: DEFAULT_FILTER_MEMORY_LIMIT,
            }),
    {
        Rar50Scratch { directory, max_bytes, filter_memory_limit: DEFAULT_FILTER_MEMORY_LIMIT }
    }

    pub fn with_filter_memory_limit(self, bytes: u64) -> (scratch: Rar50Scratch)
        ensures
            scratch == (Rar50Scratch { filter_memory_limit: bytes, ..self }),
    {
        Rar50Scratch { filter_memory_limit: bytes, ..self }
    }
}

} // verus!
