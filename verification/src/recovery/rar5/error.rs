//! What can go wrong while recovery data is built or applied.
use vstd::prelude::*;

verus! {

/// A failure of a recovery operation.
#[derive(Debug, Clone, Copy, PartialEq, Eq, Structural)]
#[non_exhaustive]
pub enum Error {
    BadRecoveryChunk,
    OddShardSize,
    PlanOverflow,
    PrefixExceedsPlan,
    TooManyDamagedShards,
    ShardSizeMismatch,
    TooManyShards,
    SingularElement,
}

/// The sentence that describes an error.
pub open spec fn error_text(error: Error) -> Seq<char> {
    match error {
        Error::BadRecoveryChunk => "RAR 5 recovery chunk is invalid"@,
        Error::OddShardSize => "RAR 5 recovery shard size is odd"@,
        Error::PlanOverflow => "RAR 5 recovery plan overflows"@,
        Error::PrefixExceedsPlan => "RAR 5 recovery prefix exceeds planned shard capacity"@,
        Error::TooManyDamagedShards => "RAR 5 recovery data cannot repair this many damaged shards"@,
        Error::ShardSizeMismatch => "RAR 5 recovery shard sizes differ"@,
        Error::TooManyShards => "RAR 5 recovery shard count is invalid"@,
        Error::SingularElement => "RAR 5 recovery matrix is singular"@,
    }
}

impl Error {
    /// A sentence for the person whose archive this is.
    pub fn message(&self) -> (text: &'static str)
        ensures
            text@ == error_text(*self),
    {
        match self {
            Error::BadRecoveryChunk => "RAR 5 recovery chunk is invalid",
            Error::OddShardSize => "RAR 5 recovery shard size is odd",
            Error::PlanOverflow => "RAR 5 recovery plan overflows",
            Error::PrefixExceedsPlan => "RAR 5 recovery prefix exceeds planned shard capacity",
            Error::TooManyDamagedShards => "RAR 5 recovery data cannot repair this many damaged shards",
            Error::ShardSizeMismatch => "RAR 5 recovery shard sizes differ",
            Error::TooManyShards => "RAR 5 recovery shard count is invalid",
            Error::SingularElement => "RAR 5 recovery matrix is singular",
        }
    }
}

pub type Result<T> = std::result::Result<T, Error>;

} // verus!
