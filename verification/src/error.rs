//! What can go wrong when an archive is written, read or rewritten.

use vstd::prelude::*;

use crate::bytes::{copy_bytes, same_bytes};
use crate::recovery::rar5::error::Error as RecoveryError;
use crate::version::ArchiveVersion;
use crate::write_plan::WriterOption;

verus! {

#[derive(Debug, Clone, Copy, PartialEq, Eq)]
pub enum Error {
    /// The caller passed something that cannot be meant.
    InvalidArgument(&'static str),
    /// A header cannot be written or read as asked.
    InvalidHeader(&'static str),
    /// A writer could not do what it had planned.
    WriterFailure(&'static str),
    /// A source did not hold what it held before.
    SourceChanged(&'static str),
    NeedPassword,
    WrongPasswordOrCorruptData,
    Cancelled,
    TooShort,
    EntryNotFound,
    DuplicateEntry,
    UnsupportedVersion(ArchiveVersion),
    UnsupportedFeature { version: ArchiveVersion, feature: &'static str },
    UnsupportedWriterOption {
        target: ArchiveVersion,
        option: WriterOption,
        because: Option<&'static str>,
    },
    MemoryLimitExceeded { limit: u64, required: u64, dictionary_size: u64 },
    WriterSpoolLimitExceeded { limit: u64, required: u64, used: u64 },
    WriterSpoolMemoryLimitExceeded { limit: u64, required: u64, used: u64 },
    WriterPreparationLimitExceeded { limit: u64, required: u64, used: u64 },
    WriterPreparedHeaderLimitExceeded { limit: u64, required: u64, used: u64 },
    RewriteStagingLimitExceeded { limit: u64, required: u64 },
    /// A recovery record could not be built or used.
    Recovery(RecoveryError),
}

/// The broad classes a caller tells failures apart by.
#[derive(Debug, Clone, Copy, PartialEq, Eq, Structural)]
pub enum ErrorKind {
    InvalidInput,
    Cancelled,
    ResourceLimit,
    Unsupported,
    Password,
    Other,
}

pub open spec fn kind_of(error: Error) -> ErrorKind {
    match error {
        Error::Cancelled => ErrorKind::Cancelled,
        Error::MemoryLimitExceeded { .. }
        | Error::WriterSpoolLimitExceeded { .. }
        | Error::WriterSpoolMemoryLimitExceeded { .. }
        | Error::WriterPreparationLimitExceeded { .. }
        | Error::WriterPreparedHeaderLimitExceeded { .. }
        | Error::RewriteStagingLimitExceeded { .. } => ErrorKind::ResourceLimit,
        Error::UnsupportedVersion(..)
        | Error::UnsupportedFeature { .. }
        | Error::UnsupportedWriterOption { .. } => ErrorKind::Unsupported,
        Error::NeedPassword | Error::WrongPasswordOrCorruptData => ErrorKind::Password,
        Error::InvalidArgument(..) | Error::InvalidHeader(..) | Error::TooShort
        | Error::EntryNotFound | Error::DuplicateEntry => ErrorKind::InvalidInput,
        Error::WriterFailure(..) | Error::SourceChanged(..) | Error::Recovery(..) => {
            ErrorKind::Other
        },
    }
}

impl Error {
    pub fn kind(&self) -> (kind: ErrorKind)
        ensures
            kind == kind_of(*self),
    {
        match self {
            Error::Cancelled => ErrorKind::Cancelled,
            Error::MemoryLimitExceeded { .. }
            | Error::WriterSpoolLimitExceeded { .. }
            | Error::WriterSpoolMemoryLimitExceeded { .. }
            | Error::WriterPreparationLimitExceeded { .. }
            | Error::WriterPreparedHeaderLimitExceeded { .. }
            | Error::RewriteStagingLimitExceeded { .. } => ErrorKind::ResourceLimit,
            Error::UnsupportedVersion(..)
            | Error::UnsupportedFeature { .. }
            | Error::UnsupportedWriterOption { .. } => ErrorKind::Unsupported,
            Error::NeedPassword | Error::WrongPasswordOrCorruptData => ErrorKind::Password,
            Error::InvalidArgument(..) | Error::InvalidHeader(..) | Error::TooShort
            | Error::EntryNotFound | Error::DuplicateEntry => ErrorKind::InvalidInput,
            Error::WriterFailure(..) | Error::SourceChanged(..) | Error::Recovery(..) => {
            ErrorKind::Other
        },
        }
    }
}

pub type Result<T> = std::result::Result<T, Error>;

/// The entry at which something failed, and what was being done with it.
#[derive(Debug)]
pub struct EntryContext {
    pub name: Vec<u8>,
    pub operation: &'static str,
}

/// Whether a failure is to name an entry. A cancelled operation fails as a whole,
/// and an entry that is named already is not named again.
pub open spec fn names_entry(
    cancelled: bool,
    known: Option<EntryContext>,
    name: Seq<u8>,
) -> bool {
    !cancelled && !(known matches Some(context) && context.name@ == name)
}

/// The context that a failure has once it has passed an entry.
pub fn context_at(
    cancelled: bool,
    known: Option<EntryContext>,
    name: &[u8],
    operation: &'static str,
) -> (context: Option<EntryContext>)
    ensures
        if names_entry(cancelled, known, name@) {
            context matches Some(context) && context.name@ == name@ && context.operation
                == operation
        } else {
            context == known
        },
{
    if cancelled {
        return known;
    }
    let named: bool = match &known {
        Some(context) => same_bytes(context.name.as_slice(), name),
        None => false,
    };
    if named {
        known
    } else {
        Some(EntryContext { name: copy_bytes(name), operation })
    }
}

/// An error, with the entry at which it arose where that is known.
#[derive(Debug)]
pub struct EntryError {
    pub error: Error,
    pub context: Option<EntryContext>,
}

impl EntryError {
    /// An error of no entry.
    pub fn new(error: Error) -> (at: EntryError)
        ensures
            at == (EntryError { error, context: None }),
    {
        EntryError { error, context: None }
    }

    /// The error as it leaves an entry. What failed stays the same.
    pub fn at_entry(self, name: &[u8], operation: &'static str) -> (at: EntryError)
        ensures
            at.error == self.error,
            if names_entry(kind_of(self.error) == ErrorKind::Cancelled, self.context, name@) {
                at.context matches Some(context) && context.name@ == name@ && context.operation
                    == operation
            } else {
                at.context == self.context
            },
    {
        let cancelled: bool = matches!(self.error.kind(), ErrorKind::Cancelled);
        EntryError {
            error: self.error,
            context: context_at(cancelled, self.context, name, operation),
        }
    }
}

} // verus!
