//! Where an archive is read from.

use vstd::prelude::*;

use crate::bytes::copy_bytes;
use crate::error::{Error, Result};
use crate::streaming::memory_spool::{resolve_seek, SeekFrom};
#[allow(unused_imports)]
use crate::streaming::memory_spool::seek_target;

verus! {

/// The host length of an archive.
pub fn archive_len(len: u64) -> (r: Result<usize>)
    ensures
        r == (if len > usize::MAX {
            Err::<usize, Error>(Error::InvalidHeader("archive size overflows host address size"))
        } else {
            Ok(len as usize)
        }),
{
    if len > usize::MAX as u64 {
        Err(Error::InvalidHeader("archive size overflows host address size"))
    } else {
        Ok(len as usize)
    }
}

/// Whether a range lies within an archive.
pub open spec fn lies_within(start: usize, end: usize, len: nat) -> bool {
    start <= end <= len
}

/// Refuses a range that does not lie within an archive of `len` bytes.
pub fn check_range(range: &std::ops::Range<usize>, len: usize) -> (r: Result<()>)
    ensures
        r == (if lies_within(range.start, range.end, len as nat) {
            Ok::<(), Error>(())
        } else {
            Err(Error::TooShort)
        }),
{
    if range.start > range.end || range.end > len {
        Err(Error::TooShort)
    } else {
        Ok(())
    }
}

/// An archive in memory.
#[derive(Debug)]
pub struct MemoryArchive {
    pub data: Vec<u8>,
}

impl MemoryArchive {
    pub fn len(&self) -> (len: usize)
        ensures
            len == self.data@.len(),
    {
        self.data.len()
    }

    pub fn bytes(&self) -> (bytes: Vec<u8>)
        ensures
            bytes@ == self.data@,
    {
        copy_bytes(&self.data)
    }

    /// The bytes of a range.
    pub fn read_range(&self, range: std::ops::Range<usize>) -> (r: Result<Vec<u8>>)
        ensures
            match r {
                Ok(bytes) => lies_within(range.start, range.end, self.data@.len()) && bytes@
                    == self.data@.subrange(range.start as int, range.end as int),
                Err(error) => !lies_within(range.start, range.end, self.data@.len()) && error
                    == Error::TooShort,
            },
    {
        match check_range(&range, self.data.len()) {
            Ok(()) => Ok(
                copy_bytes(
                    vstd::slice::slice_subrange(self.data.as_slice(), range.start, range.end),
                ),
            ),
            Err(error) => Err(error),
        }
    }

    /// Appends the bytes of a range.
    pub fn copy_range_to(&self, range: std::ops::Range<usize>, out: &mut Vec<u8>) -> (r: Result<()>)
        ensures
            if lies_within(range.start, range.end, self.data@.len()) {
                r is Ok && final(out)@ == old(out)@ + self.data@.subrange(
                    range.start as int,
                    range.end as int,
                )
            } else {
                r == Err::<(), Error>(Error::TooShort) && final(out)@ == old(out)@
            },
    {
        match check_range(&range, self.data.len()) {
            Ok(()) => {
                crate::bytes::push_all(
                    out,
                    vstd::slice::slice_subrange(self.data.as_slice(), range.start, range.end),
                );
                Ok(())
            },
            Err(error) => Err(error),
        }
    }
}

/// A position of its own within a reader that several cursors share: each read
/// seeks first, so siblings never disturb one another.
#[derive(Debug, Clone, Copy, PartialEq, Eq, Structural)]
pub struct SourceCursor {
    len: usize,
    position: u64,
}

impl SourceCursor {
    pub closed spec fn source_len(self) -> usize {
        self.len
    }

    pub closed spec fn at(self) -> u64 {
        self.position
    }

    pub fn new(len: usize) -> (cursor: SourceCursor)
        ensures
            cursor.source_len() == len,
            cursor.at() == 0,
    {
        SourceCursor { len, position: 0 }
    }

    /// Where to seek, and how many bytes to read there.
    pub fn next_read(&self, wanted: usize) -> (read: (u64, usize))
        ensures
            read.0 == self.at(),
            read.1 == (if self.at() >= self.source_len() {
                0
            } else if self.at() + wanted < self.source_len() {
                wanted as int
            } else {
                self.source_len() - self.at()
            }),
    {
        let left: usize = if self.position >= self.len as u64 {
            0
        } else {
            self.len - self.position as usize
        };
        let count: usize = if wanted < left {
            wanted
        } else {
            left
        };
        (self.position, count)
    }

    /// Moves past what was read, which is no more than was asked for.
    pub fn advance(&mut self, count: usize)
        requires
            old(self).at() + count <= u64::MAX,
        ensures
            final(self).source_len() == old(self).source_len(),
            final(self).at() == old(self).at() + count,
    {
        self.position = self.position + count as u64;
    }

    /// Moves the position; one that is no 64-bit number is refused.
    pub fn seek(&mut self, from: SeekFrom) -> (target: Option<u64>)
        ensures
            final(self).source_len() == old(self).source_len(),
            target == seek_target(from, old(self).source_len() as nat, old(self).at()),
            final(self).at() == (match target {
                Some(target) => target,
                None => old(self).at(),
            }),
    {
        match resolve_seek(from, self.len as u64, self.position) {
            Some(target) => {
                self.position = target;
                Some(target)
            },
            None => None,
        }
    }
}

} // verus!
