//! Numbers of the RAR 5 container format.

use vstd::prelude::*;

verus! {

/// How many bytes the signature at the start of an archive takes.
pub const SIGNATURE_LEN: u64 = 8;

pub const HEAD_MAIN: u64 = 1;

pub const HEAD_FILE: u64 = 2;

pub const HEAD_SERVICE: u64 = 3;

pub const HEAD_CRYPT: u64 = 4;

pub const HEAD_END: u64 = 5;

/// The header ends in an extra area.
pub const HFL_EXTRA: u64 = 1;

/// A data area follows the header.
pub const HFL_DATA: u64 = 2;

/// The data continues from the previous volume.
pub const HFL_SPLIT_BEFORE: u64 = 8;

/// The data continues in the next volume.
pub const HFL_SPLIT_AFTER: u64 = 16;

pub const FHFL_DIRECTORY: u64 = 1;

pub const FHFL_MTIME: u64 = 2;

pub const FHFL_CRC32: u64 = 4;

pub const FHEXTRA_CRYPT: u64 = 1;

pub const FHEXTRA_HASH: u64 = 2;

pub const FHEXTRA_HTIME: u64 = 3;

pub const FHEXTRA_REDIR: u64 = 5;

pub const FHEXTRA_SUBDATA: u64 = 7;

pub const MHEXTRA_LOCATOR: u64 = 1;

pub const MHEXTRA_LOCATOR_QUICK_OPEN: u64 = 1;

pub const MHEXTRA_LOCATOR_RECOVERY: u64 = 2;

pub const MHEXTRA_ARCHIVE_METADATA: u64 = 2;

pub const MHEXTRA_ARCHIVE_METADATA_NAME: u64 = 1;

pub const MHEXTRA_ARCHIVE_METADATA_TIME: u64 = 2;

/// The time counts seconds since 1970, not 100 ns since 1601.
pub const MHEXTRA_ARCHIVE_METADATA_UNIX: u64 = 4;

/// The Unix time counts nanoseconds.
pub const MHEXTRA_ARCHIVE_METADATA_NANOS: u64 = 8;

pub const MHFL_VOLUME: u64 = 1;

pub const MHFL_VOLUME_NUMBER: u64 = 2;

pub const MHFL_SOLID: u64 = 4;

pub const MHFL_RECOVERY: u64 = 8;

pub const MHFL_LOCKED: u64 = 16;

/// Another volume follows the end block.
pub const EFL_NEXT_VOLUME: u64 = 1;

/// Binary logarithm of the key derivation rounds that the writer asks for.
pub const WRITE_KDF_COUNT_LOG: u8 = 15;

/// The signature that an archive starts with.
pub open spec fn signature() -> Seq<u8> {
    seq![0x52u8, 0x61, 0x72, 0x21, 0x1a, 0x07, 0x01, 0x00]
}

/// Appends the signature.
pub fn write_signature(out: &mut Vec<u8>)
    ensures
        final(out)@ == old(out)@ + signature(),
{
    let bytes: [u8; 8] = [0x52, 0x61, 0x72, 0x21, 0x1a, 0x07, 0x01, 0x00];
    out.extend_from_slice(&bytes);
    assert(bytes@ =~= signature());
    assert(out@ =~= old(out)@ + signature());
}

} // verus!
