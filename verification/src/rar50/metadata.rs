//! The archive metadata record of a main header.

use vstd::prelude::*;
#[allow(unused_imports)]
use vstd::utf8::valid_utf8;

use crate::bytes::{push_all, push_le};
#[allow(unused_imports)]
use crate::bytes::le_bytes;
use crate::error::{Error, Result};
use crate::rar50::format::MHEXTRA_ARCHIVE_METADATA;
#[allow(unused_imports)]
use crate::rar50::records::extra_record;
use crate::rar50::records::write_extra_record;
use crate::rar50::vint::{vint_width, write_vint};
use crate::text::utf8_text;
#[allow(unused_imports)]
use crate::rar50::vint::{lemma_vint_len, vint, vint_len};

verus! {

/// What an archive says about itself.
#[derive(Debug, Clone, Copy, PartialEq, Eq)]
pub struct ArchiveMetadataEntry<'a> {
    pub name: Option<&'a [u8]>,
    /// In 100 ns steps since 1601.
    pub creation_time: Option<u64>,
}

/// A metadata record as it was read.
#[derive(Debug, PartialEq, Eq)]
pub struct ArchiveMetadataRecord {
    pub flags: u64,
    pub name: Option<Vec<u8>>,
    pub creation_time: Option<u64>,
}

/// What a header that would not fit in memory is refused with.
pub open spec fn image_size_error() -> Error {
    Error::InvalidArgument("RAR 5 header size overflows")
}

/// Whether a flag, given by its weight, is set.
pub open spec fn has_flag(flags: u64, weight: nat) -> bool {
    (flags as nat / weight) % 2 == 1
}

/// The data of a metadata record: flags, the name behind its length, the time.
pub open spec fn metadata_fields(flags: u64, name: Option<Seq<u8>>, time: Seq<u8>) -> Seq<u8> {
    vint(flags as nat) + (match name {
        Some(name) => vint(name.len()) + name,
        None => Seq::empty(),
    }) + time
}

pub open spec fn metadata_record(flags: u64, name: Option<Seq<u8>>, time: Seq<u8>) -> Seq<u8> {
    extra_record(MHEXTRA_ARCHIVE_METADATA, metadata_fields(flags, name, time))
}

pub open spec fn optional_bytes(bytes: Option<&[u8]>) -> Option<Seq<u8>> {
    match bytes {
        Some(bytes) => Some(bytes@),
        None => None,
    }
}

/// A record that fits in memory, or the refusal of one that does not.
pub open spec fn metadata_image_of(
    flags: u64,
    name: Option<Seq<u8>>,
    time: Seq<u8>,
) -> std::result::Result<Seq<u8>, Error> {
    let record = metadata_record(flags, name, time);
    if record.len() > isize::MAX {
        Err(image_size_error())
    } else {
        Ok(record)
    }
}

/// The view of a result that holds bytes.
pub open spec fn bytes_result(r: Result<Vec<u8>>) -> std::result::Result<Seq<u8>, Error> {
    match r {
        Ok(bytes) => Ok(bytes@),
        Err(error) => Err(error),
    }
}

/// Builds a metadata record.
fn metadata_image(flags: u64, name: Option<&[u8]>, time: &[u8]) -> (r: Result<Vec<u8>>)
    requires
        time@.len() <= 8,
    ensures
        bytes_result(r) == metadata_image_of(flags, optional_bytes(name), time@),
{
    let ghost view = optional_bytes(name);
    let ghost fields = metadata_fields(flags, view, time@);
    let name_len: usize = match name {
        Some(name) => name.len(),
        None => 0,
    };
    let name_width: u64 = match name {
        Some(name) => vint_width(name.len() as u64),
        None => 0,
    };
    let flags_width: u64 = vint_width(flags);
    let time_len: usize = time.len();
    let fields_len: u128 = flags_width as u128 + name_width as u128 + name_len as u128
        + time_len as u128;
    proof {
        lemma_vint_len(flags as nat);
        lemma_vint_len(name_len as nat);
        assert(fields.len() == fields_len);
        reveal_with_fuel(vint_len, 1);
        lemma_vint_len(MHEXTRA_ARCHIVE_METADATA as nat);
    }
    let body_len: u128 = fields_len + 1;
    if body_len > isize::MAX as u128 {
        proof {
            lemma_vint_len(body_len as nat);
        }
        return Err(Error::InvalidArgument("RAR 5 header size overflows"));
    }
    let size_width: u64 = vint_width(body_len as u64);
    proof {
        lemma_vint_len(body_len as nat);
        assert(metadata_record(flags, view, time@).len() == size_width + body_len);
    }
    if size_width as u128 + body_len > isize::MAX as u128 {
        return Err(Error::InvalidArgument("RAR 5 header size overflows"));
    }
    let mut data: Vec<u8> = Vec::new();
    write_vint(&mut data, flags);
    if let Some(name) = name {
        write_vint(&mut data, name.len() as u64);
        push_all(&mut data, name);
    }
    push_all(&mut data, time);
    assert(data@ == fields);
    let mut out: Vec<u8> = Vec::new();
    write_extra_record(&mut out, MHEXTRA_ARCHIVE_METADATA, &data);
    assert(out@ == metadata_record(flags, view, time@));
    Ok(out)
}

/// The record that a writer makes of `metadata`, or why it makes none.
pub open spec fn archive_metadata_record_of(
    name: Option<Seq<u8>>,
    creation_time: Option<u64>,
) -> std::result::Result<Seq<u8>, Error> {
    match (name, creation_time) {
        (None, None) => Err(
            Error::InvalidArgument("RAR 5 archive metadata writer needs a name or creation time"),
        ),
        (Some(_), None) => Err(
            Error::InvalidArgument("RAR 5 archive metadata name needs a creation time"),
        ),
        (None, Some(time)) => metadata_image_of(2, None, le_bytes(time as nat, 8)),
        (Some(name), Some(time)) => if name.len() == 0 {
            Err(Error::InvalidArgument("RAR 5 archive metadata name is empty"))
        } else {
            metadata_image_of(3, Some(name), le_bytes(time as nat, 8))
        },
    }
}

pub fn archive_metadata_record(metadata: ArchiveMetadataEntry<'_>) -> (r: Result<Vec<u8>>)
    ensures
        bytes_result(r) == archive_metadata_record_of(
            optional_bytes(metadata.name),
            metadata.creation_time,
        ),
{
    let mut time_bytes: Vec<u8> = Vec::new();
    let time: u64 = match metadata.creation_time {
        Some(time) => time,
        None => {
            return if metadata.name.is_some() {
                Err(Error::InvalidArgument("RAR 5 archive metadata name needs a creation time"))
            } else {
                Err(
                    Error::InvalidArgument(
                        "RAR 5 archive metadata writer needs a name or creation time",
                    ),
                )
            };
        },
    };
    push_le(&mut time_bytes, time, 8);
    proof {
        crate::bytes::lemma_le_round_trip(time as nat, 8);
    }
    assert(time_bytes@ == le_bytes(time as nat, 8));
    match metadata.name {
        Some(name) => {
            if name.len() == 0 {
                return Err(Error::InvalidArgument("RAR 5 archive metadata name is empty"));
            }
            metadata_image(3, Some(name), &time_bytes)
        },
        None => metadata_image(2, None, &time_bytes),
    }
}

pub open spec fn record_name(record: ArchiveMetadataRecord) -> Option<Seq<u8>> {
    match record.name {
        Some(name) => Some(name@),
        None => None,
    }
}

/// Whether a record that was read can be written again: known flags only, each
/// field present exactly where its flag says, at least one of them, and a name
/// that is text.
pub open spec fn is_retainable(record: ArchiveMetadataRecord) -> bool {
    &&& record.flags <= 15
    &&& has_flag(record.flags, 8) ==> has_flag(record.flags, 4)
    &&& has_flag(record.flags, 1) == record.name is Some
    &&& has_flag(record.flags, 2) == record.creation_time is Some
    &&& record.name is Some || record.creation_time is Some
    &&& record_name(record) matches Some(name) ==> name.len() > 0 && valid_utf8(name)
}

/// Whether a record holds its time as 32-bit Unix seconds.
pub open spec fn has_short_time(flags: u64) -> bool {
    has_flag(flags, 4) && !has_flag(flags, 8)
}

pub open spec fn retained_time(record: ArchiveMetadataRecord) -> Seq<u8> {
    match record.creation_time {
        Some(time) => if has_short_time(record.flags) {
            le_bytes(time as nat, 4)
        } else {
            le_bytes(time as nat, 8)
        },
        None => Seq::empty(),
    }
}

pub open spec fn retained_archive_metadata_of(
    record: ArchiveMetadataRecord,
) -> std::result::Result<Seq<u8>, Error> {
    if !is_retainable(record) {
        Err(Error::InvalidArgument("unsupported archive metadata record"))
    } else if record.creation_time matches Some(time) && has_short_time(record.flags) && time
        > u32::MAX {
        Err(Error::InvalidArgument("archive Unix timestamp exceeds 32 bits"))
    } else {
        metadata_image_of(record.flags, record_name(record), retained_time(record))
    }
}

/// Writes a record that was read, with its flags and its encoding of time.
pub fn retained_archive_metadata(metadata: &ArchiveMetadataRecord) -> (r: Result<Vec<u8>>)
    ensures
        bytes_result(r) == retained_archive_metadata_of(*metadata),
{
    let flags: u64 = metadata.flags;
    let named: bool = flags % 2 == 1;
    let timed: bool = (flags / 2) % 2 == 1;
    let unix: bool = (flags / 4) % 2 == 1;
    let nanos: bool = (flags / 8) % 2 == 1;
    let name_is_text: bool = match &metadata.name {
        Some(name) => name.len() > 0 && utf8_text(name).is_some(),
        None => true,
    };
    if flags > 15 || (nanos && !unix) || named != metadata.name.is_some() || timed
        != metadata.creation_time.is_some() || (!named && !timed) || !name_is_text {
        return Err(Error::InvalidArgument("unsupported archive metadata record"));
    }
    assert(is_retainable(*metadata));
    let mut time_bytes: Vec<u8> = Vec::new();
    if let Some(time) = metadata.creation_time {
        proof {
            crate::bytes::lemma_le_round_trip(time as nat, 4);
            crate::bytes::lemma_le_round_trip(time as nat, 8);
        }
        if unix && !nanos {
            if time > u32::MAX as u64 {
                return Err(Error::InvalidArgument("archive Unix timestamp exceeds 32 bits"));
            }
            push_le(&mut time_bytes, time, 4);
        } else {
            push_le(&mut time_bytes, time, 8);
        }
    }
    assert(time_bytes@ == retained_time(*metadata));
    match &metadata.name {
        Some(name) => metadata_image(flags, Some(name.as_slice()), &time_bytes),
        None => metadata_image(flags, None, &time_bytes),
    }
}

/// What a writer makes of metadata is what it retains of the same metadata
/// read back, where the name is text.
pub proof fn law_written_metadata_is_retained(record: ArchiveMetadataRecord)
    requires
        record.creation_time is Some,
        record.flags == (if record.name is Some { 3u64 } else { 2 }),
        record_name(record) matches Some(name) ==> name.len() > 0 && valid_utf8(name),
    ensures
        retained_archive_metadata_of(record) == archive_metadata_record_of(
            record_name(record),
            record.creation_time,
        ),
{
    assert(is_retainable(record));
}

} // verus!
