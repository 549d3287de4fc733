//! The records of a header's extra area.

use vstd::prelude::*;

use crate::bytes::{push_all, push_le};
#[allow(unused_imports)]
use crate::bytes::le_bytes;
use crate::rar50::format::{
    FHEXTRA_CRYPT, FHEXTRA_HASH, FHEXTRA_HTIME, MHEXTRA_LOCATOR, WRITE_KDF_COUNT_LOG,
};
use crate::rar50::vint::{write_vint, write_wide_vint};
#[allow(unused_imports)]
use crate::rar50::vint::vint;

verus! {

/// A record of type `kind`: its size, its type and its data.
pub open spec fn extra_record(kind: u64, data: Seq<u8>) -> Seq<u8> {
    let body = vint(kind as nat) + data;
    vint(body.len()) + body
}

/// Appends a record of type `record_type`.
pub fn write_extra_record(out: &mut Vec<u8>, record_type: u64, data: &[u8])
    ensures
        final(out)@ == old(out)@ + extra_record(record_type, data@),
{
    let mut kind: Vec<u8> = Vec::new();
    write_vint(&mut kind, record_type);
    assert(kind@ == vint(record_type as nat));
    let data_len: usize = data.len();
    write_wide_vint(out, kind.len() as u128 + data_len as u128);
    push_all(out, &kind);
    push_all(out, data);
    assert(out@ == old(out)@ + extra_record(record_type, data@));
}

/// The record of a 32-byte member hash; hash type zero is BLAKE2sp.
pub open spec fn hash_record(hash: Seq<u8>) -> Seq<u8> {
    extra_record(FHEXTRA_HASH, seq![0u8] + hash)
}

pub fn write_hash_record_with_value(out: &mut Vec<u8>, hash: [u8; 32])
    ensures
        final(out)@ == old(out)@ + hash_record(hash@),
{
    let mut record: Vec<u8> = Vec::new();
    record.push(0);
    push_all(&mut record, &hash);
    assert(record@ == seq![0u8] + hash@);
    write_extra_record(out, FHEXTRA_HASH, &record);
}

/// The record of a member's encryption: version zero, a check value and a
/// keyed checksum present, the key derivation count, salt, IV and check value.
pub open spec fn file_encryption_record(
    salt: Seq<u8>,
    iv: Seq<u8>,
    check_value: Seq<u8>,
) -> Seq<u8> {
    extra_record(
        FHEXTRA_CRYPT,
        seq![0u8, 3u8, WRITE_KDF_COUNT_LOG] + salt + iv + check_value,
    )
}

pub fn write_file_encryption_record(
    out: &mut Vec<u8>,
    salt: [u8; 16],
    iv: [u8; 16],
    check_value: [u8; 12],
)
    ensures
        final(out)@ == old(out)@ + file_encryption_record(salt@, iv@, check_value@),
{
    let mut record: Vec<u8> = Vec::new();
    record.push(0);
    record.push(3);
    record.push(WRITE_KDF_COUNT_LOG);
    push_all(&mut record, &salt);
    push_all(&mut record, &iv);
    push_all(&mut record, &check_value);
    assert(record@ == seq![0u8, 3u8, WRITE_KDF_COUNT_LOG] + salt@ + iv@ + check_value@);
    write_extra_record(out, FHEXTRA_CRYPT, &record);
}

/// The record of a modification time with its nanoseconds; none where either
/// is missing.
pub open spec fn mtime_record(seconds: Option<u32>, nanos: Option<u32>) -> Seq<u8> {
    match (seconds, nanos) {
        (Some(seconds), Some(nanos)) => extra_record(
            FHEXTRA_HTIME,
            seq![0x13u8] + le_bytes(seconds as nat, 4) + le_bytes(nanos as nat, 4),
        ),
        _ => Seq::empty(),
    }
}

pub fn write_mtime_record(out: &mut Vec<u8>, seconds: Option<u32>, nanos: Option<u32>)
    ensures
        final(out)@ == old(out)@ + mtime_record(seconds, nanos),
{
    if let (Some(seconds), Some(nanos)) = (seconds, nanos) {
        // Unix time, modification time and nanoseconds: the whole timestamp,
        // with no base-header time competing with it.
        let mut record: Vec<u8> = Vec::new();
        record.push(0x13);
        push_le(&mut record, seconds as u64, 4);
        push_le(&mut record, nanos as u64, 4);
        assert(record@ == seq![0x13u8] + le_bytes(seconds as nat, 4) + le_bytes(nanos as nat, 4));
        write_extra_record(out, FHEXTRA_HTIME, &record);
    }
}

/// The flags of a locator record.
pub open spec fn locator_flags(quick_open: Option<u64>, recovery: Option<u64>) -> u64 {
    if quick_open is Some && recovery is Some {
        3
    } else if recovery is Some {
        2
    } else if quick_open is Some {
        1
    } else {
        0
    }
}

pub open spec fn optional_vint(value: Option<u64>) -> Seq<u8> {
    match value {
        Some(value) => vint(value as nat),
        None => Seq::empty(),
    }
}

/// The record that says where the quick-open and recovery blocks start.
pub open spec fn locator_record(quick_open: Option<u64>, recovery: Option<u64>) -> Seq<u8> {
    extra_record(
        MHEXTRA_LOCATOR,
        vint(locator_flags(quick_open, recovery) as nat) + optional_vint(quick_open)
            + optional_vint(recovery),
    )
}

/// Appends the encoding of a value that may be absent.
pub fn write_optional_vint(out: &mut Vec<u8>, value: Option<u64>)
    ensures
        final(out)@ == old(out)@ + optional_vint(value),
{
    match value {
        Some(value) => write_vint(out, value),
        None => {
            assert(out@ + Seq::<u8>::empty() == out@);
        },
    }
}

pub fn write_locator_record(
    out: &mut Vec<u8>,
    quick_open_offset: Option<u64>,
    recovery_record_offset: Option<u64>,
)
    ensures
        final(out)@ == old(out)@ + locator_record(quick_open_offset, recovery_record_offset),
{
    let mut flags: u64 = 0;
    if quick_open_offset.is_some() {
        flags = flags + 1;
    }
    if recovery_record_offset.is_some() {
        flags = flags + 2;
    }
    let mut record: Vec<u8> = Vec::new();
    write_vint(&mut record, flags);
    write_optional_vint(&mut record, quick_open_offset);
    write_optional_vint(&mut record, recovery_record_offset);
    assert(record@ == vint(locator_flags(quick_open_offset, recovery_record_offset) as nat)
        + optional_vint(quick_open_offset) + optional_vint(recovery_record_offset));
    write_extra_record(out, MHEXTRA_LOCATOR, &record);
}

} // verus!
