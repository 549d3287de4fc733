//! The blocks that frame an archive: main, encryption and end headers.

use vstd::prelude::*;

use crate::bytes::{push_all, same_bytes};
use crate::error::{Error, Result};
use crate::rar50::format::{HEAD_CRYPT, HEAD_END, HEAD_MAIN, HFL_EXTRA, WRITE_KDF_COUNT_LOG};
use crate::rar50::headers::write_block;
#[allow(unused_imports)]
use crate::rar50::headers::header_image_of;
use crate::rar50::metadata::{archive_metadata_record, ArchiveMetadataEntry};
#[allow(unused_imports)]
use crate::rar50::metadata::{archive_metadata_record_of, bytes_result, optional_bytes};
use crate::rar50::records::{write_locator_record, write_optional_vint};
#[allow(unused_imports)]
use crate::rar50::records::{locator_record, optional_vint};
use crate::rar50::vint::write_vint;
#[allow(unused_imports)]
use crate::rar50::vint::vint;

verus! {

/// The offset that a locator gives for the quick-open block: zero where only
/// the metadata record calls for a locator.
pub open spec fn located_quick_open(has_metadata: bool, quick_open: Option<u64>) -> Option<u64> {
    if quick_open is None && has_metadata {
        Some(0)
    } else {
        quick_open
    }
}

/// The locator, where the main header has one.
pub open spec fn locator_part(
    has_metadata: bool,
    quick_open: Option<u64>,
    recovery: Option<u64>,
) -> Seq<u8> {
    let located = located_quick_open(has_metadata, quick_open);
    if located is Some || recovery is Some {
        locator_record(located, recovery)
    } else {
        Seq::empty()
    }
}

/// The record of the metadata that a writer was given, where it was given any.
pub open spec fn metadata_part(
    metadata: Option<ArchiveMetadataEntry<'_>>,
) -> std::result::Result<Seq<u8>, Error> {
    match metadata {
        Some(metadata) => archive_metadata_record_of(
            optional_bytes(metadata.name),
            metadata.creation_time,
        ),
        None => Ok(Seq::empty()),
    }
}

/// The extra area of a main header with these offsets.
pub open spec fn main_extra_of(
    metadata: Option<ArchiveMetadataEntry<'_>>,
    quick_open: Option<u64>,
    recovery: Option<u64>,
) -> std::result::Result<Seq<u8>, Error> {
    match metadata_part(metadata) {
        Ok(record) => Ok(locator_part(metadata is Some, quick_open, recovery) + record),
        Err(error) => Err(error),
    }
}

pub fn resolved_main_extra(
    archive_metadata: Option<ArchiveMetadataEntry<'_>>,
    quick_open_offset: Option<u64>,
    recovery_offset: Option<u64>,
) -> (r: Result<Vec<u8>>)
    ensures
        bytes_result(r) == main_extra_of(archive_metadata, quick_open_offset, recovery_offset),
{
    let mut main_extra: Vec<u8> = Vec::new();
    let located: Option<u64> = if quick_open_offset.is_none() && archive_metadata.is_some() {
        Some(0)
    } else {
        quick_open_offset
    };
    if located.is_some() || recovery_offset.is_some() {
        write_locator_record(&mut main_extra, located, recovery_offset);
    }
    assert(main_extra@ == locator_part(
        archive_metadata is Some,
        quick_open_offset,
        recovery_offset,
    ));
    match archive_metadata {
        Some(metadata) => {
            match archive_metadata_record(metadata) {
                Ok(record) => push_all(&mut main_extra, &record),
                Err(error) => {
                    return Err(error);
                },
            }
        },
        None => {
            assert(main_extra@ + Seq::<u8>::empty() == main_extra@);
        },
    }
    Ok(main_extra)
}

/// The fields of a main header: flags, and the volume number where there is one.
pub open spec fn main_fields(archive_flags: u64, volume_number: Option<u64>) -> Seq<u8> {
    vint(archive_flags as nat) + optional_vint(volume_number)
}

/// The header flags that go with an extra area.
pub open spec fn extra_flag(extra: Seq<u8>) -> u64 {
    if extra.len() == 0 {
        0
    } else {
        HFL_EXTRA
    }
}

/// Builds the fields of a main header.
pub fn main_specific(archive_flags: u64, volume_number: Option<u64>) -> (specific: Vec<u8>)
    ensures
        specific@ == main_fields(archive_flags, volume_number),
{
    let mut specific: Vec<u8> = Vec::new();
    write_vint(&mut specific, archive_flags);
    write_optional_vint(&mut specific, volume_number);
    assert(specific@ == main_fields(archive_flags, volume_number));
    specific
}

/// Appends a main header.
pub fn write_main_header(
    out: &mut Vec<u8>,
    archive_flags: u64,
    volume_number: Option<u64>,
    extra: &[u8],
) -> (r: Result<()>)
    ensures
        match header_image_of(
            HEAD_MAIN,
            extra_flag(extra@),
            None,
            main_fields(archive_flags, volume_number),
            extra@,
        ) {
            Ok(image) => r is Ok && final(out)@ == old(out)@ + image,
            Err(error) => r == Err::<(), Error>(error) && final(out)@ == old(out)@,
        },
{
    let specific = main_specific(archive_flags, volume_number);
    let flags: u64 = if extra.len() == 0 {
        0
    } else {
        HFL_EXTRA
    };
    let nothing: Vec<u8> = Vec::new();
    let r = write_block(out, HEAD_MAIN, flags, None, &specific, extra, &nothing);
    assert(nothing@ == Seq::<u8>::empty());
    r
}

/// The fields of an encryption header: version zero, a check value present,
/// the key derivation count, salt and check value.
pub open spec fn crypt_fields(salt: Seq<u8>, check_value: Seq<u8>) -> Seq<u8> {
    seq![0u8, 1u8, WRITE_KDF_COUNT_LOG] + salt + check_value
}

/// Appends an encryption header.
pub fn write_head_crypt(out: &mut Vec<u8>, salt: [u8; 16], check_value: [u8; 12]) -> (r: Result<()>)
    ensures
        match header_image_of(
            HEAD_CRYPT,
            0,
            None,
            crypt_fields(salt@, check_value@),
            Seq::empty(),
        ) {
            Ok(image) => r is Ok && final(out)@ == old(out)@ + image,
            Err(error) => r == Err::<(), Error>(error) && final(out)@ == old(out)@,
        },
{
    let mut specific: Vec<u8> = Vec::new();
    specific.push(0);
    specific.push(1);
    specific.push(WRITE_KDF_COUNT_LOG);
    push_all(&mut specific, &salt);
    push_all(&mut specific, &check_value);
    assert(specific@ == crypt_fields(salt@, check_value@));
    let nothing: Vec<u8> = Vec::new();
    assert(nothing@ == Seq::<u8>::empty());
    write_block(out, HEAD_CRYPT, 0, None, &specific, &nothing, &nothing)
}

/// Builds the fields of an end header.
pub fn end_header_specific(end_flags: u64) -> (specific: Vec<u8>)
    ensures
        specific@ == vint(end_flags as nat),
{
    let mut specific: Vec<u8> = Vec::new();
    write_vint(&mut specific, end_flags);
    assert(specific@ == vint(end_flags as nat));
    specific
}

/// Appends an end header.
pub fn write_end_header(out: &mut Vec<u8>, end_flags: u64) -> (r: Result<()>)
    ensures
        match header_image_of(HEAD_END, 0, None, vint(end_flags as nat), Seq::empty()) {
            Ok(image) => r is Ok && final(out)@ == old(out)@ + image,
            Err(error) => r == Err::<(), Error>(error) && final(out)@ == old(out)@,
        },
{
    let specific = end_header_specific(end_flags);
    let nothing: Vec<u8> = Vec::new();
    assert(nothing@ == Seq::<u8>::empty());
    write_block(out, HEAD_END, 0, None, &specific, &nothing, &nothing)
}

/// Whether all passwords are one.
pub open spec fn all_same(passwords: Seq<Seq<u8>>) -> bool {
    forall|i: int| 0 <= i < passwords.len() ==> #[trigger] passwords[i] == passwords[0]
}

pub open spec fn passwords_view(passwords: Seq<&[u8]>) -> Seq<Seq<u8>> {
    passwords.map_values(|password: &[u8]| password@)
}

/// The one password of a header-encrypted archive: header encryption covers
/// the whole archive, so every member, service and comment has to be locked
/// with the same one.
pub fn header_encryption_password<'a>(passwords: &[&'a [u8]]) -> (r: Result<&'a [u8]>)
    ensures
        match r {
            Ok(password) => passwords@.len() > 0 && password@ == passwords@[0]@ && all_same(
                passwords_view(passwords@),
            ),
            Err(error) => if passwords@.len() == 0 {
                error == Error::NeedPassword
            } else {
                !all_same(passwords_view(passwords@)) && error == Error::InvalidArgument(
                    "RAR 5 header-encrypted writer needs one shared password",
                )
            },
        },
{
    if passwords.len() == 0 {
        return Err(Error::NeedPassword);
    }
    let first: &'a [u8] = passwords[0];
    let ghost view = passwords_view(passwords@);
    let mut at: usize = 1;
    while at < passwords.len()
        invariant
            1 <= at <= passwords@.len(),
            view == passwords_view(passwords@),
            first@ == passwords@[0]@,
            forall|i: int| 0 <= i < at ==> #[trigger] view[i] == view[0],
        decreases passwords@.len() - at,
    {
        if !same_bytes(passwords[at], first) {
            proof {
                assert(view[at as int] != view[0]);
            }
            return Err(
                Error::InvalidArgument("RAR 5 header-encrypted writer needs one shared password"),
            );
        }
        assert(view[at as int] == view[0]);
        at = at + 1;
    }
    Ok(first)
}

} // verus!
