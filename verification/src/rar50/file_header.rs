//! The fields of file and service headers.

use vstd::prelude::*;

use crate::bytes::{push_all, push_le};
#[allow(unused_imports)]
use crate::bytes::{le_bytes, lemma_le_round_trip};
use crate::error::{Error, Result};
use crate::rar50::format::{FHFL_CRC32, FHFL_DIRECTORY, FHFL_MTIME};
#[allow(unused_imports)]
use crate::rar50::metadata::{bytes_result, image_size_error};
use crate::rar50::vint::write_vint;
#[allow(unused_imports)]
use crate::rar50::vint::{lemma_vint_len, vint, vint_len};

verus! {

/// The flags of a file's fields.
pub open spec fn file_flags(data_crc32: Option<u32>, mtime: Option<u32>, is_directory: bool) -> u64 {
    ((if data_crc32 is Some { FHFL_CRC32 as int } else { 0 }) + (if is_directory {
        FHFL_DIRECTORY as int
    } else {
        0
    }) + (if mtime is Some { FHFL_MTIME as int } else { 0 })) as u64
}

pub open spec fn optional_le4(value: Option<u32>) -> Seq<u8> {
    match value {
        Some(value) => le_bytes(value as nat, 4),
        None => Seq::empty(),
    }
}

/// The fields of a file header: flags, size, attributes, modification time and
/// checksum where there are such, compression, host, and the name behind its
/// length.
pub open spec fn file_fields(
    name: Seq<u8>,
    unpacked_size: u64,
    data_crc32: Option<u32>,
    attributes: u64,
    mtime: Option<u32>,
    compression_info: u64,
    host_os: u64,
    is_directory: bool,
) -> Seq<u8> {
    vint(file_flags(data_crc32, mtime, is_directory) as nat) + vint(unpacked_size as nat) + vint(
        attributes as nat,
    ) + optional_le4(mtime) + optional_le4(data_crc32) + vint(compression_info as nat) + vint(
        host_os as nat,
    ) + vint(name.len()) + name
}

/// The fields, or the refusal of an empty name or of fields that would not fit
/// in memory.
pub open spec fn file_specific_of(
    name: Seq<u8>,
    unpacked_size: u64,
    data_crc32: Option<u32>,
    attributes: u64,
    mtime: Option<u32>,
    compression_info: u64,
    host_os: u64,
    is_directory: bool,
) -> std::result::Result<Seq<u8>, Error> {
    let fields = file_fields(
        name,
        unpacked_size,
        data_crc32,
        attributes,
        mtime,
        compression_info,
        host_os,
        is_directory,
    );
    if name.len() == 0 {
        Err(Error::InvalidArgument("RAR 5 file name is empty"))
    } else if fields.len() > isize::MAX {
        Err(image_size_error())
    } else {
        Ok(fields)
    }
}

fn write_optional_le4(out: &mut Vec<u8>, value: Option<u32>)
    ensures
        final(out)@ == old(out)@ + optional_le4(value),
{
    match value {
        Some(value) => push_le(out, value as u64, 4),
        None => {
            assert(out@ + Seq::<u8>::empty() == out@);
        },
    }
}

/// Builds the fields of a file header.
pub fn file_specific(
    name: &[u8],
    unpacked_size: u64,
    data_crc32: Option<u32>,
    attributes: u64,
    mtime: Option<u32>,
    compression_info: u64,
    host_os: u64,
    is_directory: bool,
) -> (r: Result<Vec<u8>>)
    ensures
        bytes_result(r) == file_specific_of(
            name@,
            unpacked_size,
            data_crc32,
            attributes,
            mtime,
            compression_info,
            host_os,
            is_directory,
        ),
{
    let name_len: usize = name.len();
    if name_len == 0 {
        return Err(Error::InvalidArgument("RAR 5 file name is empty"));
    }
    let mut flags: u64 = 0;
    if data_crc32.is_some() {
        flags = flags + FHFL_CRC32;
    }
    if is_directory {
        flags = flags + FHFL_DIRECTORY;
    }
    if mtime.is_some() {
        flags = flags + FHFL_MTIME;
    }
    assert(flags == file_flags(data_crc32, mtime, is_directory));
    let mut specific: Vec<u8> = Vec::new();
    write_vint(&mut specific, flags);
    write_vint(&mut specific, unpacked_size);
    write_vint(&mut specific, attributes);
    write_optional_le4(&mut specific, mtime);
    write_optional_le4(&mut specific, data_crc32);
    write_vint(&mut specific, compression_info);
    write_vint(&mut specific, host_os);
    write_vint(&mut specific, name_len as u64);
    let ghost fixed = specific@;
    proof {
        assert(fixed + name@ == file_fields(
            name@,
            unpacked_size,
            data_crc32,
            attributes,
            mtime,
            compression_info,
            host_os,
            is_directory,
        ));
    }
    if specific.len() as u128 + name_len as u128 > isize::MAX as u128 {
        return Err(Error::InvalidArgument("RAR 5 header size overflows"));
    }
    push_all(&mut specific, name);
    Ok(specific)
}

/// Builds the fields of a stored file or service.
pub fn stored_file_specific(
    name: &[u8],
    unpacked_size: u64,
    data_crc32: Option<u32>,
    attributes: u64,
    mtime: Option<u32>,
    host_os: u64,
) -> (r: Result<Vec<u8>>)
    ensures
        bytes_result(r) == file_specific_of(
            name@,
            unpacked_size,
            data_crc32,
            attributes,
            mtime,
            0,
            host_os,
            false,
        ),
{
    file_specific(name, unpacked_size, data_crc32, attributes, mtime, 0, host_os, false)
}

/// The fields of a file are as long as their widths: what a checksum or a time
/// holds does not change the length.
pub proof fn law_file_fields_len(
    name: Seq<u8>,
    unpacked_size: u64,
    data_crc32: Option<u32>,
    attributes: u64,
    mtime: Option<u32>,
    compression_info: u64,
    host_os: u64,
    is_directory: bool,
)
    ensures
        file_fields(
            name,
            unpacked_size,
            data_crc32,
            attributes,
            mtime,
            compression_info,
            host_os,
            is_directory,
        ).len() == 1 + vint_len(unpacked_size as nat) + vint_len(attributes as nat) + (
        if mtime is Some {
            4nat
        } else {
            0
        }) + (if data_crc32 is Some {
            4nat
        } else {
            0
        }) + vint_len(compression_info as nat) + vint_len(host_os as nat) + vint_len(name.len())
            + name.len(),
{
    lemma_vint_len(file_flags(data_crc32, mtime, is_directory) as nat);
    assert(vint_len(file_flags(data_crc32, mtime, is_directory) as nat) == 1);
    lemma_vint_len(unpacked_size as nat);
    lemma_vint_len(attributes as nat);
    lemma_vint_len(compression_info as nat);
    lemma_vint_len(host_os as nat);
    lemma_vint_len(name.len());
    if let Some(value) = mtime {
        lemma_le_round_trip(value as nat, 4);
    }
    if let Some(value) = data_crc32 {
        lemma_le_round_trip(value as nat, 4);
    }
}

} // verus!
