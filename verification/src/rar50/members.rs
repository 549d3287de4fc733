//! Member headers, whole and in fragments.

use vstd::prelude::*;

use crate::error::{Error, Result};
use crate::rar50::blocks::{CompressedMember, CryptFields, PreparedBlock};
#[allow(unused_imports)]
use crate::rar50::blocks::{block_result, BlockView};
use crate::rar50::encryption::{EncryptedStoredPayload, ENCRYPT_CHUNK};
#[allow(unused_imports)]
use crate::rar50::encryption::padded_len;
use crate::rar50::entry::{ArchiveEntry, Redirection};
use crate::rar50::file_header::file_specific;
#[allow(unused_imports)]
use crate::rar50::file_header::file_specific_of;
use crate::rar50::format::{FHEXTRA_HTIME, FHEXTRA_REDIR, HEAD_FILE, HFL_DATA, HFL_EXTRA};
use crate::rar50::headers::block_header_image;
#[allow(unused_imports)]
use crate::rar50::headers::header_image_of;
use crate::rar50::link_name::decoded_rar50_name_len;
#[allow(unused_imports)]
use crate::rar50::link_name::decoded_name_len;
#[allow(unused_imports)]
use crate::rar50::metadata::bytes_result;
use crate::rar50::plan::{member_compression_info, CompressPlan};
#[allow(unused_imports)]
use crate::rar50::plan::member_info;
use crate::rar50::records::{
    write_extra_record, write_file_encryption_record, write_hash_record_with_value,
    write_mtime_record,
};
#[allow(unused_imports)]
use crate::rar50::records::{extra_record, file_encryption_record, hash_record, mtime_record};
use crate::bytes::push_all;
use crate::rar50::vint::write_vint;
#[allow(unused_imports)]
use crate::rar50::vint::vint;

verus! {

/// The record of a link.
pub open spec fn redirection_record(link: Redirection) -> Seq<u8> {
    extra_record(
        FHEXTRA_REDIR,
        vint(link.redirection_type as nat) + vint(link.flags as nat) + vint(
            link.target_name@.len(),
        ) + link.target_name@,
    )
}

pub open spec fn optional_crypt(crypt: Option<CryptFields>) -> Seq<u8> {
    match crypt {
        Some(crypt) => file_encryption_record(crypt.salt@, crypt.iv@, crypt.check_value@),
        None => Seq::empty(),
    }
}

pub open spec fn optional_hash(hash: Option<[u8; 32]>) -> Seq<u8> {
    match hash {
        Some(hash) => hash_record(hash@),
        None => Seq::empty(),
    }
}

pub open spec fn optional_times(times: Option<Vec<u8>>) -> Seq<u8> {
    match times {
        Some(times) => extra_record(FHEXTRA_HTIME, times@),
        None => Seq::empty(),
    }
}

pub open spec fn optional_link(link: Option<Redirection>) -> Seq<u8> {
    match link {
        Some(link) => redirection_record(link),
        None => Seq::empty(),
    }
}

/// The extra area of a member's header: encryption, hash, times, link.
pub open spec fn member_extra(
    crypt: Option<CryptFields>,
    hash: Option<[u8; 32]>,
    entry: ArchiveEntry,
    with_link: bool,
) -> Seq<u8> {
    optional_crypt(crypt) + optional_hash(hash) + mtime_record(
        entry.mtime,
        entry.mtime_nanoseconds,
    ) + optional_times(entry.file_times) + (if with_link {
        optional_link(entry.redirection)
    } else {
        Seq::empty()
    })
}

fn write_redirection_record(out: &mut Vec<u8>, link: &Redirection)
    ensures
        final(out)@ == old(out)@ + redirection_record(*link),
{
    let mut record: Vec<u8> = Vec::new();
    write_vint(&mut record, link.redirection_type);
    write_vint(&mut record, link.flags);
    let name_len: usize = link.target_name.len();
    write_vint(&mut record, name_len as u64);
    push_all(&mut record, &link.target_name);
    assert(record@ == vint(link.redirection_type as nat) + vint(link.flags as nat) + vint(
        link.target_name@.len(),
    ) + link.target_name@);
    write_extra_record(out, FHEXTRA_REDIR, &record);
}

/// Builds the extra area of a member's header.
pub fn write_member_extra(
    crypt: Option<CryptFields>,
    hash: Option<[u8; 32]>,
    entry: &ArchiveEntry,
    with_link: bool,
) -> (extra: Vec<u8>)
    ensures
        extra@ == member_extra(crypt, hash, *entry, with_link),
{
    let mut extra: Vec<u8> = Vec::new();
    if let Some(crypt) = crypt {
        write_file_encryption_record(&mut extra, crypt.salt, crypt.iv, crypt.check_value);
    }
    assert(extra@ == optional_crypt(crypt));
    if let Some(hash) = hash {
        write_hash_record_with_value(&mut extra, hash);
    }
    assert(extra@ == optional_crypt(crypt) + optional_hash(hash));
    write_mtime_record(&mut extra, entry.mtime, entry.mtime_nanoseconds);
    let ghost before = extra@;
    if let Some(times) = &entry.file_times {
        write_extra_record(&mut extra, FHEXTRA_HTIME, times);
    }
    assert(extra@ == before + optional_times(entry.file_times));
    let ghost before = extra@;
    if with_link {
        if let Some(link) = &entry.redirection {
            write_redirection_record(&mut extra, link);
        }
    }
    assert(extra@ == before + (if with_link {
        optional_link(entry.redirection)
    } else {
        Seq::empty()
    }));
    extra
}

/// The time in the base header: none where nanoseconds move it into a record.
pub open spec fn base_mtime(entry: ArchiveEntry) -> Option<u32> {
    if entry.mtime_nanoseconds is None {
        entry.mtime
    } else {
        None
    }
}

/// The size that a member reports: of a link, the size asked for, or that of
/// its target's name as Unix would count it, while the payload stays empty.
pub open spec fn reported_size(entry: ArchiveEntry, input_size: u64) -> u64 {
    match entry.redirection {
        Some(link) => match entry.redirection_size {
            Some(size) => size,
            None => decoded_name_len(link.target_name@) as u64,
        },
        None => input_size,
    }
}

pub open spec fn crypt_of(sealed: Option<EncryptedStoredPayload>) -> Option<CryptFields> {
    match sealed {
        Some(sealed) => Some(
            CryptFields { salt: sealed.salt, iv: sealed.iv, check_value: sealed.check_value },
        ),
        None => None,
    }
}

/// The checksum that the header carries: keyed where the member is encrypted.
pub open spec fn header_crc32(
    member: CompressedMember,
    sealed: Option<EncryptedStoredPayload>,
) -> u32 {
    match sealed {
        Some(sealed) => sealed.crc32_mac,
        None => member.crc32,
    }
}

pub open spec fn header_hash(
    member: CompressedMember,
    sealed: Option<EncryptedStoredPayload>,
) -> [u8; 32] {
    match sealed {
        Some(sealed) => sealed.blake2sp_mac,
        None => member.hash,
    }
}

/// The bytes that follow a member's header.
pub open spec fn payload_of(
    member: CompressedMember,
    sealed: Option<EncryptedStoredPayload>,
) -> Seq<u8> {
    match sealed {
        Some(sealed) => sealed.data@,
        None => member.packed@,
    }
}

/// The payload's length as the header gives it: encryption pads the payload up
/// to the cipher's block size.
pub open spec fn payload_len_of(
    member: CompressedMember,
    sealed: Option<EncryptedStoredPayload>,
) -> nat {
    if sealed is Some {
        padded_len(member.plain_len() as nat)
    } else {
        member.plain_len() as nat
    }
}

/// A member's header.
#[verifier::opaque]
pub open spec fn member_image_of(
    entry: ArchiveEntry,
    input_size: u64,
    data_crc32: u32,
    hash: [u8; 32],
    crypt: Option<CryptFields>,
    info: u64,
    payload_len: u64,
) -> std::result::Result<Seq<u8>, Error> {
    match file_specific_of(
        entry.name@,
        reported_size(entry, input_size),
        Some(data_crc32),
        entry.attributes,
        base_mtime(entry),
        info,
        entry.host_os,
        entry.is_directory,
    ) {
        Err(error) => Err(error),
        Ok(specific) => header_image_of(
            HEAD_FILE,
            (HFL_EXTRA + HFL_DATA) as u64,
            Some(payload_len),
            specific,
            member_extra(
                crypt,
                // A link has no file payload to hash; its target is protected
                // by the header's own checksum.
                if entry.redirection is None {
                    Some(hash)
                } else {
                    None
                },
                entry,
                true,
            ),
        ),
    }
}

/// A member's block.
pub open spec fn member_block_of(
    entry: ArchiveEntry,
    member: CompressedMember,
    sealed: Option<EncryptedStoredPayload>,
    plan: CompressPlan,
) -> std::result::Result<BlockView, Error> {
    let payload_len = payload_len_of(member, sealed);
    match member_info(plan, member.store, member.solid_continuation) {
        Err(error) => Err(error),
        Ok(info) => if payload_len > u64::MAX {
            Err(Error::InvalidArgument("RAR 5 encrypted data size overflows"))
        } else {
            match member_image_of(
                entry,
                member.input_size,
                header_crc32(member, sealed),
                header_hash(member, sealed),
                crypt_of(sealed),
                info,
                payload_len as u64,
            ) {
                Err(error) => Err(error),
                Ok(header) => Ok(
                    BlockView {
                        header,
                        payload: payload_of(member, sealed),
                        payload_len: payload_len as u64,
                        quick_open_cached: true,
                        spooled: member.spool_len(),
                        buffer: if sealed is Some {
                            ENCRYPT_CHUNK as u64
                        } else {
                            0
                        },
                    },
                ),
            }
        },
    }
}

fn payload_len(plain_len: u64, encrypted: bool) -> (r: Result<u64>)
    ensures
        r == (if encrypted && padded_len(plain_len as nat) > u64::MAX {
            Err::<u64, Error>(Error::InvalidArgument("RAR 5 encrypted data size overflows"))
        } else if encrypted {
            Ok(padded_len(plain_len as nat) as u64)
        } else {
            Ok(plain_len)
        }),
{
    if !encrypted {
        return Ok(plain_len);
    }
    if plain_len > 0xffff_ffff_ffff_fff0 {
        return Err(Error::InvalidArgument("RAR 5 encrypted data size overflows"));
    }
    Ok(((plain_len as u128 + 15) / 16 * 16) as u64)
}

fn size_to_report(entry: &ArchiveEntry, input_size: u64) -> (size: u64)
    ensures
        size == reported_size(*entry, input_size),
{
    match &entry.redirection {
        Some(link) => match entry.redirection_size {
            Some(size) => size,
            None => decoded_rar50_name_len(&link.target_name) as u64,
        },
        None => input_size,
    }
}

fn member_header(
    entry: &ArchiveEntry,
    input_size: u64,
    data_crc32: u32,
    hash: [u8; 32],
    crypt: Option<CryptFields>,
    info: u64,
    payload_len: u64,
) -> (r: Result<Vec<u8>>)
    ensures
        bytes_result(r) == member_image_of(
            *entry,
            input_size,
            data_crc32,
            hash,
            crypt,
            info,
            payload_len,
        ),
        r matches Ok(header) ==> header@.len() <= isize::MAX,
{
    proof {
        reveal(member_image_of);
    }
    let shown_hash: Option<[u8; 32]> = if entry.redirection.is_none() {
        Some(hash)
    } else {
        None
    };
    let extra = write_member_extra(crypt, shown_hash, entry, true);
    let mtime: Option<u32> = if entry.mtime_nanoseconds.is_none() {
        entry.mtime
    } else {
        None
    };
    let specific = match file_specific(
        &entry.name,
        size_to_report(entry, input_size),
        Some(data_crc32),
        entry.attributes,
        mtime,
        info,
        entry.host_os,
        entry.is_directory,
    ) {
        Ok(specific) => specific,
        Err(error) => {
            return Err(error);
        },
    };
    block_header_image(HEAD_FILE, HFL_EXTRA + HFL_DATA, Some(payload_len), &specific, &extra)
}

/// Builds a member's final header and settles its payload.
pub fn prepare_member(
    entry: &ArchiveEntry,
    member: CompressedMember,
    sealed: Option<EncryptedStoredPayload>,
    plan: &CompressPlan,
) -> (r: Result<PreparedBlock>)
    ensures
        block_result(r) == member_block_of(*entry, member, sealed, *plan),
        r matches Ok(block) ==> block.header@.len() <= isize::MAX,
{
    let info: u64 = match member_compression_info(plan, member.store, member.solid_continuation) {
        Ok(info) => info,
        Err(error) => {
            return Err(error);
        },
    };
    let packed_len: usize = member.packed.len();
    let plain_len: u64 = if member.store {
        member.input_size
    } else {
        packed_len as u64
    };
    let block_len: u64 = match payload_len(plain_len, sealed.is_some()) {
        Ok(len) => len,
        Err(error) => {
            return Err(error);
        },
    };
    let input_size: u64 = member.input_size;
    let spooled: u64 = if member.store {
        0
    } else {
        packed_len as u64
    };
    let buffer: u64 = if sealed.is_some() {
        ENCRYPT_CHUNK as u64
    } else {
        0
    };
    let (payload, data_crc32, hash, crypt): (Vec<u8>, u32, [u8; 32], Option<CryptFields>) =
        match sealed {
        Some(sealed) => (
            sealed.data,
            sealed.crc32_mac,
            sealed.blake2sp_mac,
            Some(
                CryptFields { salt: sealed.salt, iv: sealed.iv, check_value: sealed.check_value },
            ),
        ),
        None => (member.packed, member.crc32, member.hash, None),
    };
    match member_header(entry, input_size, data_crc32, hash, crypt, info, block_len) {
        Ok(header) => Ok(
            PreparedBlock {
                header,
                payload,
                payload_len: block_len,
                quick_open_cached: true,
                spooled,
                buffer,
            },
        ),
        Err(error) => Err(error),
    }
}

} // verus!
