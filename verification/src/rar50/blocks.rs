//! Service and member blocks: headers with their fields settled, and payloads
//! that only have to be copied.

use vstd::prelude::*;

use crate::bytes::{copy_bytes, same_bytes};
use crate::crc32::crc32;
#[allow(unused_imports)]
use crate::crc32::crc32_of;
use crate::error::{Error, Result};
use crate::rar50::encryption::{encrypt_buffer_size, encrypted_len, EncryptedStoredPayload};
#[allow(unused_imports)]
use crate::rar50::encryption::{encrypt_buffer_of, padded_len};
use crate::rar50::entry::ServiceEntry;
#[allow(unused_imports)]
use crate::rar50::entry::comment_name;
use crate::rar50::file_header::stored_file_specific;
#[allow(unused_imports)]
use crate::rar50::file_header::file_specific_of;
use crate::rar50::format::{FHEXTRA_SUBDATA, HEAD_SERVICE, HFL_DATA, HFL_EXTRA};
use crate::rar50::headers::block_header_image;
#[allow(unused_imports)]
use crate::rar50::headers::header_image_of;
#[allow(unused_imports)]
use crate::rar50::layout::service_extra;
#[allow(unused_imports)]
use crate::rar50::metadata::bytes_result;
use crate::rar50::records::{
    write_extra_record, write_file_encryption_record, write_hash_record_with_value,
};
#[allow(unused_imports)]
use crate::rar50::records::{file_encryption_record, hash_record};

verus! {

/// Length and checksums of a member's bytes.
#[derive(Debug, Clone, Copy)]
pub struct SourceDigest {
    pub len: u64,
    pub crc32: u32,
    pub hash: [u8; 32],
}

/// What reading a source again is refused with. A reopenable source is not a
/// snapshot: what the header says of it has to hold of the bytes that follow.
pub open spec fn change_error(promised: SourceDigest, observed: SourceDigest) -> Option<Error> {
    if promised.len != observed.len {
        Some(Error::InvalidHeader("entry source size changed while compressing"))
    } else if promised.crc32 != observed.crc32 || promised.hash@ != observed.hash@ {
        Some(Error::SourceChanged("entry source contents changed while writing"))
    } else {
        None
    }
}

impl SourceDigest {
    /// Holds what was read against what the header promised.
    pub fn verify(&self, observed: &SourceDigest) -> (r: Result<()>)
        ensures
            r == (match change_error(*self, *observed) {
                Some(error) => Err::<(), Error>(error),
                None => Ok(()),
            }),
    {
        if self.len != observed.len {
            return Err(Error::InvalidHeader("entry source size changed while compressing"));
        }
        if self.crc32 != observed.crc32 || !same_bytes(&self.hash, &observed.hash) {
            return Err(Error::SourceChanged("entry source contents changed while writing"));
        }
        Ok(())
    }
}

/// A member as the compressor leaves it.
#[derive(Debug)]
pub struct CompressedMember {
    pub input_size: u64,
    pub crc32: u32,
    pub hash: [u8; 32],
    /// The packed bytes; of a stored member, the source read once more.
    pub packed: Vec<u8>,
    /// The hash of a stored member's bytes in that second reading.
    pub packed_hash: [u8; 32],
    pub store: bool,
    pub solid_continuation: bool,
}

impl CompressedMember {
    /// What waits in a spool until the member is out: its packed bytes. A stored
    /// member is read from its source.
    pub open spec fn spool_len(self) -> u64 {
        if self.store {
            0
        } else {
            self.packed@.len() as u64
        }
    }

    /// What the header promises of the member's bytes.
    pub open spec fn promised(self) -> SourceDigest {
        SourceDigest { len: self.input_size, crc32: self.crc32, hash: self.hash }
    }

    /// What the second reading of a stored member gave.
    pub open spec fn observed(self) -> SourceDigest {
        SourceDigest {
            len: self.packed@.len() as u64,
            crc32: crc32_of(self.packed@),
            hash: self.packed_hash,
        }
    }

    /// The length that the header gives for the payload before encryption.
    pub open spec fn plain_len(self) -> u64 {
        if self.store {
            self.input_size
        } else {
            self.packed@.len() as u64
        }
    }

    /// Why a stored member cannot be written.
    pub open spec fn source_error(self) -> Option<Error> {
        if self.store {
            change_error(self.promised(), self.observed())
        } else {
            None
        }
    }

    pub fn check_source(&self) -> (r: Result<()>)
        ensures
            r == (match self.source_error() {
                Some(error) => Err::<(), Error>(error),
                None => Ok(()),
            }),
    {
        if !self.store {
            return Ok(());
        }
        let len: usize = self.packed.len();
        let promised = SourceDigest {
            len: self.input_size,
            crc32: self.crc32,
            hash: self.hash,
        };
        let observed = SourceDigest {
            len: len as u64,
            crc32: crc32(&self.packed),
            hash: self.packed_hash,
        };
        promised.verify(&observed)
    }
}

/// The encryption fields of a member's header.
#[derive(Debug, Clone, Copy)]
pub struct CryptFields {
    pub salt: [u8; 16],
    pub iv: [u8; 16],
    pub check_value: [u8; 12],
}

/// A block with its framing settled.
#[derive(Debug)]
pub struct PreparedBlock {
    /// The header in the clear.
    pub header: Vec<u8>,
    pub payload: Vec<u8>,
    /// The payload's length, as the header gives it.
    pub payload_len: u64,
    /// Quick-open repeats the headers of members and plain comments so that a
    /// reader can list an archive without walking it.
    pub quick_open_cached: bool,
    /// Bytes of the spool that goes away once the block is out.
    pub spooled: u64,
    /// The buffer that an encrypted payload goes through on its way out.
    pub buffer: u64,
}

#[verifier::ext_equal]
pub struct BlockView {
    pub header: Seq<u8>,
    pub payload: Seq<u8>,
    pub payload_len: u64,
    pub quick_open_cached: bool,
    pub spooled: u64,
    pub buffer: u64,
}

impl View for PreparedBlock {
    type V = BlockView;

    open spec fn view(&self) -> BlockView {
        BlockView {
            header: self.header@,
            payload: self.payload@,
            payload_len: self.payload_len,
            quick_open_cached: self.quick_open_cached,
            spooled: self.spooled,
            buffer: self.buffer,
        }
    }
}

pub open spec fn block_result(
    r: Result<PreparedBlock>,
) -> std::result::Result<BlockView, Error> {
    match r {
        Ok(block) => Ok(block@),
        Err(error) => Err(error),
    }
}

/// The header of a stored service.
pub open spec fn service_image_of(
    name: Seq<u8>,
    data_len: u64,
    crc32: u32,
    service_data: Seq<u8>,
) -> std::result::Result<Seq<u8>, Error> {
    match file_specific_of(name, data_len, Some(crc32), 0, None, 0, 0, false) {
        Ok(specific) => header_image_of(
            HEAD_SERVICE,
            (HFL_EXTRA + HFL_DATA) as u64,
            Some(data_len),
            specific,
            service_extra(service_data),
        ),
        Err(error) => Err(error),
    }
}

pub fn stored_service_header(
    name: &[u8],
    data_len: u64,
    crc32: u32,
    service_data: &[u8],
) -> (r: Result<Vec<u8>>)
    ensures
        bytes_result(r) == service_image_of(name@, data_len, crc32, service_data@),
{
    let mut extra: Vec<u8> = Vec::new();
    write_extra_record(&mut extra, FHEXTRA_SUBDATA, service_data);
    assert(extra@ == service_extra(service_data@));
    match stored_file_specific(name, data_len, Some(crc32), 0, None, 0) {
        Ok(specific) => block_header_image(
            HEAD_SERVICE,
            HFL_EXTRA + HFL_DATA,
            Some(data_len),
            &specific,
            &extra,
        ),
        Err(error) => Err(error),
    }
}

/// A stored service block, such as a comment.
pub open spec fn stored_service_of(
    name: Seq<u8>,
    data: Seq<u8>,
    service_data: Seq<u8>,
    quick_open_cached: bool,
) -> std::result::Result<BlockView, Error> {
    match service_image_of(name, data.len() as u64, crc32_of(data), service_data) {
        Ok(header) => Ok(
            BlockView {
                header,
                payload: data,
                payload_len: data.len() as u64,
                quick_open_cached,
                spooled: 0,
                buffer: 0,
            },
        ),
        Err(error) => Err(error),
    }
}

pub fn stored_service_block(
    name: &[u8],
    data: &[u8],
    service_data: &[u8],
    quick_open_cached: bool,
) -> (r: Result<PreparedBlock>)
    ensures
        block_result(r) == stored_service_of(name@, data@, service_data@, quick_open_cached),
        r matches Ok(block) ==> block.header@.len() <= isize::MAX,
{
    let len: usize = data.len();
    match stored_service_header(name, len as u64, crc32(data), service_data) {
        Ok(header) => Ok(
            PreparedBlock {
                header,
                payload: copy_bytes(data),
                payload_len: len as u64,
                quick_open_cached,
                spooled: 0,
                buffer: 0,
            },
        ),
        Err(error) => Err(error),
    }
}

/// The extra area of an encrypted service.
pub open spec fn encrypted_service_extra(
    service_data: Seq<u8>,
    sealed: EncryptedStoredPayload,
) -> Seq<u8> {
    service_extra(service_data) + file_encryption_record(
        sealed.salt@,
        sealed.iv@,
        sealed.check_value@,
    ) + hash_record(sealed.blake2sp_mac@)
}

/// A service block whose payload is encrypted.
pub open spec fn encrypted_service_of(
    name: Seq<u8>,
    data_len: u64,
    service_data: Seq<u8>,
    sealed: EncryptedStoredPayload,
) -> std::result::Result<BlockView, Error> {
    match file_specific_of(name, data_len, Some(sealed.crc32_mac), 0, None, 0, 0, false) {
        Err(error) => Err(error),
        Ok(specific) => if data_len + 15 > u64::MAX {
            Err(Error::InvalidArgument("RAR 5 encrypted data size overflows"))
        } else {
            let payload_len = padded_len(data_len as nat) as u64;
            match header_image_of(
                HEAD_SERVICE,
                (HFL_EXTRA + HFL_DATA) as u64,
                Some(payload_len),
                specific,
                encrypted_service_extra(service_data, sealed),
            ) {
                Err(error) => Err(error),
                Ok(header) => Ok(
                    BlockView {
                        header,
                        payload: sealed.data@,
                        payload_len,
                        quick_open_cached: false,
                        spooled: 0,
                        buffer: encrypt_buffer_of(data_len as nat) as u64,
                    },
                ),
            }
        },
    }
}

pub fn encrypted_service_block(
    name: &[u8],
    data: &[u8],
    service_data: &[u8],
    sealed: EncryptedStoredPayload,
) -> (r: Result<PreparedBlock>)
    ensures
        block_result(r) == encrypted_service_of(
            name@,
            data@.len() as u64,
            service_data@,
            sealed,
        ),
        r matches Ok(block) ==> block.header@.len() <= isize::MAX,
{
    let ghost given = sealed;
    let len: usize = data.len();
    let mut extra: Vec<u8> = Vec::new();
    write_extra_record(&mut extra, FHEXTRA_SUBDATA, service_data);
    write_file_encryption_record(&mut extra, sealed.salt, sealed.iv, sealed.check_value);
    write_hash_record_with_value(&mut extra, sealed.blake2sp_mac);
    assert(extra@ == encrypted_service_extra(service_data@, given));
    let specific = match stored_file_specific(
        name,
        len as u64,
        Some(sealed.crc32_mac),
        0,
        None,
        0,
    ) {
        Ok(specific) => specific,
        Err(error) => {
            return Err(error);
        },
    };
    let payload_len: u64 = match encrypted_len(len as u64) {
        Ok(payload_len) => payload_len,
        Err(error) => {
            return Err(error);
        },
    };
    match block_header_image(
        HEAD_SERVICE,
        HFL_EXTRA + HFL_DATA,
        Some(payload_len),
        &specific,
        &extra,
    ) {
        Ok(header) => Ok(
            PreparedBlock {
                header,
                payload: sealed.data,
                payload_len,
                quick_open_cached: false,
                spooled: 0,
                buffer: encrypt_buffer_size(len) as u64,
            },
        ),
        Err(error) => Err(error),
    }
}

/// A comment or service, in the clear or encrypted.
#[verifier::opaque]
pub open spec fn service_of(
    name: Seq<u8>,
    data: Seq<u8>,
    sealed: Option<EncryptedStoredPayload>,
    quick_open_cached: bool,
) -> std::result::Result<BlockView, Error> {
    match sealed {
        Some(sealed) => encrypted_service_of(name, data.len() as u64, Seq::empty(), sealed),
        None => stored_service_of(name, data, Seq::empty(), quick_open_cached),
    }
}

/// The block of an archive comment. Plain comments are listed by quick-open;
/// encrypted ones, and those behind an encrypted header, are not.
pub fn prepare_comment(
    data: &[u8],
    sealed: Option<EncryptedStoredPayload>,
    header_encrypted: bool,
) -> (r: Result<PreparedBlock>)
    ensures
        block_result(r) == service_of(comment_name(), data@, sealed, !header_encrypted),
        r matches Ok(block) ==> block.header@.len() <= isize::MAX,
{
    proof {
        reveal(service_of);
    }
    let name: [u8; 3] = [0x43, 0x4d, 0x54];
    assert(name@ =~= comment_name());
    let nothing: Vec<u8> = Vec::new();
    assert(nothing@ == Seq::<u8>::empty());
    match sealed {
        Some(sealed) => encrypted_service_block(&name, data, &nothing, sealed),
        None => stored_service_block(&name, data, &nothing, !header_encrypted),
    }
}

/// The block of a member's service.
pub fn prepare_service(
    service: &ServiceEntry,
    sealed: Option<EncryptedStoredPayload>,
) -> (r: Result<PreparedBlock>)
    ensures
        block_result(r) == service_of(service.name@, service.data@, sealed, false),
        r matches Ok(block) ==> block.header@.len() <= isize::MAX,
{
    proof {
        reveal(service_of);
    }
    let nothing: Vec<u8> = Vec::new();
    assert(nothing@ == Seq::<u8>::empty());
    match sealed {
        Some(sealed) => encrypted_service_block(&service.name, &service.data, &nothing, sealed),
        None => stored_service_block(&service.name, &service.data, &nothing, false),
    }
}

} // verus!
