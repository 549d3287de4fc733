//! Block headers.
//!
//! A plain header depends on its fields alone, which lets the layout predict
//! positions before anything is emitted. An encrypted one carries a fresh IV;
//! its length is still known beforehand.

use vstd::prelude::*;

use crate::bytes::{push_all, push_le};
#[allow(unused_imports)]
use crate::bytes::{le_bytes, lemma_le_round_trip};
use crate::crc32::crc32;
#[allow(unused_imports)]
use crate::crc32::crc32_of;
use crate::error::{Error, Result};
#[allow(unused_imports)]
use crate::rar50::metadata::{bytes_result, image_size_error};
use crate::rar50::records::write_optional_vint;
#[allow(unused_imports)]
use crate::rar50::records::optional_vint;
use crate::rar50::vint::{vint_width, write_vint};
#[allow(unused_imports)]
use crate::rar50::vint::{lemma_vint_len, vint, vint_len};

verus! {

/// The part of a header that its size field counts: type, flags, the length of
/// the extra area where the flags announce one, the length of the data area
/// where there is one, the fields of the type, and the extra area.
pub open spec fn header_body(
    kind: u64,
    flags: u64,
    data_size: Option<u64>,
    specific: Seq<u8>,
    extra: Seq<u8>,
) -> Seq<u8> {
    vint(kind as nat) + vint(flags as nat) + (if flags % 2 == 1 {
        vint(extra.len())
    } else {
        Seq::empty()
    }) + optional_vint(data_size) + specific + extra
}

/// A header as it stands in an archive: the checksum of the rest, the size of
/// the body, the body.
pub open spec fn header_image(
    kind: u64,
    flags: u64,
    data_size: Option<u64>,
    specific: Seq<u8>,
    extra: Seq<u8>,
) -> Seq<u8> {
    let body = header_body(kind, flags, data_size, specific, extra);
    let sized = vint(body.len()) + body;
    le_bytes(crc32_of(sized) as nat, 4) + sized
}

/// The length of a header, in the clear or encrypted: an encrypted header is a
/// 16-byte IV before the header filled up to the cipher's block size.
pub open spec fn emitted_len(plain_len: nat, encrypted: bool) -> nat {
    if encrypted {
        16 + ((plain_len + 15) / 16) * 16
    } else {
        plain_len
    }
}

/// The header, or the refusal of one that would not fit in memory.
pub open spec fn header_image_of(
    kind: u64,
    flags: u64,
    data_size: Option<u64>,
    specific: Seq<u8>,
    extra: Seq<u8>,
) -> std::result::Result<Seq<u8>, Error> {
    let image = header_image(kind, flags, data_size, specific, extra);
    if image.len() > isize::MAX {
        Err(image_size_error())
    } else {
        Ok(image)
    }
}

proof fn lemma_optional_vint_len(value: Option<u64>)
    ensures
        optional_vint(value).len() == (match value {
            Some(value) => vint_len(value as nat),
            None => 0,
        }),
{
    if let Some(value) = value {
        lemma_vint_len(value as nat);
    }
}

/// The length of a header's body.
pub open spec fn body_len(
    kind: u64,
    flags: u64,
    data_size: Option<u64>,
    specific_len: nat,
    extra_len: nat,
) -> nat {
    vint_len(kind as nat) + vint_len(flags as nat) + (if flags % 2 == 1 {
        vint_len(extra_len)
    } else {
        0
    }) + (match data_size {
        Some(size) => vint_len(size as nat),
        None => 0,
    }) + specific_len + extra_len
}

/// The length of a header in the clear. It rests on the lengths of the fields
/// and not on what they hold.
pub open spec fn plain_len(
    kind: u64,
    flags: u64,
    data_size: Option<u64>,
    specific_len: nat,
    extra_len: nat,
) -> nat {
    let body = body_len(kind, flags, data_size, specific_len, extra_len);
    4 + vint_len(body) + body
}

/// A header is exactly as long as its fields predict.
pub proof fn law_header_length_is_predictable(
    kind: u64,
    flags: u64,
    data_size: Option<u64>,
    specific: Seq<u8>,
    extra: Seq<u8>,
)
    ensures
        header_body(kind, flags, data_size, specific, extra).len() == body_len(
            kind,
            flags,
            data_size,
            specific.len(),
            extra.len(),
        ),
        header_image(kind, flags, data_size, specific, extra).len() == plain_len(
            kind,
            flags,
            data_size,
            specific.len(),
            extra.len(),
        ),
{
    lemma_vint_len(kind as nat);
    lemma_vint_len(flags as nat);
    lemma_vint_len(extra.len());
    lemma_optional_vint_len(data_size);
    let body = header_body(kind, flags, data_size, specific, extra);
    lemma_vint_len(body.len());
    lemma_le_round_trip(crc32_of(vint(body.len()) + body) as nat, 4);
}

/// The length of a header in the clear, where it fits in memory.
pub fn plain_header_len(
    kind: u64,
    flags: u64,
    data_size: Option<u64>,
    specific_len: usize,
    extra_len: usize,
) -> (r: Result<usize>)
    ensures
        r == (if plain_len(kind, flags, data_size, specific_len as nat, extra_len as nat)
            > isize::MAX {
            Err::<usize, Error>(image_size_error())
        } else {
            Ok(
                plain_len(
                    kind,
                    flags,
                    data_size,
                    specific_len as nat,
                    extra_len as nat,
                ) as usize,
            )
        }),
{
    let extra_width: u64 = if flags % 2 == 1 {
        vint_width(extra_len as u64)
    } else {
        0
    };
    let data_width: u64 = match data_size {
        Some(size) => vint_width(size),
        None => 0,
    };
    let body: u128 = vint_width(kind) as u128 + vint_width(flags) as u128 + extra_width as u128
        + data_width as u128 + specific_len as u128 + extra_len as u128;
    assert(body == body_len(kind, flags, data_size, specific_len as nat, extra_len as nat));
    proof {
        lemma_vint_len(body as nat);
    }
    if body > isize::MAX as u128 {
        return Err(Error::InvalidArgument("RAR 5 header size overflows"));
    }
    let total: u128 = 4 + vint_width(body as u64) as u128 + body;
    if total > isize::MAX as u128 {
        return Err(Error::InvalidArgument("RAR 5 header size overflows"));
    }
    Ok(total as usize)
}

/// Builds a header in the clear.
pub fn block_header_image(
    header_type: u64,
    flags: u64,
    data_size: Option<u64>,
    type_specific: &[u8],
    extra: &[u8],
) -> (r: Result<Vec<u8>>)
    ensures
        bytes_result(r) == header_image_of(
            header_type,
            flags,
            data_size,
            type_specific@,
            extra@,
        ),
{
    proof {
        law_header_length_is_predictable(header_type, flags, data_size, type_specific@, extra@);
    }
    match plain_header_len(header_type, flags, data_size, type_specific.len(), extra.len()) {
        Ok(_) => {},
        Err(error) => {
            return Err(error);
        },
    }
    let mut body: Vec<u8> = Vec::new();
    write_vint(&mut body, header_type);
    write_vint(&mut body, flags);
    if flags % 2 == 1 {
        write_vint(&mut body, extra.len() as u64);
    }
    write_optional_vint(&mut body, data_size);
    push_all(&mut body, type_specific);
    push_all(&mut body, extra);
    assert(body@ == header_body(header_type, flags, data_size, type_specific@, extra@));
    let mut sized: Vec<u8> = Vec::new();
    write_vint(&mut sized, body.len() as u64);
    push_all(&mut sized, &body);
    assert(sized@ == vint(body@.len()) + body@);
    let checksum: u32 = crc32(&sized);
    let mut image: Vec<u8> = Vec::new();
    push_le(&mut image, checksum as u64, 4);
    push_all(&mut image, &sized);
    assert(image@ == header_image(header_type, flags, data_size, type_specific@, extra@));
    Ok(image)
}

/// Appends a header and the data behind it. A refused header leaves `out` as
/// it was.
pub fn write_block(
    out: &mut Vec<u8>,
    header_type: u64,
    flags: u64,
    data_size: Option<u64>,
    type_specific: &[u8],
    extra: &[u8],
    data: &[u8],
) -> (r: Result<()>)
    ensures
        match header_image_of(header_type, flags, data_size, type_specific@, extra@) {
            Ok(image) => r is Ok && final(out)@ == old(out)@ + image + data@,
            Err(error) => r == Err::<(), Error>(error) && final(out)@ == old(out)@,
        },
{
    match block_header_image(header_type, flags, data_size, type_specific, extra) {
        Ok(header) => {
            push_all(out, &header);
            push_all(out, data);
            Ok(())
        },
        Err(error) => Err(error),
    }
}

} // verus!
