//! How a reader of the format takes headers apart. What is written is held against
//! this: whatever goes into a header comes out of it again.

use vstd::prelude::*;

#[allow(unused_imports)]
use crate::bytes::le_bytes;
#[allow(unused_imports)]
use crate::crc32::crc32_of;
#[allow(unused_imports)]
use crate::rar50::file_header::{file_fields, file_flags, optional_le4};
#[allow(unused_imports)]
use crate::rar50::headers::{header_body, header_image};
#[allow(unused_imports)]
use crate::rar50::records::{extra_record, optional_vint};
#[allow(unused_imports)]
use crate::rar50::vint::vint;

verus! {

/// An integer of variable length, and what follows it: seven bits to a byte, the
/// lowest first, and the top bit set where another byte follows.
#[verifier::opaque]
pub open spec fn read_vint(bytes: Seq<u8>) -> Option<(nat, Seq<u8>)>
    decreases bytes.len(),
{
    if bytes.len() == 0 {
        None
    } else if bytes[0] < 0x80 {
        Some((bytes[0] as nat, bytes.skip(1)))
    } else {
        match read_vint(bytes.skip(1)) {
            Some((high, rest)) => Some(((bytes[0] - 0x80) as nat + 0x80 * high, rest)),
            None => None,
        }
    }
}

/// So many bytes, and what follows them.
pub open spec fn read_bytes(bytes: Seq<u8>, count: nat) -> Option<(Seq<u8>, Seq<u8>)> {
    if count <= bytes.len() {
        Some((bytes.take(count as int), bytes.skip(count as int)))
    } else {
        None
    }
}

/// Four bytes as a number, the lowest first, and what follows them.
#[verifier::opaque]
pub open spec fn read_four(bytes: Seq<u8>) -> Option<(nat, Seq<u8>)> {
    if bytes.len() < 4 {
        None
    } else {
        Some(
            (
                bytes[0] as nat + 0x100 * bytes[1] as nat + 0x1_0000 * bytes[2] as nat
                    + 0x100_0000 * bytes[3] as nat,
                bytes.skip(4),
            ),
        )
    }
}

/// Eight bytes as a number, the lowest first, and what follows them.
pub open spec fn read_eight(bytes: Seq<u8>) -> Option<(nat, Seq<u8>)> {
    match read_four(bytes) {
        Some((low, rest)) => match read_four(rest) {
            Some((high, rest)) => Some((low + 0x1_0000_0000 * high, rest)),
            None => None,
        },
        None => None,
    }
}

/// A number of so many bytes behind its own length.
#[verifier::opaque]
pub open spec fn read_sized(bytes: Seq<u8>) -> Option<(Seq<u8>, Seq<u8>)> {
    match read_vint(bytes) {
        Some((len, rest)) => read_bytes(rest, len),
        None => None,
    }
}

/// A header that was read.
#[verifier::ext_equal]
pub struct HeaderRead {
    pub kind: nat,
    pub flags: nat,
    /// How many bytes of data follow the header.
    pub data_len: nat,
    /// The fields that headers of its kind have.
    pub fields: Seq<u8>,
    /// The extra area.
    pub extra: Seq<u8>,
}

/// Reads what the size of a header counts: its type, its flags, the length of the
/// extra area with flag 1, the length of the data with flag 2, fields, extra area.
#[verifier::opaque]
pub open spec fn read_header_body(body: Seq<u8>) -> Option<HeaderRead> {
    match read_vint(body) {
        None => None,
        Some((kind, after_kind)) => match read_vint(after_kind) {
            None => None,
            Some((flags, after_flags)) => {
                let extra_len = if flags % 2 == 1 {
                    read_vint(after_flags)
                } else {
                    Some((0, after_flags))
                };
                match extra_len {
                    None => None,
                    Some((extra_len, after_extra)) => {
                        let data_len = if (flags / 2) % 2 == 1 {
                            read_vint(after_extra)
                        } else {
                            Some((0, after_extra))
                        };
                        match data_len {
                            Some((data_len, rest)) => if extra_len <= rest.len() {
                                let at = rest.len() - extra_len;
                                Some(
                                    HeaderRead {
                                        kind,
                                        flags,
                                        data_len,
                                        fields: rest.take(at),
                                        extra: rest.skip(at),
                                    },
                                )
                            } else {
                                None
                            },
                            None => None,
                        }
                    },
                }
            },
        },
    }
}

/// Reads the header at the start of some bytes, and gives what follows it: four bytes
/// of checksum over all the rest of it, the size of its body, the body. One whose
/// checksum is wrong is none.
pub open spec fn read_header(bytes: Seq<u8>) -> Option<(HeaderRead, Seq<u8>)> {
    match read_four(bytes) {
        None => None,
        Some((checksum, sized)) => match read_vint(sized) {
            None => None,
            Some((size, body)) => if size > body.len() {
                None
            } else {
                let rest = body.skip(size as int);
                if crc32_of(sized.take(sized.len() - rest.len())) != checksum {
                    None
                } else {
                    match read_header_body(body.take(size as int)) {
                        Some(header) => Some((header, rest)),
                        None => None,
                    }
                }
            },
        },
    }
}

pub proof fn lemma_read_vint(value: nat, rest: Seq<u8>)
    ensures
        read_vint(vint(value) + rest) == Some((value, rest)),
        vint(value).len() >= 1,
    decreases value,
{
    reveal_with_fuel(read_vint, 2);
    let bytes = vint(value) + rest;
    if value < 128 {
        assert(bytes[0] == value as u8);
        assert(bytes.skip(1) =~= rest);
    } else {
        assert(bytes[0] == (128 + value % 128) as u8);
        assert(bytes.skip(1) =~= vint(value / 128) + rest);
        lemma_read_vint(value / 128, rest);
    }
}

/// The digits of a number from the fifth on.
proof fn lemma_le_halves(value: nat)
    ensures
        le_bytes(value, 8) == le_bytes(value, 4) + le_bytes(
            value / 256 / 256 / 256 / 256,
            4,
        ),
{
    let high = le_bytes(value / 256 / 256 / 256 / 256, 4);
    assert(le_bytes(value / 256 / 256 / 256, 5) == seq![(value / 256 / 256 / 256 % 256) as u8]
        + high);
    assert(le_bytes(value / 256 / 256, 6) == seq![(value / 256 / 256 % 256) as u8] + le_bytes(
        value / 256 / 256 / 256,
        5,
    ));
    assert(le_bytes(value / 256, 7) == seq![(value / 256 % 256) as u8] + le_bytes(
        value / 256 / 256,
        6,
    ));
    assert(le_bytes(value, 8) == seq![(value % 256) as u8] + le_bytes(value / 256, 7));
    lemma_le_four(value);
    assert(le_bytes(value, 8) =~= le_bytes(value, 4) + high);
}

proof fn lemma_le_four(value: nat)
    ensures
        le_bytes(value, 4) == seq![
            (value % 256) as u8,
            (value / 256 % 256) as u8,
            (value / 256 / 256 % 256) as u8,
            (value / 256 / 256 / 256 % 256) as u8,
        ],
{
    assert(le_bytes(value / 256 / 256 / 256 / 256, 0) =~= Seq::empty());
    assert(le_bytes(value / 256 / 256 / 256, 1) =~= seq![
        (value / 256 / 256 / 256 % 256) as u8,
    ]);
    assert(le_bytes(value / 256 / 256, 2) =~= seq![
        (value / 256 / 256 % 256) as u8,
        (value / 256 / 256 / 256 % 256) as u8,
    ]);
    assert(le_bytes(value / 256, 3) =~= seq![
        (value / 256 % 256) as u8,
        (value / 256 / 256 % 256) as u8,
        (value / 256 / 256 / 256 % 256) as u8,
    ]);
    assert(le_bytes(value, 4) =~= seq![
        (value % 256) as u8,
        (value / 256 % 256) as u8,
        (value / 256 / 256 % 256) as u8,
        (value / 256 / 256 / 256 % 256) as u8,
    ]);
}

pub proof fn lemma_read_four(value: nat, rest: Seq<u8>)
    ensures
        read_four(le_bytes(value, 4) + rest) == Some((value % 0x1_0000_0000, rest)),
{
    lemma_le_four(value);
    lemma_four_digits(value);
    let bytes = le_bytes(value, 4) + rest;
    assert(bytes.skip(4) =~= rest);
    assert(bytes[0] == (value % 256) as u8);
    assert(bytes[1] == (value / 256 % 256) as u8);
    assert(bytes[2] == (value / 256 / 256 % 256) as u8);
    assert(bytes[3] == (value / 256 / 256 / 256 % 256) as u8);
    assert(bytes.len() >= 4);
    reveal(read_four);
}

proof fn lemma_four_digits(value: nat)
    ensures
        value % 256 + 0x100 * (value / 256 % 256) + 0x1_0000 * (value / 256 / 256 % 256)
            + 0x100_0000 * (value / 256 / 256 / 256 % 256) == value % 0x1_0000_0000,
{
    let a = value / 256;
    let b = a / 256;
    let c = b / 256;
    let d = c / 256;
    assert(value == value % 256 + 256 * a);
    assert(a == a % 256 + 256 * b);
    assert(b == b % 256 + 256 * c);
    assert(c == c % 256 + 256 * d);
    let low = value % 256 + 0x100 * (a % 256) + 0x1_0000 * (b % 256) + 0x100_0000 * (c % 256);
    assert(value == low + 0x1_0000_0000 * d);
    assert(0 <= low < 0x1_0000_0000);
}

pub proof fn lemma_read_eight(value: u64, rest: Seq<u8>)
    ensures
        read_eight(le_bytes(value as nat, 8) + rest) == Some((value as nat, rest)),
{
    let v = value as nat;
    let high = v / 256 / 256 / 256 / 256;
    lemma_le_halves(v);
    assert(le_bytes(v, 8) + rest =~= le_bytes(v, 4) + (le_bytes(high, 4) + rest));
    lemma_read_four(v, le_bytes(high, 4) + rest);
    lemma_read_four(high, rest);
}

pub proof fn lemma_read_bytes(part: Seq<u8>, rest: Seq<u8>)
    ensures
        read_bytes(part + rest, part.len()) == Some((part, rest)),
        read_sized(vint(part.len()) + part + rest) == Some((part, rest)),
{
    reveal(read_sized);
    assert((part + rest).take(part.len() as int) =~= part);
    assert((part + rest).skip(part.len() as int) =~= rest);
    lemma_read_vint(part.len(), part + rest);
    assert(vint(part.len()) + part + rest =~= vint(part.len()) + (part + rest));
}

/// Every header gives back what it was made of, whatever follows it. Its checksum is
/// right, and a reader finds its end.
pub proof fn law_headers_read_back(
    kind: u64,
    flags: u64,
    data_size: Option<u64>,
    specific: Seq<u8>,
    extra: Seq<u8>,
    rest: Seq<u8>,
)
    requires
        data_size is Some <==> (flags / 2) % 2 == 1,
        flags % 2 == 0 ==> extra.len() == 0,
    ensures
        read_header(header_image(kind, flags, data_size, specific, extra) + rest) == Some(
            (
                HeaderRead {
                    kind: kind as nat,
                    flags: flags as nat,
                    data_len: match data_size {
                        Some(size) => size as nat,
                        None => 0,
                    },
                    fields: specific,
                    extra,
                },
                rest,
            ),
        ),
{
    lemma_read_header_body(kind, flags, data_size, specific, extra);
    let body = header_body(kind, flags, data_size, specific, extra);
    let header = read_header_body(body)->0;
    let sized = vint(body.len()) + body;
    let image = header_image(kind, flags, data_size, specific, extra);
    lemma_read_four(crc32_of(sized) as nat, sized + rest);
    lemma_read_vint(body.len(), body + rest);
    lemma_sized(vint(body.len()), body, rest);
    assert(image + rest =~= le_bytes(crc32_of(sized) as nat, 4) + (sized + rest));
}

proof fn lemma_sized(size: Seq<u8>, body: Seq<u8>, rest: Seq<u8>)
    ensures
        (size + body) + rest == size + (body + rest),
        (body + rest).skip(body.len() as int) == rest,
        (body + rest).take(body.len() as int) == body,
        ((size + body) + rest).take(((size + body) + rest).len() - rest.len()) == size + body,
{
    assert((size + body) + rest =~= size + (body + rest));
    assert((body + rest).skip(body.len() as int) =~= rest);
    assert((body + rest).take(body.len() as int) =~= body);
    assert(((size + body) + rest).take(((size + body) + rest).len() - rest.len()) =~= size + body);
}

proof fn lemma_body_parts(
    kind: Seq<u8>,
    flags: Seq<u8>,
    extra_len: Seq<u8>,
    data_len: Seq<u8>,
    specific: Seq<u8>,
    extra: Seq<u8>,
)
    ensures
        kind + flags + extra_len + data_len + specific + extra == kind + (flags + (extra_len + (
        data_len + (specific + extra)))),
        (specific + extra).take(specific.len() as int) == specific,
        (specific + extra).skip(specific.len() as int) == extra,
{
    assert(kind + flags + extra_len + data_len + specific + extra =~= kind + (flags + (extra_len + (
    data_len + (specific + extra)))));
    assert((specific + extra).take(specific.len() as int) =~= specific);
    assert((specific + extra).skip(specific.len() as int) =~= extra);
}

proof fn lemma_read_header_body(
    kind: u64,
    flags: u64,
    data_size: Option<u64>,
    specific: Seq<u8>,
    extra: Seq<u8>,
)
    requires
        data_size is Some <==> (flags / 2) % 2 == 1,
        flags % 2 == 0 ==> extra.len() == 0,
    ensures
        read_header_body(header_body(kind, flags, data_size, specific, extra)) == Some(
            HeaderRead {
                kind: kind as nat,
                flags: flags as nat,
                data_len: match data_size {
                    Some(size) => size as nat,
                    None => 0,
                },
                fields: specific,
                extra,
            },
        ),
{
    reveal(read_header_body);
    let extra_part = if flags % 2 == 1 {
        vint(extra.len())
    } else {
        Seq::empty()
    };
    let data_part = optional_vint(data_size);
    let tail = specific + extra;
    let after_extra = data_part + tail;
    let after_flags = extra_part + after_extra;
    let after_kind = vint(flags as nat) + after_flags;
    lemma_body_parts(
        vint(kind as nat),
        vint(flags as nat),
        extra_part,
        data_part,
        specific,
        extra,
    );
    lemma_read_vint(kind as nat, after_kind);
    lemma_read_vint(flags as nat, after_flags);
    if flags % 2 == 1 {
        lemma_read_vint(extra.len(), after_extra);
    } else {
        assert(after_flags =~= after_extra);
    }
    if let Some(size) = data_size {
        lemma_read_vint(size as nat, tail);
    } else {
        assert(after_extra =~= tail);
    }
    assert(tail.len() - extra.len() == specific.len());
}

/// The fields of a file or a service that were read.
#[verifier::ext_equal]
pub struct FileRead {
    pub is_directory: bool,
    pub size: nat,
    pub attributes: nat,
    pub mtime: Option<nat>,
    pub crc32: Option<nat>,
    pub compression: nat,
    pub host_os: nat,
    pub name: Seq<u8>,
}

/// A number of four bytes where there is one.
#[verifier::opaque]
pub open spec fn read_optional_four(bytes: Seq<u8>, present: bool) -> Option<
    (Option<nat>, Seq<u8>),
> {
    if present {
        match read_four(bytes) {
            Some((value, rest)) => Some((Some(value), rest)),
            None => None,
        }
    } else {
        Some((None, bytes))
    }
}

/// Reads the fields of a file in the order of the format: flags, size, attributes, the
/// time with flag 2, the checksum with flag 4, compression, host, the length of the
/// name, the name. Nothing may follow.
pub open spec fn read_file(fields: Seq<u8>) -> Option<FileRead> {
    match read_vint(fields) {
        None => None,
        Some((flags, rest)) => match read_vint(rest) {
            None => None,
            Some((size, rest)) => match read_vint(rest) {
                None => None,
                Some((attributes, rest)) => match read_optional_four(rest, (flags / 2) % 2 == 1) {
                    None => None,
                    Some((mtime, rest)) => match read_optional_four(rest, (flags / 4) % 2 == 1) {
                        None => None,
                        Some((crc32, rest)) => match read_vint(rest) {
                            None => None,
                            Some((compression, rest)) => match read_vint(rest) {
                                None => None,
                                Some((host_os, rest)) => match read_sized(rest) {
                                    Some((name, rest)) => if flags < 8 && rest.len() == 0 {
                                        Some(
                                            FileRead {
                                                is_directory: flags % 2 == 1,
                                                size,
                                                attributes,
                                                mtime,
                                                crc32,
                                                compression,
                                                host_os,
                                                name,
                                            },
                                        )
                                    } else {
                                        None
                                    },
                                    None => None,
                                },
                            },
                        },
                    },
                },
            },
        },
    }
}

/// A value of 32 bits as a number.
pub open spec fn counted(value: Option<u32>) -> Option<nat> {
    match value {
        Some(value) => Some(value as nat),
        None => None,
    }
}

proof fn lemma_read_optional_four(value: Option<u32>, rest: Seq<u8>)
    ensures
        read_optional_four(optional_le4(value) + rest, value is Some) == Some(
            (counted(value), rest),
        ),
{
    reveal(read_optional_four);
    match value {
        Some(value) => lemma_read_four(value as nat, rest),
        None => {
            assert(optional_le4(value) + rest =~= rest);
        },
    }
}

proof fn lemma_file_parts(
    a: Seq<u8>,
    b: Seq<u8>,
    c: Seq<u8>,
    d: Seq<u8>,
    e: Seq<u8>,
    f: Seq<u8>,
    g: Seq<u8>,
    h: Seq<u8>,
    i: Seq<u8>,
)
    ensures
        a + b + c + d + e + f + g + h + i == a + (b + (c + (d + (e + (f + (g + (h + i))))))),
{
    assert(a + b + c + d + e + f + g + h + i =~= a + (b + (c + (d + (e + (f + (g + (h + i))))))));
}

/// The fields of a file give back every value that was put in.
pub proof fn law_file_fields_read_back(
    name: Seq<u8>,
    unpacked_size: u64,
    data_crc32: Option<u32>,
    attributes: u64,
    mtime: Option<u32>,
    compression_info: u64,
    host_os: u64,
    is_directory: bool,
)
    ensures
        read_file(
            file_fields(
                name,
                unpacked_size,
                data_crc32,
                attributes,
                mtime,
                compression_info,
                host_os,
                is_directory,
            ),
        ) == Some(
            FileRead {
                is_directory,
                size: unpacked_size as nat,
                attributes: attributes as nat,
                mtime: counted(mtime),
                crc32: counted(data_crc32),
                compression: compression_info as nat,
                host_os: host_os as nat,
                name,
            },
        ),
{
    let flags = file_flags(data_crc32, mtime, is_directory);
    assert(flags < 8);
    assert(flags % 2 == 1 <==> is_directory);
    assert((flags as nat / 2) % 2 == 1 <==> mtime is Some);
    assert((flags as nat / 4) % 2 == 1 <==> data_crc32 is Some);
    let sized_name = vint(name.len()) + name;
    let after_compression = vint(host_os as nat) + sized_name;
    let after_crc = vint(compression_info as nat) + after_compression;
    let after_mtime = optional_le4(data_crc32) + after_crc;
    let after_attributes = optional_le4(mtime) + after_mtime;
    let after_size = vint(attributes as nat) + after_attributes;
    let after_flags = vint(unpacked_size as nat) + after_size;
    let fields = file_fields(
        name,
        unpacked_size,
        data_crc32,
        attributes,
        mtime,
        compression_info,
        host_os,
        is_directory,
    );
    lemma_file_parts(
        vint(flags as nat),
        vint(unpacked_size as nat),
        vint(attributes as nat),
        optional_le4(mtime),
        optional_le4(data_crc32),
        vint(compression_info as nat),
        vint(host_os as nat),
        vint(name.len()),
        name,
    );
    lemma_read_vint(flags as nat, after_flags);
    lemma_read_vint(unpacked_size as nat, after_size);
    lemma_read_vint(attributes as nat, after_attributes);
    lemma_read_optional_four(mtime, after_mtime);
    lemma_read_optional_four(data_crc32, after_crc);
    lemma_read_vint(compression_info as nat, after_compression);
    lemma_read_vint(host_os as nat, sized_name);
    lemma_read_bytes(name, Seq::empty());
    assert(sized_name + Seq::<u8>::empty() =~= sized_name);
}

/// A record of an extra area that was read.
#[verifier::ext_equal]
pub struct RecordRead {
    pub kind: nat,
    pub data: Seq<u8>,
}

/// Reads the records of an extra area: the size of what follows, a type, data.
pub open spec fn read_records(extra: Seq<u8>) -> Option<Seq<RecordRead>>
    decreases extra.len(),
{
    if extra.len() == 0 {
        Some(Seq::empty())
    } else {
        match read_sized(extra) {
            Some((body, rest)) => if rest.len() >= extra.len() {
                None
            } else {
                match (read_vint(body), read_records(rest)) {
                    (Some((kind, data)), Some(records)) => Some(
                        seq![RecordRead { kind, data }] + records,
                    ),
                    _ => None,
                }
            },
            None => None,
        }
    }
}

/// A record gives back its type and its data, and leaves the records behind it.
pub proof fn law_records_read_back(kind: u64, data: Seq<u8>, rest: Seq<u8>)
    ensures
        read_records(rest) matches Some(records) ==> read_records(extra_record(kind, data) + rest)
            == Some(seq![RecordRead { kind: kind as nat, data }] + records),
{
    let body = vint(kind as nat) + data;
    let extra = extra_record(kind, data) + rest;
    lemma_read_vint(kind as nat, data);
    lemma_read_vint(body.len(), body + rest);
    lemma_read_bytes(body, rest);
    assert(extra =~= vint(body.len()) + body + rest);
}

pub proof fn lemma_no_records()
    ensures
        read_records(Seq::empty()) == Some(Seq::<RecordRead>::empty()),
{
}

/// What a main header says of an archive.
#[verifier::ext_equal]
pub struct MainRead {
    pub flags: nat,
    pub volume_number: Option<nat>,
}

/// A number where there is one.
pub open spec fn read_optional_vint(bytes: Seq<u8>, present: bool) -> Option<
    (Option<nat>, Seq<u8>),
> {
    if present {
        match read_vint(bytes) {
            Some((value, rest)) => Some((Some(value), rest)),
            None => None,
        }
    } else {
        Some((None, bytes))
    }
}

/// Reads the fields of a main header: flags, and a volume number with flag 2.
pub open spec fn read_main(fields: Seq<u8>) -> Option<MainRead> {
    match read_vint(fields) {
        None => None,
        Some((flags, rest)) => match read_optional_vint(rest, (flags / 2) % 2 == 1) {
            Some((volume_number, rest)) => if rest.len() == 0 {
                Some(MainRead { flags, volume_number })
            } else {
                None
            },
            None => None,
        },
    }
}

/// Reads the fields of an end header: whether another volume follows.
pub open spec fn read_end(fields: Seq<u8>) -> Option<bool> {
    match read_vint(fields) {
        Some((flags, rest)) => if flags < 2 && rest.len() == 0 {
            Some(flags == 1)
        } else {
            None
        },
        None => None,
    }
}

/// The places that a locator gives, counted from the start of the archive's first
/// block.
#[verifier::ext_equal]
pub struct LocatorRead {
    pub quick_open: Option<nat>,
    pub recovery: Option<nat>,
}

/// Reads a locator: flags, the place of the quick-open block with flag 1, that of the
/// recovery record with flag 2.
pub open spec fn read_locator(data: Seq<u8>) -> Option<LocatorRead> {
    match read_vint(data) {
        None => None,
        Some((flags, rest)) => match read_optional_vint(rest, flags % 2 == 1) {
            None => None,
            Some((quick_open, rest)) => match read_optional_vint(rest, (flags / 2) % 2 == 1) {
                Some((recovery, rest)) => if flags < 4 && rest.len() == 0 {
                    Some(LocatorRead { quick_open, recovery })
                } else {
                    None
                },
                None => None,
            },
        },
    }
}

/// What an archive says about itself.
#[verifier::ext_equal]
pub struct MetadataRead {
    pub name: Option<Seq<u8>>,
    pub time: Option<nat>,
    /// Whether the time counts from 1970.
    pub is_unix: bool,
    /// Whether a Unix time counts nanoseconds.
    pub has_nanos: bool,
}

/// Reads a metadata record: flags, a name behind its length with flag 1, a time with
/// flag 2: four bytes of Unix seconds with flag 4, unless flag 8 makes it eight bytes of
/// nanoseconds; eight bytes since 1601 without.
pub open spec fn read_metadata(data: Seq<u8>) -> Option<MetadataRead> {
    match read_vint(data) {
        None => None,
        Some((flags, rest)) => {
            let name = if flags % 2 == 1 {
                match read_sized(rest) {
                    Some((name, rest)) => Some((Some(name), rest)),
                    None => None,
                }
            } else {
                Some((None, rest))
            };
            let is_unix = (flags / 4) % 2 == 1;
            let has_nanos = (flags / 8) % 2 == 1;
            match name {
                None => None,
                Some((name, rest)) => {
                    let time = if (flags / 2) % 2 == 0 {
                        Some((None, rest))
                    } else {
                        match if is_unix && !has_nanos {
                            read_four(rest)
                        } else {
                            read_eight(rest)
                        } {
                            Some((time, rest)) => Some((Some(time), rest)),
                            None => None,
                        }
                    };
                    match time {
                        Some((time, rest)) => if flags < 16 && rest.len() == 0 {
                            Some(MetadataRead { name, time, is_unix, has_nanos })
                        } else {
                            None
                        },
                        None => None,
                    }
                },
            }
        },
    }
}

/// A link that was read.
#[verifier::ext_equal]
pub struct LinkRead {
    pub kind: nat,
    pub flags: nat,
    pub target: Seq<u8>,
}

/// Reads the record of a link: its type, its flags, the target behind its length.
pub open spec fn read_link(data: Seq<u8>) -> Option<LinkRead> {
    match read_vint(data) {
        None => None,
        Some((kind, rest)) => match read_vint(rest) {
            None => None,
            Some((flags, rest)) => match read_sized(rest) {
                Some((target, rest)) => if rest.len() == 0 {
                    Some(LinkRead { kind, flags, target })
                } else {
                    None
                },
                None => None,
            },
        },
    }
}

/// How a payload was encrypted.
#[verifier::ext_equal]
pub struct CryptRead {
    /// Whether checksums are keyed.
    pub is_keyed: bool,
    /// The binary logarithm of the key derivation rounds.
    pub rounds_log: nat,
    pub salt: Seq<u8>,
    pub iv: Seq<u8>,
    /// What the password is checked with.
    pub check_value: Seq<u8>,
}

/// Reads an encryption record: version zero, flags with a check value present, the
/// rounds, 16 bytes of salt, 16 of IV, 12 of check value.
pub open spec fn read_crypt(data: Seq<u8>) -> Option<CryptRead> {
    if data.len() == 47 && data[0] == 0 && data[1] < 4 && data[1] % 2 == 1 {
        Some(
            CryptRead {
                is_keyed: data[1] >= 2,
                rounds_log: data[2] as nat,
                salt: data.subrange(3, 19),
                iv: data.subrange(19, 35),
                check_value: data.subrange(35, 47),
            },
        )
    } else {
        None
    }
}

/// Reads a hash record: type zero, 32 bytes.
pub open spec fn read_hash(data: Seq<u8>) -> Option<Seq<u8>> {
    if data.len() == 33 && data[0] == 0 {
        Some(data.skip(1))
    } else {
        None
    }
}

/// Reads the record of a modification time in Unix seconds and nanoseconds.
pub open spec fn read_precise_mtime(data: Seq<u8>) -> Option<(nat, nat)> {
    // Unix time, a modification time, and nanoseconds.
    if data.len() == 9 && data[0] == 1 + 2 + 16 {
        match (read_four(data.skip(1)), read_four(data.skip(5))) {
            (Some((seconds, _)), Some((nanos, _))) => Some((seconds, nanos)),
            _ => None,
        }
    } else {
        None
    }
}

/// What the extra area of a file or a service says.
#[verifier::ext_equal]
pub struct ExtraRead {
    pub crypt: Option<CryptRead>,
    pub hash: Option<Seq<u8>>,
    /// Time records, as they follow one another.
    pub times: Seq<Seq<u8>>,
    pub link: Option<LinkRead>,
    /// What a service is about.
    pub service: Option<Seq<u8>>,
}

impl ExtraRead {
    pub open spec fn nothing() -> ExtraRead {
        ExtraRead { crypt: None, hash: None, times: Seq::empty(), link: None, service: None }
    }

    /// With one more record. One that is there already, is unknown or cannot be read
    /// spoils all.
    pub open spec fn with(self, record: RecordRead) -> Option<ExtraRead> {
        if record.kind == 1 && self.crypt is None && read_crypt(record.data) is Some {
            Some(ExtraRead { crypt: read_crypt(record.data), ..self })
        } else if record.kind == 2 && self.hash is None && read_hash(record.data) is Some {
            Some(ExtraRead { hash: read_hash(record.data), ..self })
        } else if record.kind == 3 {
            Some(ExtraRead { times: self.times.push(record.data), ..self })
        } else if record.kind == 5 && self.link is None && read_link(record.data) is Some {
            Some(ExtraRead { link: read_link(record.data), ..self })
        } else if record.kind == 7 && self.service is None {
            Some(ExtraRead { service: Some(record.data), ..self })
        } else {
            None
        }
    }
}

/// Reads the records of a file or a service, in whatever order they come.
pub open spec fn read_extra(records: Seq<RecordRead>) -> Option<ExtraRead>
    decreases records.len(),
{
    if records.len() == 0 {
        Some(ExtraRead::nothing())
    } else {
        match read_extra(records.drop_last()) {
            Some(before) => before.with(records.last()),
            None => None,
        }
    }
}

/// The header of a file or a service that was read.
#[verifier::ext_equal]
pub struct FileHeaderRead {
    pub kind: nat,
    pub data_len: nat,
    /// Whether the data goes on from the volume before.
    pub split_before: bool,
    /// Whether the data goes on in the next volume.
    pub split_after: bool,
    pub file: FileRead,
    pub extra: ExtraRead,
}

/// What a header says that is that of a file, type 2, or a service, type 3.
pub open spec fn file_header_of(header: HeaderRead) -> Option<FileHeaderRead> {
    match (read_file(header.fields), read_records(header.extra)) {
        (Some(file), Some(records)) => match read_extra(records) {
            Some(extra) => if (header.kind == 2 || header.kind == 3) && header.flags < 32
                && header.flags % 8 == 3 {
                Some(
                    FileHeaderRead {
                        kind: header.kind,
                        data_len: header.data_len,
                        split_before: (header.flags / 8) % 2 == 1,
                        split_after: (header.flags / 16) % 2 == 1,
                        file,
                        extra,
                    },
                )
            } else {
                None
            },
            None => None,
        },
        _ => None,
    }
}

/// Reads the header of a file or a service at the start of some bytes.
pub open spec fn read_file_header(bytes: Seq<u8>) -> Option<(FileHeaderRead, Seq<u8>)> {
    match read_header(bytes) {
        None => None,
        Some((header, rest)) => match file_header_of(header) {
            Some(read) => Some((read, rest)),
            None => None,
        },
    }
}

} // verus!
