//! What a reader gets back of the headers of members and services.

use vstd::prelude::*;

#[allow(unused_imports)]
use crate::bytes::{le_bytes, lemma_le_round_trip};
#[allow(unused_imports)]
use crate::crc32::crc32_of;
#[allow(unused_imports)]
use crate::error::{Error, Result};
#[allow(unused_imports)]
use crate::rar50::blocks::{encrypted_service_extra, service_of, CompressedMember, CryptFields};
#[allow(unused_imports)]
use crate::rar50::encryption::{
    derives_to, enciphers_to, padded, padded_len, Draw, EncryptedStoredPayload, PayloadKeys,
};
#[allow(unused_imports)]
use crate::rar50::engine::MemberWork;
#[allow(unused_imports)]
use crate::rar50::entry::{ArchiveEntry, Redirection};
#[allow(unused_imports)]
use crate::rar50::file_header::file_fields;
#[allow(unused_imports)]
use crate::rar50::headers::header_image;
#[allow(unused_imports)]
use crate::rar50::layout::service_extra;
#[allow(unused_imports)]
use crate::rar50::link_name::decoded_name_len;
#[allow(unused_imports)]
use crate::rar50::members::{
    base_mtime, crypt_of, header_crc32, header_hash, member_block_of, member_extra, member_image_of,
    optional_crypt, optional_hash, optional_link, optional_times, payload_len_of,
    redirection_record, reported_size,
};
#[allow(unused_imports)]
use crate::rar50::plan::{member_info, CompressPlan};
#[allow(unused_imports)]
use crate::rar50::reader::{
    counted, law_file_fields_read_back, law_headers_read_back, law_records_read_back,
    lemma_read_bytes, lemma_read_four, lemma_read_vint, read_crypt, read_extra, read_file,
    read_file_header, read_hash, read_link, read_precise_mtime, read_records, CryptRead, ExtraRead,
    FileHeaderRead, FileRead, LinkRead, RecordRead,
};
#[allow(unused_imports)]
use crate::rar50::records::{extra_record, file_encryption_record, hash_record, mtime_record};
#[allow(unused_imports)]
use crate::rar50::sealing::{is_work_of, member_sealing, MemberDraws, Sealer};
#[allow(unused_imports)]
use crate::rar50::vint::vint;
#[allow(unused_imports)]
use crate::rar50::walk::law_service_headers_read_back;
#[allow(unused_imports)]
use crate::rar50::volumes::{
    fragment_flags, fragment_image_of, volume_member_of, FragmentChecksums, VolumeMemberView,
};

verus! {

/// An encryption record gives back salt, IV and check value, and says that checksums
/// are keyed and keys derived in 2^15 rounds.
pub proof fn law_encryption_records_read_back(crypt: CryptFields)
    ensures
        exists|data: Seq<u8>|
            file_encryption_record(crypt.salt@, crypt.iv@, crypt.check_value@)
                == #[trigger] extra_record(1, data) && read_crypt(data) == Some(
                crypt_read(crypt),
            ),
{
    let data = seq![0u8, 3u8, 15u8] + crypt.salt@ + crypt.iv@ + crypt.check_value@;
    assert(file_encryption_record(crypt.salt@, crypt.iv@, crypt.check_value@) == extra_record(
        1,
        data,
    ));
    assert(data.subrange(3, 19) =~= crypt.salt@);
    assert(data.subrange(19, 35) =~= crypt.iv@);
    assert(data.subrange(35, 47) =~= crypt.check_value@);
}

/// What an encryption record is to say.
pub open spec fn crypt_read(crypt: CryptFields) -> CryptRead {
    CryptRead {
        is_keyed: true,
        rounds_log: 15,
        salt: crypt.salt@,
        iv: crypt.iv@,
        check_value: crypt.check_value@,
    }
}

/// A hash record gives back the hash.
pub proof fn law_hash_records_read_back(hash: [u8; 32])
    ensures
        exists|data: Seq<u8>|
            hash_record(hash@) == #[trigger] extra_record(2, data) && read_hash(data) == Some(
                hash@,
            ),
{
    let data = seq![0u8] + hash@;
    assert(hash_record(hash@) == extra_record(2, data));
    assert(data.skip(1) =~= hash@);
}

/// The record of a precise time gives back its seconds and nanoseconds.
pub proof fn law_time_records_read_back(seconds: u32, nanos: u32)
    ensures
        exists|data: Seq<u8>|
            mtime_record(Some(seconds), Some(nanos)) == #[trigger] extra_record(3, data)
                && read_precise_mtime(data) == Some((seconds as nat, nanos as nat)),
{
    let low = le_bytes(seconds as nat, 4);
    let high = le_bytes(nanos as nat, 4);
    let data = seq![0x13u8] + low + high;
    assert(mtime_record(Some(seconds), Some(nanos)) == extra_record(3, data));
    lemma_le_round_trip(seconds as nat, 4);
    lemma_le_round_trip(nanos as nat, 4);
    assert(data.skip(1) =~= low + high);
    assert(data.skip(5) =~= high + Seq::<u8>::empty());
    lemma_read_four(seconds as nat, high);
    lemma_read_four(nanos as nat, Seq::empty());
}

/// The record of a link gives back its type, its flags and its target.
pub proof fn law_link_records_read_back(link: Redirection)
    ensures
        exists|data: Seq<u8>|
            redirection_record(link) == #[trigger] extra_record(5, data) && read_link(data)
                == Some(link_read(link)),
{
    let target = link.target_name@;
    let sized = vint(target.len()) + target;
    let data = vint(link.redirection_type as nat) + vint(link.flags as nat) + vint(target.len())
        + target;
    assert(redirection_record(link) == extra_record(5, data));
    assert(data =~= vint(link.redirection_type as nat) + (vint(link.flags as nat) + sized));
    lemma_read_vint(link.redirection_type as nat, vint(link.flags as nat) + sized);
    lemma_read_vint(link.flags as nat, sized);
    lemma_read_bytes(target, Seq::empty());
    assert(sized + Seq::<u8>::empty() =~= sized);
}

/// What the record of a link is to say.
pub open spec fn link_read(link: Redirection) -> LinkRead {
    LinkRead {
        kind: link.redirection_type as nat,
        flags: link.flags as nat,
        target: link.target_name@,
    }
}

/// An area of at most one record.
pub open spec fn is_part(part: Seq<u8>, records: Seq<RecordRead>) -> bool {
    ||| part.len() == 0 && records.len() == 0
    ||| exists|kind: u64, data: Seq<u8>|
        part == #[trigger] extra_record(kind, data) && records == seq![
            RecordRead { kind: kind as nat, data },
        ]
}

proof fn lemma_part(part: Seq<u8>, own: Seq<RecordRead>, rest: Seq<u8>, others: Seq<RecordRead>)
    requires
        is_part(part, own),
        read_records(rest) == Some(others),
    ensures
        read_records(part + rest) == Some(own + others),
{
    if part.len() == 0 && own.len() == 0 {
        assert(part + rest =~= rest);
        assert(own + others =~= others);
    } else {
        let (kind, data) = choose|kind: u64, data: Seq<u8>|
            part == #[trigger] extra_record(kind, data) && own == seq![
                RecordRead { kind: kind as nat, data },
            ];
        law_records_read_back(kind, data, rest);
    }
}

proof fn lemma_read_extra_push(records: Seq<RecordRead>, record: RecordRead)
    ensures
        read_extra(records.push(record)) == (match read_extra(records) {
            Some(before) => before.with(record),
            None => None,
        }),
{
    assert(records.push(record).drop_last() =~= records);
}

/// The times that a header is to hold beside its own field.
pub open spec fn are_member_times(times: Seq<Seq<u8>>, entry: ArchiveEntry) -> bool {
    let precise = entry.mtime is Some && entry.mtime_nanoseconds is Some;
    &&& precise ==> times.len() > 0 && read_precise_mtime(times[0]) == Some(
        (entry.mtime->0 as nat, entry.mtime_nanoseconds->0 as nat),
    )
    &&& match entry.file_times {
        Some(own) => times.len() == (if precise {
            2int
        } else {
            1
        }) && times.last() == own@,
        None => times.len() == (if precise {
            1int
        } else {
            0
        }),
    }
}

/// Whether an extra area says this of a member, and nothing else.
pub open spec fn is_member_extra(
    extra: ExtraRead,
    crypt: Option<CryptFields>,
    hash: Option<[u8; 32]>,
    entry: ArchiveEntry,
    with_link: bool,
) -> bool {
    &&& extra.crypt == (match crypt {
        Some(crypt) => Some(crypt_read(crypt)),
        None => None,
    })
    &&& extra.hash == (match hash {
        Some(hash) => Some(hash@),
        None => None,
    })
    &&& are_member_times(extra.times, entry)
    &&& extra.link == (match entry.redirection {
        Some(link) => if with_link {
            Some(link_read(link))
        } else {
            None
        },
        None => None,
    })
    &&& extra.service is None
}

proof fn lemma_five_parts(a: Seq<u8>, b: Seq<u8>, c: Seq<u8>, d: Seq<u8>, e: Seq<u8>)
    ensures
        a + b + c + d + e == a + (b + (c + (d + (e + Seq::empty())))),
{
    assert(a + b + c + d + e =~= a + (b + (c + (d + (e + Seq::empty())))));
}

/// Whether these records, at most one, lead from one reading to the next.
spec fn leads(was: ExtraRead, own: Seq<RecordRead>, is: ExtraRead) -> bool {
    ||| own.len() == 0 && is == was
    ||| own.len() == 1 && was.with(own[0]) == Some(is)
}

proof fn lemma_crypt_part(crypt: Option<CryptFields>, was: ExtraRead) -> (r: (
    Seq<RecordRead>,
    ExtraRead,
))
    requires
        was.crypt is None,
    ensures
        is_part(optional_crypt(crypt), r.0),
        leads(was, r.0, r.1),
        r.1 == (ExtraRead {
            crypt: match crypt {
                Some(crypt) => Some(crypt_read(crypt)),
                None => None,
            },
            ..was
        }),
{
    match crypt {
        Some(crypt) => {
            law_encryption_records_read_back(crypt);
            let data = choose|data: Seq<u8>|
                file_encryption_record(crypt.salt@, crypt.iv@, crypt.check_value@)
                    == #[trigger] extra_record(1, data) && read_crypt(data) == Some(
                    crypt_read(crypt),
                );
            let record = RecordRead { kind: 1, data };
            (seq![record], was.with(record)->0)
        },
        None => (Seq::empty(), was),
    }
}

proof fn lemma_hash_part(hash: Option<[u8; 32]>, was: ExtraRead) -> (r: (
    Seq<RecordRead>,
    ExtraRead,
))
    requires
        was.hash is None,
    ensures
        is_part(optional_hash(hash), r.0),
        leads(was, r.0, r.1),
        r.1 == (ExtraRead {
            hash: match hash {
                Some(hash) => Some(hash@),
                None => None,
            },
            ..was
        }),
{
    match hash {
        Some(hash) => {
            law_hash_records_read_back(hash);
            let data = choose|data: Seq<u8>|
                hash_record(hash@) == #[trigger] extra_record(2, data) && read_hash(data) == Some(
                    hash@,
                );
            let record = RecordRead { kind: 2, data };
            (seq![record], was.with(record)->0)
        },
        None => (Seq::empty(), was),
    }
}

proof fn lemma_precise_part(entry: ArchiveEntry, was: ExtraRead) -> (r: (
    Seq<RecordRead>,
    ExtraRead,
))
    requires
        was.times.len() == 0,
    ensures
        is_part(mtime_record(entry.mtime, entry.mtime_nanoseconds), r.0),
        leads(was, r.0, r.1),
        r.1 == (ExtraRead { times: r.1.times, ..was }),
        are_member_times(r.1.times, ArchiveEntry { file_times: None, ..entry }),
{
    let part = mtime_record(entry.mtime, entry.mtime_nanoseconds);
    match (entry.mtime, entry.mtime_nanoseconds) {
        (Some(seconds), Some(nanos)) => {
            law_time_records_read_back(seconds, nanos);
            let data = choose|data: Seq<u8>|
                part == #[trigger] extra_record(3, data) && read_precise_mtime(data) == Some(
                    (seconds as nat, nanos as nat),
                );
            let record = RecordRead { kind: 3, data };
            (seq![record], was.with(record)->0)
        },
        _ => (Seq::empty(), was),
    }
}

proof fn lemma_times_part(entry: ArchiveEntry, was: ExtraRead) -> (r: (
    Seq<RecordRead>,
    ExtraRead,
))
    requires
        are_member_times(was.times, ArchiveEntry { file_times: None, ..entry }),
    ensures
        is_part(optional_times(entry.file_times), r.0),
        leads(was, r.0, r.1),
        r.1 == (ExtraRead { times: r.1.times, ..was }),
        are_member_times(r.1.times, entry),
{
    match entry.file_times {
        Some(times) => {
            let record = RecordRead { kind: 3, data: times@ };
            assert(optional_times(entry.file_times) == extra_record(3, times@));
            (seq![record], was.with(record)->0)
        },
        None => (Seq::empty(), was),
    }
}

proof fn lemma_link_part(link: Option<Redirection>, was: ExtraRead) -> (r: (
    Seq<RecordRead>,
    ExtraRead,
))
    requires
        was.link is None,
    ensures
        is_part(optional_link(link), r.0),
        leads(was, r.0, r.1),
        r.1 == (ExtraRead {
            link: match link {
                Some(link) => Some(link_read(link)),
                None => None,
            },
            ..was
        }),
{
    match link {
        Some(link) => {
            law_link_records_read_back(link);
            let data = choose|data: Seq<u8>|
                redirection_record(link) == #[trigger] extra_record(5, data) && read_link(data)
                    == Some(link_read(link));
            let record = RecordRead { kind: 5, data };
            (seq![record], was.with(record)->0)
        },
        None => (Seq::empty(), was),
    }
}

pub proof fn lemma_five_records(
    parts: (Seq<u8>, Seq<u8>, Seq<u8>, Seq<u8>, Seq<u8>),
    records: (
        Seq<RecordRead>,
        Seq<RecordRead>,
        Seq<RecordRead>,
        Seq<RecordRead>,
        Seq<RecordRead>,
    ),
)
    requires
        is_part(parts.0, records.0),
        is_part(parts.1, records.1),
        is_part(parts.2, records.2),
        is_part(parts.3, records.3),
        is_part(parts.4, records.4),
    ensures
        read_records(parts.0 + parts.1 + parts.2 + parts.3 + parts.4) == Some(
            records.0 + records.1 + records.2 + records.3 + records.4,
        ),
{
    let (pa, pb, pc, pd, pe) = parts;
    let (a, b, c, d, e) = records;
    let no_bytes = Seq::<u8>::empty();
    let none = Seq::<RecordRead>::empty();
    lemma_five_parts(pa, pb, pc, pd, pe);
    assert(read_records(no_bytes) == Some(none));
    lemma_part(pe, e, no_bytes, none);
    lemma_part(pd, d, pe + no_bytes, e + none);
    lemma_part(pc, c, pd + (pe + no_bytes), d + (e + none));
    lemma_part(pb, b, pc + (pd + (pe + no_bytes)), c + (d + (e + none)));
    lemma_part(pa, a, pb + (pc + (pd + (pe + no_bytes))), b + (c + (d + (e + none))));
    assert(a + (b + (c + (d + (e + none)))) =~= a + b + c + d + e);
}

/// The extra area of a member says what it was made of.
pub proof fn law_member_extra_reads_back(
    crypt: Option<CryptFields>,
    hash: Option<[u8; 32]>,
    entry: ArchiveEntry,
    with_link: bool,
)
    ensures
        read_records(member_extra(crypt, hash, entry, with_link)) matches Some(records)
            && read_extra(records) matches Some(extra) && is_member_extra(
            extra,
            crypt,
            hash,
            entry,
            with_link,
        ),
{
    let none = Seq::<RecordRead>::empty();
    let link = if with_link {
        entry.redirection
    } else {
        None
    };
    let (a, after_a) = lemma_crypt_part(crypt, ExtraRead::nothing());
    let (b, after_b) = lemma_hash_part(hash, after_a);
    let (c, after_c) = lemma_precise_part(entry, after_b);
    let (d, after_d) = lemma_times_part(entry, after_c);
    let (e, after_e) = lemma_link_part(link, after_d);
    assert(read_extra(none) == Some(ExtraRead::nothing()));
    lemma_more(none, a, ExtraRead::nothing(), after_a);
    assert(none + a =~= a);
    lemma_more(a, b, after_a, after_b);
    lemma_more(a + b, c, after_b, after_c);
    lemma_more(a + b + c, d, after_c, after_d);
    lemma_more(a + b + c + d, e, after_d, after_e);
    let parts = (
        optional_crypt(crypt),
        optional_hash(hash),
        mtime_record(entry.mtime, entry.mtime_nanoseconds),
        optional_times(entry.file_times),
        optional_link(link),
    );
    lemma_five_records(parts, (a, b, c, d, e));
    assert(member_extra(crypt, hash, entry, with_link) == parts.0 + parts.1 + parts.2 + parts.3
        + parts.4);
}

proof fn lemma_more(
    before: Seq<RecordRead>,
    more: Seq<RecordRead>,
    was: ExtraRead,
    is: ExtraRead,
)
    requires
        read_extra(before) == Some(was),
        leads(was, more, is),
    ensures
        read_extra(before + more) == Some(is),
{
    if more.len() == 0 {
        assert(before + more =~= before);
    } else {
        lemma_read_extra_push(before, more[0]);
        assert(before + more =~= before.push(more[0]));
    }
}

proof fn lemma_file_header(
    kind: u64,
    flags: u64,
    data_len: u64,
    fields: Seq<u8>,
    file: FileRead,
    area: Seq<u8>,
    extra: ExtraRead,
    rest: Seq<u8>,
)
    requires
        kind == 2 || kind == 3,
        flags < 32,
        flags % 8 == 3,
        read_file(fields) == Some(file),
        read_records(area) is Some,
        read_extra(read_records(area)->0) == Some(extra),
    ensures
        read_file_header(header_image(kind, flags, Some(data_len), fields, area) + rest) == Some(
            (
                FileHeaderRead {
                    kind: kind as nat,
                    data_len: data_len as nat,
                    split_before: (flags / 8) % 2 == 1,
                    split_after: (flags / 16) % 2 == 1,
                    file,
                    extra,
                },
                rest,
            ),
        ),
{
    law_headers_read_back(kind, flags, Some(data_len), fields, area, rest);
}

/// What the base header of a member is to say.
pub open spec fn member_file_read(
    entry: ArchiveEntry,
    size: nat,
    crc32: u32,
    compression: u64,
) -> FileRead {
    FileRead {
        is_directory: entry.is_directory,
        size,
        attributes: entry.attributes as nat,
        // A precise time stands in a record of its own.
        mtime: if entry.mtime_nanoseconds is Some {
            None
        } else {
            counted(entry.mtime)
        },
        crc32: Some(crc32 as nat),
        compression: compression as nat,
        host_os: entry.host_os as nat,
        name: entry.name@,
    }
}

/// The size that a header is to give: of a link, the size that was asked for or else
/// the length of the name it leads to.
pub open spec fn member_size(entry: ArchiveEntry, input_size: u64) -> nat {
    if entry.redirection is None {
        input_size as nat
    } else if entry.redirection_size is Some {
        entry.redirection_size->0 as nat
    } else {
        decoded_name_len(entry.redirection->0.target_name@) as u64 as nat
    }
}

proof fn lemma_member_image(
    entry: ArchiveEntry,
    input_size: u64,
    crc32: u32,
    hash: [u8; 32],
    crypt: Option<CryptFields>,
    info: u64,
    payload_len: u64,
    rest: Seq<u8>,
)
    ensures
        member_image_of(entry, input_size, crc32, hash, crypt, info, payload_len) matches Ok(image)
            ==> (read_file_header(image + rest) matches Some((read, after)) && after == rest
            && is_member_header(
            read,
            payload_len as nat,
            member_file_read(entry, member_size(entry, input_size), crc32, info),
        ) && is_member_extra(
            read.extra,
            crypt,
            if entry.redirection is None {
                Some(hash)
            } else {
                None
            },
            entry,
            true,
        )),
{
    reveal(member_image_of);
    let shown = if entry.redirection is None {
        Some(hash)
    } else {
        None
    };
    let area = member_extra(crypt, shown, entry, true);
    law_member_extra_reads_back(crypt, shown, entry, true);
    let extra = read_extra(read_records(area)->0)->0;
    let size = reported_size(entry, input_size);
    let mtime = base_mtime(entry);
    law_file_fields_read_back(
        entry.name@,
        size,
        Some(crc32),
        entry.attributes,
        mtime,
        info,
        entry.host_os,
        entry.is_directory,
    );
    let fields = file_fields(
        entry.name@,
        size,
        Some(crc32),
        entry.attributes,
        mtime,
        info,
        entry.host_os,
        entry.is_directory,
    );
    lemma_file_header(2, 3, payload_len, fields, read_file(fields)->0, area, extra, rest);
}

/// Whether a header is that of an undivided member.
pub open spec fn is_member_header(read: FileHeaderRead, data_len: nat, file: FileRead) -> bool {
    &&& read.kind == 2
    &&& read.data_len == data_len
    &&& !read.split_before
    &&& !read.split_after
    &&& read.file == file
}

/// The header of a member gives back all that is known of the member. The checksum and
/// the hash are its own in the clear, and the keyed ones where it is encrypted; a link
/// carries no hash.
pub proof fn law_member_headers_read_back(
    entry: ArchiveEntry,
    member: CompressedMember,
    sealed: Option<EncryptedStoredPayload>,
    plan: CompressPlan,
    rest: Seq<u8>,
)
    ensures
        member_block_of(entry, member, sealed, plan) matches Ok(block) ==> (read_file_header(
            block.header + rest,
        ) matches Some((read, after)) && after == rest && is_member_header(
            read,
            block.payload_len as nat,
            member_file_read(
                entry,
                member_size(entry, member.input_size),
                match sealed {
                    Some(sealed) => sealed.crc32_mac,
                    None => member.crc32,
                },
                member_info(plan, member.store, member.solid_continuation)->Ok_0,
            ),
        ) && is_member_extra(
            read.extra,
            match sealed {
                Some(sealed) => Some(
                    CryptFields {
                        salt: sealed.salt,
                        iv: sealed.iv,
                        check_value: sealed.check_value,
                    },
                ),
                None => None,
            },
            if entry.redirection is Some {
                None
            } else {
                Some(
                    match sealed {
                        Some(sealed) => sealed.blake2sp_mac,
                        None => member.hash,
                    },
                )
            },
            entry,
            true,
        )),
{
    lemma_member_image(
        entry,
        member.input_size,
        header_crc32(member, sealed),
        header_hash(member, sealed),
        crypt_of(sealed),
        member_info(plan, member.store, member.solid_continuation)->Ok_0,
        payload_len_of(member, sealed) as u64,
        rest,
    );
}

/// The header of a fragment gives back the member's fields, how long the fragment is,
/// and whether the member goes on from the volume before and into the next one.
pub proof fn law_fragment_headers_read_back(
    member: VolumeMemberView,
    fragment_len: u64,
    split_before: bool,
    fragment: Option<FragmentChecksums>,
    rest: Seq<u8>,
)
    ensures
        fragment_image_of(member, fragment_len, split_before, fragment) matches Ok(image) ==> (
        read_file_header(image + rest) matches Some((read, after)) && after == rest && read.kind
            == 2 && read.data_len == fragment_len && read.split_before == split_before
            && read.split_after == (fragment is Some) && read.file == member_file_read(
            member.entry,
            member.unpacked_size as nat,
            match fragment {
                Some(own) => own.crc32,
                None => member.crc32,
            },
            member.compression_info,
        ) && is_member_extra(
            read.extra,
            member.encryption,
            Some(
                match fragment {
                    Some(own) => own.hash,
                    None => member.hash,
                },
            ),
            member.entry,
            false,
        )),
{
    reveal(fragment_image_of);
    let (crc32, hash) = match fragment {
        Some(own) => (own.crc32, own.hash),
        None => (member.crc32, member.hash),
    };
    let entry = member.entry;
    let area = member_extra(member.encryption, Some(hash), entry, false);
    law_member_extra_reads_back(member.encryption, Some(hash), entry, false);
    let extra = read_extra(read_records(area)->0)->0;
    let mtime = base_mtime(entry);
    law_file_fields_read_back(
        entry.name@,
        member.unpacked_size,
        Some(crc32),
        entry.attributes,
        mtime,
        member.compression_info,
        entry.host_os,
        entry.is_directory,
    );
    let fields = file_fields(
        entry.name@,
        member.unpacked_size,
        Some(crc32),
        entry.attributes,
        mtime,
        member.compression_info,
        entry.host_os,
        entry.is_directory,
    );
    let flags = fragment_flags(split_before, fragment is Some);
    lemma_file_header(2, flags, fragment_len, fields, read_file(fields)->0, area, extra, rest);
}

/// Whether data was encrypted into this under a password: padded with zeros to the next
/// multiple of sixteen bytes and handed to the cipher with the salt and the IV.
pub open spec fn is_ciphertext_of<C: Fn(&[u8], [u8; 16], [u8; 16], Vec<u8>) -> Result<Vec<u8>>>(
    cipher: C,
    key: &[u8],
    salt: [u8; 16],
    iv: [u8; 16],
    data: Seq<u8>,
    ciphertext: Seq<u8>,
) -> bool {
    exists|plain: Vec<u8>, sealed: Vec<u8>| #[trigger]
        call_ensures(cipher, (key, salt, iv, plain), Ok::<Vec<u8>, Error>(sealed)) && sealed@
            == ciphertext && data.len() <= plain@.len() < data.len() + 16 && plain@.len() % 16 == 0
            && (forall|i: int|
            0 <= i < plain@.len() ==> #[trigger] plain@[i] == (if i < data.len() {
                data[i]
            } else {
                0u8
            }))
}

/// Whether a header says of an encrypted member what key derivation made of the
/// password, the salt, and the member's own checksum and hash.
pub open spec fn is_keyed_header<D: Fn(&[u8], [u8; 16], u32, [u8; 32]) -> Result<PayloadKeys>>(
    read: FileHeaderRead,
    derive: D,
    key: &[u8],
    salt: [u8; 16],
    iv: [u8; 16],
    crc32: u32,
    hash: [u8; 32],
) -> bool {
    exists|keys: PayloadKeys| #[trigger]
        call_ensures(derive, (key, salt, crc32, hash), Ok::<PayloadKeys, Error>(keys))
            && read.extra.crypt == Some(
            CryptRead {
                is_keyed: true,
                rounds_log: 15,
                salt: salt@,
                iv: iv@,
                check_value: keys.check_value@,
            },
        ) && read.file.crc32 == Some(keys.crc32_mac as nat) && (read.extra.hash is Some
            ==> read.extra.hash == Some(keys.blake2sp_mac@))
}

/// What encrypting a member came to: keys derived from the member's password, the salt
/// that was drawn, and the member's own checksum and hash; and the ciphertext of the
/// member's packed bytes under the same password, salt and IV.
pub proof fn law_members_are_sealed_under_their_password<
    H: Fn(&[u8]) -> [u8; 32],
    D: Fn(&[u8], [u8; 16], u32, [u8; 32]) -> Result<PayloadKeys>,
    C: Fn(&[u8], [u8; 16], [u8; 16], Vec<u8>) -> Result<Vec<u8>>,
>(
    sealer: Sealer<H, D, C>,
    entry: ArchiveEntry,
    member: CompressedMember,
    draws: MemberDraws,
    work: MemberWork,
)
    requires
        is_work_of(sealer, entry, member, draws, work),
    ensures
        work.member == member,
        work.sealed is Some <==> entry.password is Some,
        work.sealed matches Some(sealed) ==> draws.payload.salt == Some(sealed.salt)
            && draws.payload.iv == Some(sealed.iv) && exists|key: &[u8], other: &[u8]|
            key@ == entry.password->0@ && other@ == entry.password->0@ && #[trigger] call_ensures(
                sealer.derive,
                (key, sealed.salt, member.crc32, member.hash),
                Ok::<PayloadKeys, Error>(
                    PayloadKeys {
                        check_value: sealed.check_value,
                        crc32_mac: sealed.crc32_mac,
                        blake2sp_mac: sealed.blake2sp_mac,
                    },
                ),
            ) && #[trigger] is_ciphertext_of(
                sealer.cipher,
                other,
                sealed.salt,
                sealed.iv,
                member.packed@,
                sealed.data@,
            ),
{
    if let Some(sealed) = work.sealed {
        let password = entry.password->0@;
        let sealing = member_sealing(password, member);
        let keys = PayloadKeys {
            check_value: sealed.check_value,
            crc32_mac: sealed.crc32_mac,
            blake2sp_mac: sealed.blake2sp_mac,
        };
        assert(derives_to(sealer.derive, sealing, sealed.salt, Ok::<PayloadKeys, Error>(keys)));
        let key = choose|key: &[u8]|
            key@ == sealing.password && #[trigger] call_ensures(
                sealer.derive,
                (key, sealed.salt, sealing.checksum, sealing.hash),
                Ok::<PayloadKeys, Error>(keys),
            );
        assert(enciphers_to(
            sealer.cipher,
            sealing,
            sealed.salt,
            sealed.iv,
            Ok::<Vec<u8>, Error>(sealed.data),
        ));
        let (other, plain) = choose|key: &[u8], plain: Vec<u8>|
            key@ == sealing.password && plain@ == padded(sealing.data) && #[trigger] call_ensures(
                sealer.cipher,
                (key, sealed.salt, sealed.iv, plain),
                Ok::<Vec<u8>, Error>(sealed.data),
            );
        assert(call_ensures(
            sealer.cipher,
            (other, sealed.salt, sealed.iv, plain),
            Ok::<Vec<u8>, Error>(sealed.data),
        ));
        assert(is_ciphertext_of(
            sealer.cipher,
            other,
            sealed.salt,
            sealed.iv,
            member.packed@,
            sealed.data@,
        ));
    }
}

/// Whether a header says of a member what it must under its password: the keyed checksum
/// and hash beside an encryption record where there is one, and the member's own checksum
/// and hash without a record where there is none.
pub open spec fn is_guarded_header<
    D: Fn(&[u8], [u8; 16], u32, [u8; 32]) -> Result<PayloadKeys>,
>(
    read: FileHeaderRead,
    derive: D,
    entry: ArchiveEntry,
    member: CompressedMember,
    draw: Draw,
) -> bool {
    match entry.password {
        None => read.extra.crypt is None && read.file.crc32 == Some(member.crc32 as nat) && (
        read.extra.hash is Some ==> read.extra.hash == Some(member.hash@)),
        Some(password) => draw.salt is Some && draw.iv is Some && exists|key: &[u8]|
            key@ == password@ && #[trigger] is_keyed_header(
                read,
                derive,
                key,
                draw.salt->0,
                draw.iv->0,
                member.crc32,
                member.hash,
            ),
    }
}

/// In a single archive the header of an encrypted member carries the checksum and the
/// hash that key derivation made of the member's own, under the member's password and
/// the salt that the header names. Without a password they are the member's own.
pub proof fn law_encrypted_members_carry_keyed_sums<
    H: Fn(&[u8]) -> [u8; 32],
    D: Fn(&[u8], [u8; 16], u32, [u8; 32]) -> Result<PayloadKeys>,
    C: Fn(&[u8], [u8; 16], [u8; 16], Vec<u8>) -> Result<Vec<u8>>,
>(
    sealer: Sealer<H, D, C>,
    entry: ArchiveEntry,
    member: CompressedMember,
    draws: MemberDraws,
    work: MemberWork,
    plan: CompressPlan,
    rest: Seq<u8>,
)
    requires
        is_work_of(sealer, entry, member, draws, work),
    ensures
        member_block_of(entry, work.member, work.sealed, plan) matches Ok(block) ==> (
        read_file_header(block.header + rest) matches Some((read, after)) && after == rest && (
        read.extra.hash is Some <==> entry.redirection is None) && is_guarded_header(
            read,
            sealer.derive,
            entry,
            member,
            draws.payload,
        )),
{
    law_members_are_sealed_under_their_password(sealer, entry, member, draws, work);
    if let Ok(block) = member_block_of(entry, work.member, work.sealed, plan) {
        law_member_headers_read_back(entry, work.member, work.sealed, plan, rest);
        let (read, _) = read_file_header(block.header + rest)->0;
        lemma_guarded(sealer, entry, member, draws, work, read);
    }
}

/// In a volume set the last fragment of a member carries them in the same way.
pub proof fn law_last_fragments_carry_keyed_sums<
    H: Fn(&[u8]) -> [u8; 32],
    D: Fn(&[u8], [u8; 16], u32, [u8; 32]) -> Result<PayloadKeys>,
    C: Fn(&[u8], [u8; 16], [u8; 16], Vec<u8>) -> Result<Vec<u8>>,
>(
    sealer: Sealer<H, D, C>,
    entry: ArchiveEntry,
    member: CompressedMember,
    draws: MemberDraws,
    work: MemberWork,
    plan: CompressPlan,
    cut: VolumeMemberView,
    fragment_len: u64,
    split_before: bool,
    image: Seq<u8>,
    rest: Seq<u8>,
)
    requires
        is_work_of(sealer, entry, member, draws, work),
        volume_member_of(entry, work.member, work.sealed, plan) == Ok::<VolumeMemberView, Error>(
            cut,
        ),
        fragment_image_of(cut, fragment_len, split_before, None) == Ok::<Seq<u8>, Error>(image),
    ensures
        read_file_header(image + rest) matches Some((read, after)) && after == rest
            && read.extra.hash is Some && is_guarded_header(
            read,
            sealer.derive,
            entry,
            member,
            draws.payload,
        ),
{
    law_members_are_sealed_under_their_password(sealer, entry, member, draws, work);
    law_fragment_headers_read_back(cut, fragment_len, split_before, None, rest);
    let (read, _) = read_file_header(image + rest)->0;
    lemma_guarded(sealer, entry, member, draws, work, read);
}

proof fn lemma_guarded<
    H: Fn(&[u8]) -> [u8; 32],
    D: Fn(&[u8], [u8; 16], u32, [u8; 32]) -> Result<PayloadKeys>,
    C: Fn(&[u8], [u8; 16], [u8; 16], Vec<u8>) -> Result<Vec<u8>>,
>(
    sealer: Sealer<H, D, C>,
    entry: ArchiveEntry,
    member: CompressedMember,
    draws: MemberDraws,
    work: MemberWork,
    read: FileHeaderRead,
)
    requires
        is_work_of(sealer, entry, member, draws, work),
        read.extra.crypt == (match work.sealed {
            Some(sealed) => Some(
                crypt_read(
                    CryptFields {
                        salt: sealed.salt,
                        iv: sealed.iv,
                        check_value: sealed.check_value,
                    },
                ),
            ),
            None => None,
        }),
        read.file.crc32 == Some(
            (match work.sealed {
                Some(sealed) => sealed.crc32_mac,
                None => member.crc32,
            }) as nat,
        ),
        read.extra.hash is Some ==> read.extra.hash == Some(
            (match work.sealed {
                Some(sealed) => sealed.blake2sp_mac,
                None => member.hash,
            })@,
        ),
    ensures
        is_guarded_header(read, sealer.derive, entry, member, draws.payload),
{
    law_members_are_sealed_under_their_password(sealer, entry, member, draws, work);
    if let Some(sealed) = work.sealed {
        let keys = PayloadKeys {
            check_value: sealed.check_value,
            crc32_mac: sealed.crc32_mac,
            blake2sp_mac: sealed.blake2sp_mac,
        };
        let (key, other) = choose|key: &[u8], other: &[u8]|
            key@ == entry.password->0@ && other@ == entry.password->0@ && #[trigger] call_ensures(
                sealer.derive,
                (key, sealed.salt, member.crc32, member.hash),
                Ok::<PayloadKeys, Error>(keys),
            ) && #[trigger] is_ciphertext_of(
                sealer.cipher,
                other,
                sealed.salt,
                sealed.iv,
                member.packed@,
                sealed.data@,
            );
        assert(is_keyed_header(
            read,
            sealer.derive,
            key,
            sealed.salt,
            sealed.iv,
            member.crc32,
            member.hash,
        ));
    }
}

proof fn lemma_encrypted_area(service_data: Seq<u8>, sealed: EncryptedStoredPayload)
    ensures
        ({
            let area = encrypted_service_extra(service_data, sealed);
            read_records(area) matches Some(records) && read_extra(records) == Some(
                ExtraRead {
                    crypt: Some(
                        CryptRead {
                            is_keyed: true,
                            rounds_log: 15,
                            salt: sealed.salt@,
                            iv: sealed.iv@,
                            check_value: sealed.check_value@,
                        },
                    ),
                    hash: Some(sealed.blake2sp_mac@),
                    times: Seq::empty(),
                    link: None,
                    service: Some(service_data),
                },
            )
        }),
{
    let none = Seq::<RecordRead>::empty();
    let nothing = Seq::<u8>::empty();
    let record = RecordRead { kind: 7, data: service_data };
    let a = seq![record];
    let after_a = ExtraRead { service: Some(service_data), ..ExtraRead::nothing() };
    let fields = CryptFields {
        salt: sealed.salt,
        iv: sealed.iv,
        check_value: sealed.check_value,
    };
    let (b, after_b) = lemma_crypt_part(Some(fields), after_a);
    let (c, after_c) = lemma_hash_part(Some(sealed.blake2sp_mac), after_b);
    assert(read_extra(none) == Some(ExtraRead::nothing()));
    lemma_more(none, a, ExtraRead::nothing(), after_a);
    assert(none + a =~= a);
    lemma_more(a, b, after_a, after_b);
    lemma_more(a + b, c, after_b, after_c);
    let pa = service_extra(service_data);
    assert(pa == extra_record(7, service_data));
    let pb = optional_crypt(Some(fields));
    let pc = optional_hash(Some(sealed.blake2sp_mac));
    assert(is_part(pa, a));
    assert(is_part(nothing, none));
    lemma_five_records((pa, pb, pc, nothing, nothing), (a, b, c, none, none));
    assert(pa + pb + pc + nothing + nothing =~= pa + pb + pc);
    assert(a + b + c + none + none =~= a + b + c);
}

/// The header of a comment or a service gives back its name and how long its data is.
/// In the clear the checksum is that of the data; encrypted, the header carries the keyed
/// checksum and hash, and how the data was encrypted.
pub proof fn law_services_read_back(
    name: Seq<u8>,
    data: Seq<u8>,
    sealed: Option<EncryptedStoredPayload>,
    cached: bool,
    rest: Seq<u8>,
)
    requires
        data.len() <= u64::MAX,
    ensures
        service_of(name, data, sealed, cached) matches Ok(block) ==> block.payload == (
        match sealed {
            Some(sealed) => sealed.data@,
            None => data,
        }) && (block.quick_open_cached <==> cached && sealed is None) && (read_file_header(
            block.header + rest,
        ) matches Some((read, after)) && after == rest && read.kind == 3 && read.data_len
            == block.payload_len && !read.split_before && !read.split_after && read.file == (
        FileRead {
            is_directory: false,
            size: data.len(),
            attributes: 0,
            mtime: None,
            crc32: Some(
                (match sealed {
                    Some(sealed) => sealed.crc32_mac,
                    None => crc32_of(data),
                }) as nat,
            ),
            compression: 0,
            host_os: 0,
            name,
        }) && read.extra == (ExtraRead {
            crypt: match sealed {
                Some(sealed) => Some(
                    CryptRead {
                        is_keyed: true,
                        rounds_log: 15,
                        salt: sealed.salt@,
                        iv: sealed.iv@,
                        check_value: sealed.check_value@,
                    },
                ),
                None => None,
            },
            hash: match sealed {
                Some(sealed) => Some(sealed.blake2sp_mac@),
                None => None,
            },
            times: Seq::empty(),
            link: None,
            service: Some(Seq::empty()),
        })),
{
    reveal(service_of);
    let nothing = Seq::<u8>::empty();
    let len = data.len() as u64;
    match sealed {
        None => {
            law_service_headers_read_back(name, len, crc32_of(data), nothing, rest);
        },
        Some(sealed) => {
            lemma_encrypted_area(nothing, sealed);
            let area = encrypted_service_extra(nothing, sealed);
            let crc32 = Some(sealed.crc32_mac);
            law_file_fields_read_back(name, len, crc32, 0, None, 0, 0, false);
            let fields = file_fields(name, len, crc32, 0, None, 0, 0, false);
            lemma_file_header(
                3,
                3,
                padded_len(data.len()) as u64,
                fields,
                read_file(fields)->0,
                area,
                read_extra(read_records(area)->0)->0,
                rest,
            );
        },
    }
}

} // verus!
