//! What a reader gets back of the records of a main header, of an encryption header and
//! of the quick-open index.

use vstd::prelude::*;

#[allow(unused_imports)]
use crate::bytes::le_bytes;
#[allow(unused_imports)]
use crate::crc32::crc32_of;
#[allow(unused_imports)]
use crate::error::Error;
#[allow(unused_imports)]
use crate::rar50::archive::{
    body_of, head_crypt_of, law_distances_lead_to_the_headers, payloads_fit,
};
#[allow(unused_imports)]
use crate::rar50::blocks::BlockView;
#[allow(unused_imports)]
use crate::rar50::container::{
    keeps_lengths, law_locator_points_at_the_blocks, ContainerView, Emission,
};
#[allow(unused_imports)]
use crate::rar50::engine::HeaderKeys;
#[allow(unused_imports)]
use crate::rar50::layout::{extra_at, layout_of, offset_to, retained_part, LayoutInputs, LayoutView};
#[allow(unused_imports)]
use crate::rar50::main_header::{crypt_fields, locator_part, metadata_part};
#[allow(unused_imports)]
use crate::rar50::metadata::{
    archive_metadata_record_of, metadata_fields, metadata_record, optional_bytes, record_name,
    retained_archive_metadata_of, retained_time, ArchiveMetadataRecord,
};
#[allow(unused_imports)]
use crate::rar50::quick_open::{
    blocks_len, entry_body, lemma_blocks_len_grows, quick_open_entry, quick_open_payload,
};
#[allow(unused_imports)]
use crate::rar50::read_back::{is_part, lemma_five_records};
#[allow(unused_imports)]
use crate::rar50::reader::{
    law_headers_read_back, lemma_read_bytes, lemma_read_eight, lemma_read_four, lemma_read_vint,
    read_four, read_header, read_locator, read_metadata, read_records, read_sized, read_vint,
    LocatorRead, MetadataRead, RecordRead,
};
#[allow(unused_imports)]
use crate::rar50::records::{extra_record, locator_flags, locator_record, optional_vint};
#[allow(unused_imports)]
use crate::rar50::vint::vint;

verus! {

/// A locator gives back the places it was made of.
pub proof fn law_locators_read_back(quick_open: Option<u64>, recovery: Option<u64>)
    ensures
        exists|data: Seq<u8>|
            locator_record(quick_open, recovery) == #[trigger] extra_record(1, data)
                && read_locator(data) == Some(locator_read(quick_open, recovery)),
{
    let flags = locator_flags(quick_open, recovery);
    let nothing = Seq::<u8>::empty();
    let second = optional_vint(recovery);
    let first = optional_vint(quick_open);
    let data = vint(flags as nat) + first + second;
    assert(data =~= vint(flags as nat) + (first + second));
    lemma_read_vint(flags as nat, first + second);
    if let Some(value) = quick_open {
        lemma_read_vint(value as nat, second);
    } else {
        assert(first + second =~= second);
    }
    if let Some(value) = recovery {
        lemma_read_vint(value as nat, nothing);
        assert(second + nothing =~= second);
    }
    assert(locator_record(quick_open, recovery) == extra_record(1, data));
}

/// What a locator is to say.
pub open spec fn locator_read(quick_open: Option<u64>, recovery: Option<u64>) -> LocatorRead {
    LocatorRead {
        quick_open: match quick_open {
            Some(place) => Some(place as nat),
            None => None,
        },
        recovery: match recovery {
            Some(place) => Some(place as nat),
            None => None,
        },
    }
}

proof fn lemma_metadata(flags: u64, name: Option<Seq<u8>>, time: Option<u64>)
    requires
        flags < 16,
        flags % 2 == 1 <==> name is Some,
        (flags / 2) % 2 == 1 <==> time is Some,
        time is Some && (flags / 4) % 2 == 1 && (flags / 8) % 2 == 0 ==> time->0 <= 0xffff_ffff,
    ensures
        ({
            let short = (flags / 4) % 2 == 1 && (flags / 8) % 2 == 0;
            let bytes = match time {
                Some(time) => if short {
                    le_bytes(time as nat, 4)
                } else {
                    le_bytes(time as nat, 8)
                },
                None => Seq::empty(),
            };
            read_metadata(metadata_fields(flags, name, bytes)) == Some(
                MetadataRead {
                    name,
                    time: match time {
                        Some(time) => Some(time as nat),
                        None => None,
                    },
                    is_unix: (flags / 4) % 2 == 1,
                    has_nanos: (flags / 8) % 2 == 1,
                },
            )
        }),
{
    let short = (flags / 4) % 2 == 1 && (flags / 8) % 2 == 0;
    let bytes = match time {
        Some(time) => if short {
            le_bytes(time as nat, 4)
        } else {
            le_bytes(time as nat, 8)
        },
        None => Seq::empty(),
    };
    let nothing = Seq::<u8>::empty();
    let named = match name {
        Some(name) => vint(name.len()) + name,
        None => nothing,
    };
    let fields = metadata_fields(flags, name, bytes);
    assert(fields =~= vint(flags as nat) + (named + bytes));
    lemma_read_vint(flags as nat, named + bytes);
    if let Some(name) = name {
        lemma_read_bytes(name, bytes);
    } else {
        assert(named + bytes =~= bytes);
    }
    if let Some(time) = time {
        assert(bytes + nothing =~= bytes);
        if short {
            lemma_read_four(time as nat, nothing);
        } else {
            lemma_read_eight(time, nothing);
        }
    }
}

/// A metadata record gives back the name and the time that a writer was given, the time
/// as counted since 1601. One without a time, or with an empty name, is refused.
pub proof fn law_metadata_reads_back(name: Option<Seq<u8>>, creation_time: Option<u64>)
    ensures
        creation_time is None || (name matches Some(name) && name.len() == 0)
            ==> archive_metadata_record_of(name, creation_time) is Err,
        archive_metadata_record_of(name, creation_time) matches Ok(record) ==> exists|
            data: Seq<u8>,
        |
            record == #[trigger] extra_record(2, data) && read_metadata(data) == Some(
                MetadataRead {
                    name,
                    time: Some(creation_time->0 as nat),
                    is_unix: false,
                    has_nanos: false,
                },
            ),
{
    if let Some(time) = creation_time {
        let flags = if name is Some {
            3u64
        } else {
            2
        };
        lemma_metadata(flags, name, creation_time);
        let data = metadata_fields(flags, name, le_bytes(time as nat, 8));
        assert(metadata_record(flags, name, le_bytes(time as nat, 8)) == extra_record(2, data));
    }
}

/// A metadata record that is carried over says what it said: name, time, and how the time
/// is counted.
pub proof fn law_retained_metadata_reads_back(record: ArchiveMetadataRecord)
    ensures
        retained_archive_metadata_of(record) matches Ok(bytes) ==> exists|data: Seq<u8>|
            bytes == #[trigger] extra_record(2, data) && read_metadata(data) == Some(
                MetadataRead {
                    name: record_name(record),
                    time: match record.creation_time {
                        Some(time) => Some(time as nat),
                        None => None,
                    },
                    is_unix: (record.flags / 4) % 2 == 1,
                    has_nanos: (record.flags / 8) % 2 == 1,
                },
            ),
{
    if retained_archive_metadata_of(record) is Ok {
        let flags = record.flags;
        lemma_metadata(flags, record_name(record), record.creation_time);
        let data = metadata_fields(flags, record_name(record), retained_time(record));
        assert(metadata_record(flags, record_name(record), retained_time(record)) == extra_record(
            2,
            data,
        ));
    }
}

/// What an encryption header says.
#[verifier::ext_equal]
pub struct HeadCryptRead {
    pub rounds_log: nat,
    pub salt: Seq<u8>,
    /// What the password is checked with.
    pub check_value: Seq<u8>,
}

/// Reads an encryption header, type 4: version zero, a check value present, the rounds,
/// 16 bytes of salt, 12 of check value.
pub open spec fn read_head_crypt(bytes: Seq<u8>) -> Option<(HeadCryptRead, Seq<u8>)> {
    match read_header(bytes) {
        Some((header, rest)) => {
            let fields = header.fields;
            if header.kind == 4 && header.data_len == 0 && header.extra.len() == 0 && fields.len()
                == 31 && fields[0] == 0 && fields[1] == 1 {
                Some(
                    (
                        HeadCryptRead {
                            rounds_log: fields[2] as nat,
                            salt: fields.subrange(3, 19),
                            check_value: fields.subrange(19, 31),
                        },
                        rest,
                    ),
                )
            } else {
                None
            }
        },
        None => None,
    }
}

/// The encryption header gives back the salt and the check value of the headers' key,
/// which is derived in 2^15 rounds. Without a key there is none.
pub proof fn law_encryption_headers_read_back(keys: HeaderKeys, rest: Seq<u8>)
    ensures
        read_head_crypt(head_crypt_of(Some(keys)) + rest) == Some(
            (
                HeadCryptRead {
                    rounds_log: 15,
                    salt: keys.salt@,
                    check_value: keys.check_value@,
                },
                rest,
            ),
        ),
        head_crypt_of(None).len() == 0,
{
    let fields = crypt_fields(keys.salt@, keys.check_value@);
    law_headers_read_back(4, 0, None, fields, Seq::empty(), rest);
    assert(fields.subrange(3, 19) =~= keys.salt@);
    assert(fields.subrange(19, 31) =~= keys.check_value@);
}

/// A record of the quick-open index: how far before the index a header stands, and the
/// header.
#[verifier::ext_equal]
pub struct IndexRead {
    pub distance: nat,
    pub header: Seq<u8>,
}

/// Reads one record of the index: four bytes of checksum over all the rest of it, the
/// size of its body, the body: flags of zero, the distance, the header behind its length.
#[verifier::opaque]
pub open spec fn read_index_record(bytes: Seq<u8>) -> Option<(IndexRead, Seq<u8>)> {
    match read_four(bytes) {
        None => None,
        Some((checksum, sized)) => match read_vint(sized) {
            None => None,
            Some((size, behind)) => if size > behind.len() {
                None
            } else {
                let rest = behind.skip(size as int);
                let body = behind.take(size as int);
                if crc32_of(sized.take(sized.len() - rest.len())) != checksum || body.len() == 0
                    || body[0] != 0 {
                    None
                } else {
                    match read_vint(body.skip(1)) {
                        None => None,
                        Some((distance, tail)) => match read_sized(tail) {
                            Some((header, after)) => if after.len() == 0 {
                                Some((IndexRead { distance, header }, rest))
                            } else {
                                None
                            },
                            None => None,
                        },
                    }
                }
            },
        },
    }
}

/// Reads the index.
pub open spec fn read_index(bytes: Seq<u8>) -> Option<Seq<IndexRead>>
    decreases bytes.len(),
{
    if bytes.len() == 0 {
        Some(Seq::empty())
    } else {
        match read_index_record(bytes) {
            None => None,
            Some((record, rest)) => if rest.len() >= bytes.len() {
                None
            } else {
                match read_index(rest) {
                    Some(records) => Some(seq![record] + records),
                    None => None,
                }
            },
        }
    }
}

proof fn lemma_index_parts(sum: Seq<u8>, size: Seq<u8>, body: Seq<u8>, rest: Seq<u8>)
    ensures
        sum + (size + body) + rest == sum + ((size + body) + rest),
        (size + body) + rest == size + (body + rest),
        (body + rest).skip(body.len() as int) == rest,
        (body + rest).take(body.len() as int) == body,
        ((size + body) + rest).take(((size + body) + rest).len() - rest.len()) == size + body,
{
    assert(sum + (size + body) + rest =~= sum + ((size + body) + rest));
    assert((size + body) + rest =~= size + (body + rest));
    assert((body + rest).skip(body.len() as int) =~= rest);
    assert((body + rest).take(body.len() as int) =~= body);
    assert(((size + body) + rest).take(((size + body) + rest).len() - rest.len()) =~= size + body);
}

/// A record of the index gives back the distance and the header.
pub proof fn law_index_records_read_back(distance: u64, header: Seq<u8>, rest: Seq<u8>)
    ensures
        read_index_record(quick_open_entry(distance, header) + rest) == Some(
            (IndexRead { distance: distance as nat, header }, rest),
        ),
        quick_open_entry(distance, header).len() > 0,
{
    reveal(read_index_record);
    let body = entry_body(distance, header);
    let size = vint(body.len());
    let sized = size + body;
    let sum = le_bytes(crc32_of(sized) as nat, 4);
    lemma_index_parts(sum, size, body, rest);
    lemma_read_four(crc32_of(sized) as nat, sized + rest);
    lemma_read_vint(body.len(), body + rest);
    let nothing = Seq::<u8>::empty();
    let named = vint(header.len()) + header;
    assert(body.skip(1) =~= vint(distance as nat) + (named + nothing));
    lemma_read_vint(distance as nat, named + nothing);
    lemma_read_bytes(header, nothing);
}

/// The headers that the index is to repeat, each with its distance to the index.
pub open spec fn indexed(blocks: Seq<BlockView>, at: int) -> IndexRead {
    IndexRead {
        distance: (blocks_len(blocks) - blocks_len(blocks.take(at))) as nat,
        header: blocks[at].header,
    }
}

/// What the index is to say of the first blocks.
pub open spec fn index_of(blocks: Seq<BlockView>, count: nat) -> Seq<IndexRead>
    decreases count,
{
    if count == 0 {
        Seq::empty()
    } else if blocks[count - 1].quick_open_cached {
        index_of(blocks, (count - 1) as nat).push(indexed(blocks, count - 1))
    } else {
        index_of(blocks, (count - 1) as nat)
    }
}

proof fn lemma_index(blocks: Seq<BlockView>, count: nat, rest: Seq<u8>)
    requires
        count <= blocks.len(),
        blocks_len(blocks) <= u64::MAX,
        read_index(rest) is Some,
    ensures
        read_index(quick_open_payload(blocks.take(count as int), blocks_len(blocks)) + rest)
            == Some(index_of(blocks, count) + read_index(rest)->0),
    decreases count,
{
    let total = blocks_len(blocks);
    let payload = quick_open_payload(blocks.take(count as int), total);
    let after = read_index(rest)->0;
    if count == 0 {
        assert(payload + rest =~= rest);
        assert(index_of(blocks, count) + after =~= after);
    } else {
        let at = count - 1;
        let block = blocks[at];
        assert(blocks.take(count as int).drop_last() =~= blocks.take(at));
        assert(blocks.take(count as int).last() == block);
        let before = quick_open_payload(blocks.take(at), total);
        lemma_blocks_len_grows(blocks, at);
        if block.quick_open_cached {
            let distance = (total - blocks_len(blocks.take(at))) as u64;
            let entry = quick_open_entry(distance, block.header);
            law_index_records_read_back(distance, block.header, rest);
            assert(read_index(entry + rest) == Some(seq![indexed(blocks, at)] + after));
            lemma_index(blocks, at as nat, entry + rest);
            assert(payload + rest =~= before + (entry + rest));
            assert(index_of(blocks, at as nat) + (seq![indexed(blocks, at)] + after) =~= index_of(
                blocks,
                count,
            ) + after);
        } else {
            lemma_index(blocks, at as nat, rest);
            assert(payload =~= before);
        }
    }
}

/// The index gives back the header of every block that it is to repeat, in order, each
/// with its distance to the end of the body.
pub proof fn law_index_reads_back(blocks: Seq<BlockView>)
    requires
        blocks_len(blocks) <= u64::MAX,
    ensures
        read_index(quick_open_payload(blocks, blocks_len(blocks))) == Some(
            index_of(blocks, blocks.len()),
        ),
{
    let nothing = Seq::<u8>::empty();
    let payload = quick_open_payload(blocks, blocks_len(blocks));
    assert(read_index(nothing) == Some(Seq::<IndexRead>::empty()));
    lemma_index(blocks, blocks.len(), nothing);
    assert(blocks.take(blocks.len() as int) =~= blocks);
    assert(payload + nothing =~= payload);
    let all = index_of(blocks, blocks.len());
    assert(all + Seq::<IndexRead>::empty() =~= all);
}

/// Whether a header stands so far before the end of some bytes.
pub open spec fn stands_at(bytes: Seq<u8>, record: IndexRead) -> bool {
    let start = bytes.len() - record.distance;
    &&& 0 <= start
    &&& start + record.header.len() <= bytes.len()
    &&& bytes.subrange(start, start + record.header.len()) == record.header
}

proof fn lemma_index_leads(blocks: Seq<BlockView>, count: nat)
    requires
        count <= blocks.len(),
        payloads_fit(blocks),
    ensures
        forall|i: int|
            0 <= i < index_of(blocks, count).len() ==> stands_at(
                body_of(blocks),
                #[trigger] index_of(blocks, count)[i],
            ),
    decreases count,
{
    if count > 0 {
        let at = count - 1;
        lemma_index_leads(blocks, at as nat);
        law_distances_lead_to_the_headers(blocks, at);
        lemma_blocks_len_grows(blocks, at);
        let all = index_of(blocks, count);
        let before = index_of(blocks, at as nat);
        assert forall|i: int| 0 <= i < all.len() implies stands_at(
            body_of(blocks),
            #[trigger] all[i],
        ) by {
            if i < before.len() {
                assert(all[i] == before[i]);
            } else {
                assert(all[i] == indexed(blocks, at));
            }
        }
    }
}

/// A reader that takes a distance out of the index, and goes so far back from where the
/// index starts, finds the header that the index repeats.
pub proof fn law_index_leads_to_the_headers(blocks: Seq<BlockView>)
    requires
        payloads_fit(blocks),
        blocks_len(blocks) <= u64::MAX,
    ensures
        read_index(quick_open_payload(blocks, blocks_len(blocks))) matches Some(records)
            && forall|i: int|
            0 <= i < records.len() ==> stands_at(body_of(blocks), #[trigger] records[i]),
{
    law_index_reads_back(blocks);
    lemma_index_leads(blocks, blocks.len());
}

/// Whether these are the records of a main header: a locator where there is anything to
/// locate or metadata to go before, the metadata that the writer was given, and metadata
/// that is carried over.
pub open spec fn are_main_records(
    records: Seq<RecordRead>,
    inputs: LayoutInputs<'_>,
    quick_open: Option<u64>,
    recovery: Option<u64>,
) -> bool {
    let located = quick_open is Some || recovery is Some || inputs.archive_metadata is Some;
    let first = if located {
        1int
    } else {
        0
    };
    let second = if inputs.archive_metadata is Some {
        first + 1
    } else {
        first
    };
    &&& records.len() == (if inputs.metadata_record is Some {
        second + 1
    } else {
        second
    })
    &&& located ==> records[0].kind == 1 && read_locator(records[0].data) == Some(
        LocatorRead {
            quick_open: match quick_open {
                Some(place) => Some(place as nat),
                // Metadata stands behind a locator that leads nowhere.
                None => if inputs.archive_metadata is Some {
                    Some(0)
                } else {
                    None
                },
            },
            recovery: match recovery {
                Some(place) => Some(place as nat),
                None => None,
            },
        },
    )
    &&& inputs.archive_metadata matches Some(metadata) ==> records[first].kind == 2
        && read_metadata(records[first].data) == Some(
        MetadataRead {
            name: match metadata.name {
                Some(name) => Some(name@),
                None => None,
            },
            time: Some(metadata.creation_time->0 as nat),
            is_unix: false,
            has_nanos: false,
        },
    )
    &&& inputs.metadata_record matches Some(record) ==> records[second].kind == 2
        && read_metadata(records[second].data) == Some(
        MetadataRead {
            name: record_name(*record),
            time: match record.creation_time {
                Some(time) => Some(time as nat),
                None => None,
            },
            is_unix: (record.flags / 4) % 2 == 1,
            has_nanos: (record.flags / 8) % 2 == 1,
        },
    )
}

proof fn lemma_locator_part(has_metadata: bool, quick_open: Option<u64>, recovery: Option<u64>)
    -> (r: Seq<RecordRead>)
    ensures
        is_part(locator_part(has_metadata, quick_open, recovery), r),
        r.len() == (if quick_open is Some || recovery is Some || has_metadata {
            1int
        } else {
            0
        }),
        r.len() > 0 ==> r[0].kind == 1 && read_locator(r[0].data) == Some(
            LocatorRead {
                quick_open: match quick_open {
                    Some(place) => Some(place as nat),
                    None => if has_metadata {
                        Some(0)
                    } else {
                        None
                    },
                },
                recovery: match recovery {
                    Some(place) => Some(place as nat),
                    None => None,
                },
            },
        ),
{
    if quick_open is Some || recovery is Some || has_metadata {
        let located = if quick_open is None {
            if has_metadata {
                Some(0u64)
            } else {
                None
            }
        } else {
            quick_open
        };
        law_locators_read_back(located, recovery);
        let data = choose|data: Seq<u8>|
            locator_record(located, recovery) == #[trigger] extra_record(1, data) && read_locator(
                data,
            ) == Some(locator_read(located, recovery));
        seq![RecordRead { kind: 1, data }]
    } else {
        Seq::empty()
    }
}

proof fn lemma_metadata_part(inputs: LayoutInputs<'_>) -> (r: Seq<RecordRead>)
    requires
        metadata_part(inputs.archive_metadata) is Ok,
    ensures
        is_part(metadata_part(inputs.archive_metadata)->Ok_0, r),
        r.len() == (if inputs.archive_metadata is Some {
            1int
        } else {
            0
        }),
        inputs.archive_metadata matches Some(metadata) ==> r[0].kind == 2 && read_metadata(
            r[0].data,
        ) == Some(
            MetadataRead {
                name: match metadata.name {
                    Some(name) => Some(name@),
                    None => None,
                },
                time: Some(metadata.creation_time->0 as nat),
                is_unix: false,
                has_nanos: false,
            },
        ),
{
    match inputs.archive_metadata {
        Some(metadata) => {
            let name = optional_bytes(metadata.name);
            let time = metadata.creation_time;
            law_metadata_reads_back(name, time);
            let record = archive_metadata_record_of(name, time)->Ok_0;
            let data = choose|data: Seq<u8>|
                record == #[trigger] extra_record(2, data) && read_metadata(data) == Some(
                    MetadataRead {
                        name,
                        time: Some(time->0 as nat),
                        is_unix: false,
                        has_nanos: false,
                    },
                );
            seq![RecordRead { kind: 2, data }]
        },
        None => Seq::empty(),
    }
}

proof fn lemma_retained_part(inputs: LayoutInputs<'_>) -> (r: Seq<RecordRead>)
    requires
        retained_part(inputs) is Ok,
    ensures
        is_part(retained_part(inputs)->Ok_0, r),
        r.len() == (if inputs.metadata_record is Some {
            1int
        } else {
            0
        }),
        inputs.metadata_record matches Some(record) ==> r[0].kind == 2 && read_metadata(r[0].data)
            == Some(
            MetadataRead {
                name: record_name(*record),
                time: match record.creation_time {
                    Some(time) => Some(time as nat),
                    None => None,
                },
                is_unix: (record.flags / 4) % 2 == 1,
                has_nanos: (record.flags / 8) % 2 == 1,
            },
        ),
{
    match inputs.metadata_record {
        Some(record) => {
            law_retained_metadata_reads_back(*record);
            let bytes = retained_part(inputs)->Ok_0;
            let data = choose|data: Seq<u8>|
                bytes == #[trigger] extra_record(2, data) && read_metadata(data) == Some(
                    MetadataRead {
                        name: record_name(*record),
                        time: match record.creation_time {
                            Some(time) => Some(time as nat),
                            None => None,
                        },
                        is_unix: (record.flags / 4) % 2 == 1,
                        has_nanos: (record.flags / 8) % 2 == 1,
                    },
                );
            seq![RecordRead { kind: 2, data }]
        },
        None => Seq::empty(),
    }
}

/// The extra area of a main header gives back the places of the blocks behind the body
/// and all metadata.
pub proof fn law_main_extra_reads_back(
    inputs: LayoutInputs<'_>,
    quick_open: Option<u64>,
    recovery: Option<u64>,
)
    ensures
        extra_at(inputs, quick_open, recovery) matches Ok(extra) ==> (read_records(extra) matches
            Some(records) && are_main_records(records, inputs, quick_open, recovery)),
{
    if let Ok(extra) = extra_at(inputs, quick_open, recovery) {
        let has_metadata = inputs.archive_metadata is Some;
        let a = lemma_locator_part(has_metadata, quick_open, recovery);
        let b = lemma_metadata_part(inputs);
        let c = lemma_retained_part(inputs);
        let nothing = Seq::<u8>::empty();
        let none = Seq::<RecordRead>::empty();
        assert(is_part(nothing, none));
        let pa = locator_part(has_metadata, quick_open, recovery);
        let pb = metadata_part(inputs.archive_metadata)->Ok_0;
        let pc = retained_part(inputs)->Ok_0;
        lemma_five_records((pa, pb, pc, nothing, nothing), (a, b, c, none, none));
        assert(extra =~= pa + pb + pc + nothing + nothing);
        let records = a + b + c + none + none;
        if b.len() > 0 {
            assert(records[a.len() as int] == b[0]);
        }
        if c.len() > 0 {
            assert(records[(a.len() + b.len()) as int] == c[0]);
        }
    }
}

/// The locator in a main header leads to the blocks behind the body: counted from the end
/// of the signature, the quick-open block and the recovery block start where it says.
pub proof fn law_locator_leads_to_the_blocks(
    container: ContainerView<'_>,
    emits: spec_fn(Seq<u8>, Seq<u8>) -> bool,
    layout: LayoutView,
    emission: Emission,
)
    requires
        layout_of(container.inputs()) == Some(Ok::<LayoutView, Error>(layout)),
        keeps_lengths(emits, container.header_encrypted),
        container.is_sized(),
        container.head_crypt.len() <= u64::MAX,
        container.body.len() <= u64::MAX,
        container.is_emission(emits, layout, emission),
        container.quick_open is Some || container.recovery_percent is Some,
    ensures
        read_records(layout.main_extra) matches Some(records) && records.len() > 0
            && records[0].kind == 1 && (read_locator(records[0].data) matches Some(locator) && (
        container.quick_open is Some ==> (locator.quick_open matches Some(place) && 8 + place
            == container.before_quick_open(emission.main).len())) && (
        container.recovery_percent is Some <==> locator.recovery is Some) && (locator.recovery
            matches Some(place) ==> 8 + place == container.prefix(emission.main).len())),
{
    law_locator_points_at_the_blocks(container, emits, layout, emission);
    let before = container.before_quick_open(emission.main);
    let prefix = container.prefix(emission.main);
    let quick_open = offset_to(container.quick_open is Some, before.len());
    let recovery = offset_to(container.recovery_percent is Some, prefix.len());
    law_main_extra_reads_back(container.inputs(), quick_open, recovery);
    assert(before.len() >= 8);
    assert(prefix.len() >= before.len());
}

} // verus!
