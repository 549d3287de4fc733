//! How a reader walks an archive or a volume from its first byte to its last.

use vstd::prelude::*;

#[allow(unused_imports)]
use crate::crc32::crc32_of;
#[allow(unused_imports)]
use crate::rar50::archive::body_of;
#[allow(unused_imports)]
use crate::rar50::blocks::{service_image_of, BlockView};
#[allow(unused_imports)]
use crate::rar50::container::{in_the_clear, ContainerView, Emission};
#[allow(unused_imports)]
use crate::rar50::file_header::file_fields;
#[allow(unused_imports)]
use crate::rar50::format::signature;
#[allow(unused_imports)]
use crate::rar50::headers::header_image;
#[allow(unused_imports)]
use crate::rar50::layout::{layout_of, service_extra, LayoutView};
#[allow(unused_imports)]
use crate::rar50::main_header::{extra_flag, main_fields};
#[allow(unused_imports)]
use crate::rar50::reader::{
    law_file_fields_read_back, law_headers_read_back, law_records_read_back, lemma_read_vint,
    read_end, read_extra, read_file_header, read_four, read_header, read_main, read_records,
    read_vint, ExtraRead, FileHeaderRead, FileRead, HeaderRead, MainRead, RecordRead,
};
#[allow(unused_imports)]
use crate::rar50::records::{extra_record, optional_vint};
#[allow(unused_imports)]
use crate::rar50::recovery_service::{recovery_block_of, recovery_name, recovery_payload};
#[allow(unused_imports)]
use crate::rar50::vint::vint;
#[allow(unused_imports)]
use crate::recovery::rar5::plan::inline_recovery_plan;
#[allow(unused_imports)]
use crate::recovery::rar5::record::{lemma_plan_of, lemma_record_len};

verus! {

/// A block that was read: its header, and the data behind it.
#[verifier::ext_equal]
pub struct BlockRead {
    pub header: HeaderRead,
    pub data: Seq<u8>,
}

/// Blocks that were read one behind another.
#[verifier::ext_equal]
pub struct WalkRead {
    pub blocks: Seq<BlockRead>,
    /// Whether another volume follows.
    pub more: bool,
}

/// Reads blocks up to the end header, which has to be the last of it, and whether that
/// says that another volume follows.
#[verifier::opaque]
pub open spec fn read_blocks(bytes: Seq<u8>) -> Option<WalkRead>
    decreases bytes.len(),
{
    match read_header(bytes) {
        None => None,
        Some((header, rest)) => if rest.len() >= bytes.len() {
            None
        } else if header.kind == 5 {
            match read_end(header.fields) {
                Some(more) => if rest.len() == 0 {
                    Some(WalkRead { blocks: Seq::empty(), more })
                } else {
                    None
                },
                None => None,
            }
        } else if header.data_len > rest.len() {
            None
        } else {
            match read_blocks(rest.skip(header.data_len as int)) {
                Some(walk) => Some(
                    WalkRead {
                        blocks: seq![
                            BlockRead { header, data: rest.take(header.data_len as int) },
                        ] + walk.blocks,
                        more: walk.more,
                    },
                ),
                None => None,
            }
        },
    }
}

/// An archive or a volume that was read.
#[verifier::ext_equal]
pub struct ArchiveRead {
    pub main: MainRead,
    /// The extra area of the main header.
    pub extra: Seq<u8>,
    pub blocks: Seq<BlockRead>,
    /// Whether another volume follows.
    pub more: bool,
}

/// Reads an archive or a volume whose headers are in the clear: the signature, the main
/// header, the blocks, the end header.
#[verifier::opaque]
pub open spec fn read_archive(bytes: Seq<u8>) -> Option<ArchiveRead> {
    if bytes.len() < 8 || bytes.take(8) != seq![
        0x52u8,
        0x61u8,
        0x72u8,
        0x21u8,
        0x1au8,
        0x07u8,
        0x01u8,
        0x00u8,
    ] {
        None
    } else {
        match read_header(bytes.skip(8)) {
            None => None,
            Some((header, rest)) => match (read_main(header.fields), read_blocks(rest)) {
                (Some(main), Some(walk)) => if header.kind == 1 {
                    Some(
                        ArchiveRead {
                            main,
                            extra: header.extra,
                            blocks: walk.blocks,
                            more: walk.more,
                        },
                    )
                } else {
                    None
                },
                _ => None,
            },
        }
    }
}

/// Whether a block reads as this wherever it stands.
pub open spec fn reads_as(block: BlockView, header: HeaderRead) -> bool {
    &&& forall|rest: Seq<u8>| #[trigger]
        read_header(block.header + rest) == Some((header, rest))
    &&& header.kind != 5
    &&& header.data_len == block.payload.len()
}

/// Whether a block can be read at all.
pub open spec fn is_readable(block: BlockView) -> bool {
    exists|header: HeaderRead| #[trigger] reads_as(block, header)
}

/// What a reader finds of a block.
pub open spec fn found(block: BlockView) -> BlockRead {
    BlockRead {
        header: choose|header: HeaderRead| #[trigger] reads_as(block, header),
        data: block.payload,
    }
}

pub open spec fn all_found(blocks: Seq<BlockView>) -> Seq<BlockRead> {
    Seq::new(blocks.len(), |i: int| found(blocks[i]))
}

pub open spec fn are_readable(blocks: Seq<BlockView>) -> bool {
    forall|i: int| 0 <= i < blocks.len() ==> is_readable(#[trigger] blocks[i])
}

/// A header that reads is found as it reads.
pub proof fn lemma_found(block: BlockView, header: HeaderRead)
    requires
        reads_as(block, header),
    ensures
        is_readable(block),
        found(block).header == header,
{
    let other = found(block).header;
    assert(reads_as(block, other));
    assert(read_header(block.header + Seq::empty()) == Some((header, Seq::<u8>::empty())));
}

proof fn lemma_walk_one(block: BlockView, rest: Seq<u8>)
    requires
        is_readable(block),
        read_blocks(rest) is Some,
    ensures
        read_blocks(block.header + (block.payload + rest)) == Some(
            WalkRead {
                blocks: seq![found(block)] + read_blocks(rest)->0.blocks,
                more: read_blocks(rest)->0.more,
            },
        ),
{
    reveal_with_fuel(read_blocks, 2);
    let header = found(block).header;
    assert(reads_as(block, header));
    let bytes = block.header + (block.payload + rest);
    assert(read_header(bytes) == Some((header, block.payload + rest)));
    assert(block.header.len() > 0) by {
        reveal(read_four);
        assert(read_header(block.header + Seq::empty()) == Some((header, Seq::<u8>::empty())));
    }
    let behind = block.payload + rest;
    assert(behind.skip(header.data_len as int) =~= rest);
    assert(behind.take(header.data_len as int) =~= block.payload);
}

proof fn lemma_walk_body(blocks: Seq<BlockView>, rest: Seq<u8>)
    requires
        are_readable(blocks),
        read_blocks(rest) is Some,
    ensures
        read_blocks(body_of(blocks) + rest) is Some,
        read_blocks(body_of(blocks) + rest)->0.blocks == all_found(blocks) + read_blocks(rest)->0.blocks,
        read_blocks(body_of(blocks) + rest)->0.more == read_blocks(rest)->0.more,
    decreases blocks.len(),
{
    if blocks.len() == 0 {
        assert(body_of(blocks) + rest =~= rest);
        assert(all_found(blocks) + read_blocks(rest)->0.blocks =~= read_blocks(rest)->0.blocks);
    } else {
        let before = blocks.drop_last();
        let last = blocks.last();
        assert(last == blocks[blocks.len() - 1]);
        assert(are_readable(before)) by {
            assert forall|i: int| 0 <= i < before.len() implies is_readable(
                #[trigger] before[i],
            ) by {
                assert(before[i] == blocks[i]);
            }
        }
        let behind = last.header + (last.payload + rest);
        lemma_walk_one(last, rest);
        lemma_walk_body(before, behind);
        assert(body_of(blocks) + rest =~= body_of(before) + behind);
        assert(all_found(blocks) =~= all_found(before) + seq![found(last)]);
        assert(all_found(before) + (seq![found(last)] + read_blocks(rest)->0.blocks) =~= all_found(
            blocks,
        ) + read_blocks(rest)->0.blocks);
    }
}

/// The end header gives back whether another volume follows.
pub proof fn law_end_headers_read_back(container: ContainerView<'_>)
    requires
        container.end_flags < 2,
    ensures
        read_header(container.end_image()) == Some(
            (
                HeaderRead {
                    kind: 5,
                    flags: 0,
                    data_len: 0,
                    fields: vint(container.end_flags as nat),
                    extra: Seq::empty(),
                },
                Seq::<u8>::empty(),
            ),
        ),
        read_end(vint(container.end_flags as nat)) == Some(container.end_flags == 1),
        read_blocks(container.end_image()) == Some(
            WalkRead { blocks: Seq::empty(), more: container.end_flags == 1 },
        ),
{
    reveal(read_blocks);
    let fields = vint(container.end_flags as nat);
    let nothing = Seq::<u8>::empty();
    law_headers_read_back(5, 0, None, fields, nothing, nothing);
    assert(container.end_image() + nothing =~= container.end_image());
    lemma_read_vint(container.end_flags as nat, nothing);
    assert(fields + nothing =~= fields);
    assert(container.end_image().len() > 0) by {
        reveal(read_four);
    }
}

/// The main header gives back its flags, the volume number and the extra area.
pub proof fn law_main_headers_read_back(
    container: ContainerView<'_>,
    layout: LayoutView,
    rest: Seq<u8>,
)
    requires
        container.volume_number is Some <==> (container.main_flags / 2) % 2 == 1,
    ensures
        read_header(container.main_image(layout) + rest) matches Some((header, after)) && after
            == rest && header.kind == 1 && header.data_len == 0 && header.extra
            == layout.main_extra && read_main(header.fields) == Some(
            MainRead {
                flags: container.main_flags as nat,
                volume_number: match container.volume_number {
                    Some(number) => Some(number as nat),
                    None => None,
                },
            },
        ),
{
    let fields = main_fields(container.main_flags, container.volume_number);
    let flags = extra_flag(layout.main_extra);
    law_headers_read_back(1, flags, None, fields, layout.main_extra, rest);
    let nothing = Seq::<u8>::empty();
    let number = optional_vint(container.volume_number);
    lemma_read_vint(container.main_flags as nat, number);
    if let Some(value) = container.volume_number {
        lemma_read_vint(value as nat, nothing);
        assert(number + nothing =~= number);
    }
}

proof fn lemma_service_area(service_data: Seq<u8>)
    ensures
        read_records(service_extra(service_data)) is Some,
        read_extra(read_records(service_extra(service_data))->0) == Some(
            ExtraRead { service: Some(service_data), ..ExtraRead::nothing() },
        ),
{
    let nothing = Seq::<u8>::empty();
    let none = Seq::<RecordRead>::empty();
    let record = RecordRead { kind: 7, data: service_data };
    assert(read_records(nothing) == Some(none));
    law_records_read_back(7, service_data, nothing);
    assert(extra_record(7, service_data) + nothing =~= service_extra(service_data));
    let records = seq![record] + none;
    assert(records.drop_last() =~= none);
    assert(records.last() == record);
    assert(read_extra(none) == Some(ExtraRead::nothing()));
}

/// The header of a service gives back its name, the length and the checksum of its data,
/// and what the service is about.
pub proof fn law_service_headers_read_back(
    name: Seq<u8>,
    data_len: u64,
    crc32: u32,
    service_data: Seq<u8>,
    rest: Seq<u8>,
)
    ensures
        service_image_of(name, data_len, crc32, service_data) matches Ok(image) ==> (
        read_file_header(image + rest) == Some(
            (
                FileHeaderRead {
                    kind: 3,
                    data_len: data_len as nat,
                    split_before: false,
                    split_after: false,
                    file: FileRead {
                        is_directory: false,
                        size: data_len as nat,
                        attributes: 0,
                        mtime: None,
                        crc32: Some(crc32 as nat),
                        compression: 0,
                        host_os: 0,
                        name,
                    },
                    extra: ExtraRead {
                        crypt: None,
                        hash: None,
                        times: Seq::empty(),
                        link: None,
                        service: Some(service_data),
                    },
                },
                rest,
            ),
        )),
{
    let fields = file_fields(name, data_len, Some(crc32), 0, None, 0, 0, false);
    law_file_fields_read_back(name, data_len, Some(crc32), 0, None, 0, 0, false);
    lemma_service_area(service_data);
    law_headers_read_back(3, 3, Some(data_len), fields, service_extra(service_data), rest);
}

/// A block whose header is that of a file or a service can be read.
pub proof fn lemma_header_is_readable(
    block: BlockView,
    kind: u64,
    flags: u64,
    data_len: u64,
    fields: Seq<u8>,
    area: Seq<u8>,
)
    requires
        block.header == header_image(kind, flags, Some(data_len), fields, area),
        kind != 5,
        flags % 4 == 3,
        block.payload.len() == data_len,
    ensures
        reads_as(
            block,
            HeaderRead {
                kind: kind as nat,
                flags: flags as nat,
                data_len: data_len as nat,
                fields,
                extra: area,
            },
        ),
        is_readable(block),
{
    let header = HeaderRead {
        kind: kind as nat,
        flags: flags as nat,
        data_len: data_len as nat,
        fields,
        extra: area,
    };
    assert forall|rest: Seq<u8>| #[trigger] read_header(block.header + rest) == Some(
        (header, rest),
    ) by {
        law_headers_read_back(kind, flags, Some(data_len), fields, area, rest);
    }
    assert(reads_as(block, header));
}

/// The recovery block of a prefix as it stands in an archive.
pub open spec fn recovery_found(
    container: ContainerView<'_>,
    prefix: Seq<u8>,
) -> Seq<BlockRead> {
    match container.recovery_percent {
        Some(percent) => match recovery_block_of(prefix, percent, container.memory_limit) {
            Ok(block) => seq![found(block)],
            Err(_) => Seq::empty(),
        },
        None => Seq::empty(),
    }
}

pub open spec fn index_found(container: ContainerView<'_>) -> Seq<BlockRead> {
    match container.quick_open {
        Some(block) => seq![found(block)],
        None => Seq::empty(),
    }
}

/// A recovery block names itself `RR`, gives the percentage that it was asked for, and
/// the length and the checksum of its record.
pub proof fn law_recovery_blocks_read_back(
    prefix: Seq<u8>,
    percent: u64,
    memory_limit: u64,
    rest: Seq<u8>,
)
    requires
        prefix.len() <= u64::MAX,
    ensures
        recovery_block_of(prefix, percent, memory_limit) matches Ok(block) ==> (read_file_header(
            block.header + rest,
        ) matches Some((read, after)) && after == rest && read.kind == 3 && read.data_len
            == block.payload.len() && read.file.name == seq![0x52u8, 0x52u8] && read.file.size
            == block.payload.len() && read.file.crc32 == Some(crc32_of(block.payload) as nat)
            && read.extra.crypt is None && (read.extra.service matches Some(data) && read_vint(
            data,
        ) == Some((percent as nat, Seq::<u8>::empty()))) && is_readable(block)),
{
    if let Ok(block) = recovery_block_of(prefix, percent, memory_limit) {
        let payload = recovery_payload(prefix, percent);
        lemma_plan_of(prefix.len() as int, percent as int);
        let plan = inline_recovery_plan(prefix.len() as int, percent as int);
        lemma_record_len(prefix, plan, plan.recovery_shards as nat);
        assert(plan.recovery_shards * plan.shard_size <= 200 * 0xffff_ffff) by (nonlinear_arith)
            requires
                0 <= plan.recovery_shards <= 200,
                0 <= plan.shard_size <= 0xffff_ffff,
        ;
        assert(payload.len() <= u64::MAX);
        let name = seq![0x52u8, 0x52u8];
        assert(name =~= recovery_name());
        let data = vint(percent as nat);
        let len = payload.len() as u64;
        law_service_headers_read_back(name, len, crc32_of(payload), data, rest);
        lemma_read_vint(percent as nat, Seq::empty());
        assert(data + Seq::<u8>::empty() =~= data);
        let fields = file_fields(name, len, Some(crc32_of(payload)), 0, None, 0, 0, false);
        lemma_header_is_readable(block, 3, 3, len, fields, service_extra(data));
    }
}

/// A container whose headers are in the clear is walked from its signature to its end:
/// main header, the blocks of its body in order, the quick-open block, the recovery
/// block, and an end header that says whether another volume follows.
pub proof fn law_containers_are_walked(
    container: ContainerView<'_>,
    blocks: Seq<BlockView>,
    out: Seq<u8>,
)
    requires
        container.is_written_as(in_the_clear(), out),
        container.head_crypt.len() == 0,
        container.end_flags < 2,
        container.volume_number is Some <==> (container.main_flags / 2) % 2 == 1,
        container.body == body_of(blocks),
        are_readable(blocks),
        container.quick_open matches Some(index) ==> is_readable(index),
        out.len() <= u64::MAX,
    ensures
        layout_of(container.inputs()) matches Some(Ok(layout)) && read_archive(out) == Some(
            ArchiveRead {
                main: MainRead {
                    flags: container.main_flags as nat,
                    volume_number: match container.volume_number {
                        Some(number) => Some(number as nat),
                        None => None,
                    },
                },
                extra: layout.main_extra,
                blocks: all_found(blocks) + index_found(container) + recovery_found(
                    container,
                    container.prefix(container.main_image(layout)),
                ),
                more: container.end_flags == 1,
            },
        ),
{
    let layout = layout_of(container.inputs())->Some_0->Ok_0;
    let emission = choose|emission: Emission| #[trigger]
        container.is_emission(in_the_clear(), layout, emission) && out == container.assembled(
            emission,
        );
    let main = container.main_image(layout);
    let end = container.end_image();
    assert(emission.main == main && emission.end == end);
    let prefix = container.prefix(main);
    let recovery = recovery_found(container, prefix);
    lemma_walk_tail(container, layout, emission);
    let behind = container.quick_open_bytes() + (container.recovery_bytes(emission) + end);
    lemma_walk_body(blocks, behind);
    let rest = body_of(blocks) + behind;
    law_main_headers_read_back(container, layout, rest);
    lemma_assembled(
        signature(),
        container.head_crypt,
        main,
        container.body,
        container.quick_open_bytes(),
        container.recovery_bytes(emission),
        end,
    );
    lemma_signed(main + rest);
    reveal(read_archive);
    assert(all_found(blocks) + (index_found(container) + recovery) =~= all_found(blocks)
        + index_found(container) + recovery);
}

proof fn lemma_signed(bytes: Seq<u8>)
    ensures
        (signature() + bytes).len() >= 8,
        (signature() + bytes).take(8) == seq![
            0x52u8,
            0x61u8,
            0x72u8,
            0x21u8,
            0x1au8,
            0x07u8,
            0x01u8,
            0x00u8,
        ],
        (signature() + bytes).skip(8) == bytes,
{
    assert((signature() + bytes).take(8) =~= signature());
    assert((signature() + bytes).skip(8) =~= bytes);
}

/// The quick-open block, the recovery block and the end header.
proof fn lemma_walk_tail(container: ContainerView<'_>, layout: LayoutView, emission: Emission)
    requires
        container.is_emission(in_the_clear(), layout, emission),
        container.end_flags < 2,
        container.quick_open matches Some(index) ==> is_readable(index),
        container.prefix(emission.main).len() <= u64::MAX,
    ensures
        read_blocks(
            container.quick_open_bytes() + (container.recovery_bytes(emission)
                + container.end_image()),
        ) == Some(
            WalkRead {
                blocks: index_found(container) + recovery_found(
                    container,
                    container.prefix(emission.main),
                ),
                more: container.end_flags == 1,
            },
        ),
{
    let end = container.end_image();
    let prefix = container.prefix(emission.main);
    let recovery = recovery_found(container, prefix);
    law_end_headers_read_back(container);
    let tail = container.recovery_bytes(emission) + end;
    if let Some(percent) = container.recovery_percent {
        let block = recovery_block_of(prefix, percent, container.memory_limit)->Ok_0;
        law_recovery_blocks_read_back(prefix, percent, container.memory_limit, Seq::empty());
        lemma_walk_one(block, end);
        lemma_regroup(block.header, block.payload, end);
        assert(recovery + Seq::<BlockRead>::empty() =~= recovery);
    } else {
        assert(tail =~= end);
    }
    let behind = container.quick_open_bytes() + tail;
    if let Some(index) = container.quick_open {
        lemma_walk_one(index, tail);
        lemma_regroup(index.header, index.payload, tail);
    } else {
        assert(behind =~= tail);
        assert(index_found(container) + recovery =~= recovery);
    }
}

proof fn lemma_regroup(a: Seq<u8>, b: Seq<u8>, c: Seq<u8>)
    ensures
        a + b + c == a + (b + c),
{
    assert(a + b + c =~= a + (b + c));
}

proof fn lemma_assembled(
    a: Seq<u8>,
    b: Seq<u8>,
    c: Seq<u8>,
    d: Seq<u8>,
    e: Seq<u8>,
    f: Seq<u8>,
    g: Seq<u8>,
)
    requires
        b.len() == 0,
    ensures
        a + b + c + d + e + f + g == a + (c + (d + (e + (f + g)))),
{
    assert(a + b + c + d + e + f + g =~= a + (c + (d + (e + (f + g)))));
}

} // verus!
