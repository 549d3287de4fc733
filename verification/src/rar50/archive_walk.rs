//! What a reader finds in a whole archive.

use vstd::prelude::*;

#[allow(unused_imports)]
use crate::crc32::crc32_of;
#[allow(unused_imports)]
use crate::error::{Error, Result};
#[allow(unused_imports)]
use crate::rar50::archive::{
    archive_container, archive_error, archive_flags, archive_outcome, body_of, is_archive,
    is_framed, lemma_clear_frame, plain_index,
};
#[allow(unused_imports)]
use crate::rar50::blocks::{
    encrypted_service_extra, service_of, BlockView, CompressedMember, CryptFields,
};
#[allow(unused_imports)]
use crate::rar50::container::{
    emission_by, in_the_clear, is_clear, lemma_clear_container, lemma_short_service_fits,
    ContainerView, Emission,
};
#[allow(unused_imports)]
use crate::rar50::encryption::{padded_len, EncryptedStoredPayload, PayloadKeys};
#[allow(unused_imports)]
use crate::rar50::engine::{
    archive_blocks_of, comment_data, entry_blocks_of, is_complete, member_blocks_of,
    service_blocks_of, EnginePlan, MemberWork,
};
#[allow(unused_imports)]
use crate::rar50::entry::{comment_name, ArchiveEntry, ServiceEntry};
#[allow(unused_imports)]
use crate::rar50::file_header::{file_fields, file_specific_of};
#[allow(unused_imports)]
use crate::rar50::headers::header_image;
#[allow(unused_imports)]
use crate::rar50::layout::{layout_of, quick_open_name, service_extra};
#[allow(unused_imports)]
use crate::rar50::members::{
    base_mtime, crypt_of, header_crc32, header_hash, member_block_of, member_extra, member_image_of,
    payload_len_of, payload_of, reported_size,
};
#[allow(unused_imports)]
use crate::rar50::plan::{member_info, CompressPlan};
#[allow(unused_imports)]
use crate::rar50::prepared_header::{admitted_headers, header_lens};
#[allow(unused_imports)]
use crate::rar50::quick_open::{blocks_len, quick_open_payload};
#[allow(unused_imports)]
use crate::rar50::read_back::{law_member_headers_read_back, law_services_read_back};
#[allow(unused_imports)]
use crate::rar50::reader::{
    file_header_of, read_file_header, read_header, FileHeaderRead, HeaderRead, MainRead,
};
#[allow(unused_imports)]
use crate::rar50::recovery_service::recovery_block_of;
#[allow(unused_imports)]
use crate::rar50::retention::recovery_limit;
#[allow(unused_imports)]
use crate::rar50::sealing::{is_work_of, MemberDraws, Sealer};
#[allow(unused_imports)]
use crate::rar50::walk::{
    all_found, are_readable, found, index_found, is_readable, law_containers_are_walked,
    law_recovery_blocks_read_back, law_service_headers_read_back, lemma_found,
    lemma_header_is_readable, read_archive, reads_as, recovery_found, BlockRead,
};
#[allow(unused_imports)]
use crate::streaming::resources::ResourcesView;

verus! {

/// A file or a service as a reader lists it.
#[verifier::ext_equal]
pub struct Listed {
    /// 2 for a file, 3 for a service.
    pub kind: nat,
    pub name: Seq<u8>,
    pub data: Seq<u8>,
}

/// What a reader lists of a block.
pub open spec fn listed(block: BlockRead) -> Option<Listed> {
    match file_header_of(block.header) {
        Some(read) => Some(Listed { kind: read.kind, name: read.file.name, data: block.data }),
        None => None,
    }
}

pub open spec fn is_listed_as(block: BlockView, item: Listed) -> bool {
    is_readable(block) && listed(found(block)) == Some(item)
}

pub open spec fn are_listed_as(blocks: Seq<BlockView>, items: Seq<Listed>) -> bool {
    &&& blocks.len() == items.len()
    &&& forall|i: int| 0 <= i < items.len() ==> is_listed_as(blocks[i], #[trigger] items[i])
}

/// Data as it stands in an archive: encrypted, or as it is.
pub open spec fn stored_data(
    data: Seq<u8>,
    sealed: Option<EncryptedStoredPayload>,
) -> Seq<u8> {
    match sealed {
        Some(sealed) => sealed.data@,
        None => data,
    }
}

/// Whether ciphertext has the length of its data, filled up to whole cipher blocks.
pub open spec fn is_whole(data: Seq<u8>, sealed: Option<EncryptedStoredPayload>) -> bool {
    sealed matches Some(sealed) ==> sealed.data@.len() % 16 == 0 && data.len()
        <= sealed.data@.len() < data.len() + 16
}

/// What is to be listed of services.
pub open spec fn service_items(
    services: Seq<ServiceEntry>,
    sealed: Seq<Option<EncryptedStoredPayload>>,
) -> Seq<Listed> {
    Seq::new(
        services.len(),
        |k: int|
            Listed {
                kind: 3,
                name: services[k].name@,
                data: stored_data(services[k].data@, sealed[k]),
            },
    )
}

/// What is to be listed of a member: the member, and its services behind it.
pub open spec fn member_items(entry: ArchiveEntry, work: MemberWork) -> Seq<Listed> {
    seq![
        Listed {
            kind: 2,
            name: entry.name@,
            data: stored_data(work.member.packed@, work.sealed),
        },
    ] + service_items(entry.services@, work.services@)
}

/// What is to be listed of members, one behind another.
pub open spec fn entry_items(entries: Seq<ArchiveEntry>, works: Seq<MemberWork>) -> Seq<Listed>
    decreases entries.len(),
{
    if entries.len() == 0 {
        Seq::empty()
    } else {
        entry_items(entries.drop_last(), works.drop_last()) + member_items(
            entries.last(),
            works.last(),
        )
    }
}

/// Whether a member was not changed while it was read, and what is encrypted of it has
/// the length that its headers give.
pub open spec fn is_settled(entry: ArchiveEntry, work: MemberWork) -> bool {
    &&& work.member.source_error() is None
    &&& is_whole(work.member.packed@, work.sealed)
    &&& work.services@.len() == entry.services@.len()
    &&& forall|k: int|
        0 <= k < entry.services@.len() ==> is_whole(
            entry.services@[k].data@,
            #[trigger] work.services@[k],
        )
}

proof fn lemma_listed(block: BlockView, header: HeaderRead, read: FileHeaderRead)
    requires
        reads_as(block, header),
        read_file_header(block.header + Seq::empty()) == Some((read, Seq::<u8>::empty())),
    ensures
        is_listed_as(
            block,
            Listed { kind: read.kind, name: read.file.name, data: block.payload },
        ),
{
    lemma_found(block, header);
    assert(read_header(block.header + Seq::empty()) == Some((header, Seq::<u8>::empty())));
}

proof fn lemma_service_is_listed(
    name: Seq<u8>,
    data: Seq<u8>,
    sealed: Option<EncryptedStoredPayload>,
    cached: bool,
)
    requires
        data.len() <= u64::MAX,
        is_whole(data, sealed),
    ensures
        service_of(name, data, sealed, cached) matches Ok(block) ==> is_listed_as(
            block,
            Listed { kind: 3, name, data: stored_data(data, sealed) },
        ),
{
    let nothing = Seq::<u8>::empty();
    law_services_read_back(name, data, sealed, cached, nothing);
    if let Ok(block) = service_of(name, data, sealed, cached) {
        reveal(service_of);
        let len = data.len() as u64;
        let (read, _) = read_file_header(block.header + nothing)->0;
        let (crc32, area, data_len) = match sealed {
            Some(sealed) => (
                sealed.crc32_mac,
                encrypted_service_extra(nothing, sealed),
                padded_len(data.len()) as u64,
            ),
            None => (crc32_of(data), service_extra(nothing), len),
        };
        let fields = file_fields(name, len, Some(crc32), 0, None, 0, 0, false);
        lemma_header_is_readable(block, 3, 3, data_len, fields, area);
        let header = HeaderRead {
            kind: 3,
            flags: 3,
            data_len: data_len as nat,
            fields,
            extra: area,
        };
        lemma_listed(block, header, read);
    }
}

/// A member's header is a header with an extra area and with data.
proof fn lemma_member_image_is_header(
    entry: ArchiveEntry,
    input_size: u64,
    crc32: u32,
    hash: [u8; 32],
    crypt: Option<CryptFields>,
    info: u64,
    payload_len: u64,
)
    ensures
        member_image_of(entry, input_size, crc32, hash, crypt, info, payload_len) matches Ok(image)
            ==> exists|fields: Seq<u8>, area: Seq<u8>|
            image == #[trigger] header_image(2, 3, Some(payload_len), fields, area),
{
    reveal(member_image_of);
    if let Ok(image) = member_image_of(entry, input_size, crc32, hash, crypt, info, payload_len) {
        let fields = file_specific_of(
            entry.name@,
            reported_size(entry, input_size),
            Some(crc32),
            entry.attributes,
            base_mtime(entry),
            info,
            entry.host_os,
            entry.is_directory,
        )->Ok_0;
        let shown = if entry.redirection is None {
            Some(hash)
        } else {
            None
        };
        let area = member_extra(crypt, shown, entry, true);
        assert(image == header_image(2, 3, Some(payload_len), fields, area));
    }
}

/// An unchanged member's payload has the length that its header gives.
proof fn lemma_member_payload_len(
    member: CompressedMember,
    sealed: Option<EncryptedStoredPayload>,
)
    requires
        member.source_error() is None,
        is_whole(member.packed@, sealed),
    ensures
        payload_len_of(member, sealed) == payload_of(member, sealed).len(),
{
    assert(member.packed.len() <= usize::MAX);
    assert(member.plain_len() == member.packed@.len());
}

proof fn lemma_member_is_readable(
    entry: ArchiveEntry,
    member: CompressedMember,
    sealed: Option<EncryptedStoredPayload>,
    plan: CompressPlan,
)
    requires
        member.source_error() is None,
        is_whole(member.packed@, sealed),
    ensures
        member_block_of(entry, member, sealed, plan) matches Ok(block) ==> is_readable(block),
{
    if let Ok(block) = member_block_of(entry, member, sealed, plan) {
        let data_len = payload_len_of(member, sealed) as u64;
        lemma_member_payload_len(member, sealed);
        lemma_member_image_is_header(
            entry,
            member.input_size,
            header_crc32(member, sealed),
            header_hash(member, sealed),
            crypt_of(sealed),
            member_info(plan, member.store, member.solid_continuation)->Ok_0,
            data_len,
        );
        let (fields, area) = choose|fields: Seq<u8>, area: Seq<u8>|
            block.header == #[trigger] header_image(2, 3, Some(data_len), fields, area);
        lemma_header_is_readable(block, 2, 3, data_len, fields, area);
    }
}

proof fn lemma_member_is_listed(
    entry: ArchiveEntry,
    member: CompressedMember,
    sealed: Option<EncryptedStoredPayload>,
    plan: CompressPlan,
)
    requires
        member.source_error() is None,
        is_whole(member.packed@, sealed),
    ensures
        member_block_of(entry, member, sealed, plan) matches Ok(block) ==> is_listed_as(
            block,
            Listed { kind: 2, name: entry.name@, data: stored_data(member.packed@, sealed) },
        ),
{
    let nothing = Seq::<u8>::empty();
    law_member_headers_read_back(entry, member, sealed, plan, nothing);
    lemma_member_is_readable(entry, member, sealed, plan);
    if let Ok(block) = member_block_of(entry, member, sealed, plan) {
        let (read, _) = read_file_header(block.header + nothing)->0;
        let header = found(block).header;
        assert(reads_as(block, header));
        lemma_listed(block, header, read);
    }
}

proof fn lemma_services_are_listed(
    services: Seq<ServiceEntry>,
    sealed: Seq<Option<EncryptedStoredPayload>>,
)
    requires
        services.len() == sealed.len(),
        forall|k: int|
            0 <= k < services.len() ==> is_whole(services[k].data@, #[trigger] sealed[k]),
    ensures
        service_blocks_of(services, sealed) matches Ok(blocks) ==> are_listed_as(
            blocks,
            service_items(services, sealed),
        ),
    decreases services.len(),
{
    if services.len() > 0 {
        let (fewer, left) = (services.drop_last(), sealed.drop_last());
        assert forall|k: int| 0 <= k < fewer.len() implies is_whole(
            fewer[k].data@,
            #[trigger] left[k],
        ) by {
            assert(left[k] == sealed[k]);
        }
        lemma_services_are_listed(fewer, left);
        let last = services.last();
        assert(is_whole(last.data@, sealed[services.len() - 1]));
        assert(last.data.len() <= usize::MAX);
        lemma_service_is_listed(last.name@, last.data@, sealed.last(), false);
        if let Ok(blocks) = service_blocks_of(services, sealed) {
            let before = service_blocks_of(fewer, left)->Ok_0;
            let items = service_items(services, sealed);
            assert forall|i: int| 0 <= i < items.len() implies is_listed_as(
                blocks[i],
                #[trigger] items[i],
            ) by {
                if i < fewer.len() {
                    assert(items[i] == service_items(fewer, left)[i]);
                    assert(blocks[i] == before[i]);
                }
            }
        }
    }
}

proof fn lemma_entries_are_listed(
    entries: Seq<ArchiveEntry>,
    works: Seq<MemberWork>,
    plan: CompressPlan,
)
    requires
        entries.len() == works.len(),
        forall|i: int| 0 <= i < entries.len() ==> is_settled(entries[i], #[trigger] works[i]),
    ensures
        entry_blocks_of(entries, works, plan) matches Ok(blocks) ==> are_listed_as(
            blocks,
            entry_items(entries, works),
        ),
    decreases entries.len(),
{
    if entries.len() > 0 {
        let (fewer, left) = (entries.drop_last(), works.drop_last());
        assert forall|i: int| 0 <= i < fewer.len() implies is_settled(
            fewer[i],
            #[trigger] left[i],
        ) by {
            assert(left[i] == works[i]);
        }
        lemma_entries_are_listed(fewer, left, plan);
        let (entry, work) = (entries.last(), works.last());
        assert(is_settled(entry, works[works.len() - 1]));
        lemma_member_is_listed(entry, work.member, work.sealed, plan);
        lemma_services_are_listed(entry.services@, work.services@);
        if let Ok(blocks) = entry_blocks_of(entries, works, plan) {
            reveal(member_blocks_of);
            let before = entry_blocks_of(fewer, left, plan)->Ok_0;
            let own = member_block_of(entry, work.member, work.sealed, plan)->Ok_0;
            let services = service_blocks_of(entry.services@, work.services@)->Ok_0;
            assert(are_listed_as(seq![own] + services, member_items(entry, work)));
            lemma_listed_behind(
                before,
                entry_items(fewer, left),
                seq![own] + services,
                member_items(entry, work),
            );
        }
    }
}

proof fn lemma_listed_behind(
    a: Seq<BlockView>,
    a_items: Seq<Listed>,
    b: Seq<BlockView>,
    b_items: Seq<Listed>,
)
    requires
        are_listed_as(a, a_items),
        are_listed_as(b, b_items),
    ensures
        are_listed_as(a + b, a_items + b_items),
{
    let items = a_items + b_items;
    assert forall|i: int| 0 <= i < items.len() implies is_listed_as(
        (a + b)[i],
        #[trigger] items[i],
    ) by {
        if i < a.len() {
            assert(items[i] == a_items[i]);
        } else {
            assert(items[i] == b_items[i - a.len()]);
        }
    }
}

/// What is to be listed of an archive's comment.
pub open spec fn comment_items(
    plan: EnginePlan<'_>,
    comment_seal: Option<EncryptedStoredPayload>,
) -> Seq<Listed> {
    match plan.archive_comment {
        Some(comment) => seq![
            Listed {
                kind: 3,
                name: seq![0x43u8, 0x4du8, 0x54u8],
                data: stored_data(comment_data(comment), comment_seal),
            },
        ],
        None => Seq::empty(),
    }
}

/// What the main header of an archive is to say.
pub open spec fn archive_main(plan: EnginePlan<'_>) -> MainRead {
    MainRead {
        flags: ((if plan.compress.solid {
            4int
        } else {
            0
        }) + (if plan.recovery_percent is Some {
            8int
        } else {
            0
        }) + (if plan.locked {
            16int
        } else {
            0
        })) as nat,
        volume_number: None,
    }
}

proof fn lemma_archive_flags(locked: bool, solid: bool, recovery: bool)
    ensures
        archive_flags(locked, solid, recovery) == (if solid {
            4int
        } else {
            0
        }) + (if recovery {
            8int
        } else {
            0
        }) + (if locked {
            16int
        } else {
            0
        }),
        (archive_flags(locked, solid, recovery) / 2) % 2 == 0,
{
}

proof fn lemma_index_is_listed(blocks: Seq<BlockView>)
    requires
        quick_open_payload(blocks, blocks_len(blocks)).len() <= u64::MAX,
    ensures
        is_listed_as(
            plain_index(true, blocks)->0,
            Listed {
                kind: 3,
                name: seq![0x51u8, 0x4fu8],
                data: quick_open_payload(blocks, blocks_len(blocks)),
            },
        ),
{
    let payload = quick_open_payload(blocks, blocks_len(blocks));
    let index = plain_index(true, blocks)->0;
    let nothing = Seq::<u8>::empty();
    let len = payload.len() as u64;
    let name = seq![0x51u8, 0x4fu8];
    assert(name =~= quick_open_name());
    lemma_short_service_fits(name, len, crc32_of(payload), nothing);
    law_service_headers_read_back(name, len, crc32_of(payload), nothing, nothing);
    let fields = file_fields(name, len, Some(crc32_of(payload)), 0, None, 0, 0, false);
    let area = service_extra(nothing);
    lemma_header_is_readable(index, 3, 3, len, fields, area);
    let header = HeaderRead { kind: 3, flags: 3, data_len: len as nat, fields, extra: area };
    let (read, _) = read_file_header(index.header + nothing)->0;
    lemma_listed(index, header, read);
}

/// Whether blocks that were read are listed as these.
pub open spec fn lists(read: Seq<BlockRead>, items: Seq<Listed>) -> bool {
    &&& read.len() == items.len()
    &&& forall|i: int| 0 <= i < items.len() ==> listed(read[i]) == Some(#[trigger] items[i])
}

proof fn lemma_lists(blocks: Seq<BlockView>, items: Seq<Listed>)
    requires
        are_listed_as(blocks, items),
    ensures
        are_readable(blocks),
        lists(all_found(blocks), items),
{
    assert forall|i: int| 0 <= i < blocks.len() implies is_readable(#[trigger] blocks[i]) by {
        assert(is_listed_as(blocks[i], items[i]));
    }
    assert forall|i: int| 0 <= i < items.len() implies listed(all_found(blocks)[i]) == Some(
        #[trigger] items[i],
    ) by {
        assert(is_listed_as(blocks[i], items[i]));
    }
}

/// The body of an archive is listed in order: its comment, named `CMT`; then every member,
/// each with its services behind it.
pub proof fn law_bodies_are_listed(
    plan: EnginePlan<'_>,
    comment_seal: Option<EncryptedStoredPayload>,
    entries: Seq<ArchiveEntry>,
    works: Seq<MemberWork>,
)
    requires
        entries.len() == works.len(),
        forall|i: int| 0 <= i < entries.len() ==> is_settled(entries[i], #[trigger] works[i]),
        plan.archive_comment matches Some(comment) ==> is_whole(
            comment_data(comment),
            comment_seal,
        ) && comment_data(comment).len() <= u64::MAX,
    ensures
        archive_blocks_of(plan, comment_seal, entries, works) matches Ok(blocks) ==> are_listed_as(
            blocks,
            comment_items(plan, comment_seal) + entry_items(entries, works),
        ),
{
    lemma_entries_are_listed(entries, works, plan.compress);
    if let Ok(blocks) = archive_blocks_of(plan, comment_seal, entries, works) {
        let own = entry_blocks_of(entries, works, plan.compress)->Ok_0;
        match plan.archive_comment {
            None => {
                assert(comment_items(plan, comment_seal) + entry_items(entries, works)
                    =~= entry_items(entries, works));
            },
            Some(comment) => {
                let data = comment_data(comment);
                assert(comment_name() =~= seq![0x43u8, 0x4du8, 0x54u8]);
                let cached = !plan.header_encrypted;
                lemma_service_is_listed(comment_name(), data, comment_seal, cached);
                let block = service_of(comment_name(), data, comment_seal, cached)->Ok_0;
                lemma_listed_behind(
                    seq![block],
                    comment_items(plan, comment_seal),
                    own,
                    entry_items(entries, works),
                );
            },
        }
    }
}

/// Whether blocks that were read are these, and behind them the quick-open index, `QO`,
/// and the recovery record, `RR`, where they are there.
#[verifier::opaque]
pub open spec fn is_listing(
    blocks: Seq<BlockRead>,
    items: Seq<Listed>,
    index: bool,
    recovery: bool,
) -> bool {
    let count = items.len() as int;
    let behind = if index {
        count + 1
    } else {
        count
    };
    &&& blocks.len() == behind + (if recovery {
        1int
    } else {
        0
    })
    &&& lists(blocks.take(count), items)
    &&& index ==> (listed(blocks[count]) matches Some(item) && item.kind == 3 && item.name == seq![
        0x51u8,
        0x4fu8,
    ])
    &&& recovery ==> (listed(blocks[behind]) matches Some(item) && item.kind == 3 && item.name
        == seq![0x52u8, 0x52u8])
}

proof fn lemma_is_listing(
    body: Seq<BlockRead>,
    items: Seq<Listed>,
    index: Seq<BlockRead>,
    recovery: Seq<BlockRead>,
)
    requires
        lists(body, items),
        index.len() <= 1,
        recovery.len() <= 1,
        index.len() == 1 ==> (listed(index[0]) matches Some(item) && item.kind == 3 && item.name
            == seq![0x51u8, 0x4fu8]),
        recovery.len() == 1 ==> (listed(recovery[0]) matches Some(item) && item.kind == 3
            && item.name == seq![0x52u8, 0x52u8]),
    ensures
        is_listing(body + index + recovery, items, index.len() == 1, recovery.len() == 1),
{
    reveal(is_listing);
    let all = body + index + recovery;
    assert(all.take(items.len() as int) =~= body);
    if index.len() == 1 {
        assert(all[body.len() as int] == index[0]);
    }
    if recovery.len() == 1 {
        assert(all[(body.len() + index.len()) as int] == recovery[0]);
    }
}

proof fn lemma_container_lists(
    container: ContainerView<'_>,
    blocks: Seq<BlockView>,
    items: Seq<Listed>,
    out: Seq<u8>,
)
    requires
        container.is_written_as(in_the_clear(), out),
        container.head_crypt.len() == 0,
        container.end_flags == 0,
        container.volume_number is None,
        (container.main_flags / 2) % 2 == 0,
        container.body == body_of(blocks),
        are_listed_as(blocks, items),
        container.quick_open matches Some(index) ==> index == plain_index(true, blocks)->0,
        out.len() <= u64::MAX,
    ensures
        read_archive(out) matches Some(read) && !read.more && read.main == (MainRead {
            flags: container.main_flags as nat,
            volume_number: None,
        }) && is_listing(
            read.blocks,
            items,
            container.quick_open is Some,
            container.recovery_percent is Some,
        ),
{
    lemma_lists(blocks, items);
    lemma_index_of(container, blocks, out);
    law_containers_are_walked(container, blocks, out);
    lemma_recovery_is_listed(container, out);
    let layout = layout_of(container.inputs())->Some_0->Ok_0;
    lemma_is_listing(
        all_found(blocks),
        items,
        index_found(container),
        recovery_found(container, container.prefix(container.main_image(layout))),
    );
}

proof fn lemma_index_of(container: ContainerView<'_>, blocks: Seq<BlockView>, out: Seq<u8>)
    requires
        container.is_written_as(in_the_clear(), out),
        container.quick_open matches Some(index) ==> index == plain_index(true, blocks)->0,
        out.len() <= u64::MAX,
    ensures
        index_found(container).len() == (if container.quick_open is Some {
            1int
        } else {
            0
        }),
        container.quick_open matches Some(index) ==> is_readable(index) && (listed(
            index_found(container)[0],
        ) matches Some(item) && item.kind == 3 && item.name == seq![0x51u8, 0x4fu8]),
{
    lemma_parts_fit(container, out);
    if container.quick_open is Some {
        lemma_index_is_listed(blocks);
    }
}

proof fn lemma_parts_fit(container: ContainerView<'_>, out: Seq<u8>)
    requires
        container.is_written_as(in_the_clear(), out),
    ensures
        container.quick_open_bytes().len() <= out.len(),
{
    let layout = layout_of(container.inputs())->Some_0->Ok_0;
    let emission = choose|emission: Emission| #[trigger]
        container.is_emission(in_the_clear(), layout, emission) && out == container.assembled(
            emission,
        );
    assert(out.len() >= container.prefix(emission.main).len());
}

proof fn lemma_recovery_is_listed(container: ContainerView<'_>, out: Seq<u8>)
    requires
        container.is_written_as(in_the_clear(), out),
        out.len() <= u64::MAX,
    ensures
        layout_of(container.inputs()) matches Some(Ok(layout)) && ({
            let prefix = container.prefix(container.main_image(layout));
            let recovery = recovery_found(container, prefix);
            &&& recovery.len() == (if container.recovery_percent is Some {
                1int
            } else {
                0
            })
            &&& container.recovery_percent is Some ==> (listed(recovery[0]) matches Some(item)
                && item.kind == 3 && item.name == seq![0x52u8, 0x52u8])
        }),
{
    let layout = layout_of(container.inputs())->Some_0->Ok_0;
    let emission = choose|emission: Emission| #[trigger]
        container.is_emission(in_the_clear(), layout, emission) && out == container.assembled(
            emission,
        );
    assert(emission.main == container.main_image(layout));
    let prefix = container.prefix(emission.main);
    assert(out.len() >= prefix.len());
    if let Some(percent) = container.recovery_percent {
        let nothing = Seq::<u8>::empty();
        let block = recovery_block_of(
            prefix,
            percent,
            container.memory_limit,
        )->Ok_0;
        law_recovery_blocks_read_back(prefix, percent, container.memory_limit, nothing);
        let header = found(block).header;
        assert(reads_as(block, header));
        let (read, _) = read_file_header(block.header + nothing)->0;
        lemma_listed(block, header, read);
    }
}

/// A reader lists a written archive whose headers are in the clear, whole and in order:
/// the comment, every member with its services behind it, the quick-open index where it
/// was asked for, the recovery record where one was asked for; nothing else, and no
/// volume follows. The main header says whether the archive is solid, locked and
/// protected.
pub proof fn law_archives_are_listed<S: Fn(Vec<u8>) -> Result<Vec<u8>>>(
    seal: S,
    entries: Seq<ArchiveEntry>,
    works: Seq<MemberWork>,
    plan: EnginePlan<'_>,
    comment_seal: Option<EncryptedStoredPayload>,
    resources: ResourcesView,
    out: Seq<u8>,
)
    requires
        is_clear(seal),
        entries.len() == works.len(),
        archive_outcome(
            seal,
            entries,
            works,
            plan,
            comment_seal,
            None,
            resources,
            Ok::<Seq<u8>, Error>(out),
        ),
        forall|i: int| 0 <= i < entries.len() ==> is_settled(entries[i], #[trigger] works[i]),
        plan.archive_comment matches Some(comment) ==> is_whole(
            comment_data(comment),
            comment_seal,
        ) && comment_data(comment).len() <= u64::MAX,
        out.len() <= u64::MAX,
    ensures
        read_archive(out) matches Some(read) && !read.more && read.main == archive_main(plan)
            && is_listing(
            read.blocks,
            comment_items(plan, comment_seal) + entry_items(entries, works),
            plan.quick_open,
            plan.recovery_percent is Some,
        ),
{
    let plain = archive_blocks_of(plan, comment_seal, entries, works)->Ok_0;
    let items = comment_items(plan, comment_seal) + entry_items(entries, works);
    law_bodies_are_listed(plan, comment_seal, entries, works);
    let headers = admitted_headers(header_lens(plain, plan.header_encrypted), resources)->Ok_0;
    lemma_archive_lists(seal, plan, recovery_limit(resources), headers, plain, items, out);
}

proof fn lemma_archive_lists<S: Fn(Vec<u8>) -> Result<Vec<u8>>>(
    seal: S,
    plan: EnginePlan<'_>,
    memory_limit: u64,
    headers: ResourcesView,
    plain: Seq<BlockView>,
    items: Seq<Listed>,
    out: Seq<u8>,
)
    requires
        is_clear(seal),
        is_archive(emission_by(seal), plan, None, memory_limit, headers, plain, out),
        are_listed_as(plain, items),
        out.len() <= u64::MAX,
    ensures
        read_archive(out) matches Some(read) && !read.more && read.main == archive_main(plan)
            && is_listing(
            read.blocks,
            items,
            plan.quick_open,
            plan.recovery_percent is Some,
        ),
{
    let emits = emission_by(seal);
    let (blocks, index) = choose|blocks: Seq<BlockView>, index: Option<BlockView>| #[trigger]
        is_framed(emits, plan, plain, blocks, index) && ({
            let container = archive_container(plan, None, memory_limit, blocks, index);
            archive_error(container, blocks, headers) is None && container.is_written_as(
                emits,
                out,
            )
        });
    lemma_clear_frame(seal, plan, plain, blocks, index);
    let container = archive_container(plan, None, memory_limit, plain, index);
    lemma_clear_container(container, seal, out);
    lemma_archive_flags(plan.locked, plan.compress.solid, plan.recovery_percent is Some);
    lemma_container_lists(container, plain, items, out);
}

/// Whether the quick-open index repeats the headers of the members among these blocks and
/// of nothing else.
spec fn only_members_are_indexed(blocks: Seq<BlockView>, items: Seq<Listed>) -> bool {
    &&& blocks.len() == items.len()
    &&& forall|i: int|
        0 <= i < items.len() ==> (blocks[i].quick_open_cached <==> (#[trigger] items[i]).kind == 2)
}

proof fn lemma_services_are_not_indexed(
    services: Seq<ServiceEntry>,
    sealed: Seq<Option<EncryptedStoredPayload>>,
)
    requires
        services.len() == sealed.len(),
    ensures
        service_blocks_of(services, sealed) matches Ok(blocks) ==> only_members_are_indexed(
            blocks,
            service_items(services, sealed),
        ),
    decreases services.len(),
{
    if services.len() > 0 {
        lemma_services_are_not_indexed(services.drop_last(), sealed.drop_last());
        reveal(service_of);
        if let Ok(blocks) = service_blocks_of(services, sealed) {
            let before = service_blocks_of(services.drop_last(), sealed.drop_last())->Ok_0;
            let fewer = service_items(services.drop_last(), sealed.drop_last());
            let items = service_items(services, sealed);
            assert forall|i: int| 0 <= i < items.len() implies (blocks[i].quick_open_cached <==> (
            #[trigger] items[i]).kind == 2) by {
                if i < before.len() {
                    assert(blocks[i] == before[i]);
                    assert(fewer[i].kind == 3);
                }
            }
        }
    }
}

proof fn lemma_members_are_indexed(
    entries: Seq<ArchiveEntry>,
    works: Seq<MemberWork>,
    plan: CompressPlan,
)
    requires
        entries.len() == works.len(),
        forall|i: int|
            0 <= i < entries.len() ==> (#[trigger] works[i]).services@.len()
                == entries[i].services@.len(),
    ensures
        entry_blocks_of(entries, works, plan) matches Ok(blocks) ==> only_members_are_indexed(
            blocks,
            entry_items(entries, works),
        ),
    decreases entries.len(),
{
    if entries.len() > 0 {
        let (fewer, left) = (entries.drop_last(), works.drop_last());
        assert forall|i: int| 0 <= i < fewer.len() implies (#[trigger] left[i]).services@.len()
            == fewer[i].services@.len() by {
            assert(left[i] == works[i]);
        }
        lemma_members_are_indexed(fewer, left, plan);
        let (entry, work) = (entries.last(), works.last());
        assert(works[works.len() - 1].services@.len() == entry.services@.len());
        lemma_services_are_not_indexed(entry.services@, work.services@);
        if let Ok(blocks) = entry_blocks_of(entries, works, plan) {
            reveal(member_blocks_of);
            let before = entry_blocks_of(fewer, left, plan)->Ok_0;
            let own = member_blocks_of(entry, work, plan)->Ok_0;
            let services = service_blocks_of(entry.services@, work.services@)->Ok_0;
            let items = entry_items(entries, works);
            let earlier = entry_items(fewer, left);
            let later = service_items(entry.services@, work.services@);
            assert(only_members_are_indexed(before, earlier));
            assert forall|i: int| 0 <= i < items.len() implies (blocks[i].quick_open_cached <==> (
            #[trigger] items[i]).kind == 2) by {
                if i < before.len() {
                    assert(items[i] == earlier[i]);
                } else if i > before.len() {
                    let k = i - before.len() - 1;
                    assert(items[i] == later[k]);
                    assert(blocks[i] == services[k]);
                } else {
                    assert(blocks[i] == own[0]);
                }
            }
        }
    }
}

/// The quick-open index repeats the header of every member, and that of the archive's
/// comment where comment and headers are in the clear; never that of a member's service.
pub proof fn law_members_and_plain_comment_are_indexed(
    plan: EnginePlan<'_>,
    comment_seal: Option<EncryptedStoredPayload>,
    entries: Seq<ArchiveEntry>,
    works: Seq<MemberWork>,
    at: int,
)
    requires
        is_complete(entries, works),
        archive_blocks_of(plan, comment_seal, entries, works) is Ok,
        0 <= at < archive_blocks_of(plan, comment_seal, entries, works)->Ok_0.len(),
    ensures
        ({
            let blocks = archive_blocks_of(plan, comment_seal, entries, works)->Ok_0;
            let items = comment_items(plan, comment_seal) + entry_items(entries, works);
            &&& blocks.len() == items.len()
            &&& blocks[at].quick_open_cached <==> {
                ||| items[at].kind == 2
                ||| at == 0 && plan.archive_comment is Some && comment_seal is None
                    && !plan.header_encrypted
            }
        }),
{
    lemma_members_are_indexed(entries, works, plan.compress);
    let own = entry_blocks_of(entries, works, plan.compress)->Ok_0;
    let items = entry_items(entries, works);
    assert(only_members_are_indexed(own, items));
    if plan.archive_comment is Some {
        reveal(service_of);
        if at > 0 {
            assert((comment_items(plan, comment_seal) + items)[at] == items[at - 1]);
        }
    } else {
        assert(comment_items(plan, comment_seal) + items =~= items);
    }
}

/// Work that was done on a member as it should has the lengths that headers give: its
/// ciphertexts are whole.
pub proof fn law_sealed_work_is_whole<
    H: Fn(&[u8]) -> [u8; 32],
    D: Fn(&[u8], [u8; 16], u32, [u8; 32]) -> Result<PayloadKeys>,
    C: Fn(&[u8], [u8; 16], [u8; 16], Vec<u8>) -> Result<Vec<u8>>,
>(
    sealer: Sealer<H, D, C>,
    entry: ArchiveEntry,
    member: CompressedMember,
    draws: MemberDraws,
    work: MemberWork,
)
    requires
        is_work_of(sealer, entry, member, draws, work),
    ensures
        is_whole(member.packed@, work.sealed),
{
}

} // verus!
