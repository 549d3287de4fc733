//! How a reader goes through a volume set.

use vstd::prelude::*;

#[allow(unused_imports)]
use crate::crc32::crc32_of;
#[allow(unused_imports)]
use crate::error::{Error, Result};
#[allow(unused_imports)]
use crate::rar50::archive::{are_emitted_blocks, body_of, head_crypt_of, lemma_clear_blocks};
#[allow(unused_imports)]
use crate::rar50::blocks::BlockView;
#[allow(unused_imports)]
use crate::rar50::container::{
    emission_by, in_the_clear, is_clear, lemma_clear_container, ContainerView, Emission,
};
#[allow(unused_imports)]
use crate::rar50::engine::{EnginePlan, HeaderKeys, MemberWork};
#[allow(unused_imports)]
use crate::rar50::entry::ArchiveEntry;
#[allow(unused_imports)]
use crate::rar50::file_header::file_fields;
#[allow(unused_imports)]
use crate::rar50::format::signature;
#[allow(unused_imports)]
use crate::rar50::layout::{layout_of, LayoutView};
#[allow(unused_imports)]
use crate::rar50::members::{base_mtime, member_extra, payload_of};
#[allow(unused_imports)]
use crate::rar50::plan::CompressPlan;
#[allow(unused_imports)]
use crate::rar50::read_back::law_fragment_headers_read_back;
#[allow(unused_imports)]
use crate::rar50::reader::{read_end, read_file_header, read_header, read_main, MainRead};
#[allow(unused_imports)]
use crate::rar50::retention::recovery_limit;
#[allow(unused_imports)]
use crate::rar50::volume_retention::volume_flags;
#[allow(unused_imports)]
use crate::rar50::volume_set::{
    cut_all, is_volume, prepared_members_of, set_of, set_outcome, volume_container,
};
#[allow(unused_imports)]
use crate::rar50::volumes::{
    cut_from, fragment_block_of, fragment_flags, fragment_image_of, volume_member_of,
    FragmentChecksums, VolumeMemberView, VolumeSet,
};
#[allow(unused_imports)]
use crate::rar50::walk::{
    all_found, are_readable, is_readable, law_containers_are_walked, law_end_headers_read_back,
    law_main_headers_read_back, lemma_header_is_readable, read_archive,
};
#[allow(unused_imports)]
use crate::streaming::resources::ResourcesView;

verus! {

/// Whether a header is an end header that says whether another volume follows.
pub open spec fn is_end_header(image: Seq<u8>, more: bool) -> bool {
    read_header(image) matches Some((header, rest)) && rest.len() == 0 && header.kind == 5
        && read_end(header.fields) == Some(more)
}

/// Whether a header is a main header with these fields.
pub open spec fn is_main_header(image: Seq<u8>, main: MainRead) -> bool {
    read_header(image) matches Some((header, rest)) && rest.len() == 0 && header.kind == 1
        && read_main(header.fields) == Some(main)
}

/// Whether the last thing in a volume is an end header, emitted, that says whether
/// another volume follows.
#[verifier::opaque]
pub open spec fn closes_with(
    emits: spec_fn(Seq<u8>, Seq<u8>) -> bool,
    out: Seq<u8>,
    more: bool,
) -> bool {
    exists|image: Seq<u8>, end: Seq<u8>| #[trigger]
        emits(image, end) && is_end_header(image, more) && end.len() <= out.len() && out.skip(
            out.len() - end.len(),
        ) == end
}

/// Whether a main header with these fields, emitted, stands behind so many bytes.
#[verifier::opaque]
pub open spec fn opens_with(
    emits: spec_fn(Seq<u8>, Seq<u8>) -> bool,
    out: Seq<u8>,
    behind: nat,
    main: MainRead,
) -> bool {
    exists|image: Seq<u8>, bytes: Seq<u8>| #[trigger]
        emits(image, bytes) && is_main_header(image, main) && behind + bytes.len() <= out.len()
            && out.subrange(behind as int, (behind + bytes.len()) as int) == bytes
}

/// What the main header of a volume is to say.
pub open spec fn volume_main(solid: bool, recovery: bool, number: nat) -> MainRead {
    MainRead {
        flags: (1 + 2 + (if solid {
            4int
        } else {
            0
        }) + (if recovery {
            8int
        } else {
            0
        })) as nat,
        volume_number: Some(number),
    }
}

proof fn lemma_container_parts(
    container: ContainerView<'_>,
    layout: LayoutView,
    emission: Emission,
    out: Seq<u8>,
)
    requires
        out == container.assembled(emission),
    ensures
        emission.end.len() <= out.len(),
        out.skip(out.len() - emission.end.len()) == emission.end,
        8 + container.head_crypt.len() + emission.main.len() <= out.len(),
        out.subrange(
            8 + container.head_crypt.len() as int,
            8 + container.head_crypt.len() + emission.main.len() as int,
        ) == emission.main,
{
    let head = signature() + container.head_crypt;
    assert(head.len() == 8 + container.head_crypt.len());
    let behind = container.body + container.quick_open_bytes() + container.recovery_bytes(emission)
        + emission.end;
    assert(out =~= head + emission.main + behind);
    assert((head + emission.main + behind).subrange(
        head.len() as int,
        head.len() + emission.main.len() as int,
    ) =~= emission.main);
    assert(out.skip(out.len() - emission.end.len()) =~= emission.end);
}

proof fn lemma_container_closes(
    container: ContainerView<'_>,
    emits: spec_fn(Seq<u8>, Seq<u8>) -> bool,
    layout: LayoutView,
    emission: Emission,
    out: Seq<u8>,
)
    requires
        container.end_flags < 2,
        container.is_emission(emits, layout, emission),
        out == container.assembled(emission),
    ensures
        closes_with(emits, out, container.end_flags == 1),
{
    reveal(closes_with);
    lemma_container_parts(container, layout, emission, out);
    law_end_headers_read_back(container);
    assert(emits(container.end_image(), emission.end));
}

proof fn lemma_container_opens(
    container: ContainerView<'_>,
    emits: spec_fn(Seq<u8>, Seq<u8>) -> bool,
    layout: LayoutView,
    emission: Emission,
    out: Seq<u8>,
)
    requires
        container.volume_number is Some <==> (container.main_flags / 2) % 2 == 1,
        container.is_emission(emits, layout, emission),
        out == container.assembled(emission),
    ensures
        opens_with(
            emits,
            out,
            8 + container.head_crypt.len(),
            MainRead {
                flags: container.main_flags as nat,
                volume_number: match container.volume_number {
                    Some(number) => Some(number as nat),
                    None => None,
                },
            },
        ),
{
    reveal(opens_with);
    lemma_container_parts(container, layout, emission, out);
    let nothing = Seq::<u8>::empty();
    law_main_headers_read_back(container, layout, nothing);
    let image = container.main_image(layout);
    assert(image + nothing =~= image);
    assert(emits(image, emission.main));
}

/// Whatever its headers are emitted as, a volume starts, behind the signature and the
/// encryption header, with a main header that gives its number, and closes with an end
/// header that says whether another volume follows.
pub proof fn law_volumes_open_and_close(
    emits: spec_fn(Seq<u8>, Seq<u8>) -> bool,
    plan: EnginePlan<'_>,
    keys: Option<HeaderKeys>,
    memory_limit: u64,
    number: u64,
    plain: Seq<BlockView>,
    more: bool,
    out: Seq<u8>,
)
    requires
        is_volume(emits, plan, keys, memory_limit, number, plain, more, out),
    ensures
        closes_with(emits, out, more),
        opens_with(
            emits,
            out,
            8 + head_crypt_of(keys).len(),
            volume_main(plan.compress.solid, plan.recovery_percent is Some, number as nat),
        ),
{
    let blocks = choose|blocks: Seq<BlockView>| #[trigger]
        are_emitted_blocks(emits, plain, blocks) && ({
            let container = volume_container(plan, keys, memory_limit, number, blocks, more);
            container.error() is None && container.is_written_as(emits, out)
        });
    let container = volume_container(plan, keys, memory_limit, number, blocks, more);
    lemma_volume_flags(plan.compress.solid, plan.recovery_percent is Some);
    lemma_containers_open_and_close(container, emits, out);
}

proof fn lemma_volume_flags(solid: bool, recovery: bool)
    ensures
        volume_flags(solid, recovery) == volume_main(solid, recovery, 0).flags,
        (volume_flags(solid, recovery) / 2) % 2 == 1,
{
}

/// The same of any container.
proof fn lemma_containers_open_and_close(
    container: ContainerView<'_>,
    emits: spec_fn(Seq<u8>, Seq<u8>) -> bool,
    out: Seq<u8>,
)
    requires
        container.end_flags < 2,
        container.volume_number is Some <==> (container.main_flags / 2) % 2 == 1,
        container.is_written_as(emits, out),
    ensures
        closes_with(emits, out, container.end_flags == 1),
        opens_with(
            emits,
            out,
            8 + container.head_crypt.len(),
            MainRead {
                flags: container.main_flags as nat,
                volume_number: match container.volume_number {
                    Some(number) => Some(number as nat),
                    None => None,
                },
            },
        ),
{
    let layout = layout_of(container.inputs())->Some_0->Ok_0;
    let emission = choose|emission: Emission| #[trigger]
        container.is_emission(emits, layout, emission) && out == container.assembled(emission);
    lemma_container_closes(container, emits, layout, emission, out);
    lemma_container_opens(container, emits, layout, emission, out);
}

/// In a written set of n volumes the end header of volume i says that another one
/// follows if and only if i + 1 < n, and the main header of volume i gives i.
pub proof fn law_a_set_is_numbered_and_chained<S: Fn(Vec<u8>) -> Result<Vec<u8>>>(
    seal: S,
    entries: Seq<ArchiveEntry>,
    works: Seq<MemberWork>,
    hashes: Seq<Vec<[u8; 32]>>,
    plan: EnginePlan<'_>,
    max_payload_per_volume: u64,
    keys: Option<HeaderKeys>,
    resources: ResourcesView,
    outputs: Seq<Seq<u8>>,
)
    requires
        set_outcome(
            seal,
            entries,
            works,
            hashes,
            plan,
            max_payload_per_volume,
            keys,
            resources,
            Ok::<Seq<Seq<u8>>, Error>(outputs),
        ),
        outputs.len() <= u64::MAX,
    ensures
        forall|i: int|
            0 <= i < outputs.len() ==> closes_with(
                emission_by(seal),
                #[trigger] outputs[i],
                i + 1 < outputs.len(),
            ) && opens_with(
                emission_by(seal),
                outputs[i],
                8 + head_crypt_of(keys).len(),
                volume_main(plan.compress.solid, plan.recovery_percent is Some, i as nat),
            ),
{
    let set = set_of(
        plan,
        entries,
        works,
        hashes,
        max_payload_per_volume,
        resources.is_stopped(),
    )->Ok_0;
    assert forall|i: int| 0 <= i < outputs.len() implies closes_with(
        emission_by(seal),
        #[trigger] outputs[i],
        i + 1 < outputs.len(),
    ) && opens_with(
        emission_by(seal),
        outputs[i],
        8 + head_crypt_of(keys).len(),
        volume_main(plan.compress.solid, plan.recovery_percent is Some, i as nat),
    ) by {
        law_volumes_open_and_close(
            emission_by(seal),
            plan,
            keys,
            recovery_limit(resources),
            i as u64,
            set.volumes[i],
            i + 1 < outputs.len(),
            outputs[i],
        );
    }
}

/// Every fragment of a member gives back where it stands in the member: whether it goes
/// on from the volume before, whether it goes on in the next, how long it is. The last
/// one carries the checksum and the hash of the member, the others those of the bytes
/// that they store.
pub proof fn law_fragments_read_back(
    member: VolumeMemberView,
    start: nat,
    len: nat,
    hash: [u8; 32],
    rest: Seq<u8>,
)
    requires
        start + len <= member.payload.len() <= u64::MAX,
    ensures
        fragment_block_of(member, start, len, hash) matches Ok(block) ==> block.payload
            == member.payload.subrange(start as int, (start + len) as int) && (read_file_header(
            block.header + rest,
        ) matches Some((read, after)) && after == rest && read.kind == 2 && read.data_len == len
            && read.split_before == (start > 0) && read.split_after == (start + len
            < member.payload.len()) && (if start + len < member.payload.len() {
            read.file.crc32 == Some(crc32_of(block.payload) as nat) && read.extra.hash == Some(
                hash@,
            )
        } else {
            read.file.crc32 == Some(member.crc32 as nat) && read.extra.hash == Some(member.hash@)
        })),
{
    let piece = member.payload.subrange(start as int, (start + len) as int);
    let fragment = if start + len < member.payload.len() {
        Some(FragmentChecksums { crc32: crc32_of(piece), hash })
    } else {
        None
    };
    law_fragment_headers_read_back(member, len as u64, start > 0, fragment, rest);
}

proof fn lemma_fragment_is_readable(
    member: VolumeMemberView,
    start: nat,
    len: nat,
    hash: [u8; 32],
)
    requires
        start + len <= member.payload.len() <= u64::MAX,
    ensures
        fragment_block_of(member, start, len, hash) matches Ok(block) ==> is_readable(block),
{
    if let Ok(block) = fragment_block_of(member, start, len, hash) {
        reveal(fragment_image_of);
        let last = start + len == member.payload.len();
        let entry = member.entry;
        let fields = file_fields(
            entry.name@,
            member.unpacked_size,
            Some(
                if last {
                    member.crc32
                } else {
                    crc32_of(block.payload)
                },
            ),
            entry.attributes,
            base_mtime(entry),
            member.compression_info,
            entry.host_os,
            entry.is_directory,
        );
        let area = member_extra(
            member.encryption,
            Some(
                if last {
                    member.hash
                } else {
                    hash
                },
            ),
            entry,
            false,
        );
        let flags = fragment_flags(start > 0, !last);
        lemma_header_is_readable(block, 2, flags, len as u64, fields, area);
    }
}

/// Whether a block is a fragment of one of these members.
pub open spec fn is_fragment(members: Seq<VolumeMemberView>, block: BlockView) -> bool {
    exists|m: int, start: nat, len: nat, hash: [u8; 32]|
        0 <= m < members.len() && start + len <= members[m].payload.len() && (
        #[trigger] fragment_block_of(members[m], start, len, hash)) == Ok::<BlockView, Error>(
            block,
        )
}

pub open spec fn are_fragments(
    members: Seq<VolumeMemberView>,
    volumes: Seq<Seq<BlockView>>,
) -> bool {
    forall|v: int, b: int|
        0 <= v < volumes.len() && 0 <= b < volumes[v].len() ==> is_fragment(
            members,
            #[trigger] volumes[v][b],
        )
}

proof fn lemma_cut_makes_fragments(
    members: Seq<VolumeMemberView>,
    m: int,
    set: VolumeSet,
    max: nat,
    start: nat,
    hashes: Seq<[u8; 32]>,
)
    requires
        max > 0,
        set.is_valid(max),
        0 <= m < members.len(),
        start <= members[m].payload.len(),
        are_fragments(members, set.volumes),
    ensures
        cut_from(set, max, members[m], start, hashes) matches Ok(after) ==> after.is_valid(max)
            && are_fragments(members, after.volumes),
    decreases members[m].payload.len() - start,
{
    let member = members[m];
    let room = set.room(max);
    let rest = member.payload.len() - start;
    let len = (if rest <= room {
        rest
    } else {
        room as int
    }) as nat;
    if let Ok(block) = fragment_block_of(member, start, len, hashes[0]) {
        assert(is_fragment(members, block));
        let open = set.opened(max);
        let next = open.with_block(block);
        let last = open.volumes.len() - 1;
        assert(block.payload.len() == len);
        assert(are_fragments(members, open.volumes));
        assert forall|v: int, b: int|
            0 <= v < next.volumes.len() && 0 <= b < next.volumes[v].len() implies is_fragment(
            members,
            #[trigger] next.volumes[v][b],
        ) by {
            if v == last {
                assert(next.volumes[v] == open.volumes[v].push(block));
                if b < open.volumes[v].len() {
                    assert(next.volumes[v][b] == open.volumes[v][b]);
                }
            } else {
                assert(next.volumes[v] == open.volumes[v]);
            }
        }
        if rest > room {
            lemma_cut_makes_fragments(members, m, next, max, start + len, hashes.skip(1));
        }
    }
}

proof fn lemma_fragments_of_more(
    members: Seq<VolumeMemberView>,
    member: VolumeMemberView,
    volumes: Seq<Seq<BlockView>>,
)
    requires
        are_fragments(members, volumes),
    ensures
        are_fragments(members.push(member), volumes),
{
    let more = members.push(member);
    assert forall|v: int, b: int|
        0 <= v < volumes.len() && 0 <= b < volumes[v].len() implies is_fragment(
        more,
        #[trigger] volumes[v][b],
    ) by {
        assert(is_fragment(members, volumes[v][b]));
        let (m, start, len, hash) = choose|m: int, start: nat, len: nat, hash: [u8; 32]|
            0 <= m < members.len() && start + len <= members[m].payload.len() && (
            #[trigger] fragment_block_of(members[m], start, len, hash)) == Ok::<BlockView, Error>(
                volumes[v][b],
            );
        assert(more[m] == members[m]);
        assert(fragment_block_of(more[m], start, len, hash) == Ok::<BlockView, Error>(
            volumes[v][b],
        ));
    }
}

/// A set holds nothing but fragments of its members.
pub proof fn law_sets_hold_fragments_only(
    members: Seq<VolumeMemberView>,
    max: nat,
    hashes: Seq<Vec<[u8; 32]>>,
)
    requires
        max > 0,
    ensures
        cut_all(members, max, hashes) matches Ok(set) ==> set.is_valid(max) && are_fragments(
            members,
            set.volumes,
        ),
    decreases members.len(),
{
    if members.len() > 0 {
        let fewer = members.drop_last();
        law_sets_hold_fragments_only(fewer, max, hashes.drop_last());
        if let Ok(set) = cut_all(fewer, max, hashes.drop_last()) {
            lemma_fragments_of_more(fewer, members.last(), set.volumes);
            assert(fewer.push(members.last()) =~= members);
            lemma_cut_makes_fragments(members, members.len() - 1, set, max, 0, hashes.last()@);
        }
    }
}

proof fn lemma_fragments_are_readable(
    members: Seq<VolumeMemberView>,
    volumes: Seq<Seq<BlockView>>,
    v: int,
)
    requires
        are_fragments(members, volumes),
        forall|m: int| 0 <= m < members.len() ==> (#[trigger] members[m]).payload.len() <= u64::MAX,
        0 <= v < volumes.len(),
    ensures
        are_readable(volumes[v]),
{
    assert forall|b: int| 0 <= b < volumes[v].len() implies is_readable(
        #[trigger] volumes[v][b],
    ) by {
        assert(is_fragment(members, volumes[v][b]));
        let (m, start, len, hash) = choose|m: int, start: nat, len: nat, hash: [u8; 32]|
            0 <= m < members.len() && start + len <= members[m].payload.len() && (
            #[trigger] fragment_block_of(members[m], start, len, hash)) == Ok::<BlockView, Error>(
                volumes[v][b],
            );
        lemma_fragment_is_readable(members[m], start, len, hash);
    }
}

/// The members of a set are those of the request, one for one.
pub proof fn law_members_are_prepared_in_order(
    entries: Seq<ArchiveEntry>,
    works: Seq<MemberWork>,
    plan: CompressPlan,
)
    requires
        entries.len() == works.len(),
    ensures
        prepared_members_of(entries, works, plan) matches Ok(members) ==> members.len()
            == entries.len() && forall|m: int|
            0 <= m < members.len() ==> (#[trigger] members[m]).payload.len() <= u64::MAX
                && volume_member_of(entries[m], works[m].member, works[m].sealed, plan) == Ok::<
                VolumeMemberView,
                Error,
            >(members[m]),
    decreases entries.len(),
{
    if entries.len() > 0 {
        law_members_are_prepared_in_order(entries.drop_last(), works.drop_last(), plan);
        if let Ok(members) = prepared_members_of(entries, works, plan) {
            let before = prepared_members_of(entries.drop_last(), works.drop_last(), plan)->Ok_0;
            let work = works.last();
            assert(members == before.push(members.last()));
            assert(payload_of(work.member, work.sealed).len() <= usize::MAX) by {
                if let Some(sealed) = work.sealed {
                    assert(sealed.data.len() <= usize::MAX);
                } else {
                    assert(work.member.packed.len() <= usize::MAX);
                }
            }
            assert forall|m: int| 0 <= m < members.len() implies (
            #[trigger] members[m]).payload.len() <= u64::MAX && volume_member_of(
                entries[m],
                works[m].member,
                works[m].sealed,
                plan,
            ) == Ok::<VolumeMemberView, Error>(members[m]) by {
                if m < before.len() {
                    assert(members[m] == before[m]);
                    assert(entries.drop_last()[m] == entries[m]);
                    assert(works.drop_last()[m] == works[m]);
                }
            }
        }
    }
}

/// A reader that starts with a volume of a set and goes on for as long as it is told
/// that another one follows: how many volumes it has seen when it stops, or nothing where
/// one is missing, cannot be read or is not the one that is due.
pub open spec fn follow(outputs: Seq<Seq<u8>>, at: nat) -> Option<nat>
    decreases outputs.len() - at,
{
    if at >= outputs.len() {
        None
    } else {
        match read_archive(outputs[at as int]) {
            None => None,
            Some(read) => if read.main.volume_number != Some(at) {
                None
            } else if read.more {
                follow(outputs, at + 1)
            } else {
                Some(at + 1)
            },
        }
    }
}

/// Each volume of a set whose headers are in the clear is read whole: the number it has
/// in the set, its fragments one behind another, its recovery block, and whether another
/// volume follows.
pub proof fn law_volumes_are_walked<S: Fn(Vec<u8>) -> Result<Vec<u8>>>(
    seal: S,
    plan: EnginePlan<'_>,
    memory_limit: u64,
    number: u64,
    plain: Seq<BlockView>,
    more: bool,
    out: Seq<u8>,
)
    requires
        is_clear(seal),
        is_volume(emission_by(seal), plan, None, memory_limit, number, plain, more, out),
        are_readable(plain),
        out.len() <= u64::MAX,
    ensures
        read_archive(out) matches Some(read) && read.main == volume_main(
            plan.compress.solid,
            plan.recovery_percent is Some,
            number as nat,
        ) && read.more == more && read.blocks.take(plain.len() as int) == all_found(plain)
            && read.blocks.len() == plain.len() + (if plan.recovery_percent is Some {
            1int
        } else {
            0
        }),
{
    let emits = emission_by(seal);
    let blocks = choose|blocks: Seq<BlockView>| #[trigger]
        are_emitted_blocks(emits, plain, blocks) && ({
            let container = volume_container(plan, None, memory_limit, number, blocks, more);
            container.error() is None && container.is_written_as(emits, out)
        });
    lemma_clear_blocks(seal, plain, blocks);
    let container = volume_container(plan, None, memory_limit, number, plain, more);
    lemma_clear_container(container, seal, out);
    lemma_volume_flags(plan.compress.solid, plan.recovery_percent is Some);
    lemma_container_walk(container, plain, out);
}

proof fn lemma_container_walk(container: ContainerView<'_>, blocks: Seq<BlockView>, out: Seq<u8>)
    requires
        container.is_written_as(in_the_clear(), out),
        container.head_crypt.len() == 0,
        container.end_flags < 2,
        container.volume_number is Some,
        (container.main_flags / 2) % 2 == 1,
        container.body == body_of(blocks),
        are_readable(blocks),
        container.quick_open is None,
        out.len() <= u64::MAX,
    ensures
        read_archive(out) matches Some(read) && read.main == (MainRead {
            flags: container.main_flags as nat,
            volume_number: Some(container.volume_number->0 as nat),
        }) && read.more == (container.end_flags == 1) && read.blocks.take(blocks.len() as int)
            == all_found(blocks) && read.blocks.len() == blocks.len() + (
        if container.recovery_percent is Some {
            1int
        } else {
            0
        }),
{
    law_containers_are_walked(container, blocks, out);
    let read = read_archive(out)->0;
    assert(read.blocks.take(blocks.len() as int) =~= all_found(blocks));
    let layout = layout_of(container.inputs())->Some_0->Ok_0;
    let emission = choose|emission: Emission| #[trigger]
        container.is_emission(in_the_clear(), layout, emission) && out == container.assembled(
            emission,
        );
    assert(emission.main == container.main_image(layout));
}

/// A reader that follows a written set from its first volume sees all of its volumes, in
/// order, and stops behind the last.
pub proof fn law_a_reader_sees_every_volume<S: Fn(Vec<u8>) -> Result<Vec<u8>>>(
    seal: S,
    entries: Seq<ArchiveEntry>,
    works: Seq<MemberWork>,
    hashes: Seq<Vec<[u8; 32]>>,
    plan: EnginePlan<'_>,
    max_payload_per_volume: u64,
    resources: ResourcesView,
    outputs: Seq<Seq<u8>>,
)
    requires
        is_clear(seal),
        entries.len() == works.len(),
        set_outcome(
            seal,
            entries,
            works,
            hashes,
            plan,
            max_payload_per_volume,
            None,
            resources,
            Ok::<Seq<Seq<u8>>, Error>(outputs),
        ),
        outputs.len() <= u64::MAX,
        forall|i: int| 0 <= i < outputs.len() ==> (#[trigger] outputs[i]).len() <= u64::MAX,
    ensures
        outputs.len() > 0 ==> follow(outputs, 0) == Some(outputs.len()),
{
    let set = set_of(
        plan,
        entries,
        works,
        hashes,
        max_payload_per_volume,
        resources.is_stopped(),
    )->Ok_0;
    let members = prepared_members_of(entries, works, plan.compress)->Ok_0;
    law_members_are_prepared_in_order(entries, works, plan.compress);
    law_sets_hold_fragments_only(members, max_payload_per_volume as nat, hashes);
    assert forall|i: int| 0 <= i < outputs.len() implies is_in_turn(
        #[trigger] outputs[i],
        i,
        outputs.len() as int,
    ) by {
        lemma_fragments_are_readable(members, set.volumes, i);
        law_volumes_are_walked(
            seal,
            plan,
            recovery_limit(resources),
            i as u64,
            set.volumes[i],
            i + 1 < outputs.len(),
            outputs[i],
        );
    }
    if outputs.len() > 0 {
        lemma_follow(outputs, 0);
    }
}

/// Whether a volume reads as the one that is due.
spec fn is_in_turn(out: Seq<u8>, at: int, count: int) -> bool {
    read_archive(out) matches Some(read) && read.main.volume_number == Some(at as nat)
        && read.more == (at + 1 < count)
}

proof fn lemma_follow(outputs: Seq<Seq<u8>>, at: nat)
    requires
        at < outputs.len(),
        forall|i: int|
            0 <= i < outputs.len() ==> is_in_turn(#[trigger] outputs[i], i, outputs.len() as int),
    ensures
        follow(outputs, at) == Some(outputs.len()),
    decreases outputs.len() - at,
{
    assert(is_in_turn(outputs[at as int], at as int, outputs.len() as int));
    if at + 1 < outputs.len() {
        lemma_follow(outputs, at + 1);
    }
}

} // verus!
