//! Every volume of a set can be checked on its own.

use vstd::prelude::*;

#[allow(unused_imports)]
use crate::crc32::crc32_of;
#[allow(unused_imports)]
use crate::rar50::blocks::BlockView;
#[allow(unused_imports)]
use crate::rar50::engine::{EnginePlan, MemberWork};
#[allow(unused_imports)]
use crate::rar50::entry::ArchiveEntry;
#[allow(unused_imports)]
use crate::rar50::fragment_hashes::{are_fragment_hashes, are_work_hashes};
#[allow(unused_imports)]
use crate::rar50::fragments::room_before;
#[allow(unused_imports)]
use crate::rar50::members::payload_of;
#[allow(unused_imports)]
use crate::rar50::reader::read_file_header;
#[allow(unused_imports)]
use crate::rar50::sealing::may_hash;
#[allow(unused_imports)]
use crate::rar50::volume_set::{cut_all, lemma_cut_room, prepared_members_of, set_of, work_lens};
#[allow(unused_imports)]
use crate::rar50::volume_walk::{law_fragments_read_back, law_members_are_prepared_in_order};
#[allow(unused_imports)]
use crate::rar50::volumes::{cut_from, fragment_block_of, VolumeMemberView, VolumeSet};

verus! {

/// Whether a fragment that goes on in the next volume carries the checksum and the hash of
/// the bytes that it stores itself.
#[verifier::opaque]
pub open spec fn is_checked<H: Fn(&[u8]) -> [u8; 32]>(hash: H, block: BlockView) -> bool {
    read_file_header(block.header) matches Some((read, rest)) && rest.len() == 0 && (
    read.split_after ==> read.file.crc32 == Some(crc32_of(block.payload) as nat) && exists|
        digest: [u8; 32],
    | #[trigger] may_hash(hash, block.payload, digest) && read.extra.hash == Some(digest@))
}

pub open spec fn are_checked<H: Fn(&[u8]) -> [u8; 32]>(
    hash: H,
    volumes: Seq<Seq<BlockView>>,
) -> bool {
    forall|v: int, b: int|
        0 <= v < volumes.len() && 0 <= b < volumes[v].len() ==> is_checked(
            hash,
            #[trigger] volumes[v][b],
        )
}

proof fn lemma_fragment_is_checked<H: Fn(&[u8]) -> [u8; 32]>(
    hash: H,
    member: VolumeMemberView,
    start: nat,
    len: nat,
    digest: [u8; 32],
)
    requires
        start + len <= member.payload.len() <= u64::MAX,
        start + len < member.payload.len() ==> may_hash(
            hash,
            member.payload.subrange(start as int, (start + len) as int),
            digest,
        ),
    ensures
        fragment_block_of(member, start, len, digest) matches Ok(block) ==> is_checked(
            hash,
            block,
        ),
{
    let nothing = Seq::<u8>::empty();
    law_fragments_read_back(member, start, len, digest, nothing);
    if let Ok(block) = fragment_block_of(member, start, len, digest) {
        reveal(is_checked);
        assert(block.header + nothing =~= block.header);
    }
}

proof fn lemma_with_block_is_checked<H: Fn(&[u8]) -> [u8; 32]>(
    hash: H,
    set: VolumeSet,
    max: nat,
    block: BlockView,
)
    requires
        are_checked(hash, set.volumes),
        is_checked(hash, block),
    ensures
        are_checked(hash, set.opened(max).with_block(block).volumes),
{
    let open = set.opened(max);
    let next = open.with_block(block);
    let last = open.volumes.len() - 1;
    assert(are_checked(hash, open.volumes));
    assert forall|v: int, b: int|
        0 <= v < next.volumes.len() && 0 <= b < next.volumes[v].len() implies is_checked(
        hash,
        #[trigger] next.volumes[v][b],
    ) by {
        if v == last {
            assert(next.volumes[v] == open.volumes[v].push(block));
            if b < open.volumes[v].len() {
                assert(next.volumes[v][b] == open.volumes[v][b]);
            }
        } else {
            assert(next.volumes[v] == open.volumes[v]);
        }
    }
}

proof fn lemma_cut_is_checked<H: Fn(&[u8]) -> [u8; 32]>(
    hash: H,
    set: VolumeSet,
    max: nat,
    member: VolumeMemberView,
    start: nat,
    hashes: Seq<[u8; 32]>,
)
    requires
        max > 0,
        set.is_valid(max),
        start <= member.payload.len() <= u64::MAX,
        are_checked(hash, set.volumes),
        are_fragment_hashes(
            hash,
            member.payload.skip(start as int),
            set.room(max),
            max,
            hashes,
        ),
    ensures
        cut_from(set, max, member, start, hashes) matches Ok(after) ==> are_checked(
            hash,
            after.volumes,
        ),
    decreases member.payload.len() - start,
{
    let room = set.room(max);
    let rest = member.payload.len() - start;
    let tail = member.payload.skip(start as int);
    let len = (if rest <= room {
        rest
    } else {
        room as int
    }) as nat;
    if let Ok(block) = fragment_block_of(member, start, len, hashes[0]) {
        let piece = member.payload.subrange(start as int, (start + len) as int);
        if rest > room {
            assert(tail.take(room as int) =~= piece);
        }
        lemma_fragment_is_checked(hash, member, start, len, hashes[0]);
        lemma_with_block_is_checked(hash, set, max, block);
        if rest > room {
            let next = set.opened(max).with_block(block);
            assert(block.payload.len() == len);
            assert(next.volumes.len() > 0);
            assert(next.room(max) == max);
            assert(tail.skip(room as int) =~= member.payload.skip((start + len) as int));
            lemma_cut_is_checked(hash, next, max, member, start + len, hashes.skip(1));
        }
    }
}

proof fn lemma_room_of_fewer(lens: Seq<u64>, max: nat, at: nat)
    requires
        at < lens.len(),
    ensures
        room_before(lens.drop_last(), max, at) == room_before(lens, max, at),
    decreases at,
{
    if at > 0 {
        lemma_room_of_fewer(lens, max, (at - 1) as nat);
    }
}

proof fn lemma_all_checked<H: Fn(&[u8]) -> [u8; 32]>(
    hash: H,
    members: Seq<VolumeMemberView>,
    lens: Seq<u64>,
    max: nat,
    hashes: Seq<Vec<[u8; 32]>>,
)
    requires
        max > 0,
        members.len() == lens.len() == hashes.len(),
        forall|m: int|
            0 <= m < members.len() ==> (#[trigger] members[m]).payload.len() <= u64::MAX && lens[m]
                == members[m].payload.len() && are_fragment_hashes(
                hash,
                members[m].payload,
                room_before(lens, max, m as nat),
                max,
                hashes[m]@,
            ),
    ensures
        cut_all(members, max, hashes) matches Ok(set) ==> set.is_valid(max) && set.room(max)
            == room_before(lens, max, members.len()) && are_checked(hash, set.volumes),
    decreases members.len(),
{
    if members.len() > 0 {
        let (fewer, short, left) = (members.drop_last(), lens.drop_last(), hashes.drop_last());
        let last = members.len() - 1;
        assert forall|m: int| 0 <= m < fewer.len() implies (#[trigger] fewer[m]).payload.len()
            <= u64::MAX && short[m] == fewer[m].payload.len() && are_fragment_hashes(
            hash,
            fewer[m].payload,
            room_before(short, max, m as nat),
            max,
            left[m]@,
        ) by {
            assert(fewer[m] == members[m]);
            lemma_room_of_fewer(lens, max, m as nat);
        }
        lemma_all_checked(hash, fewer, short, max, left);
        if let Ok(set) = cut_all(fewer, max, left) {
            let member = members[last];
            lemma_room_of_fewer(lens, max, last as nat);
            lemma_cut_room(set, max, member, 0, hashes.last()@);
            assert(member.payload.skip(0) =~= member.payload);
            lemma_cut_is_checked(hash, set, max, member, 0, hashes.last()@);
        }
    }
}

/// Every fragment of a set that goes on in the next volume carries the checksum and the
/// hash of the bytes that it stores, so that a volume can be checked on its own.
pub proof fn law_volumes_can_be_checked_alone<H: Fn(&[u8]) -> [u8; 32]>(
    hash: H,
    plan: EnginePlan<'_>,
    entries: Seq<ArchiveEntry>,
    works: Seq<MemberWork>,
    hashes: Seq<Vec<[u8; 32]>>,
    max_payload_per_volume: u64,
    stopped: bool,
)
    requires
        entries.len() == works.len(),
        are_work_hashes(hash, works, max_payload_per_volume as nat, hashes),
    ensures
        set_of(plan, entries, works, hashes, max_payload_per_volume, stopped) matches Ok(set)
            ==> are_checked(hash, set.volumes),
{
    if set_of(plan, entries, works, hashes, max_payload_per_volume, stopped) is Ok {
        let max = max_payload_per_volume as nat;
        let lens = work_lens(works);
        let members = prepared_members_of(entries, works, plan.compress)->Ok_0;
        law_members_are_prepared_in_order(entries, works, plan.compress);
        assert forall|m: int| 0 <= m < members.len() implies (#[trigger] members[m]).payload.len()
            <= u64::MAX && lens[m] == members[m].payload.len() && are_fragment_hashes(
            hash,
            members[m].payload,
            room_before(lens, max, m as nat),
            max,
            hashes[m]@,
        ) by {
            assert(members[m].payload == payload_of(works[m].member, works[m].sealed));
            assert(hashes[m] == hashes[m]);
        }
        lemma_all_checked(hash, members, lens, max, hashes);
    }
}

} // verus!
