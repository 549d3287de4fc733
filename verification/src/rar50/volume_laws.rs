//! What cutting keeps: no byte of a payload is lost, repeated or moved, and
//! every volume but the last is full.

use vstd::prelude::*;

use crate::rar50::blocks::BlockView;
use crate::rar50::volume_set::cut_all;
use crate::rar50::volumes::{cut_from, fragment_block_of, VolumeMemberView, VolumeSet};

verus! {

/// The payloads of some fragments, put together.
pub open spec fn volume_payload(blocks: Seq<BlockView>) -> Seq<u8>
    decreases blocks.len(),
{
    if blocks.len() == 0 {
        Seq::empty()
    } else {
        volume_payload(blocks.drop_last()) + blocks.last().payload
    }
}

/// The payloads of a whole set, put together.
pub open spec fn set_payload(volumes: Seq<Seq<BlockView>>) -> Seq<u8>
    decreases volumes.len(),
{
    if volumes.len() == 0 {
        Seq::empty()
    } else {
        set_payload(volumes.drop_last()) + volume_payload(volumes.last())
    }
}

/// The payloads of some members, put together.
pub open spec fn members_payload(members: Seq<VolumeMemberView>) -> Seq<u8>
    decreases members.len(),
{
    if members.len() == 0 {
        Seq::empty()
    } else {
        members_payload(members.drop_last()) + members.last().payload
    }
}

/// Whether every volume but the last holds exactly as much as it may, and the
/// last what the set counts.
pub open spec fn is_filled_in_order(set: VolumeSet, max: nat) -> bool {
    &&& set.is_valid(max)
    &&& forall|i: int|
        0 <= i < set.volumes.len() - 1 ==> volume_payload(#[trigger] set.volumes[i]).len() == max
    &&& set.volumes.len() > 0 ==> volume_payload(set.volumes.last()).len() == set.fill
}

proof fn lemma_opened(set: VolumeSet, max: nat)
    requires
        max > 0,
        is_filled_in_order(set, max),
    ensures
        is_filled_in_order(set.opened(max), max),
        set.opened(max).volumes.len() > 0,
        set.opened(max).fill < max,
        set_payload(set.opened(max).volumes) == set_payload(set.volumes),
{
    if set.volumes.len() == 0 || set.fill == max {
        let after = set.opened(max);
        assert(after.volumes.drop_last() =~= set.volumes);
        assert(set_payload(after.volumes) =~= set_payload(set.volumes));
        assert forall|i: int| 0 <= i < after.volumes.len() - 1 implies volume_payload(
            #[trigger] after.volumes[i],
        ).len() == max by {
            assert(after.volumes[i] == set.volumes[i]);
            if i == set.volumes.len() - 1 {
                assert(set.volumes[i] == set.volumes.last());
            }
        }
    }
}

proof fn lemma_with_block(set: VolumeSet, max: nat, block: BlockView)
    requires
        is_filled_in_order(set, max),
        set.volumes.len() > 0,
        set.fill + block.payload.len() <= max,
    ensures
        is_filled_in_order(set.with_block(block), max),
        set_payload(set.with_block(block).volumes) == set_payload(set.volumes) + block.payload,
{
    let after = set.with_block(block);
    let last = set.volumes.len() - 1;
    let grown = set.volumes[last].push(block);
    assert(after.volumes.drop_last() =~= set.volumes.drop_last());
    assert(after.volumes.last() == grown);
    assert(grown.drop_last() =~= set.volumes[last]);
    assert(volume_payload(grown) == volume_payload(set.volumes[last]) + block.payload);
    assert(set_payload(after.volumes) =~= set_payload(set.volumes) + block.payload);
    assert forall|i: int| 0 <= i < after.volumes.len() - 1 implies volume_payload(
        #[trigger] after.volumes[i],
    ).len() == max by {
        assert(after.volumes[i] == set.volumes[i]);
    }
}

/// A member's fragments, put together across the volumes, are its payload, and
/// the volumes stay filled in order.
pub proof fn law_fragments_rejoin(
    set: VolumeSet,
    max: nat,
    member: VolumeMemberView,
    start: nat,
    hashes: Seq<[u8; 32]>,
)
    requires
        max > 0,
        is_filled_in_order(set, max),
        start <= member.payload.len(),
    ensures
        cut_from(set, max, member, start, hashes) matches Ok(after) ==> is_filled_in_order(
            after,
            max,
        ) && set_payload(after.volumes) == set_payload(set.volumes) + member.payload.skip(
            start as int,
        ) && after.volumes.len() > 0,
    decreases member.payload.len() - start,
{
    let room = set.room(max);
    let rest = member.payload.len() - start;
    let len = (if rest <= room {
        rest
    } else {
        room as int
    }) as nat;
    lemma_opened(set, max);
    if let Ok(block) = fragment_block_of(member, start, len, hashes[0]) {
        let open = set.opened(max);
        let next = open.with_block(block);
        let piece = member.payload.subrange(start as int, (start + len) as int);
        assert(block.payload == piece);
        lemma_with_block(open, max, block);
        if rest <= room {
            assert(piece =~= member.payload.skip(start as int));
        } else {
            law_fragments_rejoin(next, max, member, start + len, hashes.skip(1));
            assert(set_payload(set.volumes) + piece + member.payload.skip((start + len) as int)
                =~= set_payload(set.volumes) + member.payload.skip(start as int));
        }
    }
}

/// Cutting members across volumes keeps every byte of their payloads, in order,
/// and leaves every volume but the last full.
pub proof fn law_volumes_hold_the_members(
    members: Seq<VolumeMemberView>,
    max: nat,
    hashes: Seq<Vec<[u8; 32]>>,
)
    requires
        max > 0,
    ensures
        cut_all(members, max, hashes) matches Ok(set) ==> is_filled_in_order(set, max)
            && set_payload(set.volumes) == members_payload(members) && (members.len() > 0
            ==> set.volumes.len() > 0),
    decreases members.len(),
{
    if members.len() > 0 {
        law_volumes_hold_the_members(members.drop_last(), max, hashes.drop_last());
        if let Ok(before) = cut_all(members.drop_last(), max, hashes.drop_last()) {
            let member = members.last();
            law_fragments_rejoin(before, max, member, 0, hashes.last()@);
            assert(member.payload.skip(0) =~= member.payload);
        }
    }
}

/// Full volumes hold as many bytes as they are times what one holds.
proof fn lemma_full_volumes(volumes: Seq<Seq<BlockView>>, max: nat)
    requires
        forall|i: int| 0 <= i < volumes.len() ==> volume_payload(#[trigger] volumes[i]).len() == max,
    ensures
        set_payload(volumes).len() == max * volumes.len(),
    decreases volumes.len(),
{
    if volumes.len() > 0 {
        lemma_full_volumes(volumes.drop_last(), max);
        assert(volumes.last() == volumes[volumes.len() - 1]);
        assert(max * volumes.len() == max * (volumes.len() - 1) + max) by (nonlinear_arith)
            requires
                volumes.len() > 0,
        ;
    } else {
        assert(max * volumes.len() == 0) by (nonlinear_arith)
            requires
                volumes.len() == 0,
        ;
    }
}

/// A member that holds anything leaves something in the last volume.
proof fn lemma_last_volume_is_used(
    set: VolumeSet,
    max: nat,
    member: VolumeMemberView,
    start: nat,
    hashes: Seq<[u8; 32]>,
)
    requires
        max > 0,
        set.is_valid(max),
        start < member.payload.len(),
    ensures
        cut_from(set, max, member, start, hashes) matches Ok(after) ==> after.fill > 0,
    decreases member.payload.len() - start,
{
    let room = set.room(max);
    let rest = member.payload.len() - start;
    let len = (if rest <= room {
        rest
    } else {
        room as int
    }) as nat;
    if let Ok(block) = fragment_block_of(member, start, len, hashes[0]) {
        let next = set.opened(max).with_block(block);
        if rest > room {
            lemma_last_volume_is_used(next, max, member, start + len, hashes.skip(1));
        }
    }
}

/// A set has as many volumes as the payloads of its members take: their sum over
/// what one volume holds, rounded up, and one at least. An empty member behind a
/// full volume opens one more, so there the sum must not come out even.
pub proof fn law_as_many_volumes_as_the_payload_takes(
    members: Seq<VolumeMemberView>,
    max: nat,
    hashes: Seq<Vec<[u8; 32]>>,
)
    requires
        max > 0,
        members.len() > 0,
        members_payload(members).len() == 0 || members.last().payload.len() > 0
            || members_payload(members).len() % max != 0,
    ensures
        cut_all(members, max, hashes) matches Ok(set) ==> set.volumes.len() == (
        if members_payload(members).len() == 0 {
            1
        } else {
            (members_payload(members).len() + max - 1) / max as int
        }),
{
    law_volumes_hold_the_members(members, max, hashes);
    if let Ok(set) = cut_all(members, max, hashes) {
        let total = members_payload(members).len();
        let full = set.volumes.drop_last();
        let count = set.volumes.len();
        lemma_full_volumes(full, max);
        assert(total == max * (count - 1) + set.fill);
        if members.last().payload.len() > 0 {
            law_volumes_hold_the_members(members.drop_last(), max, hashes.drop_last());
            if let Ok(before) = cut_all(members.drop_last(), max, hashes.drop_last()) {
                lemma_last_volume_is_used(before, max, members.last(), 0, hashes.last()@);
            }
        }
        if total == 0 {
            assert(count == 1) by (nonlinear_arith)
                requires
                    0 == max * (count - 1) + set.fill,
                    max > 0,
                    count > 0,
                    set.fill >= 0,
            ;
        } else {
            if set.fill == 0 {
                vstd::arithmetic::div_mod::lemma_fundamental_div_mod_converse(
                    total as int,
                    max as int,
                    count - 1,
                    0,
                );
            }
            assert(total + max - 1 == max * count + (set.fill - 1)) by (nonlinear_arith)
                requires
                    total == max * (count - 1) + set.fill,
            ;
            vstd::arithmetic::div_mod::lemma_fundamental_div_mod_converse(
                total + max - 1,
                max as int,
                count as int,
                set.fill - 1,
            );
        }
    }
}

} // verus!
