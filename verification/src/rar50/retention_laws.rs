//! What the measure of a write's holdings covers.

use vstd::prelude::*;

#[allow(unused_imports)]
use crate::rar50::blocks::BlockView;
#[allow(unused_imports)]
use crate::rar50::container::ContainerView;
#[allow(unused_imports)]
use crate::rar50::engine::{EnginePlan, HeaderKeys, MemberWork};
#[allow(unused_imports)]
use crate::rar50::headers::emitted_len;
#[allow(unused_imports)]
use crate::rar50::layout::layout_of;
#[allow(unused_imports)]
use crate::rar50::retention::{
    archive_buffer, archive_spools, blocks_size, headers_len, record_len, scratch_len, SpoolUse,
};
#[allow(unused_imports)]
use crate::rar50::volume_retention::{
    packed_members, sealed_members, set_spools, through_volume, through_volumes, volume_inputs,
    while_protected,
};
#[allow(unused_imports)]
use crate::recovery::rar5::plan::{inline_recovery_plan, InlineRecoveryPlan};
#[allow(unused_imports)]
use crate::recovery::rar5::record::{memory_choice, RecoveryMemoryMode};

verus! {

/// What blocks leave waiting in spools.
pub open spec fn spooled_in_all(blocks: Seq<BlockView>) -> nat
    decreases blocks.len(),
{
    if blocks.len() == 0 {
        0
    } else {
        spooled_in_all(blocks.drop_last()) + blocks.last().spooled as nat
    }
}

/// How long blocks are behind one another.
pub open spec fn written_in_all(blocks: Seq<BlockView>) -> nat
    decreases blocks.len(),
{
    if blocks.len() == 0 {
        0
    } else {
        written_in_all(blocks.drop_last()) + blocks.last().header.len()
            + blocks.last().payload.len()
    }
}

/// A meter's peak is the most that was ever held: what is taken is held, what is dropped
/// is not, and the peak never falls.
pub proof fn law_peaks_are_the_most_held(meter: SpoolUse, bytes: nat)
    ensures
        meter.taking(bytes).held == meter.held + bytes,
        meter.taking(bytes).peak >= meter.peak,
        meter.taking(bytes).peak >= meter.taking(bytes).held,
        meter.taking(bytes).peak == meter.peak || meter.taking(bytes).peak == meter.held + bytes,
        meter.dropping(bytes).peak == meter.peak,
        bytes <= meter.held ==> meter.dropping(bytes).held == meter.held - bytes,
{
}

/// While a block is copied, the copy lies beside the spool that it is copied from.
pub proof fn law_copies_lie_beside_their_spools(
    meter: SpoolUse,
    block: BlockView,
    encrypted: bool,
)
    ensures
        meter.copying(block, encrypted).peak >= meter.held + emitted_len(
            block.header.len(),
            encrypted,
        ) + block.payload.len(),
        meter.copying(block, encrypted).peak >= meter.peak,
        block.spooled <= meter.held ==> meter.copying(block, encrypted).held == meter.held
            + emitted_len(block.header.len(), encrypted) + block.payload.len() - block.spooled,
{
}

proof fn lemma_waiting(meter: SpoolUse, blocks: Seq<BlockView>)
    ensures
        meter.waiting(blocks).held == meter.held + spooled_in_all(blocks),
        meter.waiting(blocks).peak >= meter.peak,
        meter.waiting(blocks).peak >= meter.held + spooled_in_all(blocks) || blocks.len() == 0,
    decreases blocks.len(),
{
    if blocks.len() > 0 {
        lemma_waiting(meter, blocks.drop_last());
    }
}

proof fn lemma_copying_all(meter: SpoolUse, blocks: Seq<BlockView>)
    ensures
        meter.copying_all(blocks, false).held + spooled_in_all(blocks) >= meter.held
            + written_in_all(blocks),
        meter.copying_all(blocks, false).peak >= meter.peak,
    decreases blocks.len(),
{
    if blocks.len() > 0 {
        lemma_copying_all(meter, blocks.drop_last());
        law_copies_lie_beside_their_spools(
            meter.copying_all(blocks.drop_last(), false),
            blocks.last(),
            false,
        );
    }
}

/// The measure of an archive covers all that its blocks and its index leave in spools.
/// With a recovery record it covers the whole of what the record protects, the record, and
/// the parity that is set aside while it is worked out.
pub proof fn law_the_measure_covers_an_archive(
    container: ContainerView<'_>,
    blocks: Seq<BlockView>,
)
    ensures
        archive_spools(container, blocks).peak >= spooled_in_all(blocks) + (
        match container.quick_open {
            Some(index) => index.spooled as nat,
            None => 0,
        }),
        container.recovery_percent matches Some(percent) ==> (layout_of(container.inputs()) matches
            Some(Ok(layout)) ==> (layout.recovery_prefix_len matches Some(prefix_len) ==> ({
            let plan = inline_recovery_plan(prefix_len as int, percent as int);
            archive_spools(container, blocks).peak >= 8 + container.head_crypt.len()
                + layout.main_header_len + written_in_all(blocks) + (match container.quick_open {
                Some(index) => index.header.len() + index.payload.len(),
                None => 0,
            }) + record_len(plan) + scratch_len(plan, container.memory_limit)
        }))),
{
    let packed = SpoolUse::none().waiting(blocks);
    lemma_waiting(SpoolUse::none(), blocks);
    let indexed = match container.quick_open {
        Some(index) => packed.taking(index.spooled as nat),
        None => packed,
    };
    assert(blocks.len() == 0 ==> spooled_in_all(blocks) == 0);
    if let (Some(percent), Some(Ok(layout))) = (
        container.recovery_percent,
        layout_of(container.inputs()),
    ) {
        let opened = indexed.taking(8).taking(container.head_crypt.len()).taking(
            layout.main_header_len,
        );
        lemma_copying_all(opened, blocks);
        let copied = opened.copying_all(blocks, false);
        if let Some(index) = container.quick_open {
            law_copies_lie_beside_their_spools(copied, index, false);
        }
    }
}

/// How far the buffer of a block is beyond the room that the headers before it have left.
#[verifier::opaque]
pub open spec fn beyond_headers(blocks: Seq<BlockView>, i: int) -> int {
    blocks[i].buffer - headers_len(blocks.take(i))
}

proof fn lemma_beyond_of_fewer(blocks: Seq<BlockView>, i: int)
    requires
        0 <= i < blocks.len() - 1,
    ensures
        beyond_headers(blocks, i) == beyond_headers(blocks.drop_last(), i),
{
    reveal(beyond_headers);
    assert(blocks.drop_last().take(i) =~= blocks.take(i));
}

proof fn lemma_beyond_of_last(blocks: Seq<BlockView>)
    requires
        blocks.len() > 0,
    ensures
        archive_buffer(blocks) == (if beyond_headers(blocks, blocks.len() - 1) > archive_buffer(
            blocks.drop_last(),
        ) {
            beyond_headers(blocks, blocks.len() - 1)
        } else {
            archive_buffer(blocks.drop_last()) as int
        }),
{
    reveal(beyond_headers);
    assert(blocks.take(blocks.len() - 1) =~= blocks.drop_last());
}

/// The buffer of a write is the least that, with the room that the headers before each
/// block have left by the time, is enough for the block.
pub proof fn law_the_buffer_is_enough_for_every_block(blocks: Seq<BlockView>)
    ensures
        forall|i: int|
            0 <= i < blocks.len() ==> #[trigger] beyond_headers(blocks, i) <= archive_buffer(
                blocks,
            ),
        archive_buffer(blocks) == 0 || exists|i: int|
            0 <= i < blocks.len() && #[trigger] beyond_headers(blocks, i) == archive_buffer(blocks),
    decreases blocks.len(),
{
    if blocks.len() > 0 {
        let fewer = blocks.drop_last();
        let last = blocks.len() - 1;
        law_the_buffer_is_enough_for_every_block(fewer);
        lemma_beyond_of_last(blocks);
        assert forall|i: int| 0 <= i < blocks.len() implies #[trigger] beyond_headers(blocks, i)
            <= archive_buffer(blocks) by {
            if i < last {
                lemma_beyond_of_fewer(blocks, i);
            }
        }
        if archive_buffer(blocks) != 0 {
            if archive_buffer(blocks) == archive_buffer(fewer) {
                let i = choose|i: int|
                    0 <= i < fewer.len() && #[trigger] beyond_headers(fewer, i) == archive_buffer(
                        fewer,
                    );
                lemma_beyond_of_fewer(blocks, i);
                assert(beyond_headers(blocks, i) == archive_buffer(blocks));
            } else {
                assert(beyond_headers(blocks, last) == archive_buffer(blocks));
            }
        }
    }
}

/// A recovery record is worked out in memory as a whole if and only if its parity and a
/// block to read fit the limit. If not, it is done in stripes of even length, no longer
/// than a shard, that keep the rows and one buffer within the limit, and 64 MiB, unless they
/// are the shortest there are.
pub proof fn law_records_are_built_within_the_limit(plan: InlineRecoveryPlan, memory_limit: u64)
    requires
        plan.group_count % 2 == 0,
        plan.recovery_shards <= 200,
    ensures
        memory_choice(plan, memory_limit) matches Ok((mode, required)) ==> match mode {
            RecoveryMemoryMode::Resident => required <= memory_limit && (required
                == plan.recovery_shards * plan.group_count + 262_144 || required == u64::MAX),
            RecoveryMemoryMode::Striped { stripe_len } => {
                &&& plan.recovery_shards * plan.group_count + 262_144 > memory_limit
                &&& stripe_len % 2 == 0
                &&& stripe_len >= 2
                &&& stripe_len <= plan.group_count || stripe_len == 2
                &&& stripe_len > 4096 ==> {
                    &&& (plan.recovery_shards + 1) * stripe_len <= memory_limit
                    &&& (plan.recovery_shards + 1) * stripe_len <= 0x400_0000
                }
                &&& stripe_len < 4096 ==> stripe_len == plan.group_count || plan.group_count <= 2
            },
        },
{
    if let Ok((mode, required)) = memory_choice(plan, memory_limit) {
        if let RecoveryMemoryMode::Striped { stripe_len } = mode {
            let rows = plan.recovery_shards + 1;
            let budget = if memory_limit < 67_108_864 {
                memory_limit as int
            } else {
                67_108_864
            };
            if stripe_len > 4096 {
                assert(stripe_len <= budget / rows);
                assert(rows * stripe_len <= budget) by (nonlinear_arith)
                    requires
                        0 <= stripe_len <= budget / rows,
                        rows > 0,
                        budget >= 0,
                ;
            }
        }
    }
}

/// The packed payloads of members, without those that are stored.
pub open spec fn packed_in_all(works: Seq<MemberWork>) -> nat
    decreases works.len(),
{
    if works.len() == 0 {
        0
    } else {
        packed_in_all(works.drop_last()) + (if works.last().member.store {
            0
        } else {
            works.last().member.packed@.len() as u64 as nat
        })
    }
}

proof fn lemma_packed_members(works: Seq<MemberWork>)
    ensures
        packed_members(works).held == packed_in_all(works),
        packed_members(works).peak >= packed_in_all(works),
    decreases works.len(),
{
    if works.len() > 0 {
        lemma_packed_members(works.drop_last());
    }
}

proof fn lemma_sealed_members(before: SpoolUse, works: Seq<MemberWork>, i: int)
    ensures
        sealed_members(before, works).peak >= before.peak,
        0 <= i < works.len() ==> (works[i].sealed matches Some(sealed) ==> sealed_members(
            before,
            works,
        ).peak >= sealed.data@.len()),
    decreases works.len(),
{
    if works.len() > 0 {
        lemma_sealed_members(before, works.drop_last(), i);
        if i < works.len() - 1 && i >= 0 {
            assert(works.drop_last()[i] == works[i]);
        }
    }
}

proof fn lemma_copies_gone(meter: SpoolUse, blocks: Seq<BlockView>, encrypted: bool)
    ensures
        meter.without_copies(blocks, encrypted).peak == meter.peak,
    decreases blocks.len(),
{
    if blocks.len() > 0 {
        lemma_copies_gone(meter, blocks.drop_last(), encrypted);
    }
}

proof fn lemma_copied(meter: SpoolUse, blocks: Seq<BlockView>, encrypted: bool)
    ensures
        meter.copying_all(blocks, encrypted).peak >= meter.peak,
    decreases blocks.len(),
{
    if blocks.len() > 0 {
        lemma_copied(meter, blocks.drop_last(), encrypted);
        law_copies_lie_beside_their_spools(
            meter.copying_all(blocks.drop_last(), encrypted),
            blocks.last(),
            encrypted,
        );
    }
}

proof fn lemma_through_volume(
    before: SpoolUse,
    plan: EnginePlan<'_>,
    keys: Option<HeaderKeys>,
    memory_limit: u64,
    number: u64,
    blocks: Seq<BlockView>,
)
    ensures
        through_volume(before, plan, keys, memory_limit, number, blocks).peak >= before.peak,
        ({
            let after = through_volume(before, plan, keys, memory_limit, number, blocks);
            let size = blocks_size(blocks, plan.header_encrypted);
            plan.recovery_percent matches Some(percent) ==> (size <= u64::MAX ==> (layout_of(
                volume_inputs(plan, keys, number, size as u64),
            ) matches Some(Ok(layout)) ==> (layout.recovery_prefix_len matches Some(prefix_len) ==> {
                let record = inline_recovery_plan(prefix_len as int, percent as int);
                after.peak >= prefix_len + record_len(record) + scratch_len(record, memory_limit)
            })))
        }),
{
    lemma_copied(before, blocks, plan.header_encrypted);
    let copied = before.copying_all(blocks, plan.header_encrypted);
    let protected = while_protected(
        copied,
        plan,
        keys,
        memory_limit,
        number,
        blocks_size(blocks, plan.header_encrypted),
    );
    lemma_copies_gone(protected, blocks, plan.header_encrypted);
}

proof fn lemma_through_volumes(
    before: SpoolUse,
    plan: EnginePlan<'_>,
    keys: Option<HeaderKeys>,
    memory_limit: u64,
    volumes: Seq<Seq<BlockView>>,
    k: int,
)
    ensures
        through_volumes(before, plan, keys, memory_limit, volumes).peak >= before.peak,
        0 <= k < volumes.len() ==> ({
            let after = through_volumes(before, plan, keys, memory_limit, volumes);
            let size = blocks_size(volumes[k], plan.header_encrypted);
            plan.recovery_percent matches Some(percent) ==> (size <= u64::MAX ==> (layout_of(
                volume_inputs(plan, keys, k as u64, size as u64),
            ) matches Some(Ok(layout)) ==> (layout.recovery_prefix_len matches Some(prefix_len) ==> {
                let record = inline_recovery_plan(prefix_len as int, percent as int);
                after.peak >= prefix_len + record_len(record) + scratch_len(record, memory_limit)
            })))
        }),
    decreases volumes.len(),
{
    if volumes.len() > 0 {
        let fewer = volumes.drop_last();
        lemma_through_volumes(before, plan, keys, memory_limit, fewer, k);
        lemma_through_volume(
            through_volumes(before, plan, keys, memory_limit, fewer),
            plan,
            keys,
            memory_limit,
            (volumes.len() - 1) as u64,
            volumes.last(),
        );
        if 0 <= k < volumes.len() - 1 {
            assert(fewer[k] == volumes[k]);
        }
    }
}

/// What a volume set is measured to hold covers the packed payloads of all its members
/// together, each encrypted payload, and for each volume with a recovery record what the
/// record protects, beside the record and the parity that is set aside for it.
pub proof fn law_the_measure_covers_a_set(
    plan: EnginePlan<'_>,
    keys: Option<HeaderKeys>,
    memory_limit: u64,
    works: Seq<MemberWork>,
    volumes: Seq<Seq<BlockView>>,
    i: int,
    k: int,
)
    requires
        0 <= i < works.len(),
        0 <= k < volumes.len(),
    ensures
        ({
            let peak = set_spools(plan, keys, memory_limit, works, volumes).peak;
            let size = blocks_size(volumes[k], plan.header_encrypted);
            &&& peak >= packed_in_all(works)
            &&& works[i].sealed matches Some(sealed) ==> peak >= sealed.data@.len()
            &&& plan.recovery_percent matches Some(percent) ==> (size <= u64::MAX ==> (layout_of(
                volume_inputs(plan, keys, k as u64, size as u64),
            ) matches Some(Ok(layout)) ==> (layout.recovery_prefix_len matches Some(prefix_len) ==> {
                let record = inline_recovery_plan(prefix_len as int, percent as int);
                peak >= prefix_len + record_len(record) + scratch_len(record, memory_limit)
            })))
        }),
{
    lemma_packed_members(works);
    lemma_sealed_members(packed_members(works), works, i);
    lemma_through_volumes(
        sealed_members(packed_members(works), works),
        plan,
        keys,
        memory_limit,
        volumes,
        k,
    );
}

} // verus!
