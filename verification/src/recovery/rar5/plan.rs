//! The geometry of a recovery record.
use std::ops::Range;
use vstd::prelude::*;

use crate::bytes::{copy_zero_padded, zero_padded};
use crate::recovery::rar5::error::{Error, Result};

verus! {

pub const MAX_WINRAR602_DATA_SHARDS: u64 = 200;

const KIB: u64 = 1024;

pub const RAR5_RECOVERY_CHUNK_FIXED_HEADER_SIZE: u64 = 0x48;

/// How an archive prefix is divided into data shards and how much parity
/// protects it.
#[derive(Debug, Clone, Copy, PartialEq, Eq, Structural)]
pub struct InlineRecoveryPlan {
    pub data_shards: u64,
    pub recovery_shards: u64,
    pub group_count: u64,
    pub header_size: u64,
    pub shard_size: u64,
}

impl InlineRecoveryPlan {
    /// The size of all recovery chunks together.
    pub fn payload_size(self) -> (size: Result<u64>)
        ensures
            self.recovery_shards * self.shard_size <= u64::MAX ==> size == Ok::<u64, Error>(
                (self.recovery_shards * self.shard_size) as u64,
            ),
            self.recovery_shards * self.shard_size > u64::MAX ==> size == Err::<u64, Error>(
                Error::PlanOverflow,
            ),
    {
        match self.recovery_shards.checked_mul(self.shard_size) {
            Some(size) => Ok(size),
            None => Err(Error::PlanOverflow),
        }
    }
}

/// `a / b`, rounded up.
pub open spec fn ceil_div(a: int, b: int) -> int {
    (a + b - 1) / b
}

/// One data shard for each started KiB, at least one and at most 200.
pub open spec fn planned_data_shards(archive_size: int) -> int {
    if archive_size >= 204_800 {
        200
    } else if archive_size == 0 {
        1
    } else {
        ceil_div(archive_size, 1024)
    }
}

/// The given percentage of the data shards, but one at least for an archive
/// below 200 KiB.
pub open spec fn planned_recovery_shards(archive_size: int, recovery_percent: int) -> int {
    let percent = if recovery_percent < 100 {
        recovery_percent
    } else {
        100
    };
    let shards = percent * planned_data_shards(archive_size) / 100;
    if shards == 0 && archive_size < 204_800 {
        1
    } else {
        shards
    }
}

/// The bytes of a data shard: an even share of the archive.
pub open spec fn planned_group_count(archive_size: int) -> int {
    let share = ceil_div(archive_size, planned_data_shards(archive_size));
    share + share % 2
}

/// The plan for an archive of this size at this percentage.
pub open spec fn inline_recovery_plan(
    archive_size: int,
    recovery_percent: int,
) -> InlineRecoveryPlan {
    let data_shards = planned_data_shards(archive_size);
    let group_count = planned_group_count(archive_size);
    InlineRecoveryPlan {
        data_shards: data_shards as u64,
        recovery_shards: planned_recovery_shards(archive_size, recovery_percent) as u64,
        group_count: group_count as u64,
        header_size: (0x48 + 8 * data_shards) as u64,
        shard_size: (0x48 + 8 * data_shards + group_count) as u64,
    }
}

proof fn lemma_share(archive_size: int, data_shards: int)
    requires
        0 <= archive_size,
        data_shards > 0,
    ensures
        ceil_div(archive_size, data_shards) == archive_size / data_shards + (if archive_size
            % data_shards == 0 {
            0int
        } else {
            1
        }),
        0 <= ceil_div(archive_size, data_shards) <= archive_size,
        data_shards * ceil_div(archive_size, data_shards) >= archive_size,
{
    let q = archive_size / data_shards;
    let r = archive_size % data_shards;
    vstd::arithmetic::div_mod::lemma_fundamental_div_mod(archive_size, data_shards);
    vstd::arithmetic::div_mod::lemma_mod_bound(archive_size, data_shards);
    vstd::arithmetic::div_mod::lemma_div_pos_is_pos(archive_size, data_shards);
    vstd::arithmetic::div_mod::lemma_div_is_ordered_by_denominator(archive_size, 1, data_shards);
    let up = if r == 0 {
        0int
    } else {
        1
    };
    assert(archive_size + data_shards - 1 == data_shards * (q + up) + (r + data_shards - 1
        - data_shards * up)) by (nonlinear_arith)
        requires
            archive_size == data_shards * q + r,
    ;
    assert(data_shards * up == if r == 0 {
        0
    } else {
        data_shards
    }) by (nonlinear_arith)
        requires
            up == if r == 0 {
                0int
            } else {
                1
            },
    ;
    let rest = r + data_shards - 1 - data_shards * up;
    assert(0 <= rest < data_shards);
    assert(data_shards * (q + up) == (q + up) * data_shards) by (nonlinear_arith);
    vstd::arithmetic::div_mod::lemma_fundamental_div_mod_converse(
        archive_size + data_shards - 1,
        data_shards,
        q + up,
        rest,
    );
    assert(data_shards * (q + up) >= archive_size) by (nonlinear_arith)
        requires
            archive_size == data_shards * q + r,
            data_shards * up == if r == 0 {
                0
            } else {
                data_shards
            },
            r < data_shards,
    ;
    if r != 0 && q == archive_size {
        assert(data_shards * q >= q) by (nonlinear_arith)
            requires
                data_shards >= 1,
                q >= 0,
        ;
    }
}

/// What every plan satisfies: sizes fit, shards are word aligned, and the
/// shards have room for the archive.
pub proof fn lemma_plan_bounds(archive_size: int, recovery_percent: int)
    requires
        0 <= archive_size <= u64::MAX,
        0 <= recovery_percent,
    ensures
        1 <= planned_data_shards(archive_size) <= 200,
        0 <= planned_recovery_shards(archive_size, recovery_percent) <= planned_data_shards(
            archive_size,
        ),
        archive_size < 204_800 ==> 1 <= planned_recovery_shards(archive_size, recovery_percent),
        archive_size < 204_800 ==> planned_group_count(archive_size) <= 1024,
        0 <= planned_group_count(archive_size) <= u64::MAX / 100,
        planned_group_count(archive_size) % 2 == 0,
        planned_data_shards(archive_size) * planned_group_count(archive_size) >= archive_size,
{
    let d = planned_data_shards(archive_size);
    lemma_share(archive_size, 1024);
    lemma_share(archive_size, d);
    let share = ceil_div(archive_size, d);
    if archive_size < 204_800 {
        assert(archive_size <= 1024 * d);
        assert(share <= 1024) by (nonlinear_arith)
            requires
                share == (archive_size + d - 1) / d,
                archive_size <= 1024 * d,
                d >= 1,
        ;
    }
    let p = if recovery_percent < 100 {
        recovery_percent
    } else {
        100
    };
    assert(0 <= p * d <= 100 * d) by (nonlinear_arith)
        requires
            0 <= p <= 100,
            d >= 1,
    ;
    assert(d * (share + share % 2) >= d * share) by (nonlinear_arith)
        requires
            d >= 1,
    ;
}

/// A record has the share of the data shards that it was asked for, rounded down,
/// and never more than there are data shards. Below 200 KiB it has at least one
/// shard, whatever was asked for.
pub proof fn law_record_has_the_percentage_asked_for(archive_size: u64, percent: u64)
    requires
        percent <= 100,
    ensures
        ({
            let plan = inline_recovery_plan(archive_size as int, percent as int);
            let asked = percent * plan.data_shards;
            ||| 100 * plan.recovery_shards <= asked < 100 * (plan.recovery_shards + 1)
            ||| archive_size < 200 * 1024 && asked < 100 && plan.recovery_shards == 1
        }),
        inline_recovery_plan(archive_size as int, 100).recovery_shards == inline_recovery_plan(
            archive_size as int,
            100,
        ).data_shards,
{
    lemma_plan_bounds(archive_size as int, percent as int);
    lemma_plan_bounds(archive_size as int, 100);
    let d = planned_data_shards(archive_size as int);
    assert(0 <= percent * d <= 20_000) by (nonlinear_arith)
        requires
            percent <= 100,
            1 <= d <= 200,
    ;
}

/// More percent never give fewer shards, and change nothing else of a plan. What is
/// beyond all of the archive counts as all of it.
pub proof fn law_more_percent_never_give_less(archive_size: u64, few: u64, many: u64)
    requires
        few <= many,
    ensures
        ({
            let less = inline_recovery_plan(archive_size as int, few as int);
            let more = inline_recovery_plan(archive_size as int, many as int);
            &&& less.recovery_shards <= more.recovery_shards <= more.data_shards
            &&& less == (InlineRecoveryPlan { recovery_shards: less.recovery_shards, ..more })
            &&& few >= 100 ==> less == more
        }),
{
    lemma_plan_bounds(archive_size as int, few as int);
    lemma_plan_bounds(archive_size as int, many as int);
    let d = planned_data_shards(archive_size as int);
    let a = if few < 100 {
        few as int
    } else {
        100
    };
    let b = if many < 100 {
        many as int
    } else {
        100
    };
    assert(0 <= a * d <= b * d <= 20_000) by (nonlinear_arith)
        requires
            0 <= a <= b <= 100,
            1 <= d <= 200,
    ;
}

/// An archive is cut into shards of at most 1 KiB up to 200 of them, and into 200 of
/// any size beyond. The shards hold all of it, no shard fewer would at that size, and
/// shards of two bytes less would not.
pub proof fn law_shards_just_hold_the_archive(archive_size: u64, percent: u64)
    ensures
        ({
            let plan = inline_recovery_plan(archive_size as int, percent as int);
            &&& 1 <= plan.data_shards <= 200
            &&& archive_size > 200 * 1024 ==> plan.data_shards == 200
            &&& archive_size <= 200 * 1024 ==> archive_size <= 1024 * plan.data_shards
            &&& plan.data_shards > 1 ==> 1024 * (plan.data_shards - 1) < archive_size
            &&& plan.group_count % 2 == 0
            &&& archive_size <= plan.data_shards * plan.group_count
            &&& plan.group_count > 0 ==> plan.data_shards * (plan.group_count - 2) < archive_size
            &&& plan.header_size == 72 + 8 * plan.data_shards
            &&& plan.shard_size == plan.header_size + plan.group_count
        }),
{
    let size = archive_size as int;
    lemma_plan_bounds(size, percent as int);
    let d = planned_data_shards(size);
    lemma_share(size, 1024);
    lemma_share(size, d);
    let share = ceil_div(size, d);
    let q = size / d;
    vstd::arithmetic::div_mod::lemma_fundamental_div_mod(size, d);
    vstd::arithmetic::div_mod::lemma_mod_bound(size, d);
    let up = if size % d == 0 {
        0int
    } else {
        1
    };
    assert(share == q + up);
    let group = share + share % 2;
    if group > 0 {
        assert(d * (group - 2) < size) by (nonlinear_arith)
            requires
                size == d * q + size % d,
                0 <= size % d < d,
                d >= 1,
                group <= q + up + 1,
                up == 1 ==> size % d > 0,
                up == 0 || up == 1,
        ;
    }
    if size < 204_800 && size > 0 {
        vstd::arithmetic::div_mod::lemma_fundamental_div_mod(size, 1024);
    }
}

/// Plans the recovery record of an archive.
pub fn plan_inline_recovery(archive_size: u64, recovery_percent: u64) -> (plan: Result<
    InlineRecoveryPlan,
>)
    ensures
        plan == Ok::<InlineRecoveryPlan, Error>(
            inline_recovery_plan(archive_size as int, recovery_percent as int),
        ),
{
    proof {
        lemma_plan_bounds(archive_size as int, recovery_percent as int);
        lemma_share(archive_size as int, 1024);
        lemma_share(archive_size as int, planned_data_shards(archive_size as int));
    }
    let percent: u64 = if recovery_percent < 100 {
        recovery_percent
    } else {
        100
    };
    let data_shards: u64 = if archive_size >= 200 * KIB {
        MAX_WINRAR602_DATA_SHARDS
    } else if archive_size == 0 {
        1
    } else {
        archive_size / KIB + (if archive_size % KIB == 0 {
            0
        } else {
            1
        })
    };
    assert(0 <= percent * data_shards <= 100 * 200) by (nonlinear_arith)
        requires
            percent <= 100,
            data_shards <= 200,
    ;
    let mut recovery_shards: u64 = (percent * data_shards) / 100;
    if recovery_shards == 0 && archive_size < 200 * KIB {
        recovery_shards = 1;
    }
    let share: u64 = archive_size / data_shards + (if archive_size % data_shards == 0 {
        0
    } else {
        1
    });
    let group_count: u64 = share + share % 2;
    let header_size: u64 = data_shards * 8 + RAR5_RECOVERY_CHUNK_FIXED_HEADER_SIZE;
    let shard_size: u64 = header_size + group_count;
    Ok(InlineRecoveryPlan { data_shards, recovery_shards, group_count, header_size, shard_size })
}

/// The part of a prefix that belongs to one shard.
pub open spec fn shard_range(prefix_len: int, group_count: int, index: int) -> Range<usize> {
    let start = index * group_count;
    let end = if start + group_count < prefix_len {
        start + group_count
    } else {
        prefix_len
    };
    Range { start: start as usize, end: end as usize }
}

/// The shards of `plan` have room for a prefix of this length.
pub open spec fn plan_holds(prefix_len: int, plan: InlineRecoveryPlan) -> bool {
    prefix_len <= plan.data_shards * plan.group_count
}

/// The plan's sizes can be counted in memory.
pub open spec fn plan_fits(plan: InlineRecoveryPlan) -> bool {
    plan.data_shards * plan.group_count <= usize::MAX && plan.data_shards <= usize::MAX
        && plan.group_count <= usize::MAX
}

/// The ranges of a prefix that its data shards cover.
///
/// A shard that starts behind the end of the prefix has a range that ends
/// before it starts: it covers nothing.
pub fn split_prefix_shard_ranges(prefix_len: usize, plan: InlineRecoveryPlan) -> (ranges: Result<
    Vec<Range<usize>>,
>)
    ensures
        !plan_fits(plan) ==> ranges == Err::<Vec<Range<usize>>, Error>(Error::PlanOverflow),
        plan_fits(plan) && !plan_holds(prefix_len as int, plan) ==> ranges == Err::<
            Vec<Range<usize>>,
            Error,
        >(Error::PrefixExceedsPlan),
        plan_fits(plan) && plan_holds(prefix_len as int, plan) ==> match ranges {
            Ok(ranges) => ranges@ == Seq::new(
                plan.data_shards as nat,
                |i: int| shard_range(prefix_len as int, plan.group_count as int, i),
            ),
            Err(_) => false,
        },
{
    if plan.data_shards > usize::MAX as u64 || plan.group_count > usize::MAX as u64 {
        return Err(Error::PlanOverflow);
    }
    let data_shards: usize = plan.data_shards as usize;
    let group_count: usize = plan.group_count as usize;
    let capacity: usize = match data_shards.checked_mul(group_count) {
        Some(capacity) => capacity,
        None => {
            return Err(Error::PlanOverflow);
        },
    };
    if prefix_len > capacity {
        return Err(Error::PrefixExceedsPlan);
    }
    let mut ranges: Vec<Range<usize>> = Vec::with_capacity(data_shards);
    let mut index: usize = 0;
    while index < data_shards
        invariant
            index <= data_shards,
            data_shards * group_count <= usize::MAX,
            ranges@.len() == index,
            forall|i: int|
                0 <= i < index ==> #[trigger] ranges@[i] == shard_range(
                    prefix_len as int,
                    group_count as int,
                    i,
                ),
        decreases data_shards - index,
    {
        assert(index * group_count + group_count <= data_shards * group_count) by (nonlinear_arith)
            requires
                index < data_shards,
        ;
        let start: usize = index * group_count;
        let full: usize = start + group_count;
        let end: usize = if full < prefix_len {
            full
        } else {
            prefix_len
        };
        ranges.push(Range { start, end });
        index += 1;
    }
    assert(ranges@ =~= Seq::new(
        plan.data_shards as nat,
        |i: int| shard_range(prefix_len as int, plan.group_count as int, i),
    ));
    Ok(ranges)
}

/// The bytes of a prefix in one shard.
pub open spec fn shard_bytes(prefix: Seq<u8>, group_count: int, index: int) -> Seq<u8> {
    let start = index * group_count;
    if start >= prefix.len() {
        Seq::empty()
    } else if start + group_count < prefix.len() {
        prefix.subrange(start, start + group_count)
    } else {
        prefix.skip(start)
    }
}

/// The data shards of a prefix: equal shares, the last ones zero padded.
pub open spec fn prefix_shards(prefix: Seq<u8>, plan: InlineRecoveryPlan) -> Seq<Seq<u8>> {
    Seq::new(
        plan.data_shards as nat,
        |i: int|
            zero_padded(shard_bytes(prefix, plan.group_count as int, i), plan.group_count as nat),
    )
}

/// The contents of owned shards.
pub open spec fn shards_view(shards: Seq<Vec<u8>>) -> Seq<Seq<u8>> {
    Seq::new(shards.len(), |i: int| shards[i]@)
}

/// The contents of shards, or why there are none.
pub open spec fn shards_result(shards: Result<Vec<Vec<u8>>>) -> std::result::Result<
    Seq<Seq<u8>>,
    Error,
> {
    match shards {
        Ok(shards) => Ok(shards_view(shards@)),
        Err(error) => Err(error),
    }
}

/// What comes of cutting a prefix into the data shards of a plan.
pub open spec fn split_outcome(
    prefix: Seq<u8>,
    plan: InlineRecoveryPlan,
) -> std::result::Result<Seq<Seq<u8>>, Error> {
    if !plan_fits(plan) {
        Err(Error::PlanOverflow)
    } else if !plan_holds(prefix.len() as int, plan) {
        Err(Error::PrefixExceedsPlan)
    } else {
        Ok(prefix_shards(prefix, plan))
    }
}

/// Cuts a prefix into zero padded data shards.
pub fn split_prefix_shards(prefix: &[u8], plan: InlineRecoveryPlan) -> (shards: Result<
    Vec<Vec<u8>>,
>)
    ensures
        shards_result(shards) == split_outcome(prefix@, plan),
{
    let ranges = match split_prefix_shard_ranges(prefix.len(), plan) {
        Ok(ranges) => ranges,
        Err(error) => {
            return Err(error);
        },
    };
    let group_count: usize = plan.group_count as usize;
    let mut shards: Vec<Vec<u8>> = Vec::with_capacity(ranges.len());
    let mut index: usize = 0;
    while index < ranges.len()
        invariant
            plan_fits(plan),
            index <= ranges@.len(),
            group_count == plan.group_count,
            ranges@ == Seq::new(
                plan.data_shards as nat,
                |i: int| shard_range(prefix@.len() as int, plan.group_count as int, i),
            ),
            shards@.len() == index,
            forall|i: int|
                0 <= i < index ==> (#[trigger] shards@[i])@ == prefix_shards(prefix@, plan)[i],
        decreases ranges@.len() - index,
    {
        assert(index * group_count + group_count <= plan.data_shards * group_count)
            by (nonlinear_arith)
            requires
                index < plan.data_shards,
        ;
        let start: usize = ranges[index].start;
        let end: usize = ranges[index].end;
        let shard = if start < end {
            let bytes = vstd::slice::slice_subrange(prefix, start, end);
            proof {
                assert(bytes@ =~= shard_bytes(prefix@, group_count as int, index as int));
            }
            copy_zero_padded(bytes, group_count)
        } else {
            let zeros: Vec<u8> = vec![0u8; group_count];
            proof {
                assert(shard_bytes(prefix@, group_count as int, index as int).len() == 0);
                assert(zeros@ =~= zero_padded(
                    shard_bytes(prefix@, group_count as int, index as int),
                    group_count as nat,
                ));
            }
            zeros
        };
        shards.push(shard);
        index += 1;
    }
    assert(shards_view(shards@) =~= prefix_shards(prefix@, plan));
    Ok(shards)
}

} // verus!
