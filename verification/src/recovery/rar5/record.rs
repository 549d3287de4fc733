//! Building the recovery record of an archive.
use vstd::prelude::*;

use crate::bytes::zero_padded;
use crate::crc32::{crc32, crc32_of};
use crate::recovery::rar5::chunk::{append_framed_chunk, chunk_bytes, ChunkContent};
use crate::recovery::rar5::crc64::{crc64_rar_of, crc64_rar_state};
use crate::recovery::rar5::encoder::{
    encode_parity_shards, slices_view, ParityEncoder, ParityStripe,
};
use crate::recovery::rar5::error::{Error, Result};
use crate::recovery::rar5::parity::{parity_shard, parity_shards, parity_word, word_at};
use crate::recovery::rar5::plan::{
    inline_recovery_plan, lemma_plan_bounds, plan_inline_recovery, planned_data_shards,
    planned_group_count, planned_recovery_shards, prefix_shards, shard_bytes, shards_view,
    split_prefix_shards, InlineRecoveryPlan,
};
use crate::recovery::rar5::reconstruct::lemma_parity_word_congruent;
#[allow(unused_imports)]
use crate::recovery::rar5::encoder::encode_outcome;
#[allow(unused_imports)]
use crate::recovery::rar5::plan::split_outcome;
#[allow(unused_imports)]
use crate::write_progress::{is_told, may_tell, takes_course};
use crate::write_progress::{tell, Unobserved, WriteOperation, WriteProgress, WriteProgressEvent};

verus! {

/// Read buffer size of a streaming recovery pass. Even, so that words never
/// straddle a boundary.
pub const RECOVERY_IO_BLOCK: usize = 256 * 1024;

/// Striped mode never claims more than this, however large the budget is.
const STRIPE_BUDGET_CAP: u64 = 64 * 1024 * 1024;

/// Below this a stripe pass seeks far more than it reads.
const MIN_STRIPE_LEN: u64 = 4 * 1024;

/// How a recovery pass holds parity while it works.
#[derive(Debug, Clone, Copy, PartialEq, Eq, Structural)]
pub enum RecoveryMemoryMode {
    /// Every recovery shard stays in memory and the body is read straight
    /// through.
    Resident,
    /// Parity is built one column stripe at a time.
    Striped { stripe_len: usize },
}

/// The memory that striping at this length takes: one buffer for each
/// recovery shard and one for the data.
pub open spec fn striped_bytes(recovery_shards: int, stripe_len: int) -> int {
    let rows = if recovery_shards + 1 < u64::MAX {
        recovery_shards + 1
    } else {
        u64::MAX as int
    };
    if rows * stripe_len < u64::MAX {
        rows * stripe_len
    } else {
        u64::MAX as int
    }
}

/// The stripe length under a memory limit: an even share of the budget for
/// each buffer, but not below 4 KiB unless the shards are shorter.
pub open spec fn stripe_len_for(plan: InlineRecoveryPlan, memory_limit: int) -> int {
    let rows = if plan.recovery_shards + 1 < u64::MAX {
        plan.recovery_shards + 1
    } else {
        u64::MAX as int
    };
    let budget = if memory_limit < 67_108_864 {
        memory_limit
    } else {
        67_108_864
    };
    let share = if budget / rows < plan.group_count {
        budget / rows
    } else {
        plan.group_count as int
    };
    let even = share - share % 2;
    if even >= 4096 {
        even
    } else if plan.group_count >= 4096 {
        4096
    } else if plan.group_count > 2 {
        plan.group_count as int
    } else {
        2
    }
}

/// The memory mode under a limit and how many bytes it takes.
pub open spec fn memory_choice(
    plan: InlineRecoveryPlan,
    memory_limit: u64,
) -> Result<(RecoveryMemoryMode, u64)> {
    let parity = plan.recovery_shards * plan.group_count;
    let resident = if parity + 262_144 < u64::MAX {
        parity + 262_144
    } else {
        u64::MAX as int
    };
    let stripe_len = stripe_len_for(plan, memory_limit as int);
    if parity > u64::MAX {
        Err(Error::PlanOverflow)
    } else if resident <= memory_limit {
        Ok((RecoveryMemoryMode::Resident, resident as u64))
    } else if stripe_len > usize::MAX {
        Err(Error::PlanOverflow)
    } else {
        Ok(
            (
                RecoveryMemoryMode::Striped { stripe_len: stripe_len as usize },
                striped_bytes(plan.recovery_shards as int, stripe_len) as u64,
            ),
        )
    }
}

/// Picks a memory mode and says how many bytes it takes.
pub fn choose_recovery_memory_mode(plan: InlineRecoveryPlan, memory_limit: u64) -> (choice: Result<
    (RecoveryMemoryMode, u64),
>)
    ensures
        choice == memory_choice(plan, memory_limit),
{
    let parity_bytes: u64 = match plan.recovery_shards.checked_mul(plan.group_count) {
        Some(bytes) => bytes,
        None => {
            return Err(Error::PlanOverflow);
        },
    };
    let resident_bytes: u64 = parity_bytes.saturating_add(RECOVERY_IO_BLOCK as u64);
    if resident_bytes <= memory_limit {
        return Ok((RecoveryMemoryMode::Resident, resident_bytes));
    }
    let rows: u64 = plan.recovery_shards.saturating_add(1);
    let budget: u64 = if memory_limit < STRIPE_BUDGET_CAP {
        memory_limit
    } else {
        STRIPE_BUDGET_CAP
    };
    let mut share: u64 = budget / rows;
    if share >= plan.group_count {
        share = plan.group_count;
    }
    let mut stripe_len: u64 = share - share % 2;
    if stripe_len < MIN_STRIPE_LEN {
        stripe_len = if plan.group_count >= MIN_STRIPE_LEN {
            MIN_STRIPE_LEN
        } else if plan.group_count > 2 {
            plan.group_count
        } else {
            2
        };
    }
    if stripe_len > usize::MAX as u64 {
        return Err(Error::PlanOverflow);
    }
    let required: u64 = match rows.checked_mul(stripe_len) {
        Some(bytes) => bytes,
        None => u64::MAX,
    };
    Ok((RecoveryMemoryMode::Striped { stripe_len: stripe_len as usize }, required))
}

/// `consumed` of `total` in proportion to `units`; all of them where there is
/// nothing to consume.
pub open spec fn in_proportion(consumed: u64, total: u64, units: u64) -> u64 {
    if total == 0 {
        units
    } else {
        ((consumed * units) / (total as int)) as u64
    }
}

pub fn scaled_progress(consumed: u64, total: u64, units: u64) -> (done: u64)
    ensures
        done == in_proportion(consumed, total, units),
        consumed <= total ==> done <= units,
        0 < total && consumed <= total ==> done == (consumed * units) / (total as int),
{
    if total == 0 {
        return units;
    }
    assert(0 <= consumed * units <= u64::MAX * u64::MAX) by (nonlinear_arith)
        requires
            0 <= consumed <= u64::MAX,
            0 <= units <= u64::MAX,
    ;
    let product: u128 = consumed as u128 * units as u128;
    proof {
        if consumed <= total {
            assert(consumed * units <= total * units) by (nonlinear_arith)
                requires
                    0 <= consumed <= total,
                    0 <= units,
            ;
            vstd::arithmetic::div_mod::lemma_div_is_ordered(
                consumed * units,
                total * units,
                total as int,
            );
            vstd::arithmetic::div_mod::lemma_div_multiples_vanish(units as int, total as int);
        }
    }
    (product / total as u128) as u64
}

/// The event that frames the building of a recovery record.
pub open spec fn recovery_event(
    started: bool,
    payload_len: u64,
    pass: usize,
) -> WriteProgressEvent<'static> {
    if started {
        WriteProgressEvent::OperationStarted {
            operation: WriteOperation::Recovery,
            total_bytes: Some(payload_len),
            total_entries: None,
            pass,
        }
    } else {
        WriteProgressEvent::OperationFinished {
            operation: WriteOperation::Recovery,
            total_bytes: Some(payload_len),
            total_entries: None,
            pass,
        }
    }
}

/// Whether a receiver may be told of a recovery record: of everything, and that it
/// is done where there can be one.
pub open spec fn takes_recovery<P: WriteProgress>(progress: Option<&P>) -> bool {
    &&& takes_course(progress)
    &&& forall|plan: InlineRecoveryPlan, pass: usize|
        build_error(plan) is None ==> may_tell(
            progress,
            #[trigger] recovery_event(
                false,
                (plan.recovery_shards * plan.shard_size) as u64,
                pass,
            ),
        )
}

/// Follows the building of a recovery record and reports how far it has come.
///
/// Reading the body counts for as much as the parity that it gives; the chunk
/// headers come on top.
struct RecoveryWatch<'a, P: WriteProgress> {
    progress: Option<&'a P>,
    body_len: u64,
    encode_units: u64,
    payload_len: u64,
    pass: usize,
    consumed: u64,
}

impl<'a, P: WriteProgress> RecoveryWatch<'a, P> {
    /// Whether this follows the same building, further on or not.
    spec fn follows(self, before: RecoveryWatch<'a, P>) -> bool {
        self == (RecoveryWatch { consumed: self.consumed, ..before })
    }

    /// The event for `completed` bytes, which are never more than the record has.
    spec fn advance_event(self, completed: u64) -> WriteProgressEvent<'static> {
        WriteProgressEvent::Advanced {
            operation: WriteOperation::Recovery,
            completed_bytes: if completed < self.payload_len {
                completed
            } else {
                self.payload_len
            },
            total_bytes: self.payload_len,
            pass: self.pass,
        }
    }

    fn advanced(&self, completed: u64) -> (event: WriteProgressEvent<'static>)
        ensures
            event == self.advance_event(completed),
    {
        WriteProgressEvent::Advanced {
            operation: WriteOperation::Recovery,
            completed_bytes: if completed < self.payload_len {
                completed
            } else {
                self.payload_len
            },
            total_bytes: self.payload_len,
            pass: self.pass,
        }
    }

    fn start(&self)
        requires
            takes_course(self.progress),
        ensures
            is_told(self.progress, recovery_event(true, self.payload_len, self.pass)),
    {
        let event = WriteProgressEvent::OperationStarted {
            operation: WriteOperation::Recovery,
            total_bytes: Some(self.payload_len),
            total_entries: None,
            pass: self.pass,
        };
        tell(self.progress, event);
    }

    fn advance(&self, completed: u64)
        requires
            takes_course(self.progress),
        ensures
            is_told(self.progress, self.advance_event(completed)),
    {
        tell(self.progress, self.advanced(completed));
    }

    /// Counts bytes of the body, a read buffer or less at a time.
    fn read(&mut self, bytes: usize, at_most: usize)
        requires
            at_most > 0,
            takes_course(old(self).progress),
        ensures
            final(self).follows(*old(self)),
            final(self).consumed == (if old(self).consumed + bytes > u64::MAX {
                u64::MAX as int
            } else {
                old(self).consumed + bytes
            }),
    {
        let ghost start = *self;
        let mut left: usize = bytes;
        while left > 0
            invariant
                at_most > 0,
                left <= bytes,
                self.follows(start),
                takes_course(start.progress),
                self.consumed == (if start.consumed + (bytes - left) > u64::MAX {
                    u64::MAX as int
                } else {
                    start.consumed + (bytes - left)
                }),
            decreases left,
        {
            let want: usize = if left < at_most {
                left
            } else {
                at_most
            };
            self.consumed = self.consumed.saturating_add(want as u64);
            left = left - want;
            self.advance(scaled_progress(self.consumed, self.body_len, self.encode_units));
        }
    }

    fn finish(&self)
        requires
            may_tell(self.progress, recovery_event(false, self.payload_len, self.pass)),
        ensures
            is_told(self.progress, recovery_event(false, self.payload_len, self.pass)),
    {
        let event = WriteProgressEvent::OperationFinished {
            operation: WriteOperation::Recovery,
            total_bytes: Some(self.payload_len),
            total_entries: None,
            pass: self.pass,
        };
        tell(self.progress, event);
    }
}

/// The checksum states of the data shards of a prefix.
pub open spec fn shard_states(prefix: Seq<u8>, plan: InlineRecoveryPlan) -> Seq<u64> {
    Seq::new(
        plan.data_shards as nat,
        |j: int| crc64_rar_of(shard_bytes(prefix, plan.group_count as int, j)),
    )
}

/// The number of bytes of the prefix in its last data shard.
pub open spec fn last_extent(prefix_len: int, plan: InlineRecoveryPlan) -> int {
    let start = plan.group_count * (plan.data_shards - 1);
    let rest = if prefix_len > start {
        prefix_len - start
    } else {
        0
    };
    if rest < plan.group_count {
        rest
    } else {
        plan.group_count as int
    }
}

/// The recovery shards of a prefix.
pub open spec fn prefix_parity(prefix: Seq<u8>, plan: InlineRecoveryPlan) -> Seq<Seq<u8>> {
    parity_shards(
        prefix_shards(prefix, plan),
        plan.group_count as nat,
        plan.recovery_shards as nat,
    )
}

/// What chunk `i` of a recovery record says.
pub open spec fn record_content(prefix: Seq<u8>, plan: InlineRecoveryPlan, i: int) -> ChunkContent {
    ChunkContent {
        plan,
        protected_size: prefix.len() as u64,
        shard_index: i,
        data_shard_states: shard_states(prefix, plan),
        parity: prefix_parity(prefix, plan)[i],
    }
}

/// Chunk `i` of a recovery record.
pub open spec fn record_chunk(prefix: Seq<u8>, plan: InlineRecoveryPlan, i: int) -> Seq<u8> {
    chunk_bytes(
        record_content(prefix, plan, i),
        last_extent(prefix.len() as int, plan) as u64,
        crc64_rar_of(prefix_parity(prefix, plan)[0]),
    )
}

/// The first `count` chunks of a recovery record.
pub open spec fn record_bytes(prefix: Seq<u8>, plan: InlineRecoveryPlan, count: nat) -> Seq<u8>
    decreases count,
{
    if count == 0 {
        Seq::empty()
    } else {
        record_bytes(prefix, plan, (count - 1) as nat) + record_chunk(prefix, plan, count - 1)
    }
}

/// Why no recovery record can be built, if there is a reason: the shards are
/// too large for the format, or there are none to write.
pub open spec fn build_error(plan: InlineRecoveryPlan) -> Option<Error> {
    if plan.shard_size > u32::MAX {
        Some(Error::PlanOverflow)
    } else if plan.recovery_shards == 0 {
        Some(Error::TooManyShards)
    } else {
        None
    }
}

/// The recovery record of a prefix and what frames it.
#[derive(Debug)]
pub struct StreamedRecoveryOutput {
    pub plan: InlineRecoveryPlan,
    pub payload: Vec<u8>,
    pub payload_len: u64,
    pub payload_crc32: u32,
}

pub proof fn lemma_plan_of(prefix_len: int, percent: int)
    requires
        0 <= prefix_len <= u64::MAX,
        0 <= percent,
    ensures
        ({
            let plan = inline_recovery_plan(prefix_len, percent);
            &&& plan.data_shards == planned_data_shards(prefix_len)
            &&& plan.recovery_shards == planned_recovery_shards(prefix_len, percent)
            &&& plan.group_count == planned_group_count(prefix_len)
            &&& plan.header_size == 0x48 + 8 * plan.data_shards
            &&& plan.shard_size == plan.header_size + plan.group_count
            &&& 1 <= plan.data_shards <= 200
            &&& plan.recovery_shards <= plan.data_shards
            &&& plan.group_count % 2 == 0
            &&& plan.group_count <= u64::MAX / 100
            &&& prefix_len <= plan.data_shards * plan.group_count
        }),
{
    lemma_plan_bounds(prefix_len, percent);
}

/// Zero padding does not change the words of a shard.
proof fn lemma_padded_word(s: Seq<u8>, len: nat, w: int)
    requires
        s.len() <= len,
        0 <= w,
        2 * w + 1 < len,
    ensures
        word_at(zero_padded(s, len), w) == word_at(s, w),
{
}

/// Shards encode like their zero padded forms.
proof fn lemma_padding_encodes_alike(
    data: Seq<Seq<u8>>,
    padded: Seq<Seq<u8>>,
    len: nat,
    count: nat,
)
    requires
        len % 2 == 0,
        data.len() == padded.len(),
        forall|j: int|
            0 <= j < data.len() ==> (#[trigger] data[j]).len() <= len && padded[j] == zero_padded(
                data[j],
                len,
            ),
    ensures
        parity_shards(data, len, count) == parity_shards(padded, len, count),
{
    assert forall|i: int| 0 <= i < count implies #[trigger] parity_shards(data, len, count)[i]
        == parity_shards(padded, len, count)[i] by {
        assert forall|at: int| 0 <= at < len implies #[trigger] parity_shard(data, len, i)[at]
            == parity_shard(padded, len, i)[at] by {
            let w = at / 2;
            assert forall|j: int| 0 <= j < data.len() implies word_at(#[trigger] data[j], w)
                == word_at(padded[j], w) by {
                lemma_padded_word(data[j], len, w);
            }
            lemma_parity_word_congruent(data, padded, i, w);
        }
        assert(parity_shard(data, len, i) =~= parity_shard(padded, len, i));
    }
    assert(parity_shards(data, len, count) =~= parity_shards(padded, len, count));
}

/// The data shards of a prefix without their padding.
pub open spec fn bare_shards(prefix: Seq<u8>, plan: InlineRecoveryPlan) -> Seq<Seq<u8>> {
    Seq::new(
        plan.data_shards as nat,
        |j: int| shard_bytes(prefix, plan.group_count as int, j),
    )
}

/// The part of a shard in a stripe of columns.
pub open spec fn window(shard: Seq<u8>, column: int, width: int) -> Seq<u8> {
    if column >= shard.len() {
        Seq::empty()
    } else if column + width < shard.len() {
        shard.subrange(column, column + width)
    } else {
        shard.skip(column)
    }
}

/// The parts of shards in a stripe of columns.
pub open spec fn windows(shards: Seq<Seq<u8>>, column: int, width: int) -> Seq<Seq<u8>> {
    Seq::new(shards.len(), |j: int| window(shards[j], column, width))
}

/// Columns are encoded independently: a stripe of the data encodes to the
/// stripe of the parity.
pub proof fn law_stripes_encode_independently(
    data: Seq<Seq<u8>>,
    len: nat,
    column: int,
    width: int,
    i: int,
)
    requires
        len % 2 == 0,
        0 <= column,
        column % 2 == 0,
        0 <= width,
        width % 2 == 0,
        column + width <= len,
        forall|j: int| 0 <= j < data.len() ==> (#[trigger] data[j]).len() <= len,
    ensures
        parity_shard(windows(data, column, width), width as nat, i) == parity_shard(
            data,
            len,
            i,
        ).subrange(column, column + width),
{
    let part = windows(data, column, width);
    let a = parity_shard(part, width as nat, i);
    let b = parity_shard(data, len, i).subrange(column, column + width);
    assert forall|at: int| 0 <= at < width implies #[trigger] a[at] == b[at] by {
        let w = at / 2;
        let v = (column + at) / 2;
        assert(v == w + column / 2);
        assert((column + at) % 2 == at % 2);
        let f = |j: int|
            crate::recovery::rar5::field::gf_mul(
                crate::recovery::rar5::parity::encoder_entry(part.len() as int, i, j),
                word_at(part[j], w),
            );
        let g = |j: int|
            crate::recovery::rar5::field::gf_mul(
                crate::recovery::rar5::parity::encoder_entry(data.len() as int, i, j),
                word_at(data[j], v),
            );
        assert forall|j: int| 0 <= j < data.len() implies #[trigger] f(j) == g(j) by {
            assert(data[j].len() <= len);
            assert(word_at(part[j], w) == word_at(data[j], v));
        }
        crate::recovery::rar5::sum::lemma_sum_congruent(f, g, data.len());
        assert(parity_word(part, i, w) == parity_word(data, i, v));
    }
    assert(a =~= b);
}

/// Encodes a prefix with all recovery shards in memory.
fn encode_parity_resident<P: WriteProgress>(
    prefix: &[u8],
    plan: InlineRecoveryPlan,
    encoder: &ParityEncoder,
    watch: &mut RecoveryWatch<'_, P>,
) -> (parts: (Vec<Vec<u8>>, Vec<u64>))
    requires
        plan.data_shards == encoder.data_shards(),
        plan.recovery_shards == encoder.recovery_shards(),
        plan.data_shards <= 200,
        plan.group_count <= u32::MAX,
        plan.group_count % 2 == 0,
        takes_course(old(watch).progress),
    ensures
        shards_view(parts.0@) == prefix_parity(prefix@, plan),
        parts.1@ == shard_states(prefix@, plan),
        final(watch).follows(*old(watch)),
{
    let ghost followed = *watch;
    let data_shards: usize = plan.data_shards as usize;
    let group_count: usize = plan.group_count as usize;
    let states: Vec<u64> = vec![0u64; data_shards];
    let mut stripe = ParityStripe::new(encoder, group_count, states);
    let ghost bare = bare_shards(prefix@, plan);
    let ghost zeros = Seq::new(data_shards as nat, |j: int| 0u64);
    assert(stripe.initial_states() =~= zeros);
    let mut j: usize = 0;
    while j < data_shards
        invariant
            watch.follows(followed),
            takes_course(followed.progress),
            j <= data_shards,
            data_shards == plan.data_shards,
            group_count == plan.group_count,
            plan.data_shards == encoder.data_shards(),
            plan.recovery_shards == encoder.recovery_shards(),
            plan.data_shards <= 200,
            plan.group_count <= u32::MAX,
            bare == bare_shards(prefix@, plan),
            stripe.wf(),
            stripe.width() == group_count,
            stripe.row_count() == encoder.recovery_shards(),
            stripe.initial_states() == zeros,
            stripe.absorbed().len() == data_shards,
            forall|k: int| 0 <= k < j ==> #[trigger] stripe.absorbed()[k] == bare[k],
            forall|k: int|
                j <= k < data_shards ==> #[trigger] stripe.absorbed()[k] == Seq::<u8>::empty(),
        decreases data_shards - j,
    {
        let shard = shard_slice(prefix, group_count, j);
        stripe.absorb(encoder, j, shard);
        watch.read(shard.len(), RECOVERY_IO_BLOCK);
        assert(stripe.absorbed()[j as int] =~= bare[j as int]);
        j += 1;
    }
    assert(stripe.absorbed() =~= bare);
    let parts = stripe.finish();
    proof {
        let padded = prefix_shards(prefix@, plan);
        assert forall|j: int| 0 <= j < bare.len() implies (#[trigger] bare[j]).len() <= group_count
            && padded[j] == zero_padded(bare[j], group_count as nat) by {
            lemma_shard_len(prefix@, group_count as int, j);
        }
        lemma_padding_encodes_alike(bare, padded, group_count as nat, plan.recovery_shards as nat);
        assert(parts.1@ =~= shard_states(prefix@, plan));
    }
    parts
}

proof fn lemma_shard_len(prefix: Seq<u8>, group_count: int, index: int)
    requires
        0 <= group_count,
        0 <= index,
    ensures
        shard_bytes(prefix, group_count, index).len() <= group_count,
        index * group_count >= 0,
{
    assert(index * group_count >= 0) by (nonlinear_arith)
        requires
            0 <= group_count,
            0 <= index,
    ;
}

/// The bytes of a prefix in one shard.
fn shard_slice<'a>(prefix: &'a [u8], group_count: usize, index: usize) -> (bytes: &'a [u8])
    requires
        index <= 200,
        group_count <= u32::MAX,
    ensures
        bytes@ == shard_bytes(prefix@, group_count as int, index as int),
        bytes@.len() <= group_count,
{
    proof {
        lemma_shard_len(prefix@, group_count as int, index as int);
    }
    let len: usize = prefix.len();
    assert(index * group_count <= 200 * 0xffff_ffff) by (nonlinear_arith)
        requires
            index <= 200,
            group_count <= 0xffff_ffff,
    ;
    let start: u64 = index as u64 * group_count as u64;
    if start >= len as u64 {
        let empty = vstd::slice::slice_subrange(prefix, 0, 0);
        assert(empty@ =~= Seq::empty());
        return empty;
    }
    let at: usize = start as usize;
    if len - at > group_count {
        vstd::slice::slice_subrange(prefix, at, at + group_count)
    } else {
        let rest = vstd::slice::slice_subrange(prefix, at, len);
        assert(rest@ =~= prefix@.skip(at as int));
        rest
    }
}

/// The part of a shard in a stripe of columns.
fn window_slice<'a>(shard: &'a [u8], column: usize, width: usize) -> (bytes: &'a [u8])
    ensures
        bytes@ == window(shard@, column as int, width as int),
        bytes@.len() <= width,
{
    let len: usize = shard.len();
    if column >= len {
        let empty = vstd::slice::slice_subrange(shard, 0, 0);
        assert(empty@ =~= Seq::empty());
        return empty;
    }
    if len - column > width {
        vstd::slice::slice_subrange(shard, column, column + width)
    } else {
        let rest = vstd::slice::slice_subrange(shard, column, len);
        assert(rest@ =~= shard@.skip(column as int));
        rest
    }
}

/// The part of a shard before a column.
pub open spec fn before_column(shard: Seq<u8>, column: int) -> Seq<u8> {
    if column < shard.len() {
        shard.take(column)
    } else {
        shard
    }
}

/// Encodes a prefix one stripe of columns at a time.
fn encode_parity_striped<P: WriteProgress>(
    prefix: &[u8],
    plan: InlineRecoveryPlan,
    encoder: &ParityEncoder,
    stripe_len: usize,
    watch: &mut RecoveryWatch<'_, P>,
) -> (parts: (Vec<Vec<u8>>, Vec<u64>))
    requires
        plan.data_shards == encoder.data_shards(),
        plan.recovery_shards == encoder.recovery_shards(),
        plan.data_shards <= 200,
        plan.recovery_shards <= 200,
        plan.group_count <= u32::MAX,
        plan.group_count % 2 == 0,
        stripe_len % 2 == 0,
        takes_course(old(watch).progress),
    ensures
        shards_view(parts.0@) == prefix_parity(prefix@, plan),
        parts.1@ == shard_states(prefix@, plan),
        final(watch).follows(*old(watch)),
{
    let ghost followed = *watch;
    let data_shards: usize = plan.data_shards as usize;
    let recovery_shards: usize = plan.recovery_shards as usize;
    let group_count: usize = plan.group_count as usize;
    let step: usize = if stripe_len < 2 {
        2
    } else {
        stripe_len
    };
    let ghost bare = bare_shards(prefix@, plan);
    let ghost whole = parity_shards(bare, group_count as nat, recovery_shards as nat);
    let mut states: Vec<u64> = vec![0u64; data_shards];
    let mut rows: Vec<Vec<u8>> = Vec::with_capacity(recovery_shards);
    let mut i: usize = 0;
    while i < recovery_shards
        invariant
            watch.follows(followed),
            takes_course(followed.progress),
            i <= recovery_shards,
            rows@.len() == i,
            forall|k: int| 0 <= k < i ==> (#[trigger] rows@[k])@ == Seq::<u8>::empty(),
        decreases recovery_shards - i,
    {
        rows.push(Vec::new());
        i += 1;
    }
    proof {
        assert forall|j: int| 0 <= j < data_shards implies #[trigger] states@[j] == crc64_rar_of(
            before_column(bare[j], 0),
        ) by {
            assert(before_column(bare[j], 0) =~= Seq::empty());
        }
        assert forall|k: int| 0 <= k < recovery_shards implies (#[trigger] rows@[k])@ == whole[k].take(
            0,
        ) by {
            assert(whole[k].take(0) =~= Seq::empty());
        }
        assert forall|j: int| 0 <= j < bare.len() implies (#[trigger] bare[j]).len()
            <= group_count by {
            lemma_shard_len(prefix@, group_count as int, j);
        }
    }
    let mut column: usize = 0;
    while column < group_count
        invariant
            watch.follows(followed),
            takes_course(followed.progress),
            column <= group_count,
            column % 2 == 0,
            group_count % 2 == 0,
            step % 2 == 0,
            step >= 2,
            data_shards == plan.data_shards,
            recovery_shards == plan.recovery_shards,
            group_count == plan.group_count,
            plan.data_shards == encoder.data_shards(),
            plan.recovery_shards == encoder.recovery_shards(),
            plan.data_shards <= 200,
            plan.group_count <= u32::MAX,
            bare == bare_shards(prefix@, plan),
            whole == parity_shards(bare, group_count as nat, recovery_shards as nat),
            forall|j: int| 0 <= j < bare.len() ==> (#[trigger] bare[j]).len() <= group_count,
            states@.len() == data_shards,
            forall|j: int|
                0 <= j < data_shards ==> #[trigger] states@[j] == crc64_rar_of(
                    before_column(bare[j], column as int),
                ),
            rows@.len() == recovery_shards,
            forall|k: int|
                0 <= k < recovery_shards ==> (#[trigger] rows@[k])@ == whole[k].take(column as int),
        decreases group_count - column,
    {
        let width: usize = if group_count - column < step {
            group_count - column
        } else {
            step
        };
        let ghost part = windows(bare, column as int, width as int);
        let ghost initial = states@;
        let mut stripe = ParityStripe::new(encoder, width, states);
        let mut j: usize = 0;
        while j < data_shards
            invariant
                watch.follows(followed),
                takes_course(followed.progress),
                j <= data_shards,
                column < group_count,
                width <= group_count - column,
                step >= 2,
                data_shards == plan.data_shards,
                group_count == plan.group_count,
                plan.data_shards == encoder.data_shards(),
                plan.data_shards <= 200,
                plan.group_count <= u32::MAX,
                bare == bare_shards(prefix@, plan),
                part == windows(bare, column as int, width as int),
                stripe.wf(),
                stripe.width() == width,
                stripe.row_count() == encoder.recovery_shards(),
                stripe.initial_states() == initial,
                stripe.absorbed().len() == data_shards,
                forall|k: int| 0 <= k < j ==> #[trigger] stripe.absorbed()[k] == part[k],
                forall|k: int|
                    j <= k < data_shards ==> #[trigger] stripe.absorbed()[k] == Seq::<u8>::empty(),
            decreases data_shards - j,
        {
            let shard = shard_slice(prefix, group_count, j);
            let bytes = window_slice(shard, column, width);
            stripe.absorb(encoder, j, bytes);
            watch.read(bytes.len(), step);
            assert(stripe.absorbed()[j as int] =~= part[j as int]);
            j += 1;
        }
        assert(stripe.absorbed() =~= part);
        let (stripe_rows, new_states) = stripe.finish();
        proof {
            assert(new_states@.len() == data_shards);
            assert forall|j: int| 0 <= j < data_shards implies #[trigger] new_states@[j]
                == crc64_rar_of(before_column(bare[j], column + width)) by {
                let old_part = before_column(bare[j], column as int);
                crate::recovery::rar5::crc64::lemma_crc64_concat(old_part, part[j], 0);
                assert(initial[j] == crc64_rar_of(old_part));
                assert(old_part + part[j] =~= before_column(bare[j], column + width));
            }
            assert(shards_view(stripe_rows@).len() == recovery_shards);
        }
        states = new_states;
        let mut i: usize = 0;
        while i < recovery_shards
            invariant
                watch.follows(followed),
                takes_course(followed.progress),
                i <= recovery_shards,
                column + width <= group_count,
                column % 2 == 0,
                width % 2 == 0,
                group_count % 2 == 0,
                whole == parity_shards(bare, group_count as nat, recovery_shards as nat),
                forall|j: int| 0 <= j < bare.len() ==> (#[trigger] bare[j]).len() <= group_count,
                part == windows(bare, column as int, width as int),
                stripe_rows@.len() == recovery_shards,
                shards_view(stripe_rows@) == parity_shards(
                    part,
                    width as nat,
                    recovery_shards as nat,
                ),
                rows@.len() == recovery_shards,
                forall|k: int|
                    0 <= k < i ==> (#[trigger] rows@[k])@ == whole[k].take(column + width),
                forall|k: int|
                    i <= k < recovery_shards ==> (#[trigger] rows@[k])@ == whole[k].take(
                        column as int,
                    ),
            decreases recovery_shards - i,
        {
            crate::bytes::push_all(&mut rows[i], stripe_rows[i].as_slice());
            proof {
                law_stripes_encode_independently(
                    bare,
                    group_count as nat,
                    column as int,
                    width as int,
                    i as int,
                );
                assert(stripe_rows@[i as int]@ == shards_view(stripe_rows@)[i as int]);
                assert(rows@[i as int]@ =~= whole[i as int].take(column + width));
            }
            i += 1;
        }
        column = column + width;
    }
    proof {
        let padded = prefix_shards(prefix@, plan);
        lemma_padding_encodes_alike(bare, padded, group_count as nat, plan.recovery_shards as nat);
        assert forall|k: int| 0 <= k < recovery_shards implies #[trigger] shards_view(rows@)[k]
            == whole[k] by {
            assert(rows@[k]@ == whole[k].take(group_count as int));
            assert(whole[k].take(group_count as int) =~= whole[k]);
        }
        assert(shards_view(rows@) =~= whole);
        assert forall|j: int| 0 <= j < data_shards implies #[trigger] states@[j] == shard_states(
            prefix@,
            plan,
        )[j] by {
            assert(before_column(bare[j], group_count as int) =~= bare[j]) by {
                assert(bare[j].len() <= group_count);
            }
        }
        assert(states@ =~= shard_states(prefix@, plan));
    }
    (rows, states)
}

/// The parity and the record of a plan whose shards fit the format are small.
proof fn lemma_sizes_fit(plan: InlineRecoveryPlan)
    requires
        plan.recovery_shards <= 200,
        plan.group_count <= plan.shard_size <= u32::MAX,
    ensures
        0 <= plan.recovery_shards * plan.group_count <= 200 * 0xffff_ffff,
        0 <= plan.recovery_shards * plan.shard_size <= 200 * 0xffff_ffff,
{
    assert(0 <= plan.recovery_shards * plan.group_count <= 200 * 0xffff_ffff && 0
        <= plan.recovery_shards * plan.shard_size <= 200 * 0xffff_ffff) by (nonlinear_arith)
        requires
            0 <= plan.recovery_shards <= 200,
            0 <= plan.group_count <= 0xffff_ffff,
            0 <= plan.shard_size <= 0xffff_ffff,
    ;
}

/// Builds the recovery record of a body.
///
/// Both memory modes give the same bytes; only the working set differs. What is
/// reported of the work bears on nothing.
pub fn build_streamed_inline_recovery<P: WriteProgress>(
    body: &[u8],
    recovery_percent: u64,
    mode: RecoveryMemoryMode,
    progress: Option<&P>,
    pass: usize,
) -> (result: Result<StreamedRecoveryOutput>)
    requires
        mode is Striped ==> mode->stripe_len % 2 == 0,
        takes_course(progress),
        ({
            let plan = inline_recovery_plan(body@.len() as int, recovery_percent as int);
            build_error(plan) is None ==> may_tell(
                progress,
                recovery_event(false, (plan.recovery_shards * plan.shard_size) as u64, pass),
            )
        }),
    ensures
        ({
            let plan = inline_recovery_plan(body@.len() as int, recovery_percent as int);
            match build_error(plan) {
                Some(error) => result is Err && result->Err_0 == error,
                None => result is Ok && ({
                    let out = result->Ok_0;
                    &&& out.plan == plan
                    &&& out.payload@ == record_bytes(body@, plan, plan.recovery_shards as nat)
                    &&& out.payload_len == out.payload@.len()
                    &&& out.payload_len == plan.recovery_shards * plan.shard_size
                    &&& out.payload_crc32 == crc32_of(out.payload@)
                    &&& is_told(progress, recovery_event(true, out.payload_len, pass))
                    &&& out.payload_len > 0 ==> is_told(
                        progress,
                        WriteProgressEvent::Advanced {
                            operation: WriteOperation::Recovery,
                            completed_bytes: out.payload_len,
                            total_bytes: out.payload_len,
                            pass,
                        },
                    )
                    &&& is_told(progress, recovery_event(false, out.payload_len, pass))
                }),
            }
        }),
{
    let body_len: u64 = body.len() as u64;
    proof {
        lemma_plan_of(body@.len() as int, recovery_percent as int);
    }
    let plan = match plan_inline_recovery(body_len, recovery_percent) {
        Ok(plan) => plan,
        Err(error) => {
            return Err(error);
        },
    };
    if plan.shard_size > 0xffff_ffff {
        return Err(Error::PlanOverflow);
    }
    let data_shards: usize = plan.data_shards as usize;
    let recovery_shards: usize = plan.recovery_shards as usize;
    proof {
        lemma_sizes_fit(plan);
    }
    let planned_len: u64 = plan.recovery_shards * plan.shard_size;
    let encode_units: u64 = plan.recovery_shards * plan.group_count;
    let mut watch = RecoveryWatch {
        progress,
        body_len,
        encode_units,
        payload_len: planned_len,
        pass,
        consumed: 0,
    };
    let ghost followed = watch;
    watch.start();
    let encoder = match ParityEncoder::new(data_shards, recovery_shards) {
        Ok(encoder) => encoder,
        Err(error) => {
            return Err(error);
        },
    };
    let (rows, states) = match mode {
        RecoveryMemoryMode::Resident => encode_parity_resident(body, plan, &encoder, &mut watch),
        RecoveryMemoryMode::Striped { stripe_len } => encode_parity_striped(
            body,
            plan,
            &encoder,
            stripe_len,
            &mut watch,
        ),
    };
    let ghost parity = prefix_parity(body@, plan);
    assert(shards_view(rows@).len() == recovery_shards);
    let final_state: u64 = crc64_rar_state(rows[0].as_slice());
    assert(rows@[0]@ == shards_view(rows@)[0]);
    assert(plan.group_count * (plan.data_shards - 1) <= 0xffff_ffff * 200
        && plan.group_count * (plan.data_shards - 1) >= 0) by (nonlinear_arith)
        requires
            plan.group_count <= 0xffff_ffff,
            1 <= plan.data_shards <= 200,
    ;
    let last_start: u64 = plan.group_count * (plan.data_shards - 1);
    let rest: u64 = body_len.saturating_sub(last_start);
    let extent: u64 = if rest < plan.group_count {
        rest
    } else {
        plan.group_count
    };
    let mut payload: Vec<u8> = Vec::new();
    let mut i: usize = 0;
    assert(payload@ =~= record_bytes(body@, plan, 0));
    while i < recovery_shards
        invariant
            i <= recovery_shards,
            recovery_shards == plan.recovery_shards,
            plan.data_shards >= 1,
            parity == prefix_parity(body@, plan),
            body_len == body@.len(),
            rows@.len() == recovery_shards,
            shards_view(rows@) == parity,
            states@ == shard_states(body@, plan),
            extent == last_extent(body@.len() as int, plan),
            final_state == crc64_rar_of(parity[0]),
            payload@ == record_bytes(body@, plan, i as nat),
            recovery_shards <= 200,
            plan.header_size <= 0x48 + 8 * 200,
            encode_units <= 200 * 0xffff_ffff,
            watch.follows(followed),
            takes_course(followed.progress),
            followed.progress == progress,
            i > 0 ==> is_told(
                progress,
                followed.advance_event((encode_units + i * plan.header_size) as u64),
            ),
        decreases recovery_shards - i,
    {
        append_framed_chunk(
            &mut payload,
            plan,
            body_len,
            extent,
            i,
            states.as_slice(),
            final_state,
            rows[i].as_slice(),
        );
        assert(rows@[i as int]@ == parity[i as int]);
        i += 1;
        assert(i * plan.header_size <= 200 * (0x48 + 8 * 200)) by (nonlinear_arith)
            requires
                i <= 200,
                plan.header_size <= 0x48 + 8 * 200,
        ;
        watch.advance(encode_units + i as u64 * plan.header_size);
    }
    watch.finish();
    proof {
        assert(encode_units + recovery_shards * plan.header_size == planned_len) by (nonlinear_arith)
            requires
                encode_units == recovery_shards * plan.group_count,
                planned_len == recovery_shards * plan.shard_size,
                plan.shard_size == plan.header_size + plan.group_count,
        ;
        lemma_record_len(body@, plan, recovery_shards as nat);
        assert(recovery_shards * plan.shard_size <= 200 * 0xffff_ffff) by (nonlinear_arith)
            requires
                recovery_shards <= 200,
                plan.shard_size <= 0xffff_ffff,
        ;
    }
    let payload_len: u64 = payload.len() as u64;
    let payload_crc32: u32 = crc32(payload.as_slice());
    Ok(StreamedRecoveryOutput { plan, payload, payload_len, payload_crc32 })
}

/// Every chunk of a record is consistent.
pub proof fn lemma_record_consistent(prefix: Seq<u8>, plan: InlineRecoveryPlan, i: int)
    requires
        plan.shard_size <= u32::MAX,
        plan.header_size == 0x48 + 8 * plan.data_shards,
        plan.shard_size == plan.header_size + plan.group_count,
        1 <= plan.data_shards <= 200,
        plan.recovery_shards <= 200,
        0 <= i < plan.recovery_shards,
    ensures
        crate::recovery::rar5::chunk::content_consistent(
            record_content(prefix, plan, i),
            last_extent(prefix.len() as int, plan) as u64,
        ),
{
}

pub proof fn lemma_record_len(prefix: Seq<u8>, plan: InlineRecoveryPlan, count: nat)
    requires
        plan.shard_size <= u32::MAX,
        plan.header_size == 0x48 + 8 * plan.data_shards,
        plan.shard_size == plan.header_size + plan.group_count,
        1 <= plan.data_shards <= 200,
        plan.recovery_shards <= 200,
        count <= plan.recovery_shards,
    ensures
        record_bytes(prefix, plan, count).len() == count * plan.shard_size,
    decreases count,
{
    if count > 0 {
        lemma_record_len(prefix, plan, (count - 1) as nat);
        lemma_record_consistent(prefix, plan, count - 1);
        crate::recovery::rar5::chunk::law_parse_of_framed_chunk(
            record_content(prefix, plan, count - 1),
            last_extent(prefix.len() as int, plan) as u64,
            crc64_rar_of(prefix_parity(prefix, plan)[0]),
            Seq::empty(),
        );
        assert((count - 1) * plan.shard_size + plan.shard_size == count * plan.shard_size)
            by (nonlinear_arith);
    } else {
        assert(count * plan.shard_size == 0) by (nonlinear_arith)
            requires
                count == 0,
        ;
    }
}

/// Builds the recovery record of an archive prefix.
pub fn build_structural_inline_recovery_data(
    archive_prefix: &[u8],
    recovery_percent: u64,
) -> (result: Result<Vec<u8>>)
    ensures
        ({
            let plan = inline_recovery_plan(archive_prefix@.len() as int, recovery_percent as int);
            match build_error(plan) {
                Some(error) => result is Err && result->Err_0 == error,
                None => result is Ok && result->Ok_0@ == record_bytes(
                    archive_prefix@,
                    plan,
                    plan.recovery_shards as nat,
                ),
            }
        }),
{
    match build_streamed_inline_recovery(
        archive_prefix,
        recovery_percent,
        RecoveryMemoryMode::Resident,
        None::<&Unobserved>,
        1,
    ) {
        Ok(output) => Ok(output.payload),
        Err(error) => Err(error),
    }
}

/// What comes of planning a recovery record and encoding its recovery shards.
pub open spec fn parity_outcome(prefix: Seq<u8>, recovery_percent: u64) -> std::result::Result<
    (InlineRecoveryPlan, Seq<Seq<u8>>),
    Error,
> {
    let plan = inline_recovery_plan(prefix.len() as int, recovery_percent as int);
    if plan.data_shards * plan.group_count > usize::MAX || plan.recovery_shards * plan.shard_size
        > u64::MAX || plan.group_count > usize::MAX {
        Err(Error::PlanOverflow)
    } else if plan.recovery_shards == 0 {
        Err(Error::TooManyShards)
    } else {
        Ok((plan, prefix_parity(prefix, plan)))
    }
}

/// The parity of a prefix is that of its data shards: to plan, to cut and to encode
/// gives the same shards, and fails in the same way. There are as many of them as
/// planned, each as long as a data shard.
pub proof fn law_parity_is_that_of_the_data_shards(prefix: Seq<u8>, recovery_percent: u64)
    requires
        prefix.len() <= usize::MAX,
    ensures
        ({
            let plan = inline_recovery_plan(prefix.len() as int, recovery_percent as int);
            let overflow = plan.recovery_shards * plan.shard_size > u64::MAX;
            parity_outcome(prefix, recovery_percent) == match split_outcome(prefix, plan) {
                Err(error) => Err::<(InlineRecoveryPlan, Seq<Seq<u8>>), Error>(error),
                Ok(_) if overflow => Err(Error::PlanOverflow),
                Ok(data) => match encode_outcome(data, plan.recovery_shards as nat) {
                    Err(error) => Err(error),
                    Ok(parity) => Ok((plan, parity)),
                },
            }
        }),
        parity_outcome(prefix, recovery_percent) matches Ok((plan, parity)) ==> parity.len()
            == plan.recovery_shards && forall|i: int|
            0 <= i < parity.len() ==> (#[trigger] parity[i]).len() == plan.group_count,
{
    lemma_plan_of(prefix.len() as int, recovery_percent as int);
    let plan = inline_recovery_plan(prefix.len() as int, recovery_percent as int);
    let data = prefix_shards(prefix, plan);
    assert(data[0].len() == plan.group_count);
}

/// Plans a recovery record and encodes its recovery shards.
pub fn encode_inline_recovery_parity(archive_prefix: &[u8], recovery_percent: u64) -> (result:
    Result<(InlineRecoveryPlan, Vec<Vec<u8>>)>)
    ensures
        match parity_outcome(archive_prefix@, recovery_percent) {
            Err(error) => result == Err::<(InlineRecoveryPlan, Vec<Vec<u8>>), Error>(error),
            Ok((plan, parity)) => result is Ok && result->Ok_0.0 == plan && shards_view(
                result->Ok_0.1@,
            ) == parity,
        },
{
    let prefix_len: usize = archive_prefix.len();
    proof {
        lemma_plan_of(archive_prefix@.len() as int, recovery_percent as int);
    }
    let plan = match plan_inline_recovery(prefix_len as u64, recovery_percent) {
        Ok(plan) => plan,
        Err(error) => {
            return Err(error);
        },
    };
    let shards = match split_prefix_shards(archive_prefix, plan) {
        Ok(shards) => shards,
        Err(error) => {
            return Err(error);
        },
    };
    match plan.payload_size() {
        Ok(_) => {},
        Err(error) => {
            return Err(error);
        },
    }
    let ghost data = prefix_shards(archive_prefix@, plan);
    let mut refs: Vec<&[u8]> = Vec::with_capacity(shards.len());
    let mut j: usize = 0;
    while j < shards.len()
        invariant
            j <= shards@.len(),
            shards_view(shards@) == data,
            refs@.len() == j,
            forall|k: int| 0 <= k < j ==> (#[trigger] refs@[k])@ == data[k],
        decreases shards@.len() - j,
    {
        refs.push(shards[j].as_slice());
        assert(shards@[j as int]@ == shards_view(shards@)[j as int]);
        j += 1;
    }
    proof {
        assert(shards_view(shards@).len() == shards@.len());
        assert(slices_view(refs@) =~= data);
        assert(slices_view(refs@)[0].len() == plan.group_count);
    }
    match encode_parity_shards(refs.as_slice(), plan.recovery_shards as usize) {
        Ok(parity) => Ok((plan, parity)),
        Err(error) => Err(error),
    }
}

} // verus!
