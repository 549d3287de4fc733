//! What a write holds while it goes on, counted against the quotas.
//!
//! Compressed members wait in spools until they are out, and so do the quick-open
//! index, the ciphertexts of a volume set, the volume being filled, the copy of the
//! archive that a recovery record is computed over, and the record itself. Their
//! lengths are logical spool bytes: what counts is the most that is held at once.
//! Encryption and the copying of stored fragments go through a buffer of managed
//! memory. Sources and outputs belong to the caller.

use vstd::prelude::*;

use crate::error::{Error, Result};
use crate::rar50::blocks::PreparedBlock;
#[allow(unused_imports)]
use crate::rar50::blocks::BlockView;
use crate::rar50::container::Container;
#[allow(unused_imports)]
use crate::rar50::container::ContainerView;
#[allow(unused_imports)]
use crate::rar50::engine::headers_fit;
#[allow(unused_imports)]
use crate::rar50::headers::emitted_len;
use crate::rar50::layout::{emitted_header_len, resolve_layout, LayoutInputs};
#[allow(unused_imports)]
use crate::rar50::layout::layout_of;
#[allow(unused_imports)]
use crate::rar50::quick_open::blocks_view;
use crate::recovery::rar5::plan::{plan_inline_recovery, InlineRecoveryPlan};
#[allow(unused_imports)]
use crate::recovery::rar5::plan::inline_recovery_plan;
use crate::recovery::rar5::record::{choose_recovery_memory_mode, RecoveryMemoryMode};
#[allow(unused_imports)]
use crate::recovery::rar5::record::memory_choice;
use crate::streaming::resources::{CapacityClass, WriterResources};
#[allow(unused_imports)]
use crate::streaming::resources::{law_capacity_round_trip, ResourcesView};

verus! {

/// What is held in spools, and the most that was.
pub struct SpoolUse {
    pub held: nat,
    pub peak: nat,
}

impl SpoolUse {
    pub open spec fn none() -> SpoolUse {
        SpoolUse { held: 0, peak: 0 }
    }

    pub open spec fn taking(self, bytes: nat) -> SpoolUse {
        SpoolUse {
            held: self.held + bytes,
            peak: if self.held + bytes > self.peak {
                self.held + bytes
            } else {
                self.peak
            },
        }
    }

    pub open spec fn dropping(self, bytes: nat) -> SpoolUse {
        SpoolUse {
            held: if bytes <= self.held {
                (self.held - bytes) as nat
            } else {
                0
            },
            peak: self.peak,
        }
    }
}

/// A count of what is held in spools. It is lost once it passes what a counter
/// holds.
pub struct SpoolMeter {
    held: u64,
    peak: u64,
    lost: bool,
    count: Ghost<SpoolUse>,
}

impl SpoolMeter {
    pub closed spec fn count(self) -> SpoolUse {
        self.count@
    }

    #[verifier::type_invariant]
    spec fn is_valid(self) -> bool {
        &&& self.count@.held <= self.count@.peak
        &&& self.lost <==> self.count@.peak > u64::MAX
        &&& !self.lost ==> self.held == self.count@.held && self.peak == self.count@.peak
    }

    pub fn new() -> (meter: SpoolMeter)
        ensures
            meter.count() == SpoolUse::none(),
    {
        SpoolMeter { held: 0, peak: 0, lost: false, count: Ghost(SpoolUse::none()) }
    }

    pub fn take(self, bytes: u64) -> (meter: SpoolMeter)
        ensures
            meter.count() == self.count().taking(bytes as nat),
    {
        proof {
            use_type_invariant(&self);
        }
        let count: Ghost<SpoolUse> = Ghost(self.count@.taking(bytes as nat));
        match self.held.checked_add(bytes) {
            Some(held) => SpoolMeter {
                held,
                peak: if held > self.peak {
                    held
                } else {
                    self.peak
                },
                lost: self.lost,
                count,
            },
            None => SpoolMeter { held: 0, peak: 0, lost: true, count },
        }
    }

    pub fn give_up(self, bytes: u64) -> (meter: SpoolMeter)
        ensures
            meter.count() == self.count().dropping(bytes as nat),
    {
        proof {
            use_type_invariant(&self);
        }
        SpoolMeter {
            held: self.held.saturating_sub(bytes),
            peak: self.peak,
            lost: self.lost,
            count: Ghost(self.count@.dropping(bytes as nat)),
        }
    }

    /// The most that was held, where a counter holds it.
    pub fn peak(&self) -> (peak: Option<u64>)
        ensures
            peak == counted(self.count().peak),
    {
        proof {
            use_type_invariant(self);
        }
        if self.lost {
            None
        } else {
            Some(self.peak)
        }
    }
}

/// A sum of lengths, where a counter holds it.
pub open spec fn counted(total: nat) -> Option<u64> {
    if total <= u64::MAX {
        Some(total as u64)
    } else {
        None
    }
}

fn counted_sum(total: Option<u64>, more: u64) -> (sum: Option<u64>)
    ensures
        sum == (match total {
            Some(total) => counted((total + more) as nat),
            None => None,
        }),
{
    match total {
        Some(total) => total.checked_add(more),
        None => None,
    }
}

/// What one block comes to as it is emitted.
pub open spec fn block_size(block: BlockView, encrypted: bool) -> nat {
    emitted_len(block.header.len(), encrypted) + block.payload.len()
}

/// What blocks come to as they are emitted.
pub open spec fn blocks_size(blocks: Seq<BlockView>, encrypted: bool) -> nat
    decreases blocks.len(),
{
    if blocks.len() == 0 {
        0
    } else {
        blocks_size(blocks.drop_last(), encrypted) + block_size(blocks.last(), encrypted)
    }
}

/// Measures blocks as they will be emitted.
pub fn blocks_bytes(blocks: &Vec<PreparedBlock>, encrypted: bool) -> (total: Option<u64>)
    requires
        headers_fit(blocks@),
    ensures
        total == counted(blocks_size(blocks_view(blocks@), encrypted)),
{
    let mut total: Option<u64> = Some(0);
    let mut at: usize = 0;
    let ghost view = blocks_view(blocks@);
    assert(view.take(0) =~= Seq::empty());
    while at < blocks.len()
        invariant
            at <= blocks@.len(),
            view == blocks_view(blocks@),
            headers_fit(blocks@),
            total == counted(blocks_size(view.take(at as int), encrypted)),
        decreases blocks@.len() - at,
    {
        let plain: usize = blocks[at].header.len();
        let payload: usize = blocks[at].payload.len();
        proof {
            assert(view.take(at + 1).drop_last() =~= view.take(at as int));
            assert(view.take(at + 1).last() == blocks@[at as int]@);
        }
        total = counted_sum(total, emitted_header_len(plain as u64, encrypted));
        total = counted_sum(total, payload as u64);
        at = at + 1;
    }
    assert(view.take(view.len() as int) =~= view);
    total
}

impl SpoolUse {
    /// With the members of these blocks waiting in their spools.
    pub open spec fn waiting(self, blocks: Seq<BlockView>) -> SpoolUse
        decreases blocks.len(),
    {
        if blocks.len() == 0 {
            self
        } else {
            self.waiting(blocks.drop_last()).taking(blocks.last().spooled as nat)
        }
    }

    /// After a copy of a block. What it waited in goes away once it is out.
    pub open spec fn copying(self, block: BlockView, encrypted: bool) -> SpoolUse {
        self.taking(emitted_len(block.header.len(), encrypted)).taking(
            block.payload.len(),
        ).dropping(block.spooled as nat)
    }

    pub open spec fn copying_all(self, blocks: Seq<BlockView>, encrypted: bool) -> SpoolUse
        decreases blocks.len(),
    {
        if blocks.len() == 0 {
            self
        } else {
            self.copying_all(blocks.drop_last(), encrypted).copying(blocks.last(), encrypted)
        }
    }

    /// Without the copies of these blocks.
    pub open spec fn without_copies(self, blocks: Seq<BlockView>, encrypted: bool) -> SpoolUse
        decreases blocks.len(),
    {
        if blocks.len() == 0 {
            self
        } else {
            self.without_copies(blocks.drop_last(), encrypted).dropping(
                emitted_len(blocks.last().header.len(), encrypted),
            ).dropping(blocks.last().payload.len())
        }
    }

    /// With the recovery record of a prefix, and the parity that is set aside where
    /// it does not stay in memory.
    pub open spec fn with_record(
        self,
        prefix_len: u64,
        percent: u64,
        memory_limit: u64,
    ) -> SpoolUse {
        let plan = inline_recovery_plan(prefix_len as int, percent as int);
        self.taking(scratch_len(plan, memory_limit) as nat).taking(record_len(plan) as nat)
    }
}

/// The parity of a recovery record that is set aside in a spool.
pub open spec fn scratch_len(plan: InlineRecoveryPlan, memory_limit: u64) -> u64 {
    match memory_choice(plan, memory_limit) {
        Ok((RecoveryMemoryMode::Striped { .. }, _)) => (plan.recovery_shards
            * plan.group_count) as u64,
        _ => 0,
    }
}

/// The length of a recovery record, where there can be one.
pub open spec fn record_len(plan: InlineRecoveryPlan) -> u64 {
    if plan.recovery_shards * plan.shard_size <= u64::MAX {
        (plan.recovery_shards * plan.shard_size) as u64
    } else {
        0
    }
}

impl SpoolMeter {
    pub fn wait(self, blocks: &Vec<PreparedBlock>) -> (meter: SpoolMeter)
        ensures
            meter.count() == self.count().waiting(blocks_view(blocks@)),
    {
        let ghost start = self.count();
        let ghost view = blocks_view(blocks@);
        let mut meter = self;
        let mut at: usize = 0;
        assert(view.take(0) =~= Seq::empty());
        while at < blocks.len()
            invariant
                at <= blocks@.len(),
                view == blocks_view(blocks@),
                meter.count() == start.waiting(view.take(at as int)),
            decreases blocks@.len() - at,
        {
            proof {
                assert(view.take(at + 1).drop_last() =~= view.take(at as int));
                assert(view.take(at + 1).last() == blocks@[at as int]@);
            }
            meter = meter.take(blocks[at].spooled);
            at = at + 1;
        }
        assert(view.take(view.len() as int) =~= view);
        meter
    }

    pub fn copy(self, block: &PreparedBlock, encrypted: bool) -> (meter: SpoolMeter)
        requires
            block.header@.len() <= isize::MAX || !encrypted,
        ensures
            meter.count() == self.count().copying(block@, encrypted),
    {
        let header: u64 = if encrypted {
            emitted_header_len(block.header.len() as u64, encrypted)
        } else {
            block.header.len() as u64
        };
        self.take(header).take(block.payload.len() as u64).give_up(block.spooled)
    }

    pub fn copy_all(self, blocks: &Vec<PreparedBlock>, encrypted: bool) -> (meter: SpoolMeter)
        requires
            headers_fit(blocks@) || !encrypted,
        ensures
            meter.count() == self.count().copying_all(blocks_view(blocks@), encrypted),
    {
        let ghost start = self.count();
        let ghost view = blocks_view(blocks@);
        let mut meter = self;
        let mut at: usize = 0;
        assert(view.take(0) =~= Seq::empty());
        while at < blocks.len()
            invariant
                at <= blocks@.len(),
                view == blocks_view(blocks@),
                headers_fit(blocks@) || !encrypted,
                meter.count() == start.copying_all(view.take(at as int), encrypted),
            decreases blocks@.len() - at,
        {
            proof {
                assert(view.take(at + 1).drop_last() =~= view.take(at as int));
                assert(view.take(at + 1).last() == blocks@[at as int]@);
            }
            meter = meter.copy(&blocks[at], encrypted);
            at = at + 1;
        }
        assert(view.take(view.len() as int) =~= view);
        meter
    }

    pub fn drop_copies(self, blocks: &Vec<PreparedBlock>, encrypted: bool) -> (meter: SpoolMeter)
        requires
            headers_fit(blocks@),
        ensures
            meter.count() == self.count().without_copies(blocks_view(blocks@), encrypted),
    {
        let ghost start = self.count();
        let ghost view = blocks_view(blocks@);
        let mut meter = self;
        let mut at: usize = 0;
        assert(view.take(0) =~= Seq::empty());
        while at < blocks.len()
            invariant
                at <= blocks@.len(),
                view == blocks_view(blocks@),
                headers_fit(blocks@),
                meter.count() == start.without_copies(view.take(at as int), encrypted),
            decreases blocks@.len() - at,
        {
            proof {
                assert(view.take(at + 1).drop_last() =~= view.take(at as int));
                assert(view.take(at + 1).last() == blocks@[at as int]@);
            }
            let header: u64 = emitted_header_len(blocks[at].header.len() as u64, encrypted);
            meter = meter.give_up(header).give_up(blocks[at].payload.len() as u64);
            at = at + 1;
        }
        assert(view.take(view.len() as int) =~= view);
        meter
    }

    pub fn record(self, prefix_len: u64, percent: u64, memory_limit: u64) -> (meter: SpoolMeter)
        ensures
            meter.count() == self.count().with_record(prefix_len, percent, memory_limit),
    {
        let (scratch, record): (u64, u64) = record_sizes(prefix_len, percent, memory_limit);
        self.take(scratch).take(record)
    }

    /// With a copy of a prefix and its recovery record for a while.
    pub fn beside_record(self, prefix_len: u64, percent: u64, memory_limit: u64) -> (meter:
        SpoolMeter)
        ensures
            meter.count() == (SpoolUse {
                held: self.count().held,
                peak: self.count().taking(prefix_len as nat).with_record(
                    prefix_len,
                    percent,
                    memory_limit,
                ).peak,
            }),
    {
        let (scratch, record): (u64, u64) = record_sizes(prefix_len, percent, memory_limit);
        self.take(prefix_len).take(scratch).take(record).give_up(record).give_up(scratch).give_up(
            prefix_len,
        )
    }
}

/// Measures the spools of a recovery record: the parity set aside, and the record.
fn record_sizes(prefix_len: u64, percent: u64, memory_limit: u64) -> (sizes: (u64, u64))
    ensures
        ({
            let plan = inline_recovery_plan(prefix_len as int, percent as int);
            sizes == (scratch_len(plan, memory_limit), record_len(plan))
        }),
{
    let plan = match plan_inline_recovery(prefix_len, percent) {
        Ok(plan) => plan,
        Err(_) => {
            return (0, 0);
        },
    };
    let scratch: u64 = match choose_recovery_memory_mode(plan, memory_limit) {
        Ok((RecoveryMemoryMode::Striped { .. }, _)) => match plan.recovery_shards.checked_mul(
            plan.group_count,
        ) {
            Some(scratch) => scratch,
            None => 0,
        },
        _ => 0,
    };
    let record: u64 = match plan.payload_size() {
        Ok(record) => record,
        Err(_) => 0,
    };
    (scratch, record)
}

/// What an archive holds in spools: the packed members and the quick-open index;
/// where it gets a recovery record, also a copy of everything before the record,
/// and the record.
pub open spec fn archive_spools(container: ContainerView<'_>, blocks: Seq<BlockView>) -> SpoolUse {
    let packed = SpoolUse::none().waiting(blocks);
    let indexed = match container.quick_open {
        Some(index) => packed.taking(index.spooled as nat),
        None => packed,
    };
    match (container.recovery_percent, layout_of(container.inputs())) {
        (Some(percent), Some(Ok(layout))) => {
            let opened = indexed.taking(8).taking(container.head_crypt.len()).taking(
                layout.main_header_len,
            );
            let copied = opened.copying_all(blocks, false);
            let whole = match container.quick_open {
                Some(index) => copied.copying(index, false),
                None => copied,
            };
            match layout.recovery_prefix_len {
                Some(prefix_len) => whole.with_record(prefix_len, percent, container.memory_limit),
                None => whole,
            }
        },
        _ => indexed,
    }
}

/// Measures what an archive will hold in spools at most.
pub fn archive_spool_bytes(container: &Container<'_>, blocks: &Vec<PreparedBlock>) -> (peak: Option<
    u64,
>)
    ensures
        peak == counted(archive_spools(container@, blocks_view(blocks@)).peak),
{
    let packed = SpoolMeter::new().wait(blocks);
    let indexed = match container.quick_open {
        Some(index) => packed.take(index.spooled),
        None => packed,
    };
    let percent: u64 = match container.recovery_percent {
        Some(percent) => percent,
        None => {
            return indexed.peak();
        },
    };
    let inputs = LayoutInputs {
        header_encrypted: container.header_encrypted,
        head_crypt_len: container.head_crypt.len() as u64,
        main_flags: container.main_flags,
        volume_number: container.volume_number,
        archive_metadata: container.archive_metadata,
        metadata_record: container.metadata_record,
        body_len: container.body.len() as u64,
        quick_open_payload_len: match container.quick_open {
            Some(block) => Some(block.payload_len),
            None => None,
        },
        recovery_percent: container.recovery_percent,
    };
    assert(inputs == container@.inputs());
    let layout = match resolve_layout(&inputs) {
        Ok(layout) => layout,
        Err(_) => {
            return indexed.peak();
        },
    };
    let opened = indexed.take(8).take(container.head_crypt.len() as u64).take(
        layout.main_header_len,
    );
    let copied = opened.copy_all(blocks, false);
    let whole = match container.quick_open {
        Some(index) => copied.copy(index, false),
        None => copied,
    };
    match layout.recovery_prefix_len {
        Some(prefix_len) => whole.record(prefix_len, percent, container.memory_limit).peak(),
        None => whole.peak(),
    }
}

/// What the buffers of an archive's payloads take beyond what its headers took
/// that are out by then.
pub open spec fn archive_buffer(blocks: Seq<BlockView>) -> u64
    decreases blocks.len(),
{
    if blocks.len() == 0 {
        0
    } else {
        let before = archive_buffer(blocks.drop_last());
        let room = headers_len(blocks.drop_last());
        let buffer = blocks.last().buffer;
        if buffer > before + room {
            (buffer - room) as u64
        } else {
            before
        }
    }
}

/// What the headers of some blocks come to.
pub open spec fn headers_len(blocks: Seq<BlockView>) -> nat
    decreases blocks.len(),
{
    if blocks.len() == 0 {
        0
    } else {
        headers_len(blocks.drop_last()) + blocks.last().header.len()
    }
}

/// Measures the buffers of an archive's payloads.
pub fn archive_buffer_bytes(blocks: &Vec<PreparedBlock>) -> (most: u64)
    ensures
        most == archive_buffer(blocks_view(blocks@)),
{
    let ghost view = blocks_view(blocks@);
    let mut most: u64 = 0;
    let mut room: Option<u64> = Some(0);
    let mut at: usize = 0;
    assert(view.take(0) =~= Seq::empty());
    while at < blocks.len()
        invariant
            at <= blocks@.len(),
            view == blocks_view(blocks@),
            most == archive_buffer(view.take(at as int)),
            room == counted(headers_len(view.take(at as int))),
        decreases blocks@.len() - at,
    {
        proof {
            assert(view.take(at + 1).drop_last() =~= view.take(at as int));
            assert(view.take(at + 1).last() == blocks@[at as int]@);
        }
        let buffer: u64 = blocks[at].buffer;
        match room {
            Some(room) => {
                if buffer > room && buffer - room > most {
                    most = buffer - room;
                }
            },
            None => {},
        }
        room = counted_sum(room, blocks[at].header.len() as u64);
        at = at + 1;
    }
    assert(view.take(view.len() as int) =~= view);
    most
}

/// The ledgers while a write holds this much, or why it may not: `spooled` bytes
/// in spools, and a buffer.
pub open spec fn retained(
    spooled: nat,
    buffer: u64,
    resources: ResourcesView,
) -> std::result::Result<ResourcesView, Error> {
    if spooled > u64::MAX {
        Err(Error::InvalidArgument("archive capacity overflows"))
    } else {
        match resources.capacity_refusal(CapacityClass::Spool, spooled as u64) {
            Some(error) => Err(error),
            None => {
                let spools = resources.after_growth(CapacityClass::Spool, spooled as u64);
                match spools.capacity_refusal(CapacityClass::Managed, buffer) {
                    Some(error) => Err(error),
                    None => Ok(spools.after_growth(CapacityClass::Managed, buffer)),
                }
            },
        }
    }
}

/// What is held by a write.
#[derive(Debug, Clone, Copy)]
pub struct Retained {
    pub spooled: u64,
    pub buffer: u64,
}

/// Counts what a write will hold, in all ledgers or in none.
pub fn retain(spooled: Option<u64>, buffer: u64, resources: &mut WriterResources) -> (r: Result<
    Retained,
>)
    ensures
        forall|bytes: nat|
            spooled == counted(bytes) ==> match #[trigger] retained(
                bytes,
                buffer,
                old(resources)@,
            ) {
                Err(error) => r == Err::<Retained, Error>(error) && final(resources)@ == old(resources)@,
                Ok(after) => r == Ok::<Retained, Error>(
                    Retained { spooled: bytes as u64, buffer },
                ) && final(resources)@ == after,
            },
{
    let ghost start = resources@;
    let spooled: u64 = match spooled {
        Some(spooled) => spooled,
        None => {
            return Err(Error::InvalidArgument("archive capacity overflows"));
        },
    };
    match resources.reserve_capacity(CapacityClass::Spool, spooled) {
        Ok(()) => {},
        Err(error) => {
            return Err(error);
        },
    }
    match resources.reserve_capacity(CapacityClass::Managed, buffer) {
        Ok(()) => {},
        Err(error) => {
            proof {
                law_capacity_round_trip(start, CapacityClass::Spool, spooled);
            }
            resources.release_capacity(CapacityClass::Spool, spooled);
            return Err(error);
        },
    }
    Ok(Retained { spooled, buffer })
}

/// Gives back what a write held.
pub fn give_back(
    held: Retained,
    resources: &mut WriterResources,
    Ghost(before): Ghost<ResourcesView>,
)
    requires
        retained(held.spooled as nat, held.buffer, before) == Ok::<ResourcesView, Error>(
            old(resources)@,
        ),
    ensures
        final(resources)@ == before,
{
    proof {
        law_retained_is_given_back(before, held.spooled, held.buffer);
    }
    resources.release_capacity(CapacityClass::Managed, held.buffer);
    resources.release_capacity(CapacityClass::Spool, held.spooled);
}

/// What a write held and gave back leaves every ledger as it was.
pub proof fn law_retained_is_given_back(resources: ResourcesView, spooled: u64, buffer: u64)
    requires
        retained(spooled as nat, buffer, resources) is Ok,
    ensures
        retained(spooled as nat, buffer, resources)->Ok_0.after_release(
            CapacityClass::Managed,
            buffer,
        ).after_release(CapacityClass::Spool, spooled) == resources,
{
    let spools = resources.after_growth(CapacityClass::Spool, spooled);
    law_capacity_round_trip(resources, CapacityClass::Spool, spooled);
    law_capacity_round_trip(spools, CapacityClass::Managed, buffer);
}

/// Holding keeps managed memory within its ceiling and spools within their quota.
/// Spools take nothing of managed memory.
pub proof fn law_retention_stays_within_the_ceiling(
    spooled: nat,
    buffer: u64,
    resources: ResourcesView,
)
    requires
        resources.execution matches Some(ledger) ==> ledger.used <= ledger.limit,
        resources.spool matches Some(ledger) ==> ledger.used <= ledger.limit,
        retained(spooled, buffer, resources) is Ok,
    ensures
        resources.execution matches Some(ledger) ==> ({
            let after = retained(spooled, buffer, resources)->Ok_0.execution;
            after is Some && after->0.limit == ledger.limit && after->0.used == ledger.used
                + buffer && after->0.used <= ledger.limit
        }),
        resources.spool matches Some(ledger) ==> ({
            let after = retained(spooled, buffer, resources)->Ok_0.spool;
            after is Some && after->0.limit == ledger.limit && after->0.used == ledger.used
                + spooled && after->0.used <= ledger.limit
        }),
{
}

/// The workspace that a recovery record may take: the estimate's limit, or what
/// the ceiling on managed memory leaves of it.
pub open spec fn recovery_limit(resources: ResourcesView) -> u64 {
    match resources.execution {
        Some(ledger) => if ledger.used + resources.memory_limit <= ledger.limit {
            resources.memory_limit
        } else if ledger.used <= ledger.limit {
            (ledger.limit - ledger.used) as u64
        } else {
            0
        },
        None => resources.memory_limit,
    }
}

pub fn recovery_workspace(resources: &WriterResources) -> (limit: u64)
    ensures
        limit == recovery_limit(resources@),
{
    let estimate: u64 = resources.memory_limit();
    match resources.max_memory_bytes() {
        Some(ceiling) => {
            let used: u64 = resources.managed_memory_in_use();
            if used > ceiling {
                0
            } else if estimate <= ceiling - used {
                estimate
            } else {
                ceiling - used
            }
        },
        None => estimate,
    }
}

} // verus!
