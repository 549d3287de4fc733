//! Staging payloads for archive rewrites: which members are decoded, which of
//! them are kept, and how much they may take.

use vstd::prelude::*;

use crate::archive_model::{Archive, ArchiveMemberMeta};
use crate::error::{Error, Result};
use crate::read_control::ReadCancellation;
use crate::streaming::memory_spool::MemorySpool;
use crate::streaming::resources::WriterResources;
use crate::streaming::source::EntrySource;
use crate::write_progress::{
    ask, cancellable_chunk, check_cancelled, tell, Unobserved, WriteOperation, WriteProgress,
    WriteProgressEvent,
};
#[allow(unused_imports)]
use crate::write_progress::{
    has_stopped, is_stopped_by, is_told, may_stop, may_tell, takes_course,
};

verus! {

/// Where payloads are staged, and how much of them.
#[derive(Debug, Clone)]
pub struct RewriteStaging {
    /// An existing, trusted directory for private temporary files.
    pub directory: String,
    /// Inclusive limit on the sum of retained, uncompressed payload bytes.
    pub max_staged_bytes: u64,
}

/// Staged bytes, counted over all members.
#[derive(Debug, Clone, Copy, PartialEq, Eq, Structural)]
pub struct StagedBytes {
    pub used: u64,
    pub limit: u64,
}

pub open spec fn saturated_sum(a: u64, b: u64) -> u64 {
    if a + b <= u64::MAX {
        (a + b) as u64
    } else {
        u64::MAX
    }
}

impl StagedBytes {
    pub open spec fn admits(self, count: u64) -> bool {
        self.used + count <= self.limit
    }

    /// What bytes beyond the limit are refused with.
    pub open spec fn refusal(self, count: u64) -> Error {
        Error::RewriteStagingLimitExceeded {
            limit: self.limit,
            required: saturated_sum(self.used, count),
        }
    }

    pub fn new(limit: u64) -> (staged: StagedBytes)
        ensures
            staged == (StagedBytes { used: 0, limit }),
    {
        StagedBytes { used: 0, limit }
    }

    /// Counts bytes before they are written. Bytes beyond the limit are refused,
    /// and not counted.
    pub fn reserve(&mut self, count: u64) -> (r: Result<()>)
        ensures
            if old(self).admits(count) {
                r is Ok && *final(self) == (StagedBytes {
                    used: (old(self).used + count) as u64,
                    ..*old(self)
                })
            } else {
                r == Err::<(), Error>(old(self).refusal(count)) && *final(self) == *old(self)
            },
    {
        match self.used.checked_add(count) {
            Some(required) => {
                if required > self.limit {
                    return Err(
                        Error::RewriteStagingLimitExceeded { limit: self.limit, required },
                    );
                }
                self.used = required;
                Ok(())
            },
            None => Err(
                Error::RewriteStagingLimitExceeded { limit: self.limit, required: u64::MAX },
            ),
        }
    }

    /// Gives back bytes that were counted and not written, or are not kept any
    /// longer.
    pub fn give_back(&mut self, count: u64)
        requires
            count <= old(self).used,
        ensures
            *final(self) == (StagedBytes { used: (old(self).used - count) as u64, ..*old(self) }),
    {
        self.used = self.used - count;
    }
}

/// The payload of one member on its way into staging.
pub struct Sink {
    pub spool: MemorySpool,
}

impl Sink {
    pub fn new() -> (sink: Sink)
        ensures
            sink.spool.contents() == Seq::<u8>::empty(),
            sink.spool.position() == 0,
    {
        Sink { spool: MemorySpool::new() }
    }

    /// Takes bytes in. What the limit or the storage refuses changes nothing.
    pub fn write_all(
        &mut self,
        bytes: &[u8],
        staged: &mut StagedBytes,
        resources: &mut WriterResources,
    ) -> (r: Result<()>)
        ensures
            match r {
                Ok(()) => {
                    &&& old(staged).admits(bytes@.len() as u64)
                    &&& old(self).spool.write_refusal(bytes@.len(), old(resources)@) is None
                    &&& *final(staged) == (StagedBytes {
                        used: (old(staged).used + bytes@.len()) as u64,
                        ..*old(staged)
                    })
                    &&& final(self).spool.position() == old(self).spool.position() + bytes@.len()
                    &&& bytes@.len() > 0 ==> final(self).spool.contents()
                        == crate::streaming::memory_spool::overwritten(
                        old(self).spool.contents(),
                        old(self).spool.position() as int,
                        bytes@,
                    )
                },
                Err(error) => {
                    &&& *final(staged) == *old(staged)
                    &&& final(self).spool.contents() == old(self).spool.contents()
                    &&& final(self).spool.position() == old(self).spool.position()
                    &&& if old(staged).admits(bytes@.len() as u64) {
                        old(self).spool.write_refusal(bytes@.len(), old(resources)@) == Some(error)
                    } else {
                        error == old(staged).refusal(bytes@.len() as u64)
                    }
                },
            },
    {
        let count: usize = bytes.len();
        match staged.reserve(count as u64) {
            Ok(()) => {},
            Err(error) => {
                return Err(error);
            },
        }
        match self.spool.write(bytes, resources) {
            Ok(_) => Ok(()),
            Err(error) => {
                staged.give_back(count as u64);
                Err(error)
            },
        }
    }
}

/// Whether a member has a payload that can be staged.
pub open spec fn is_payload(meta: ArchiveMemberMeta) -> bool {
    !meta.is_directory && !meta.is_redirection && !meta.is_split_before && !meta.is_split_after
}

pub open spec fn is_selected(indices: Seq<usize>, index: int) -> bool {
    exists|k: int| 0 <= k < indices.len() && #[trigger] indices[k] == index
}

pub open spec fn has_duplicates(indices: Seq<usize>) -> bool {
    exists|a: int, b: int|
        0 <= a < b < indices.len() && #[trigger] indices[a] == #[trigger] indices[b]
}

/// Whether a member is decoded at all: a selected one, or in a solid archive any
/// payload up to the last selection, because the dictionary runs through it.
pub open spec fn is_decoded(
    members: Seq<ArchiveMemberMeta>,
    indices: Seq<usize>,
    solid: bool,
    last: int,
    index: int,
) -> bool {
    &&& 0 <= index <= last
    &&& index < members.len()
    &&& is_selected(indices, index) || (solid && !members[index].is_directory
        && !members[index].is_redirection)
}

/// The bytes that the first `upto` members take together, or the refusal of one.
/// On demand payloads are kept one at a time, so the largest decides.
pub open spec fn staged_size(
    members: Seq<ArchiveMemberMeta>,
    indices: Seq<usize>,
    limit: u64,
    on_demand: bool,
    upto: nat,
) -> std::result::Result<u64, Error>
    decreases upto,
{
    if upto == 0 {
        Ok(0)
    } else {
        let at = upto - 1;
        match staged_size(members, indices, limit, on_demand, at as nat) {
            Err(error) => Err(error),
            Ok(before) => if !is_selected(indices, at) {
                Ok(before)
            } else if !is_payload(members[at]) {
                Err(Error::InvalidArgument("rewrite staging requires unsplit payload members"))
            } else {
                let size = members[at].unpacked_size;
                let sum = if !on_demand {
                    before + size
                } else if before < size {
                    size as int
                } else {
                    before as int
                };
                if sum > limit {
                    Err(
                        Error::RewriteStagingLimitExceeded {
                            limit,
                            required: if sum > u64::MAX {
                                u64::MAX
                            } else {
                                sum as u64
                            },
                        },
                    )
                } else {
                    Ok(sum as u64)
                }
            },
        }
    }
}

/// The declared size of what is decoded among the first `upto` members.
pub open spec fn decoded_size(
    members: Seq<ArchiveMemberMeta>,
    indices: Seq<usize>,
    solid: bool,
    last: int,
    upto: nat,
) -> nat
    decreases upto,
{
    if upto == 0 {
        0
    } else {
        decoded_size(members, indices, solid, last, (upto - 1) as nat) + (if is_decoded(
            members,
            indices,
            solid,
            last,
            upto - 1,
        ) {
            members[upto - 1].unpacked_size as nat
        } else {
            0
        })
    }
}

/// How many of the first `upto` members are decoded.
pub open spec fn decoded_count(
    members: Seq<ArchiveMemberMeta>,
    indices: Seq<usize>,
    solid: bool,
    last: int,
    upto: nat,
) -> nat
    decreases upto,
{
    if upto == 0 {
        0
    } else {
        decoded_count(members, indices, solid, last, (upto - 1) as nat) + (if is_decoded(
            members,
            indices,
            solid,
            last,
            upto - 1,
        ) {
            1nat
        } else {
            0
        })
    }
}

/// The largest of some indices.
pub open spec fn is_last(indices: Seq<usize>, last: usize) -> bool {
    is_selected(indices, last as int) && forall|k: int|
        0 <= k < indices.len() ==> #[trigger] indices[k] <= last
}

/// What staging has to do, settled before anything is decoded.
#[derive(Debug, Clone, Copy, PartialEq, Eq, Structural)]
pub struct StagingPlan {
    /// The last member that is selected: nothing behind it is decoded.
    pub last: usize,
    /// The declared size of everything that is decoded.
    pub total: u64,
    /// How many members are decoded.
    pub entries: usize,
    /// What the retained payloads take.
    pub required: u64,
}

/// Why a selection cannot be staged.
pub open spec fn selection_error(
    members: Seq<ArchiveMemberMeta>,
    indices: Seq<usize>,
    limit: u64,
    on_demand: bool,
) -> Option<Error> {
    if has_duplicates(indices) {
        Some(Error::DuplicateEntry)
    } else if indices.len() == 0 {
        None
    } else {
        match staged_size(members, indices, limit, on_demand, members.len()) {
            Err(error) => Some(error),
            Ok(_) => if exists|k: int|
                0 <= k < indices.len() && #[trigger] indices[k] >= members.len() {
                Some(Error::EntryNotFound)
            } else {
                None
            },
        }
    }
}

pub open spec fn is_plan(
    members: Seq<ArchiveMemberMeta>,
    indices: Seq<usize>,
    solid: bool,
    limit: u64,
    on_demand: bool,
    plan: StagingPlan,
) -> bool {
    let total = decoded_size(members, indices, solid, plan.last as int, members.len());
    &&& is_last(indices, plan.last)
    &&& plan.last < members.len()
    &&& plan.entries == decoded_count(
        members,
        indices,
        solid,
        plan.last as int,
        members.len(),
    )
    &&& plan.total == (if total <= u64::MAX {
        total
    } else {
        u64::MAX as nat
    })
    &&& staged_size(members, indices, limit, on_demand, members.len()) == Ok::<u64, Error>(
        plan.required,
    )
}

fn selects(indices: &[usize], index: usize) -> (answer: bool)
    ensures
        answer == is_selected(indices@, index as int),
{
    let mut k: usize = 0;
    while k < indices.len()
        invariant
            k <= indices@.len(),
            forall|i: int| 0 <= i < k ==> #[trigger] indices@[i] != index,
        decreases indices@.len() - k,
    {
        if indices[k] == index {
            assert(indices@[k as int] == index);
            return true;
        }
        k = k + 1;
    }
    false
}

fn repeats_an_index(indices: &[usize]) -> (answer: bool)
    ensures
        answer == has_duplicates(indices@),
{
    let mut b: usize = 0;
    while b < indices.len()
        invariant
            b <= indices@.len(),
            forall|i: int, k: int|
                0 <= i < k < b ==> #[trigger] indices@[i] != #[trigger] indices@[k],
        decreases indices@.len() - b,
    {
        let mut a: usize = 0;
        while a < b
            invariant
                a <= b < indices@.len(),
                forall|i: int| 0 <= i < a ==> #[trigger] indices@[i] != indices@[b as int],
            decreases b - a,
        {
            if indices[a] == indices[b] {
                assert(indices@[a as int] == indices@[b as int]);
                return true;
            }
            a = a + 1;
        }
        b = b + 1;
    }
    false
}

fn last_index(indices: &[usize]) -> (last: usize)
    requires
        indices@.len() > 0,
    ensures
        is_last(indices@, last),
{
    let mut last: usize = indices[0];
    let mut k: usize = 1;
    assert(indices@[0] == last);
    while k < indices.len()
        invariant
            1 <= k <= indices@.len(),
            is_selected(indices@, last as int),
            forall|i: int| 0 <= i < k ==> #[trigger] indices@[i] <= last,
        decreases indices@.len() - k,
    {
        if indices[k] > last {
            last = indices[k];
            assert(indices@[k as int] == last);
        }
        k = k + 1;
    }
    last
}

proof fn lemma_failed_size_stays_failed(
    members: Seq<ArchiveMemberMeta>,
    indices: Seq<usize>,
    limit: u64,
    on_demand: bool,
    at: nat,
    upto: nat,
)
    requires
        at <= upto,
        staged_size(members, indices, limit, on_demand, at) is Err,
    ensures
        staged_size(members, indices, limit, on_demand, upto) == staged_size(
            members,
            indices,
            limit,
            on_demand,
            at,
        ),
    decreases upto,
{
    if at < upto {
        lemma_failed_size_stays_failed(members, indices, limit, on_demand, at, (upto - 1) as nat);
    }
}

/// Settles what staging a selection has to do, or refuses the selection. An
/// empty one needs nothing.
pub fn plan_staging(
    members: &Vec<ArchiveMemberMeta>,
    indices: &[usize],
    solid: bool,
    limit: u64,
    on_demand: bool,
) -> (r: Result<Option<StagingPlan>>)
    ensures
        match selection_error(members@, indices@, limit, on_demand) {
            Some(error) => r == Err::<Option<StagingPlan>, Error>(error),
            None => match r {
                Ok(Some(plan)) => indices@.len() > 0 && is_plan(
                    members@,
                    indices@,
                    solid,
                    limit,
                    on_demand,
                    plan,
                ),
                Ok(None) => indices@.len() == 0,
                Err(_) => false,
            },
        },
{
    if repeats_an_index(indices) {
        return Err(Error::DuplicateEntry);
    }
    if indices.len() == 0 {
        return Ok(None);
    }
    let last: usize = last_index(indices);
    let mut required: u64 = 0;
    let mut total: u64 = 0;
    let mut entries: usize = 0;
    let mut at: usize = 0;
    while at < members.len()
        invariant
            at <= members@.len(),
            !has_duplicates(indices@),
            indices@.len() > 0,
            is_last(indices@, last),
            entries <= at,
            staged_size(members@, indices@, limit, on_demand, at as nat) == Ok::<u64, Error>(
                required,
            ),
            entries == decoded_count(members@, indices@, solid, last as int, at as nat),
            total == (if decoded_size(members@, indices@, solid, last as int, at as nat)
                <= u64::MAX {
                decoded_size(members@, indices@, solid, last as int, at as nat)
            } else {
                u64::MAX as nat
            }),
        decreases members@.len() - at,
    {
        let meta: &ArchiveMemberMeta = &members[at];
        let wanted: bool = selects(indices, at);
        if at <= last && (wanted || (solid && !meta.is_directory && !meta.is_redirection)) {
            assert(is_decoded(members@, indices@, solid, last as int, at as int));
            total = total.saturating_add(meta.unpacked_size);
            entries = entries + 1;
        }
        if wanted {
            proof {
                if staged_size(members@, indices@, limit, on_demand, (at + 1) as nat) is Err {
                    lemma_failed_size_stays_failed(
                        members@,
                        indices@,
                        limit,
                        on_demand,
                        (at + 1) as nat,
                        members@.len(),
                    );
                }
            }
            if meta.is_directory || meta.is_redirection || meta.is_split_before
                || meta.is_split_after {
                return Err(
                    Error::InvalidArgument("rewrite staging requires unsplit payload members"),
                );
            }
            let sum: Option<u64> = if on_demand {
                Some(
                    if required < meta.unpacked_size {
                        meta.unpacked_size
                    } else {
                        required
                    },
                )
            } else {
                required.checked_add(meta.unpacked_size)
            };
            match sum {
                Some(sum) => {
                    if sum > limit {
                        return Err(Error::RewriteStagingLimitExceeded { limit, required: sum });
                    }
                    required = sum;
                },
                None => {
                    return Err(
                        Error::RewriteStagingLimitExceeded { limit, required: u64::MAX },
                    );
                },
            }
        }
        at = at + 1;
    }
    if last >= members.len() {
        proof {
            let k = choose|k: int| 0 <= k < indices@.len() && #[trigger] indices@[k] == last;
            assert(indices@[k] >= members@.len());
        }
        return Err(Error::EntryNotFound);
    }
    Ok(Some(StagingPlan { last, total, entries, required }))
}

/// What becomes of a member when its turn comes.
#[derive(Debug, Clone, Copy, PartialEq, Eq, Structural)]
pub enum StageDecision {
    /// Nothing further is needed.
    Stop,
    Skip,
    /// Decode and verify it, and keep its payload or not.
    Decode { retain: bool },
}

pub open spec fn decision_for(
    members: Seq<ArchiveMemberMeta>,
    indices: Seq<usize>,
    solid: bool,
    last: int,
    current: int,
) -> StageDecision {
    if current > last {
        StageDecision::Stop
    } else if is_decoded(members, indices, solid, last, current) {
        StageDecision::Decode { retain: is_selected(indices, current) }
    } else {
        StageDecision::Skip
    }
}

/// Decides what becomes of a member.
pub fn decide(
    members: &Vec<ArchiveMemberMeta>,
    indices: &[usize],
    solid: bool,
    last: usize,
    current: usize,
) -> (decision: StageDecision)
    requires
        current < members@.len(),
    ensures
        decision == decision_for(members@, indices@, solid, last as int, current as int),
{
    if current > last {
        return StageDecision::Stop;
    }
    let wanted: bool = selects(indices, current);
    let dependency: bool = solid && !members[current].is_directory
        && !members[current].is_redirection;
    if !wanted && !dependency {
        return StageDecision::Skip;
    }
    StageDecision::Decode { retain: wanted }
}

/// The bytes of retained payloads.
pub open spec fn retained_bytes(payloads: Seq<Option<Seq<u8>>>) -> nat
    decreases payloads.len(),
{
    if payloads.len() == 0 {
        0
    } else {
        retained_bytes(payloads.drop_last()) + (match payloads.last() {
            Some(payload) => payload.len(),
            None => 0,
        })
    }
}

/// Whether a payload is what decoding its member gives.
pub open spec fn decodes_to<D: Fn(usize) -> Result<Vec<u8>>>(
    decode: D,
    index: usize,
    payload: Seq<u8>,
) -> bool {
    exists|data: Vec<u8>|
        data@ == payload && #[trigger] call_ensures(decode, (index,), Ok::<Vec<u8>, Error>(data))
}

/// Whether payloads are those of the selected members and no others, each as it
/// was decoded.
pub open spec fn are_decoded<D: Fn(usize) -> Result<Vec<u8>>>(
    decode: D,
    indices: Seq<usize>,
    payloads: Seq<Option<Seq<u8>>>,
) -> bool {
    forall|i: int|
        0 <= i < payloads.len() ==> match #[trigger] payloads[i] {
            Some(payload) => is_selected(indices, i) && decodes_to(decode, i as usize, payload),
            None => !is_selected(indices, i),
        }
}

/// Whether payloads are decoded and lie within the limit together.
pub open spec fn are_staged<D: Fn(usize) -> Result<Vec<u8>>>(
    decode: D,
    indices: Seq<usize>,
    limit: u64,
    payloads: Seq<Option<Seq<u8>>>,
) -> bool {
    are_decoded(decode, indices, payloads) && retained_bytes(payloads) <= limit
}

/// Whether staging may decode a member.
pub open spec fn may_decode(
    members: Seq<ArchiveMemberMeta>,
    indices: Seq<usize>,
    solid: bool,
    index: int,
) -> bool {
    exists|last: usize| #[trigger]
        is_last(indices, last) && is_decoded(members, indices, solid, last as int, index)
}

pub open spec fn slot_bytes(slot: Option<Vec<u8>>) -> Option<Seq<u8>> {
    match slot {
        Some(data) => Some(data@),
        None => None,
    }
}

pub open spec fn slots_view(slots: Seq<Option<Vec<u8>>>) -> Seq<Option<Seq<u8>>> {
    Seq::new(slots.len(), |i: int| slot_bytes(slots[i]))
}

/// The event that frames the staging of a selection.
pub open spec fn staging_event(started: bool, plan: StagingPlan) -> WriteProgressEvent<'static> {
    if started {
        WriteProgressEvent::OperationStarted {
            operation: WriteOperation::Staging,
            total_bytes: Some(plan.total),
            total_entries: Some(plan.entries),
            pass: 1,
        }
    } else {
        WriteProgressEvent::OperationFinished {
            operation: WriteOperation::Staging,
            total_bytes: Some(plan.total),
            total_entries: Some(plan.entries),
            pass: 1,
        }
    }
}

/// The event that frames the decoding of one member.
pub open spec fn member_event<'a>(
    started: bool,
    name: &'a [u8],
    member: ArchiveMemberMeta,
    index: usize,
    total_entries: usize,
) -> WriteProgressEvent<'a> {
    if started {
        WriteProgressEvent::EntryStarted {
            operation: WriteOperation::Staging,
            index,
            total_entries,
            name,
            input_bytes: member.unpacked_size,
        }
    } else {
        WriteProgressEvent::EntryFinished {
            operation: WriteOperation::Staging,
            index,
            total_entries,
            name,
            input_bytes: member.unpacked_size,
        }
    }
}

/// Whether a receiver gets that a member is taken up and decoded.
pub open spec fn hears_of_member<P: WriteProgress>(
    progress: Option<&P>,
    member: ArchiveMemberMeta,
    index: usize,
    total_entries: usize,
) -> bool {
    exists|name: &[u8]|
        name@ == member.name@ && is_told(
            progress,
            #[trigger] member_event(true, name, member, index, total_entries),
        ) && is_told(progress, member_event(false, name, member, index, total_entries))
}

/// Whether a receiver gets of each decoded member among the first that it is taken
/// up and decoded, numbered in that order.
pub open spec fn hears_of_members<P: WriteProgress>(
    progress: Option<&P>,
    members: Seq<ArchiveMemberMeta>,
    indices: Seq<usize>,
    solid: bool,
    plan: StagingPlan,
    upto: int,
) -> bool {
    forall|i: int|
        0 <= i < upto && #[trigger] is_decoded(members, indices, solid, plan.last as int, i)
            ==> hears_of_member(
            progress,
            members[i],
            decoded_count(members, indices, solid, plan.last as int, i as nat) as usize,
            plan.entries,
        )
}

/// The event that so many bytes are decoded.
pub open spec fn staged_event(completed: nat, total: u64) -> WriteProgressEvent<'static> {
    WriteProgressEvent::Advanced {
        operation: WriteOperation::Staging,
        completed_bytes: clipped(completed),
        total_bytes: total,
        pass: 1,
    }
}

/// What a counter shows: no more than it holds.
pub open spec fn clipped(count: nat) -> u64 {
    if count <= u64::MAX {
        count as u64
    } else {
        u64::MAX
    }
}

/// Whether a payload of this length is counted after `done` bytes of it: after every
/// full chunk, and at the end.
pub open spec fn is_step(len: nat, done: nat) -> bool {
    0 < done <= len && (done % 0x1_0000 == 0 || done == len)
}

/// What members come to that decode to these lengths.
pub open spec fn lens_total(lens: Seq<nat>) -> nat
    decreases lens.len(),
{
    if lens.len() == 0 {
        0
    } else {
        lens_total(lens.drop_last()) + lens.last()
    }
}

/// Whether a receiver gets the bytes of members as they are decoded: the counter
/// goes on from member to member.
pub open spec fn hears_of_bytes<P: WriteProgress>(
    progress: Option<&P>,
    lens: Seq<nat>,
    total: u64,
) -> bool {
    forall|i: int, done: nat|
        0 <= i < lens.len() && #[trigger] is_step(lens[i], done) ==> is_told(
            progress,
            staged_event(lens_total(lens.take(i)) + done, total),
        )
}

/// Whether a member may decode to this length. One that is not decoded counts as
/// nothing.
pub open spec fn is_staged_len<D: Fn(usize) -> Result<Vec<u8>>>(
    decode: D,
    decoded: bool,
    index: int,
    len: nat,
) -> bool {
    if decoded {
        exists|payload: Seq<u8>| #[trigger]
            decodes_to(decode, index as usize, payload) && payload.len() == len
    } else {
        len == 0
    }
}

/// Whether these are the lengths that members decode to.
pub open spec fn are_staged_lens<D: Fn(usize) -> Result<Vec<u8>>>(
    decode: D,
    members: Seq<ArchiveMemberMeta>,
    indices: Seq<usize>,
    solid: bool,
    last: int,
    lens: Seq<nat>,
) -> bool {
    forall|i: int|
        0 <= i < lens.len() ==> is_staged_len(
            decode,
            is_decoded(members, indices, solid, last, i),
            i,
            #[trigger] lens[i],
        )
}

/// Whether a receiver gets the bytes of all members that a staging decodes.
pub open spec fn hears_of_payloads<D: Fn(usize) -> Result<Vec<u8>>, P: WriteProgress>(
    progress: Option<&P>,
    decode: D,
    members: Seq<ArchiveMemberMeta>,
    indices: Seq<usize>,
    solid: bool,
    plan: StagingPlan,
) -> bool {
    exists|lens: Seq<nat>| #[trigger]
        are_staged_lens(decode, members, indices, solid, plan.last as int, lens) && lens.len()
            == plan.last + 1 && hears_of_bytes(progress, lens, plan.total)
}

/// Whether a receiver gets the course of a staging: that it begins and ends, the
/// same of each member that is decoded, and how many bytes there are so far.
pub open spec fn hears_of_staging<D: Fn(usize) -> Result<Vec<u8>>, P: WriteProgress>(
    progress: Option<&P>,
    decode: D,
    members: Seq<ArchiveMemberMeta>,
    indices: Seq<usize>,
    solid: bool,
    limit: u64,
) -> bool {
    exists|plan: StagingPlan| #[trigger]
        is_plan(members, indices, solid, limit, false, plan) && is_told(
            progress,
            staging_event(true, plan),
        ) && hears_of_members(progress, members, indices, solid, plan, plan.last + 1)
            && hears_of_payloads(progress, decode, members, indices, solid, plan) && is_told(
            progress,
            staging_event(false, plan),
        )
}

/// Whether a receiver may be told of a staging: of its course, and that it is done
/// once every payload is there and it got so of every member.
pub open spec fn takes_staging<D: Fn(usize) -> Result<Vec<u8>>, P: WriteProgress>(
    progress: Option<&P>,
    decode: D,
    members: Seq<ArchiveMemberMeta>,
    indices: Seq<usize>,
    solid: bool,
    limit: u64,
) -> bool {
    &&& takes_course(progress)
    &&& forall|plan: StagingPlan, payloads: Seq<Option<Seq<u8>>>| #[trigger]
        is_plan(members, indices, solid, limit, false, plan) && #[trigger] are_staged(
            decode,
            indices,
            limit,
            payloads,
        ) && payloads.len() == plan.last + 1 && hears_of_members(
            progress,
            members,
            indices,
            solid,
            plan,
            plan.last + 1,
        ) ==> may_tell(progress, staging_event(false, plan))
}

/// Tells of an event unless the write is to stop, which is asked before and after.
fn announce<P: WriteProgress>(
    progress: Option<&P>,
    event: WriteProgressEvent<'_>,
) -> (r: Result<()>)
    requires
        may_tell(progress, event),
    ensures
        r is Err ==> is_stopped_by(progress, r),
        has_stopped(progress) ==> r is Err,
        r is Ok ==> is_told(progress, event),
{
    match ask(progress) {
        Ok(()) => {},
        Err(error) => {
            return Err(error);
        },
    }
    tell(progress, event);
    ask(progress)
}

/// Reports the bytes of a decoded payload as they become available, and gives
/// the counter behind them.
fn tell_bytes<P: WriteProgress>(
    progress: Option<&P>,
    completed: u64,
    count: usize,
    total: u64,
    Ghost(before): Ghost<nat>,
) -> (r: Result<u64>)
    requires
        takes_course(progress),
        completed == clipped(before),
    ensures
        match r {
            Ok(after) => {
                &&& after == clipped((before + count) as nat)
                &&& forall|done: nat| #[trigger]
                    is_step(count as nat, done) ==> is_told(
                        progress,
                        staged_event(before + done, total),
                    )
            },
            Err(_) => is_stopped_by(progress, r),
        },
{
    let mut left: usize = count;
    let mut shown: u64 = completed;
    while left > 0
        invariant
            left <= count,
            takes_course(progress),
            shown == clipped((before + (count - left)) as nat),
            left > 0 ==> (count - left) % 0x1_0000 == 0,
            forall|done: nat| #[trigger]
                is_step(count as nat, done) && done <= count - left ==> is_told(
                    progress,
                    staged_event(before + done, total),
                ),
        decreases left,
    {
        let ghost behind = (count - left) as nat;
        let chunk: usize = cancellable_chunk(left, true);
        shown = shown.saturating_add(chunk as u64);
        left = left - chunk;
        let event = WriteProgressEvent::Advanced {
            operation: WriteOperation::Staging,
            completed_bytes: shown,
            total_bytes: total,
            pass: 1,
        };
        assert(event == staged_event((before + (behind + chunk)) as nat, total));
        match announce(progress, event) {
            Ok(()) => {},
            Err(error) => {
                return Err(error);
            },
        }
        assert forall|done: nat| #[trigger]
            is_step(count as nat, done) && done <= count - left implies is_told(
            progress,
            staged_event(before + done, total),
        ) by {
            if done > behind && done < behind + chunk {
                // Between two multiples of the chunk there is none.
                assert(behind % 0x1_0000 == 0 && done % 0x1_0000 == 0);
            }
        }
    }
    Ok(shown)
}

/// Decodes members in archive order and keeps the payloads of the selected ones.
fn decode_selection<D: Fn(usize) -> Result<Vec<u8>>, P: WriteProgress>(
    members: &Vec<ArchiveMemberMeta>,
    indices: &[usize],
    solid: bool,
    plan: StagingPlan,
    limit: u64,
    decode: &D,
    progress: Option<&P>,
) -> (r: Result<Vec<Option<Vec<u8>>>>)
    requires
        takes_course(progress),
        is_last(indices@, plan.last),
        plan.last < members@.len(),
        forall|index: usize|
            may_decode(members@, indices@, solid, index as int) ==> #[trigger] call_requires(
                *decode,
                (index,),
            ),
    ensures
        match r {
            Ok(slots) => slots@.len() == plan.last + 1 && are_staged(
                *decode,
                indices@,
                limit,
                slots_view(slots@),
            ) && hears_of_members(progress, members@, indices@, solid, plan, plan.last + 1)
                && hears_of_payloads(progress, *decode, members@, indices@, solid, plan),
            Err(error) => is_staging_failure(
                *decode,
                members@,
                indices@,
                solid,
                limit,
                error,
            ) || (may_stop(progress) && error == Error::Cancelled),
        },
{
    let last: usize = plan.last;
    let total: usize = members.len();
    let mut staged = StagedBytes::new(limit);
    let mut slots: Vec<Option<Vec<u8>>> = Vec::new();
    let mut current: usize = 0;
    let mut decoded: usize = 0;
    let mut completed: u64 = 0;
    let ghost mut lens: Seq<nat> = Seq::empty();
    assert(slots_view(slots@) =~= Seq::empty());
    while current <= last
        invariant
            takes_course(progress),
            lens.len() == current,
            are_staged_lens(*decode, members@, indices@, solid, last as int, lens),
            hears_of_bytes(progress, lens, plan.total),
            completed == clipped(lens_total(lens)),
            current <= last + 1,
            decoded <= current,
            decoded == decoded_count(members@, indices@, solid, last as int, current as nat),
            last == plan.last,
            hears_of_members(progress, members@, indices@, solid, plan, current as int),
            last < total,
            total == members@.len(),
            is_last(indices@, last),
            slots@.len() == current,
            staged.limit == limit,
            staged.used <= limit,
            staged.used == retained_bytes(slots_view(slots@)),
            are_staged(*decode, indices@, limit, slots_view(slots@)),
            forall|index: usize|
                may_decode(members@, indices@, solid, index as int) ==> #[trigger] call_requires(
                    *decode,
                    (index,),
                ),
        decreases last + 1 - current,
    {
        let ghost before = slots_view(slots@);
        let decision = decide(members, indices, solid, last, current);
        let mut slot: Option<Vec<u8>> = None;
        let ghost mut len: nat = 0;
        match decision {
            StageDecision::Decode { retain } => {
                assert(may_decode(members@, indices@, solid, current as int));
                let name: &[u8] = members[current].name.as_slice();
                let started = WriteProgressEvent::EntryStarted {
                    operation: WriteOperation::Staging,
                    index: decoded,
                    total_entries: plan.entries,
                    name,
                    input_bytes: members[current].unpacked_size,
                };
                match announce(progress, started) {
                    Ok(()) => {},
                    Err(error) => {
                        return Err(error);
                    },
                }
                let data = match decode(current) {
                    Ok(data) => data,
                    Err(error) => {
                        assert(call_ensures(
                            *decode,
                            (current,),
                            Err::<Vec<u8>, Error>(error),
                        ));
                        return Err(error);
                    },
                };
                assert(call_ensures(*decode, (current,), Ok::<Vec<u8>, Error>(data)));
                match tell_bytes(
                    progress,
                    completed,
                    data.len(),
                    plan.total,
                    Ghost(lens_total(lens)),
                ) {
                    Ok(after) => {
                        completed = after;
                        proof {
                            len = data@.len();
                            assert(decodes_to(*decode, (current as int) as usize, data@));
                            assert(is_staged_len(*decode, true, current as int, len));
                        }
                    },
                    Err(error) => {
                        return Err(error);
                    },
                }
                if retain {
                    let count: usize = data.len();
                    match staged.reserve(count as u64) {
                        Ok(()) => {},
                        Err(error) => {
                            proof {
                                let after = before.push(Some(data@));
                                assert(after.drop_last() =~= before);
                                assert(are_decoded(*decode, indices@, after));
                            }
                            return Err(error);
                        },
                    }
                    slot = Some(data);
                }
                let finished = WriteProgressEvent::EntryFinished {
                    operation: WriteOperation::Staging,
                    index: decoded,
                    total_entries: plan.entries,
                    name,
                    input_bytes: members[current].unpacked_size,
                };
                match announce(progress, finished) {
                    Ok(()) => {},
                    Err(error) => {
                        return Err(error);
                    },
                }
                proof {
                    let member = members@[current as int];
                    assert(started == member_event(true, name, member, decoded, plan.entries));
                    assert(finished == member_event(false, name, member, decoded, plan.entries));
                    assert(hears_of_member(progress, member, decoded, plan.entries));
                }
                decoded = decoded + 1;
            },
            _ => {},
        }
        proof {
            lemma_one_more_len(
                progress,
                *decode,
                members@,
                indices@,
                solid,
                plan,
                lens,
                len,
            );
            lens = lens.push(len);
        }
        let ghost slot_view = slot_bytes(slot);
        let ghost earlier = slots@;
        slots.push(slot);
        proof {
            let after = slots_view(slots@);
            assert(after =~= before.push(slot_view));
            assert(after.drop_last() =~= before);
            assert forall|i: int| 0 <= i < after.len() implies match #[trigger] after[i] {
                Some(payload) => is_selected(indices@, i) && decodes_to(
                    *decode,
                    i as usize,
                    payload,
                ),
                None => !is_selected(indices@, i),
            } by {
                if i < before.len() {
                    assert(after[i] == before[i]);
                }
            }
        }
        current = current + 1;
    }
    assert(hears_of_payloads(progress, *decode, members@, indices@, solid, plan));
    Ok(slots)
}

proof fn lemma_one_more_len<D: Fn(usize) -> Result<Vec<u8>>, P: WriteProgress>(
    progress: Option<&P>,
    decode: D,
    members: Seq<ArchiveMemberMeta>,
    indices: Seq<usize>,
    solid: bool,
    plan: StagingPlan,
    lens: Seq<nat>,
    len: nat,
)
    requires
        are_staged_lens(decode, members, indices, solid, plan.last as int, lens),
        hears_of_bytes(progress, lens, plan.total),
        is_staged_len(
            decode,
            is_decoded(members, indices, solid, plan.last as int, lens.len() as int),
            lens.len() as int,
            len,
        ),
        forall|done: nat| #[trigger]
            is_step(len, done) ==> is_told(
                progress,
                staged_event(lens_total(lens) + done, plan.total),
            ),
    ensures
        are_staged_lens(decode, members, indices, solid, plan.last as int, lens.push(len)),
        hears_of_bytes(progress, lens.push(len), plan.total),
        lens_total(lens.push(len)) == lens_total(lens) + len,
{
    let more = lens.push(len);
    assert(more.drop_last() =~= lens);
    assert forall|i: int, done: nat|
        0 <= i < more.len() && #[trigger] is_step(more[i], done) implies is_told(
        progress,
        staged_event(lens_total(more.take(i)) + done, plan.total),
    ) by {
        if i < lens.len() {
            assert(more.take(i) =~= lens.take(i));
            assert(is_step(lens[i], done));
        } else {
            assert(more.take(i) =~= lens);
        }
    }
    assert forall|i: int| 0 <= i < more.len() implies is_staged_len(
        decode,
        is_decoded(members, indices, solid, plan.last as int, i),
        i,
        #[trigger] more[i],
    ) by {
        if i < lens.len() {
            assert(more[i] == lens[i]);
        }
    }
}

/// Whether staging may fail with this error once members are being decoded: a
/// member that has to be decoded cannot be, or the payloads up to some member
/// turn out to exceed the limit.
pub open spec fn is_staging_failure<D: Fn(usize) -> Result<Vec<u8>>>(
    decode: D,
    members: Seq<ArchiveMemberMeta>,
    indices: Seq<usize>,
    solid: bool,
    limit: u64,
    error: Error,
) -> bool {
    ||| exists|index: usize|
        may_decode(members, indices, solid, index as int) && #[trigger] call_ensures(
            decode,
            (index,),
            Err::<Vec<u8>, Error>(error),
        )
    ||| exists|payloads: Seq<Option<Seq<u8>>>| #[trigger]
        are_decoded(decode, indices, payloads) && retained_bytes(payloads) > limit && error
            == (Error::RewriteStagingLimitExceeded {
            limit,
            required: if retained_bytes(payloads) <= u64::MAX {
                retained_bytes(payloads) as u64
            } else {
                u64::MAX
            },
        })
}

/// The outcome of staging a selection: payloads in the order asked for, each as
/// its member decodes to, all of them within the limit.
pub open spec fn staging_outcome<D: Fn(usize) -> Result<Vec<u8>>>(
    decode: D,
    members: Seq<ArchiveMemberMeta>,
    indices: Seq<usize>,
    solid: bool,
    limit: u64,
    r: Result<Vec<EntrySource>>,
) -> bool {
    match selection_error(members, indices, limit, false) {
        Some(error) => r == Err::<Vec<EntrySource>, Error>(error),
        None => match r {
            Ok(sources) => sources@.len() == indices.len() && exists|
                payloads: Seq<Option<Seq<u8>>>,
            |
                #[trigger] are_staged(decode, indices, limit, payloads) && forall|k: int|
                    0 <= k < indices.len() ==> indices[k] < payloads.len() && (
                    #[trigger] sources@[k]).bytes() == payloads[indices[k] as int],
            Err(error) => is_staging_failure(decode, members, indices, solid, limit, error),
        },
    }
}

/// Decodes and keeps the payloads of the selected members, in one pass over the
/// archive. In a solid archive the members before them are decoded too.
pub fn stage<D: Fn(usize) -> Result<Vec<u8>>, P: WriteProgress>(
    members: &Vec<ArchiveMemberMeta>,
    indices: &[usize],
    solid: bool,
    limit: u64,
    decode: &D,
    progress: Option<&P>,
) -> (r: Result<Vec<EntrySource>>)
    requires
        forall|index: usize|
            may_decode(members@, indices@, solid, index as int) ==> #[trigger] call_requires(
                *decode,
                (index,),
            ),
        selection_error(members@, indices@, limit, false) is None && indices@.len() > 0
            ==> takes_staging(progress, *decode, members@, indices@, solid, limit),
    ensures
        is_stopped_by(progress, r) || staging_outcome(
            *decode,
            members@,
            indices@,
            solid,
            limit,
            r,
        ),
        has_stopped(progress) ==> r == Err::<Vec<EntrySource>, Error>(Error::Cancelled),
        indices@.len() == 0 ==> is_stopped_by(progress, r) || (r matches Ok(sources)
            && sources@.len() == 0),
        r is Ok && indices@.len() > 0 ==> hears_of_staging(
            progress,
            *decode,
            members@,
            indices@,
            solid,
            limit,
        ),
{
    match ask(progress) {
        Ok(()) => {},
        Err(error) => {
            return Err(error);
        },
    }
    let plan = match plan_staging(members, indices, solid, limit, false) {
        Ok(Some(plan)) => plan,
        Ok(None) => {
            let sources: Vec<EntrySource> = Vec::new();
            proof {
                let nothing: Seq<Option<Seq<u8>>> = Seq::empty();
                assert(are_staged(*decode, indices@, limit, nothing));
            }
            return Ok(sources);
        },
        Err(error) => {
            return Err(error);
        },
    };
    let started = WriteProgressEvent::OperationStarted {
        operation: WriteOperation::Staging,
        total_bytes: Some(plan.total),
        total_entries: Some(plan.entries),
        pass: 1,
    };
    match announce(progress, started) {
        Ok(()) => {},
        Err(error) => {
            return Err(error);
        },
    }
    let slots = match decode_selection(members, indices, solid, plan, limit, decode, progress) {
        Ok(slots) => slots,
        Err(error) => {
            return Err(error);
        },
    };
    let finished = WriteProgressEvent::OperationFinished {
        operation: WriteOperation::Staging,
        total_bytes: Some(plan.total),
        total_entries: Some(plan.entries),
        pass: 1,
    };
    match ask(progress) {
        Ok(()) => {},
        Err(error) => {
            return Err(error);
        },
    }
    assert(started == staging_event(true, plan));
    assert(finished == staging_event(false, plan));
    // From here on nothing fails any more.
    tell(progress, finished);
    assert(hears_of_staging(progress, *decode, members@, indices@, solid, limit));
    let ghost payloads = slots_view(slots@);
    let ghost given = slots@;
    let mut left = slots;
    let mut sources: Vec<EntrySource> = Vec::new();
    let mut k: usize = 0;
    while k < indices.len()
        invariant
            k <= indices@.len(),
            !has_duplicates(indices@),
            selection_error(members@, indices@, limit, false) is None,
            is_last(indices@, plan.last),
            payloads.len() == plan.last + 1,
            payloads == slots_view(given),
            left@.len() == given.len(),
            are_staged(*decode, indices@, limit, payloads),
            sources@.len() == k,
            forall|i: int|
                0 <= i < left@.len() && (forall|j: int| 0 <= j < k ==> #[trigger] indices@[j] != i)
                    ==> #[trigger] left@[i] == given[i],
            forall|j: int|
                0 <= j < k ==> indices@[j] < payloads.len() && (#[trigger] sources@[j]).bytes()
                    == payloads[indices@[j] as int],
        decreases indices@.len() - k,
    {
        let index: usize = indices[k];
        proof {
            assert(is_selected(indices@, index as int));
            assert(indices@[k as int] <= plan.last);
            assert forall|j: int| 0 <= j < k implies #[trigger] indices@[j] != index by {
                if indices@[j] == index {
                    assert(indices@[j] == indices@[k as int]);
                }
            }
            assert(left@[index as int] == given[index as int]);
            assert(payloads[index as int] == slot_bytes(given[index as int]));
            assert(payloads[index as int] is Some);
        }
        let ghost before = left@;
        let mut taken: Option<Vec<u8>> = None;
        std::mem::swap(&mut left[index], &mut taken);
        assert(taken == given[index as int]);
        match taken {
            Some(data) => {
                sources.push(EntrySource::from_bytes(data));
            },
            None => {
                return Err(Error::InvalidHeader("staged rewrite member disappeared"));
            },
        }
        proof {
            assert forall|i: int|
                0 <= i < left@.len() && (forall|j: int|
                    0 <= j < k + 1 ==> #[trigger] indices@[j] != i) implies #[trigger] left@[i]
                == given[i] by {
                assert(indices@[k as int] != i);
                assert(left@[i] == before[i]);
            }
        }
        k = k + 1;
    }
    Ok(sources)
}

impl Archive {
    /// Stages the payloads of the selected members. `decode` decodes and
    /// verifies the payload of one member.
    ///
    /// Indices count all members, but selected ones must be distinct, unsplit
    /// payload members. Sources come in the order asked for; nothing is returned
    /// on failure.
    pub fn stage_rewrite_sources<D: Fn(usize) -> Result<Vec<u8>>>(
        &self,
        indices: &[usize],
        cancellation: &ReadCancellation,
        staging: &RewriteStaging,
        decode: &D,
    ) -> (r: Result<Vec<EntrySource>>)
        requires
            forall|index: usize|
                may_decode(self.members@, indices@, self.solid(), index as int)
                    ==> #[trigger] call_requires(*decode, (index,)),
        ensures
            if cancellation.is_set() {
                r == Err::<Vec<EntrySource>, Error>(Error::Cancelled)
            } else {
                staging_outcome(
                    *decode,
                    self.members@,
                    indices@,
                    self.solid(),
                    staging.max_staged_bytes,
                    r,
                )
            },
    {
        self.stage_rewrite_sources_with_progress::<D, Unobserved>(
            indices,
            cancellation,
            staging,
            decode,
            None,
        )
    }

    /// As [`Archive::stage_rewrite_sources`], reporting a staging phase. It counts
    /// decoded bytes, those of discarded members of a solid archive with them.
    /// Entries are numbered in the order in which they are decoded.
    pub fn stage_rewrite_sources_with_progress<D: Fn(usize) -> Result<Vec<u8>>, P: WriteProgress>(
        &self,
        indices: &[usize],
        cancellation: &ReadCancellation,
        staging: &RewriteStaging,
        decode: &D,
        progress: Option<&P>,
    ) -> (r: Result<Vec<EntrySource>>)
        requires
            forall|index: usize|
                may_decode(self.members@, indices@, self.solid(), index as int)
                    ==> #[trigger] call_requires(*decode, (index,)),
            !cancellation.is_set() && selection_error(
                self.members@,
                indices@,
                staging.max_staged_bytes,
                false,
            ) is None && indices@.len() > 0 ==> takes_staging(
                progress,
                *decode,
                self.members@,
                indices@,
                self.solid(),
                staging.max_staged_bytes,
            ),
        ensures
            if cancellation.is_set() {
                r == Err::<Vec<EntrySource>, Error>(Error::Cancelled)
            } else {
                is_stopped_by(progress, r) || staging_outcome(
                    *decode,
                    self.members@,
                    indices@,
                    self.solid(),
                    staging.max_staged_bytes,
                    r,
                )
            },
            has_stopped(progress) ==> r == Err::<Vec<EntrySource>, Error>(Error::Cancelled),
            !cancellation.is_set() && indices@.len() == 0 ==> is_stopped_by(progress, r) || (
            r matches Ok(sources) && sources@.len() == 0),
            r is Ok && indices@.len() > 0 ==> hears_of_staging(
                progress,
                *decode,
                self.members@,
                indices@,
                self.solid(),
                staging.max_staged_bytes,
            ),
    {
        match check_cancelled(cancellation.is_cancelled()) {
            Ok(()) => {},
            Err(error) => {
                return Err(error);
            },
        }
        stage(&self.members, indices, self.is_solid(), staging.max_staged_bytes, decode, progress)
    }
}

} // verus!
