//! Repairing a whole archive: its protected prefix, its recovery record and
//! its end.
use vstd::prelude::*;

use crate::bytes::{push_all, same_bytes};
use crate::recovery::rar5::chunk::{
    chunks_from, found_view, ChunkContent, FoundContent, FoundInlineRecoveryChunk,
};
use crate::recovery::rar5::error::{Error, Result};
use crate::recovery::rar5::plan::{inline_recovery_plan, plan_inline_recovery, InlineRecoveryPlan};
use crate::recovery::rar5::record::{
    build_error, build_structural_inline_recovery_data, record_bytes,
};
use crate::recovery::rar5::repair::{
    chunk_wf, count_distinct_rows, distinct_rows, find_chunks, found_contents, is_repair_outcome,
    repair_with_chunks,
};

verus! {

/// What a repair did.
#[derive(Debug, Clone, Copy, PartialEq, Eq, Structural)]
pub struct RecoveryRepairReport {
    pub changed: bool,
    pub data_repaired: bool,
    pub recovery_record_rebuilt: bool,
    pub end_record_rebuilt: bool,
    pub available_recovery_shards: Option<u64>,
    pub expected_recovery_shards: Option<u64>,
}

/// Where the record would start if this chunk is at its place in it.
pub open spec fn implied_start(found: FoundContent, shard_size: int) -> int {
    found.offset - found.content.shard_index * shard_size
}

/// The record starts here: the earliest start that a chunk implies, among
/// those within the archive.
pub open spec fn is_record_start(found: Seq<FoundContent>, shard_size: int, start: int) -> bool {
    &&& start >= 0
    &&& exists|i: int| 0 <= i < found.len() && #[trigger] implied_start(found[i], shard_size) == start
    &&& forall|i: int|
        0 <= i < found.len() && #[trigger] implied_start(found[i], shard_size) >= 0 ==> start
            <= implied_start(found[i], shard_size)
}

/// No chunk can be at its place in a record within the archive.
pub open spec fn no_record_start(found: Seq<FoundContent>, shard_size: int) -> bool {
    forall|i: int| 0 <= i < found.len() ==> #[trigger] implied_start(found[i], shard_size) < 0
}

/// `percent` is the least that gives this plan.
pub open spec fn is_least_percent(size: int, plan: InlineRecoveryPlan, percent: int) -> bool {
    &&& 1 <= percent <= 100
    &&& inline_recovery_plan(size, percent) == plan
    &&& forall|p: int| 1 <= p < percent ==> #[trigger] inline_recovery_plan(size, p) != plan
}

/// No percentage gives this plan.
pub open spec fn no_percent(size: int, plan: InlineRecoveryPlan) -> bool {
    forall|p: int| 1 <= p <= 100 ==> #[trigger] inline_recovery_plan(size, p) != plan
}

/// The archive with its prefix repaired, its record rebuilt where it is
/// incomplete, and an end appended where it was cut off.
pub open spec fn assembled(
    input: Seq<u8>,
    prefix: Seq<u8>,
    record_start: int,
    record_end: int,
    rebuilt: Option<Seq<u8>>,
    end_record: Seq<u8>,
) -> Seq<u8> {
    let body = match rebuilt {
        Some(record) => prefix + input.subrange(prefix.len() as int, record_start) + record + (
        if record_end < input.len() {
            input.skip(record_end)
        } else {
            Seq::empty()
        }),
        None => prefix + input.skip(prefix.len() as int),
    };
    if record_end >= input.len() {
        body + end_record
    } else {
        body
    }
}

/// What repairing an archive returns, for the repaired prefix and the start of the
/// record given.
pub open spec fn is_outcome_at(
    input: Seq<u8>,
    end_record: Option<Seq<u8>>,
    repaired_prefix: Seq<u8>,
    start: int,
    outcome: core::result::Result<(Seq<u8>, RecoveryRepairReport), Error>,
) -> bool {
    let found = chunks_from(input, 0);
    let plan = found[0].content.plan;
    let protected = found[0].content.protected_size as int;
    let payload = plan.recovery_shards * plan.shard_size;
    let available = distinct_rows(found_contents(found)).len();
    let end = start + payload;
    let incomplete = available != plan.recovery_shards || end > input.len();
    if start < protected {
        outcome is Err && outcome->Err_0 == Error::BadRecoveryChunk
    } else if payload > usize::MAX || end > usize::MAX {
        outcome is Err && outcome->Err_0 == Error::PlanOverflow
    } else if incomplete && no_percent(protected, plan) {
        outcome is Err && outcome->Err_0 == Error::BadRecoveryChunk
    } else if incomplete && build_error(plan) is Some {
        outcome is Err && outcome->Err_0 == build_error(plan)->0
    } else if end >= input.len() && end_record is None {
        outcome is Err && outcome->Err_0 == Error::BadRecoveryChunk
    } else {
        let rebuilt = if incomplete {
            Some(record_bytes(repaired_prefix, plan, plan.recovery_shards as nat))
        } else {
            None
        };
        let bytes = assembled(
            input,
            repaired_prefix,
            start,
            end,
            rebuilt,
            if end_record is Some {
                end_record->0
            } else {
                Seq::empty()
            },
        );
        &&& outcome is Ok
        &&& outcome->Ok_0.0 == bytes
        &&& outcome->Ok_0.1 == RecoveryRepairReport {
            changed: bytes != input,
            data_repaired: repaired_prefix != input.take(protected),
            recovery_record_rebuilt: incomplete,
            end_record_rebuilt: end >= input.len(),
            available_recovery_shards: Some(available as u64),
            expected_recovery_shards: Some(plan.recovery_shards),
        }
    }
}

/// What repairing an archive returns, for the repaired prefix given.
pub open spec fn is_archive_outcome(
    input: Seq<u8>,
    end_record: Option<Seq<u8>>,
    repaired_prefix: Seq<u8>,
    outcome: core::result::Result<(Seq<u8>, RecoveryRepairReport), Error>,
) -> bool {
    let found = chunks_from(input, 0);
    let size = found[0].content.plan.shard_size as int;
    if no_record_start(found, size) {
        outcome is Err && outcome->Err_0 == Error::BadRecoveryChunk
    } else {
        exists|start: int| #[trigger]
            is_record_start(found, size, start) && is_outcome_at(
                input,
                end_record,
                repaired_prefix,
                start,
                outcome,
            )
    }
}

/// What the whole repair returns.
pub open spec fn is_archive_repair(
    input: Seq<u8>,
    end_record: Option<Seq<u8>>,
    outcome: core::result::Result<(Seq<u8>, RecoveryRepairReport), Error>,
) -> bool {
    let found = chunks_from(input, 0);
    let protected = found[0].content.protected_size;
    if found.len() == 0 {
        outcome is Err && outcome->Err_0 == Error::BadRecoveryChunk
    } else if protected > usize::MAX {
        outcome is Err && outcome->Err_0 == Error::PlanOverflow
    } else if protected > input.len() {
        outcome is Err && outcome->Err_0 == Error::BadRecoveryChunk
    } else {
        exists|prefix: core::result::Result<Seq<u8>, Error>| #[trigger]
            is_repair_outcome(input.take(protected as int), found_contents(found), prefix)
                && match prefix {
                Ok(bytes) => is_archive_outcome(input, end_record, bytes, outcome),
                Err(error) => outcome is Err && outcome->Err_0 == error,
            }
    }
}

/// The least percentage that gives a plan.
fn least_percent(size: u64, plan: InlineRecoveryPlan) -> (percent: Option<u64>)
    ensures
        match percent {
            Some(percent) => is_least_percent(size as int, plan, percent as int),
            None => no_percent(size as int, plan),
        },
{
    let mut percent: u64 = 1;
    while percent <= 100
        invariant
            1 <= percent <= 101,
            forall|p: int|
                1 <= p < percent ==> #[trigger] inline_recovery_plan(size as int, p) != plan,
        decreases 101 - percent,
    {
        match plan_inline_recovery(size, percent) {
            Ok(candidate) => {
                if candidate == plan {
                    return Some(percent);
                }
            },
            Err(_) => {},
        }
        percent += 1;
    }
    None
}

/// Finds where the record starts.
fn find_record_start(chunks: &[FoundInlineRecoveryChunk], shard_size: u64) -> (start: Option<u64>)
    requires
        shard_size <= u32::MAX,
        forall|i: int| 0 <= i < chunks@.len() ==> chunk_wf((#[trigger] chunks@[i]).chunk@),
    ensures
        match start {
            Some(start) => is_record_start(found_view(chunks@), shard_size as int, start as int),
            None => no_record_start(found_view(chunks@), shard_size as int),
        },
{
    let ghost found = found_view(chunks@);
    let mut start: Option<u64> = None;
    let mut i: usize = 0;
    while i < chunks.len()
        invariant
            i <= chunks@.len(),
            shard_size <= u32::MAX,
            found == found_view(chunks@),
            forall|k: int| 0 <= k < chunks@.len() ==> chunk_wf((#[trigger] chunks@[k]).chunk@),
            match start {
                Some(start) => {
                    &&& exists|k: int|
                        0 <= k < i && #[trigger] implied_start(found[k], shard_size as int) == start
                    &&& forall|k: int|
                        0 <= k < i && #[trigger] implied_start(found[k], shard_size as int) >= 0
                            ==> start <= implied_start(found[k], shard_size as int)
                },
                None => forall|k: int|
                    0 <= k < i ==> #[trigger] implied_start(found[k], shard_size as int) < 0,
            },
        decreases chunks@.len() - i,
    {
        assert(chunk_wf(chunks@[i as int].chunk@));
        assert(found[i as int] == chunks@[i as int]@);
        let index: u64 = chunks[i].chunk.shard_index as u64;
        let offset: u64 = chunks[i].offset as u64;
        assert(0 <= index * shard_size <= 0x1_0000 * 0xffff_ffff) by (nonlinear_arith)
            requires
                index < 0x1_0000,
                shard_size <= 0xffff_ffff,
        ;
        let distance: u64 = index * shard_size;
        let ghost here = implied_start(found[i as int], shard_size as int);
        if offset >= distance {
            let candidate: u64 = offset - distance;
            assert(here == candidate);
            start = match start {
                None => Some(candidate),
                Some(best) => if candidate < best {
                    Some(candidate)
                } else {
                    Some(best)
                },
            };
        } else {
            assert(here < 0);
        }
        i += 1;
    }
    start
}

/// Repairs an archive and reports what was done.
///
/// `end_record` is what to append where the archive is cut off at its
/// recovery record.
pub fn repair_inline_recovery_archive_with_report(
    input: &[u8],
    end_record: Option<&[u8]>,
) -> (result: Result<(Vec<u8>, RecoveryRepairReport)>)
    ensures
        is_archive_repair(
            input@,
            match end_record {
                Some(bytes) => Some(bytes@),
                None => None,
            },
            match result {
                Ok(done) => Ok((done.0@, done.1)),
                Err(error) => Err(error),
            },
        ),
{
    let ghost end_bytes = match end_record {
        Some(bytes) => Some(bytes@),
        None => None,
    };
    let ghost found = chunks_from(input@, 0);
    let chunks = match find_chunks(input) {
        Ok(chunks) => chunks,
        Err(error) => {
            return Err(error);
        },
    };
    assert(found[0] == chunks@[0]@);
    assert(chunk_wf(chunks@[0].chunk@));
    let len: usize = input.len();
    let plan = chunks[0].chunk.plan;
    let protected: u64 = chunks[0].chunk.protected_size;
    if protected > usize::MAX as u64 {
        return Err(Error::PlanOverflow);
    }
    if protected > len as u64 {
        return Err(Error::BadRecoveryChunk);
    }
    let protected_size: usize = protected as usize;
    let original = vstd::slice::slice_subrange(input, 0, protected_size);
    assert(original@ =~= input@.take(protected as int));
    let prefix = match repair_with_chunks(original, chunks.as_slice()) {
        Ok(prefix) => prefix,
        Err(error) => {
            assert(is_repair_outcome(original@, found_contents(found), Err(error)));
            return Err(error);
        },
    };
    assert(is_repair_outcome(original@, found_contents(found), Ok(prefix@)));
    proof {
        lemma_repair_len(original@, found_contents(found), prefix@);
    }
    let data_repaired: bool = !same_bytes(prefix.as_slice(), original);
    let available: u64 = count_distinct_rows(chunks.as_slice());
    let expected: u64 = plan.recovery_shards;
    let start: u64 = match find_record_start(chunks.as_slice(), plan.shard_size) {
        Some(start) => start,
        None => {
            return Err(Error::BadRecoveryChunk);
        },
    };
    assert(is_record_start(found, plan.shard_size as int, start as int));
    assert(start <= len) by {
        let i = choose|i: int|
            0 <= i < found.len() && #[trigger] implied_start(found[i], plan.shard_size as int)
                == start;
        assert(found[i] == chunks@[i]@);
        assert(chunk_wf(chunks@[i].chunk@));
        assert(found[i].content.shard_index * plan.shard_size >= 0) by (nonlinear_arith)
            requires
                found[i].content.shard_index >= 0,
                plan.shard_size >= 0,
        ;
    }
    if start < protected {
        return Err(Error::BadRecoveryChunk);
    }
    let payload: u64 = match plan.payload_size() {
        Ok(payload) => payload,
        Err(error) => {
            return Err(error);
        },
    };
    if payload > usize::MAX as u64 {
        return Err(Error::PlanOverflow);
    }
    let record_start: usize = start as usize;
    let record_end: usize = match record_start.checked_add(payload as usize) {
        Some(end) => end,
        None => {
            return Err(Error::PlanOverflow);
        },
    };
    let incomplete: bool = available != expected || record_end > len;
    let mut repaired: Vec<u8> = Vec::new();
    push_all(&mut repaired, prefix.as_slice());
    assert(repaired@ =~= prefix@);
    if incomplete {
        let percent: u64 = match least_percent(protected, plan) {
            Some(percent) => percent,
            None => {
                return Err(Error::BadRecoveryChunk);
            },
        };
        let rebuilt = match build_structural_inline_recovery_data(prefix.as_slice(), percent) {
            Ok(rebuilt) => rebuilt,
            Err(error) => {
                return Err(error);
            },
        };
        push_all(&mut repaired, vstd::slice::slice_subrange(input, protected_size, record_start));
        push_all(&mut repaired, rebuilt.as_slice());
        if record_end < len {
            let tail = vstd::slice::slice_subrange(input, record_end, len);
            assert(tail@ =~= input@.skip(record_end as int));
            push_all(&mut repaired, tail);
        } else {
            assert(repaired@ + Seq::<u8>::empty() =~= repaired@);
        }
    } else {
        let tail = vstd::slice::slice_subrange(input, protected_size, len);
        assert(tail@ =~= input@.skip(protected as int));
        push_all(&mut repaired, tail);
    }
    let end_record_rebuilt: bool = record_end >= len;
    if end_record_rebuilt {
        match end_record {
            Some(bytes) => {
                push_all(&mut repaired, bytes);
            },
            None => {
                return Err(Error::BadRecoveryChunk);
            },
        }
    }
    let changed: bool = !same_bytes(repaired.as_slice(), input);
    let report = RecoveryRepairReport {
        changed,
        data_repaired,
        recovery_record_rebuilt: incomplete,
        end_record_rebuilt,
        available_recovery_shards: Some(available),
        expected_recovery_shards: Some(expected),
    };
    Ok((repaired, report))
}

/// A repaired prefix has the length of the damaged one.
proof fn lemma_repair_len(prefix: Seq<u8>, chunks: Seq<ChunkContent>, repaired: Seq<u8>)
    requires
        is_repair_outcome(prefix, chunks, Ok(repaired)),
    ensures
        repaired.len() == prefix.len(),
{
}

/// Repairs an archive whose end is in place.
pub fn repair_inline_recovery_archive(input: &[u8]) -> (result: Result<Vec<u8>>)
    ensures
        exists|outcome: core::result::Result<(Seq<u8>, RecoveryRepairReport), Error>| #[trigger]
            is_archive_repair(input@, None, outcome) && match result {
                Ok(bytes) => outcome is Ok && bytes@ == outcome->Ok_0.0,
                Err(error) => outcome is Err && outcome->Err_0 == error,
            },
{
    match repair_inline_recovery_archive_with_report(input, None) {
        Ok(done) => {
            assert(is_archive_repair(input@, None, Ok((done.0@, done.1))));
            Ok(done.0)
        },
        Err(error) => {
            assert(is_archive_repair(input@, None, Err(error)));
            Err(error)
        },
    }
}

} // verus!
