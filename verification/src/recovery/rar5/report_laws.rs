//! What the report of a repair tells.

use vstd::prelude::*;

#[allow(unused_imports)]
use crate::recovery::rar5::archive::{
    assembled, implied_start, is_archive_outcome, is_archive_repair, is_outcome_at, is_record_start,
    RecoveryRepairReport,
};
#[allow(unused_imports)]
use crate::recovery::rar5::chunk::chunks_from;
#[allow(unused_imports)]
use crate::recovery::rar5::error::Error;
#[allow(unused_imports)]
use crate::recovery::rar5::plan::inline_recovery_plan;
#[allow(unused_imports)]
use crate::recovery::rar5::record::{last_extent, lemma_plan_of, record_bytes};
#[allow(unused_imports)]
use crate::recovery::rar5::repair::{
    distinct_rows, found_contents, is_repair_outcome, lemma_found_wf,
};

verus! {

proof fn lemma_assembled(
    input: Seq<u8>,
    prefix: Seq<u8>,
    start: int,
    end: int,
    rebuilt: Option<Seq<u8>>,
    end_record: Seq<u8>,
)
    requires
        prefix.len() <= input.len(),
        prefix.len() <= start <= end,
        rebuilt is Some ==> start <= input.len(),
        rebuilt is None ==> end <= input.len(),
    ensures
        ({
            let bytes = assembled(input, prefix, start, end, rebuilt, end_record);
            let len = prefix.len() as int;
            &&& bytes.len() >= len
            &&& bytes.take(len) == prefix
            &&& rebuilt is None && end < input.len() ==> bytes == prefix + input.skip(len)
            &&& end >= input.len() ==> bytes.len() >= end_record.len() && bytes.skip(
                bytes.len() - end_record.len(),
            ) == end_record
            &&& rebuilt is None ==> bytes.subrange(len, input.len() as int) == input.skip(len)
        }),
{
    let bytes = assembled(input, prefix, start, end, rebuilt, end_record);
    let len = prefix.len() as int;
    assert(bytes.take(len) =~= prefix);
    if end >= input.len() {
        assert(bytes.skip(bytes.len() - end_record.len()) =~= end_record);
    }
    if rebuilt is None {
        assert(bytes.subrange(len, input.len() as int) =~= input.skip(len));
    }
}

proof fn lemma_reported(
    input: Seq<u8>,
    end_record: Option<Seq<u8>>,
    prefix: Seq<u8>,
    start: int,
    bytes: Seq<u8>,
    report: RecoveryRepairReport,
)
    requires
        is_outcome_at(
            input,
            end_record,
            prefix,
            start,
            Ok::<(Seq<u8>, RecoveryRepairReport), Error>((bytes, report)),
        ),
        prefix.len() == chunks_from(input, 0)[0].content.protected_size,
        prefix.len() <= input.len(),
        start <= input.len(),
    ensures
        is_told_truly(input, end_record, bytes, report),
{
    let found = chunks_from(input, 0);
    let plan = found[0].content.plan;
    let available = distinct_rows(found_contents(found)).len();
    let end = start + plan.recovery_shards * plan.shard_size;
    let incomplete = available != plan.recovery_shards || end > input.len();
    let rebuilt = if incomplete {
        Some(
            record_bytes(
                prefix,
                plan,
                plan.recovery_shards as nat,
            ),
        )
    } else {
        None
    };
    let tail = if end_record is Some {
        end_record->0
    } else {
        Seq::empty()
    };
    assert(plan.recovery_shards * plan.shard_size >= 0) by (nonlinear_arith)
        requires
            plan.recovery_shards >= 0,
            plan.shard_size >= 0,
    ;
    lemma_assembled(input, prefix, start, end, rebuilt, tail);
    let len = prefix.len() as int;
    if !report.data_repaired && !report.recovery_record_rebuilt && !report.end_record_rebuilt {
        assert(input.take(len) + input.skip(len) =~= input);
    }
}

/// Whether a report tells what became of an archive: whether any byte of it is another, or
/// whether any of what the record protects is; that the archive changed only where it says
/// what was done; that a record was left as it was only where none of its shards was
/// missing; and that the archive ends with the end that was put in place.
pub open spec fn is_told_truly(
    input: Seq<u8>,
    end_record: Option<Seq<u8>>,
    bytes: Seq<u8>,
    report: RecoveryRepairReport,
) -> bool {
    let protected = chunks_from(input, 0)[0].content.protected_size as int;
    &&& report.changed <==> bytes != input
    &&& bytes.len() >= protected
    &&& report.data_repaired <==> bytes.take(protected) != input.take(protected)
    &&& report.changed ==> report.data_repaired || report.recovery_record_rebuilt
        || report.end_record_rebuilt
    &&& !report.recovery_record_rebuilt ==> report.available_recovery_shards
        == report.expected_recovery_shards && bytes.subrange(protected, input.len() as int)
        == input.skip(protected)
    &&& report.expected_recovery_shards == Some(
        chunks_from(input, 0)[0].content.plan.recovery_shards,
    )
    &&& report.end_record_rebuilt ==> (end_record matches Some(end) && bytes.len() >= end.len()
        && bytes.skip(bytes.len() - end.len()) == end)
}

/// The report of a repair tells what became of the archive.
pub proof fn law_reports_tell_what_changed(
    input: Seq<u8>,
    end_record: Option<Seq<u8>>,
    bytes: Seq<u8>,
    report: RecoveryRepairReport,
)
    requires
        is_archive_repair(
            input,
            end_record,
            Ok::<(Seq<u8>, RecoveryRepairReport), Error>((bytes, report)),
        ),
    ensures
        is_told_truly(input, end_record, bytes, report),
{
    let outcome = Ok::<(Seq<u8>, RecoveryRepairReport), Error>((bytes, report));
    let found = chunks_from(input, 0);
    let protected = found[0].content.protected_size;
    let prefix = choose|prefix: core::result::Result<Seq<u8>, Error>| #[trigger]
        is_repair_outcome(input.take(protected as int), found_contents(found), prefix) && match prefix {
            Ok(bytes) => is_archive_outcome(input, end_record, bytes, outcome),
            Err(error) => outcome is Err && outcome->Err_0 == error,
        };
    let repaired = prefix->Ok_0;
    let size = found[0].content.plan.shard_size as int;
    let start = choose|start: int| #[trigger]
        is_record_start(found, size, start) && is_outcome_at(
            input,
            end_record,
            repaired,
            start,
            outcome,
        );
    lemma_start_is_within(input, size, start);
    lemma_reported(input, end_record, repaired, start, bytes, report);
}

proof fn lemma_start_is_within(input: Seq<u8>, size: int, start: int)
    requires
        size >= 0,
        is_record_start(chunks_from(input, 0), size, start),
    ensures
        start <= input.len(),
{
    let found = chunks_from(input, 0);
    let i = choose|i: int| 0 <= i < found.len() && #[trigger] implied_start(found[i], size) == start;
    lemma_found_wf(input, 0);
    let index = found[i].content.shard_index;
    assert(index * size >= 0) by (nonlinear_arith)
        requires
            index >= 0,
            size >= 0,
    ;
}

/// All data shards but the last are full, and the last holds what is left of the prefix,
/// which the record says.
pub proof fn law_the_last_shard_holds_the_rest(prefix_len: int, percent: int)
    requires
        0 <= prefix_len <= u64::MAX,
        0 <= percent,
    ensures
        ({
            let plan = inline_recovery_plan(prefix_len, percent);
            let full = (plan.data_shards - 1) * plan.group_count;
            let extent = last_extent(prefix_len, plan);
            &&& 0 <= extent <= plan.group_count
            &&& full <= prefix_len ==> full + extent == prefix_len
            &&& full > prefix_len ==> extent == 0
        }),
{
    lemma_plan_of(prefix_len, percent);
    let plan = inline_recovery_plan(prefix_len, percent);
    let (shards, group) = (plan.data_shards as int, plan.group_count as int);
    assert(group * (shards - 1) == (shards - 1) * group && shards * group == (shards - 1) * group
        + group) by (nonlinear_arith);
}

} // verus!
