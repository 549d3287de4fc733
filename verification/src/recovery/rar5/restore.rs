//! What a repair restores: the law that ties building and repairing together.
use vstd::prelude::*;

use crate::bytes::zero_padded;
use crate::recovery::rar5::archive::{
    implied_start, is_archive_outcome, is_archive_repair, is_outcome_at, is_record_start,
    no_percent, RecoveryRepairReport,
};
use crate::recovery::rar5::chunk::{
    chunks_from, law_parse_of_framed_chunk, parsed_chunk, ChunkContent, FoundContent,
};
use crate::recovery::rar5::crc64::crc64_rar_of;
use crate::recovery::rar5::error::Error;
use crate::recovery::rar5::parity::{lemma_parity_shard_words, parity_word, word_at};
use crate::recovery::rar5::plan::{
    inline_recovery_plan, law_record_has_the_percentage_asked_for,
    law_shards_just_hold_the_archive, plan_fits, plan_holds, prefix_shards, shard_bytes,
    InlineRecoveryPlan,
};
use crate::recovery::rar5::reconstruct::{
    all_len, encodes_to, law_recovered_data_is_unique, lemma_equations_regular, rows_exceed_field,
};
use crate::recovery::rar5::record::{
    build_error, last_extent, lemma_plan_of, lemma_record_consistent, lemma_record_len,
    prefix_parity, record_bytes, record_chunk, record_content,
};
use crate::recovery::rar5::repair::{
    available_chunks, chunk_parity, chunk_rows, damaged_shards, distinct_rows, found_contents,
    is_repair_outcome, joined, lemma_damaged_below, repair_error, repairs, same_record,
};

verus! {

/// A plan as the planner makes it and the writer accepts it.
pub open spec fn plan_wf(plan: InlineRecoveryPlan) -> bool {
    &&& plan.header_size == 0x48 + 8 * plan.data_shards
    &&& plan.shard_size == plan.header_size + plan.group_count
    &&& plan.shard_size <= u32::MAX
    &&& plan.group_count % 2 == 0
    &&& 1 <= plan.data_shards <= 200
    &&& plan.recovery_shards <= plan.data_shards
}

/// The shards of a prefix, joined, are the prefix.
pub proof fn lemma_joined_shards(prefix: Seq<u8>, plan: InlineRecoveryPlan)
    requires
        plan_holds(prefix.len() as int, plan),
    ensures
        joined(prefix_shards(prefix, plan), plan.group_count as int, prefix.len()) == prefix,
{
    let gc = plan.group_count as int;
    let shards = prefix_shards(prefix, plan);
    assert forall|k: int| 0 <= k < prefix.len() implies #[trigger] joined(shards, gc, prefix.len())[k]
        == prefix[k] by {
        assert(gc > 0) by (nonlinear_arith)
            requires
                0 <= k < prefix.len(),
                prefix.len() <= plan.data_shards * gc,
                gc >= 0,
        ;
        let j = k / gc;
        let o = k % gc;
        vstd::arithmetic::div_mod::lemma_fundamental_div_mod(k, gc);
        vstd::arithmetic::div_mod::lemma_mod_bound(k, gc);
        vstd::arithmetic::div_mod::lemma_div_pos_is_pos(k, gc);
        assert(j < plan.data_shards) by (nonlinear_arith)
            requires
                k == gc * j + o,
                o >= 0,
                k < plan.data_shards * gc,
                gc > 0,
        ;
        assert(j * gc == gc * j) by (nonlinear_arith);
        assert(shards[j] == zero_padded(shard_bytes(prefix, gc, j), gc as nat));
        assert(shard_bytes(prefix, gc, j)[o] == prefix[k]);
    }
    assert(joined(shards, gc, prefix.len()) =~= prefix);
}

/// The shards of a prefix encode to its recovery shards.
proof fn lemma_prefix_encodes(
    prefix: Seq<u8>,
    plan: InlineRecoveryPlan,
    rows: Seq<int>,
    parity: Seq<Seq<u8>>,
)
    requires
        plan.group_count % 2 == 0,
        rows.len() == parity.len(),
        forall|r: int|
            0 <= r < rows.len() ==> 0 <= #[trigger] rows[r] < plan.recovery_shards && parity[r]
                == prefix_parity(prefix, plan)[rows[r]],
    ensures
        encodes_to(prefix_shards(prefix, plan), rows, parity, plan.group_count as int),
{
    let data = prefix_shards(prefix, plan);
    assert forall|r: int, w: int|
        0 <= r < rows.len() && 0 <= w < plan.group_count as int / 2 implies #[trigger] parity_word(
        data,
        rows[r],
        w,
    ) == word_at(parity[r], w) by {
        lemma_parity_shard_words(data, plan.group_count as nat, rows[r], w);
    }
}

/// A damaged prefix is restored.
///
/// Let `chunks` be chunks of the record of `original`, each at most once. If
/// every shard in which `damaged` differs from `original` has another
/// checksum state, and there are no more of these than chunks, then repairing
/// `damaged` gives `original` back.
pub proof fn law_repair_restores(
    original: Seq<u8>,
    damaged: Seq<u8>,
    plan: InlineRecoveryPlan,
    chunks: Seq<ChunkContent>,
    outcome: core::result::Result<Seq<u8>, Error>,
)
    requires
        plan_wf(plan),
        plan_fits(plan),
        plan_holds(original.len() as int, plan),
        original.len() <= u64::MAX,
        damaged.len() == original.len(),
        chunks.len() > 0,
        forall|i: int|
            0 <= i < chunks.len() ==> 0 <= (#[trigger] chunks[i]).shard_index
                < plan.recovery_shards && chunks[i] == record_content(
                original,
                plan,
                chunks[i].shard_index,
            ),
        forall|i: int, k: int|
            0 <= i < k < chunks.len() ==> (#[trigger] chunks[i]).shard_index != (
            #[trigger] chunks[k]).shard_index,
        forall|j: int|
            0 <= j < plan.data_shards && #[trigger] shard_bytes(
                damaged,
                plan.group_count as int,
                j,
            ) != shard_bytes(original, plan.group_count as int, j) ==> crc64_rar_of(
                shard_bytes(damaged, plan.group_count as int, j),
            ) != crc64_rar_of(shard_bytes(original, plan.group_count as int, j)),
        damaged_shards(damaged, chunks[0]).len() <= chunks.len(),
        is_repair_outcome(damaged, chunks, outcome),
    ensures
        outcome == Ok::<Seq<u8>, Error>(original),
{
    let gc = plan.group_count as int;
    let n = plan.data_shards as int;
    let bad = damaged_shards(damaged, chunks[0]);
    let states = chunks[0].data_shard_states;
    assert(chunks[0] == record_content(original, plan, chunks[0].shard_index));
    lemma_damaged_below(damaged, gc, states, n as nat);
    assert(same_record(chunks)) by {
        assert forall|i: int| 0 <= i < chunks.len() implies (#[trigger] chunks[i]).plan
            == chunks[0].plan && chunks[i].protected_size == chunks[0].protected_size
            && chunks[i].data_shard_states == chunks[0].data_shard_states by {
            assert(chunks[i] == record_content(original, plan, chunks[i].shard_index));
        }
    }
    let m = bad.len() as int;
    let rows = chunk_rows(chunks).take(m);
    let parity = chunk_parity(chunks).take(m);
    assert forall|r: int| 0 <= r < rows.len() implies 0 <= #[trigger] rows[r]
        < plan.recovery_shards && parity[r] == prefix_parity(original, plan)[rows[r]] by {
        assert(chunks[r] == record_content(original, plan, chunks[r].shard_index));
    }
    assert forall|a: int, b: int| 0 <= a < b < rows.len() implies #[trigger] rows[a]
        != #[trigger] rows[b] by {
        assert(chunks[a].shard_index != chunks[b].shard_index);
    }
    assert(!rows_exceed_field(n, rows)) by {
        if rows_exceed_field(n, rows) {
            let r = choose|r: int| 0 <= r < rows.len() && n + #[trigger] rows[r] + 1 > 65_535;
        }
    }
    lemma_equations_regular(n, rows, bad);
    assert(repair_error(damaged, chunks) is None);
    // Outside the shards found damaged the two prefixes agree.
    let whole = prefix_shards(original, plan);
    let broken = prefix_shards(damaged, plan);
    assert forall|j: int| 0 <= j < n && !bad.contains(j) implies #[trigger] broken[j]
        == whole[j] by {
        assert(crc64_rar_of(shard_bytes(damaged, gc, j)) == states[j]);
        assert(shard_bytes(damaged, gc, j) == shard_bytes(original, gc, j));
    }
    lemma_joined_shards(original, plan);
    if m == 0 {
        assert(broken =~= whole) by {
            assert forall|j: int| 0 <= j < n implies broken[j] == whole[j] by {
                assert(!bad.contains(j));
            }
        }
        lemma_joined_shards(damaged, plan);
    } else {
        let data = choose|data: Seq<Seq<u8>>| #[trigger]
            repairs(damaged, chunks, data) && outcome->Ok_0 == joined(data, gc, damaged.len());
        lemma_prefix_encodes(original, plan, rows, parity);
        assert forall|j: int| 0 <= j < data.len() && !bad.contains(j) implies #[trigger] data[j]
            == whole[j] by {
            assert(data[j] == broken[j]);
        }
        assert(all_len(whole, gc));
        law_recovered_data_is_unique(data, whole, rows, parity, bad, gc);
    }
}

/// The chunk at its place in a record, and what follows it.
proof fn lemma_record_from(prefix: Seq<u8>, plan: InlineRecoveryPlan, n: nat, i: int)
    requires
        plan_wf(plan),
        0 <= i < n,
        n <= plan.recovery_shards,
    ensures
        record_bytes(prefix, plan, n).len() == n * plan.shard_size,
        0 <= i * plan.shard_size,
        (i + 1) * plan.shard_size == i * plan.shard_size + plan.shard_size,
        (i + 1) * plan.shard_size <= n * plan.shard_size,
        record_chunk(prefix, plan, i).len() == plan.shard_size,
        record_bytes(prefix, plan, n).skip(i * plan.shard_size) == record_chunk(prefix, plan, i)
            + record_bytes(prefix, plan, n).skip((i + 1) * plan.shard_size),
    decreases n,
{
    let s = plan.shard_size as int;
    lemma_record_len(prefix, plan, n);
    lemma_record_len(prefix, plan, (n - 1) as nat);
    lemma_record_consistent(prefix, plan, i);
    law_parse_of_framed_chunk(
        record_content(prefix, plan, i),
        last_extent(prefix.len() as int, plan) as u64,
        crc64_rar_of(prefix_parity(prefix, plan)[0]),
        Seq::empty(),
    );
    assert(0 <= i * s && (i + 1) * s == i * s + s && (i + 1) * s <= n * s && n * s == (n - 1) * s + s)
        by (nonlinear_arith)
        requires
            0 <= i < n,
            s >= 0,
    ;
    let all = record_bytes(prefix, plan, n);
    let fewer = record_bytes(prefix, plan, (n - 1) as nat);
    let last = record_chunk(prefix, plan, n - 1);
    assert(all == fewer + last);
    if i == n - 1 {
        assert(all.skip(i * s) =~= last + all.skip((i + 1) * s));
    } else {
        lemma_record_from(prefix, plan, (n - 1) as nat, i);
        lemma_record_consistent(prefix, plan, n - 1);
        law_parse_of_framed_chunk(
            record_content(prefix, plan, n - 1),
            last_extent(prefix.len() as int, plan) as u64,
            crc64_rar_of(prefix_parity(prefix, plan)[0]),
            Seq::empty(),
        );
        assert((i + 1) * s <= (n - 1) * s) by (nonlinear_arith)
            requires
                i + 1 <= n - 1,
                s >= 0,
        ;
        let c = record_chunk(prefix, plan, i);
        assert(all.skip(i * s) =~= fewer.skip(i * s) + last);
        assert(all.skip((i + 1) * s) =~= fewer.skip((i + 1) * s) + last);
        assert(all.skip(i * s) =~= c + all.skip((i + 1) * s));
    }
}

/// Chunk `i` of a record, found at its place.
pub open spec fn record_found(prefix: Seq<u8>, plan: InlineRecoveryPlan, i: int) -> FoundContent {
    FoundContent { offset: i * plan.shard_size, content: record_content(prefix, plan, i) }
}

proof fn lemma_chunks_of_record(prefix: Seq<u8>, plan: InlineRecoveryPlan, i: int)
    requires
        plan_wf(plan),
        0 <= i <= plan.recovery_shards,
    ensures
        chunks_from(
            record_bytes(prefix, plan, plan.recovery_shards as nat),
            i * plan.shard_size,
        ) == Seq::new(
            (plan.recovery_shards - i) as nat,
            |k: int| record_found(prefix, plan, i + k),
        ),
    decreases plan.recovery_shards - i,
{
    let n = plan.recovery_shards as nat;
    let s = plan.shard_size as int;
    let all = record_bytes(prefix, plan, n);
    let expected = Seq::new((n - i) as nat, |k: int| record_found(prefix, plan, i + k));
    if i == n {
        lemma_record_len(prefix, plan, n);
        assert(chunks_from(all, i * s) =~= expected);
    } else {
        lemma_record_from(prefix, plan, n, i);
        lemma_record_consistent(prefix, plan, i);
        law_parse_of_framed_chunk(
            record_content(prefix, plan, i),
            last_extent(prefix.len() as int, plan) as u64,
            crc64_rar_of(prefix_parity(prefix, plan)[0]),
            all.skip((i + 1) * s),
        );
        lemma_chunks_of_record(prefix, plan, i + 1);
        let later = Seq::new((n - (i + 1)) as nat, |k: int| record_found(prefix, plan, i + 1 + k));
        let one = seq![record_found(prefix, plan, i)];
        assert(chunks_from(all, i * s) =~= one + chunks_from(all, (i + 1) * s));
        assert(one + later =~= expected);
    }
}

/// Scanning a record that was built finds all its chunks.
pub proof fn law_scan_of_built_record(prefix: Seq<u8>, plan: InlineRecoveryPlan)
    requires
        plan_wf(plan),
    ensures
        available_chunks(record_bytes(prefix, plan, plan.recovery_shards as nat)) == Seq::new(
            plan.recovery_shards as nat,
            |i: int| record_content(prefix, plan, i),
        ),
{
    lemma_chunks_of_record(prefix, plan, 0);
    assert(0 * plan.shard_size == 0);
    assert(available_chunks(record_bytes(prefix, plan, plan.recovery_shards as nat)) =~= Seq::new(
        plan.recovery_shards as nat,
        |i: int| record_content(prefix, plan, i),
    ));
}

/// A record that was built for an archive repairs it.
///
/// Damage to at most as many shards as the record has chunks is undone, as
/// long as each damaged shard's checksum state tells.
pub proof fn law_built_record_repairs(
    original: Seq<u8>,
    damaged: Seq<u8>,
    percent: int,
    outcome: core::result::Result<Seq<u8>, Error>,
)
    requires
        original.len() <= u64::MAX,
        0 <= percent,
        damaged.len() == original.len(),
        build_error(inline_recovery_plan(original.len() as int, percent)) is None,
        plan_fits(inline_recovery_plan(original.len() as int, percent)),
        ({
            let plan = inline_recovery_plan(original.len() as int, percent);
            let gc = plan.group_count as int;
            &&& forall|j: int|
                0 <= j < plan.data_shards && #[trigger] shard_bytes(damaged, gc, j) != shard_bytes(
                    original,
                    gc,
                    j,
                ) ==> crc64_rar_of(shard_bytes(damaged, gc, j)) != crc64_rar_of(
                    shard_bytes(original, gc, j),
                )
            &&& damaged_shards(damaged, record_content(original, plan, 0)).len()
                <= plan.recovery_shards
            &&& is_repair_outcome(
                damaged,
                available_chunks(record_bytes(original, plan, plan.recovery_shards as nat)),
                outcome,
            )
        }),
    ensures
        outcome == Ok::<Seq<u8>, Error>(original),
{
    let plan = inline_recovery_plan(original.len() as int, percent);
    lemma_plan_of(original.len() as int, percent);
    law_scan_of_built_record(original, plan);
    let chunks = Seq::new(
        plan.recovery_shards as nat,
        |i: int| record_content(original, plan, i),
    );
    law_repair_restores(original, damaged, plan, chunks, outcome);
}

/// An archive with a recovery record: what the record protects, the header of the
/// record, the record, and what follows it.
pub open spec fn protected_archive(
    prefix: Seq<u8>,
    gap: Seq<u8>,
    plan: InlineRecoveryPlan,
    tail: Seq<u8>,
) -> Seq<u8> {
    prefix + gap + record_bytes(prefix, plan, plan.recovery_shards as nat) + tail
}

/// Whether every chunk found is one of the record, at its place, and none is
/// found twice.
pub open spec fn are_record_chunks(
    prefix: Seq<u8>,
    plan: InlineRecoveryPlan,
    base: int,
    found: Seq<FoundContent>,
) -> bool {
    &&& forall|i: int|
        0 <= i < found.len() ==> {
            let index = (#[trigger] found[i]).content.shard_index;
            &&& 0 <= index < plan.recovery_shards
            &&& found[i].content == record_content(prefix, plan, index)
            &&& found[i].offset == base + index * plan.shard_size
        }
    &&& forall|i: int, k: int|
        0 <= i < k < found.len() ==> (#[trigger] found[i]).content.shard_index != (
        #[trigger] found[k]).content.shard_index
}

/// Whether checksum states tell all damage to a prefix, and there is no more of it
/// than can be undone.
pub open spec fn is_repairable(
    original: Seq<u8>,
    damaged: Seq<u8>,
    plan: InlineRecoveryPlan,
    chunks: nat,
) -> bool {
    let gc = plan.group_count as int;
    &&& damaged.len() == original.len()
    &&& forall|j: int|
        0 <= j < plan.data_shards && #[trigger] shard_bytes(damaged, gc, j) != shard_bytes(
            original,
            gc,
            j,
        ) ==> crc64_rar_of(shard_bytes(damaged, gc, j)) != crc64_rar_of(
            shard_bytes(original, gc, j),
        )
    &&& damaged_shards(damaged, record_content(original, plan, 0)).len() <= chunks
}

proof fn lemma_found_rows(found: Seq<FoundContent>)
    requires
        forall|i: int, k: int|
            0 <= i < k < found.len() ==> (#[trigger] found[i]).content.shard_index != (
            #[trigger] found[k]).content.shard_index,
    ensures
        distinct_rows(found_contents(found)).len() == found.len(),
{
    let rows = chunk_rows(found_contents(found));
    assert forall|i: int, k: int| 0 <= i < rows.len() && 0 <= k < rows.len() && i != k implies rows[i]
        != rows[k] by {
        if i < k {
            assert(found[i].content.shard_index != found[k].content.shard_index);
        } else {
            assert(found[k].content.shard_index != found[i].content.shard_index);
        }
    }
    assert(rows.no_duplicates());
    rows.unique_seq_to_set();
}

/// A damaged archive and its record: what is found of the record leads to its
/// place, and damage to the protected part can be undone.
pub open spec fn is_recoverable(
    prefix: Seq<u8>,
    gap: Seq<u8>,
    plan: InlineRecoveryPlan,
    tail: Seq<u8>,
    damaged: Seq<u8>,
) -> bool {
    let whole = protected_archive(prefix, gap, plan, tail);
    let record = record_bytes(prefix, plan, plan.recovery_shards as nat);
    let base = (prefix.len() + gap.len()) as int;
    let found = chunks_from(damaged, 0);
    &&& damaged.len() == whole.len()
    &&& damaged.subrange(prefix.len() as int, base) == gap
    &&& damaged.skip(base + record.len()) == tail
    &&& found.len() > 0
    &&& are_record_chunks(prefix, plan, base, found)
    &&& found.len() == plan.recovery_shards ==> damaged.subrange(base, base + record.len())
        == record
    &&& is_repairable(prefix, damaged.take(prefix.len() as int), plan, found.len())
}

/// The protected part of a recoverable archive is restored.
proof fn lemma_prefix_restored(
    prefix: Seq<u8>,
    gap: Seq<u8>,
    plan: InlineRecoveryPlan,
    tail: Seq<u8>,
    damaged: Seq<u8>,
    end_record: Option<Seq<u8>>,
    outcome: core::result::Result<(Seq<u8>, RecoveryRepairReport), Error>,
)
    requires
        plan_wf(plan),
        plan_fits(plan),
        plan_holds(prefix.len() as int, plan),
        protected_archive(prefix, gap, plan, tail).len() <= usize::MAX,
        is_recoverable(prefix, gap, plan, tail, damaged),
        is_archive_repair(damaged, end_record, outcome),
    ensures
        is_archive_outcome(damaged, end_record, prefix, outcome),
{
    let found = chunks_from(damaged, 0);
    let chunks = found_contents(found);
    let broken = damaged.take(prefix.len() as int);
    assert(found[0].content == record_content(prefix, plan, found[0].content.shard_index));
    assert(chunks[0] == found[0].content);
    assert(prefix.len() <= protected_archive(prefix, gap, plan, tail).len());
    assert forall|i: int| 0 <= i < chunks.len() implies 0 <= (#[trigger] chunks[i]).shard_index
        < plan.recovery_shards && chunks[i] == record_content(
        prefix,
        plan,
        chunks[i].shard_index,
    ) by {
        assert(found[i].content == chunks[i]);
    }
    assert forall|i: int, k: int|
        0 <= i < k < chunks.len() implies (#[trigger] chunks[i]).shard_index != (
    #[trigger] chunks[k]).shard_index by {
        assert(found[i].content.shard_index != found[k].content.shard_index);
    }
    assert(damaged_shards(broken, chunks[0]) == damaged_shards(
        broken,
        record_content(prefix, plan, 0),
    ));
    let repaired = choose|repaired: core::result::Result<Seq<u8>, Error>| #[trigger]
        is_repair_outcome(broken, chunks, repaired) && match repaired {
            Ok(bytes) => is_archive_outcome(damaged, end_record, bytes, outcome),
            Err(error) => outcome is Err && outcome->Err_0 == error,
        };
    law_repair_restores(prefix, broken, plan, chunks, repaired);
}

/// The record of a recoverable archive is found at its place.
proof fn lemma_record_located(
    prefix: Seq<u8>,
    gap: Seq<u8>,
    plan: InlineRecoveryPlan,
    tail: Seq<u8>,
    damaged: Seq<u8>,
    end_record: Option<Seq<u8>>,
    outcome: core::result::Result<(Seq<u8>, RecoveryRepairReport), Error>,
)
    requires
        is_recoverable(prefix, gap, plan, tail, damaged),
        is_archive_outcome(damaged, end_record, prefix, outcome),
    ensures
        is_outcome_at(
            damaged,
            end_record,
            prefix,
            (prefix.len() + gap.len()) as int,
            outcome,
        ),
{
    let found = chunks_from(damaged, 0);
    let s = plan.shard_size as int;
    let base = (prefix.len() + gap.len()) as int;
    assert(found[0].content == record_content(prefix, plan, found[0].content.shard_index));
    assert(found[0].content.plan == plan);
    assert(implied_start(found[0], s) == base);
    let start = choose|start: int| #[trigger]
        is_record_start(found, s, start) && is_outcome_at(
            damaged,
            end_record,
            prefix,
            start,
            outcome,
        );
    let i = choose|i: int|
        0 <= i < found.len() && #[trigger] implied_start(found[i], s) == start;
    assert(found[i].offset == base + found[i].content.shard_index * plan.shard_size);
    assert(start == base);
}

/// A damaged archive is restored, byte for byte.
///
/// The protected part may be damaged in as many shards as chunks of the record
/// are left, and the record itself may be damaged as well: it is built anew
/// where chunks are missing.
pub proof fn law_archive_is_restored(
    prefix: Seq<u8>,
    gap: Seq<u8>,
    percent: int,
    tail: Seq<u8>,
    damaged: Seq<u8>,
    end_record: Option<Seq<u8>>,
    outcome: core::result::Result<(Seq<u8>, RecoveryRepairReport), Error>,
)
    requires
        1 <= percent <= 100,
        tail.len() > 0,
        ({
            let plan = inline_recovery_plan(prefix.len() as int, percent);
            &&& protected_archive(prefix, gap, plan, tail).len() <= usize::MAX
            &&& build_error(plan) is None
            &&& plan_fits(plan)
            &&& is_recoverable(prefix, gap, plan, tail, damaged)
        }),
        is_archive_repair(damaged, end_record, outcome),
    ensures
        ({
            let plan = inline_recovery_plan(prefix.len() as int, percent);
            let whole = protected_archive(prefix, gap, plan, tail);
            let found = chunks_from(damaged, 0);
            outcome == Ok::<(Seq<u8>, RecoveryRepairReport), Error>(
                (
                    whole,
                    RecoveryRepairReport {
                        changed: whole != damaged,
                        data_repaired: prefix != damaged.take(prefix.len() as int),
                        recovery_record_rebuilt: found.len() != plan.recovery_shards,
                        end_record_rebuilt: false,
                        available_recovery_shards: Some(found.len() as u64),
                        expected_recovery_shards: Some(plan.recovery_shards),
                    },
                ),
            )
        }),
{
    let plan = inline_recovery_plan(prefix.len() as int, percent);
    let n = plan.recovery_shards as nat;
    let record = record_bytes(prefix, plan, n);
    let whole = protected_archive(prefix, gap, plan, tail);
    let base = (prefix.len() + gap.len()) as int;
    let found = chunks_from(damaged, 0);
    assert(prefix.len() <= whole.len());
    lemma_plan_of(prefix.len() as int, percent);
    lemma_record_len(prefix, plan, n);
    lemma_prefix_restored(prefix, gap, plan, tail, damaged, end_record, outcome);
    lemma_record_located(prefix, gap, plan, tail, damaged, end_record, outcome);
    lemma_found_rows(found);
    assert(found[0].content == record_content(prefix, plan, found[0].content.shard_index));
    assert(whole.len() == base + record.len() + tail.len());
    assert(!no_percent(prefix.len() as int, plan)) by {
        assert(inline_recovery_plan(prefix.len() as int, percent) == plan);
    }
    if found.len() == plan.recovery_shards {
        assert(prefix + damaged.skip(prefix.len() as int) =~= whole);
    } else {
        assert(prefix + damaged.subrange(prefix.len() as int, base) + record + damaged.skip(
            base + record.len(),
        ) =~= whole);
    }
}

/// Bytes at which no chunk starts are passed over.
proof fn lemma_scan_passes(input: Seq<u8>, from: int, to: int)
    requires
        0 <= from <= to <= input.len(),
        forall|at: int| from <= at < to ==> parsed_chunk(#[trigger] input.skip(at)) is Err,
    ensures
        chunks_from(input, from) == chunks_from(input, to),
    decreases to - from,
{
    if from < to {
        assert(parsed_chunk(input.skip(from)) is Err);
        lemma_scan_passes(input, from + 1, to);
    }
}

/// Whether a record stands in an archive at `base`, and nothing else in it reads
/// as a chunk.
pub open spec fn holds_only_record(
    input: Seq<u8>,
    prefix: Seq<u8>,
    plan: InlineRecoveryPlan,
    base: int,
) -> bool {
    let record = record_bytes(prefix, plan, plan.recovery_shards as nat);
    &&& 0 <= base
    &&& base + record.len() <= input.len()
    &&& input.subrange(base, base + record.len()) == record
    &&& forall|at: int|
        (0 <= at < base || base + record.len() <= at < input.len()) ==> parsed_chunk(
            #[trigger] input.skip(at),
        ) is Err
}

proof fn lemma_scan_within_record(
    input: Seq<u8>,
    prefix: Seq<u8>,
    plan: InlineRecoveryPlan,
    base: int,
    i: int,
)
    requires
        plan_wf(plan),
        holds_only_record(input, prefix, plan, base),
        0 <= i <= plan.recovery_shards,
    ensures
        chunks_from(input, base + i * plan.shard_size) == Seq::new(
            (plan.recovery_shards - i) as nat,
            |k: int|
                FoundContent {
                    offset: base + (i + k) * plan.shard_size,
                    content: record_content(prefix, plan, i + k),
                },
        ),
    decreases plan.recovery_shards - i,
{
    let n = plan.recovery_shards as nat;
    let s = plan.shard_size as int;
    let record = record_bytes(prefix, plan, n);
    let expected = Seq::new(
        (n - i) as nat,
        |k: int|
            FoundContent {
                offset: base + (i + k) * plan.shard_size,
                content: record_content(prefix, plan, i + k),
            },
    );
    lemma_record_len(prefix, plan, n);
    if i == n {
        lemma_scan_passes(input, base + n * s, input.len() as int);
        assert(chunks_from(input, base + i * s) =~= expected);
    } else {
        lemma_record_from(prefix, plan, n, i);
        lemma_record_consistent(prefix, plan, i);
        let after = input.skip(base + (i + 1) * s);
        let chunk = record_chunk(prefix, plan, i);
        assert(record =~= input.subrange(base, base + record.len()));
        assert(input.skip(base + i * s) =~= record.skip(i * s) + input.skip(
            base + record.len(),
        ));
        assert(after =~= record.skip((i + 1) * s) + input.skip(base + record.len()));
        assert(input.skip(base + i * s) =~= chunk + after);
        law_parse_of_framed_chunk(
            record_content(prefix, plan, i),
            last_extent(prefix.len() as int, plan) as u64,
            crc64_rar_of(prefix_parity(prefix, plan)[0]),
            after,
        );
        lemma_scan_within_record(input, prefix, plan, base, i + 1);
        let later = Seq::new(
            (n - (i + 1)) as nat,
            |k: int|
                FoundContent {
                    offset: base + (i + 1 + k) * plan.shard_size,
                    content: record_content(prefix, plan, i + 1 + k),
                },
        );
        let one = seq![
            FoundContent {
                offset: base + i * s,
                content: record_content(prefix, plan, i),
            },
        ];
        assert(chunks_from(input, base + i * s) =~= one + chunks_from(
            input,
            base + (i + 1) * s,
        ));
        assert(one + later =~= expected);
    }
}

/// Scanning an archive finds all chunks of its record, at their places.
pub proof fn law_scan_of_protected_archive(
    input: Seq<u8>,
    prefix: Seq<u8>,
    plan: InlineRecoveryPlan,
    base: int,
)
    requires
        plan_wf(plan),
        holds_only_record(input, prefix, plan, base),
    ensures
        chunks_from(input, 0) == Seq::new(
            plan.recovery_shards as nat,
            |k: int|
                FoundContent {
                    offset: base + k * plan.shard_size,
                    content: record_content(prefix, plan, k),
                },
        ),
{
    lemma_scan_passes(input, 0, base);
    lemma_scan_within_record(input, prefix, plan, base, 0);
    assert(base + 0 * plan.shard_size == base) by (nonlinear_arith);
    assert(chunks_from(input, 0) =~= Seq::new(
        plan.recovery_shards as nat,
        |k: int|
            FoundContent {
                offset: base + k * plan.shard_size,
                content: record_content(prefix, plan, k),
            },
    ));
}

/// An archive whose recovery record is intact is restored from damage to as many
/// shards as the record has chunks.
pub proof fn law_intact_record_restores(
    prefix: Seq<u8>,
    gap: Seq<u8>,
    percent: int,
    tail: Seq<u8>,
    damaged_prefix: Seq<u8>,
    end_record: Option<Seq<u8>>,
    outcome: core::result::Result<(Seq<u8>, RecoveryRepairReport), Error>,
)
    requires
        1 <= percent <= 100,
        tail.len() > 0,
        ({
            let plan = inline_recovery_plan(prefix.len() as int, percent);
            let record = record_bytes(prefix, plan, plan.recovery_shards as nat);
            let damaged = damaged_prefix + gap + record + tail;
            &&& protected_archive(prefix, gap, plan, tail).len() <= usize::MAX
            &&& build_error(plan) is None
            &&& plan_fits(plan)
            &&& is_repairable(prefix, damaged_prefix, plan, plan.recovery_shards as nat)
            &&& holds_only_record(damaged, prefix, plan, (prefix.len() + gap.len()) as int)
            &&& is_archive_repair(damaged, end_record, outcome)
        }),
    ensures
        outcome is Ok,
        outcome->Ok_0.0 == protected_archive(
            prefix,
            gap,
            inline_recovery_plan(prefix.len() as int, percent),
            tail,
        ),
        outcome->Ok_0.1.data_repaired == (prefix != damaged_prefix),
        !outcome->Ok_0.1.recovery_record_rebuilt,
{
    let plan = inline_recovery_plan(prefix.len() as int, percent);
    let record = record_bytes(prefix, plan, plan.recovery_shards as nat);
    let damaged = damaged_prefix + gap + record + tail;
    let base = (prefix.len() + gap.len()) as int;
    let whole = protected_archive(prefix, gap, plan, tail);
    assert(prefix.len() <= whole.len());
    lemma_plan_of(prefix.len() as int, percent);
    law_scan_of_protected_archive(damaged, prefix, plan, base);
    assert(damaged.take(prefix.len() as int) =~= damaged_prefix);
    assert(damaged.subrange(prefix.len() as int, base) =~= gap);
    assert(damaged.skip(base + record.len()) =~= tail);
    assert(is_recoverable(prefix, gap, plan, tail, damaged));
    law_archive_is_restored(prefix, gap, percent, tail, damaged, end_record, outcome);
}

/// Shards outside of a set that holds all damage are as they were, so no more shards
/// are found damaged than the set has.
proof fn lemma_damage_within(
    original: Seq<u8>,
    damaged: Seq<u8>,
    plan: InlineRecoveryPlan,
    hit: Set<int>,
)
    requires
        plan_holds(original.len() as int, plan),
        damaged.len() == original.len(),
        hit.finite(),
        forall|k: int|
            0 <= k < original.len() && !hit.contains(k / plan.group_count as int) ==> #[trigger]
                damaged[k] == original[k],
    ensures
        damaged_shards(damaged, record_content(original, plan, 0)).len() <= hit.len(),
{
    let gc = plan.group_count as int;
    let n = plan.data_shards as nat;
    let states = record_content(original, plan, 0).data_shard_states;
    let bad = damaged_shards(damaged, record_content(original, plan, 0));
    lemma_damaged_below(damaged, gc, states, n);
    assert(bad.no_duplicates());
    bad.unique_seq_to_set();
    assert forall|j: int| bad.to_set().contains(j) implies hit.contains(j) by {
        assert(bad.contains(j));
        let i = choose|i: int| 0 <= i < bad.len() && bad[i] == j;
        assert(0 <= bad[i] < n);
        if !hit.contains(j) {
            let a = shard_bytes(damaged, gc, j);
            let b = shard_bytes(original, gc, j);
            assert(a.len() == b.len());
            assert forall|o: int| 0 <= o < a.len() implies a[o] == b[o] by {
                let k = j * gc + o;
                assert(k / gc == j) by {
                    vstd::arithmetic::div_mod::lemma_fundamental_div_mod_converse(k, gc, j, o);
                }
                assert(damaged[k] == original[k]);
            }
            assert(a =~= b);
        }
    }
    vstd::set_lib::lemma_len_subset(bad.to_set(), hit);
}

/// A record of some percent undoes damage to that percentage of the shards that an
/// archive is cut into, wherever in the archive it lies.
///
/// `hit` are the shards that were damaged. The damage changes their checksum states,
/// and nothing outside the record reads as a part of one.
pub proof fn law_a_percentage_of_damage_is_undone(
    prefix: Seq<u8>,
    gap: Seq<u8>,
    percent: u64,
    tail: Seq<u8>,
    damaged_prefix: Seq<u8>,
    hit: Set<int>,
    end_record: Option<Seq<u8>>,
    outcome: core::result::Result<(Seq<u8>, RecoveryRepairReport), Error>,
)
    requires
        1 <= percent <= 100,
        tail.len() > 0,
        damaged_prefix.len() == prefix.len(),
        hit.finite(),
        ({
            let plan = inline_recovery_plan(prefix.len() as int, percent as int);
            let record = record_bytes(prefix, plan, plan.recovery_shards as nat);
            let damaged = damaged_prefix + gap + record + tail;
            let gc = plan.group_count as int;
            &&& 100 * hit.len() <= percent * plan.data_shards
            &&& forall|k: int|
                0 <= k < prefix.len() && !hit.contains(k / gc) ==> #[trigger] damaged_prefix[k]
                    == prefix[k]
            &&& forall|j: int|
                0 <= j < plan.data_shards && #[trigger] shard_bytes(damaged_prefix, gc, j)
                    != shard_bytes(prefix, gc, j) ==> crc64_rar_of(
                    shard_bytes(damaged_prefix, gc, j),
                ) != crc64_rar_of(shard_bytes(prefix, gc, j))
            &&& protected_archive(prefix, gap, plan, tail).len() <= usize::MAX
            &&& build_error(plan) is None
            &&& plan_fits(plan)
            &&& holds_only_record(damaged, prefix, plan, (prefix.len() + gap.len()) as int)
            &&& is_archive_repair(damaged, end_record, outcome)
        }),
    ensures
        outcome is Ok,
        outcome->Ok_0.0 == protected_archive(
            prefix,
            gap,
            inline_recovery_plan(prefix.len() as int, percent as int),
            tail,
        ),
{
    let plan = inline_recovery_plan(prefix.len() as int, percent as int);
    assert(prefix.len() <= protected_archive(prefix, gap, plan, tail).len());
    law_record_has_the_percentage_asked_for(prefix.len() as u64, percent);
    law_shards_just_hold_the_archive(prefix.len() as u64, percent);
    lemma_damage_within(prefix, damaged_prefix, plan, hit);
    law_intact_record_restores(
        prefix,
        gap,
        percent as int,
        tail,
        damaged_prefix,
        end_record,
        outcome,
    );
}

} // verus!
