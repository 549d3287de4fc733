//! Repairing a damaged archive from its recovery record.
use std::ops::Range;
use vstd::prelude::*;

use crate::bytes::{copy_bytes, lemma_byte_ranges, lemma_le_value_bound, push_all};
use crate::recovery::rar5::chunk::{
    chunks_from, find_inline_recovery_chunks, found_view, parsed_chunk, ChunkContent, FoundContent,
    FoundInlineRecoveryChunk, InlineRecoveryChunk,
};
use crate::recovery::rar5::crc64::{crc64_rar_of, crc64_rar_state};
use crate::recovery::rar5::error::{Error, Result};
use crate::recovery::rar5::linear::is_singular;
use crate::recovery::rar5::plan::{
    plan_fits, plan_holds, prefix_shards, shard_bytes, shard_range, shards_view,
    split_prefix_shard_ranges, split_prefix_shards,
};
use crate::recovery::rar5::reconstruct::{
    all_len, ascending_below, encodes_to, equations, indices_view, recover_damaged_shards,
    recovery_bytes, recovery_rows, rows_exceed_field,
};

verus! {

/// The shards below `k` whose bytes do not have the recorded state, in order.
pub open spec fn damaged_below(
    prefix: Seq<u8>,
    group_count: int,
    states: Seq<u64>,
    k: nat,
) -> Seq<int>
    decreases k,
{
    if k == 0 {
        Seq::empty()
    } else {
        let before = damaged_below(prefix, group_count, states, (k - 1) as nat);
        if crc64_rar_of(shard_bytes(prefix, group_count, k - 1)) != states[k - 1] {
            before.push(k - 1)
        } else {
            before
        }
    }
}

/// The damaged shards of a prefix according to a recovery chunk.
pub open spec fn damaged_shards(prefix: Seq<u8>, chunk: ChunkContent) -> Seq<int> {
    damaged_below(
        prefix,
        chunk.plan.group_count as int,
        chunk.data_shard_states,
        chunk.plan.data_shards as nat,
    )
}

pub proof fn lemma_damaged_below(prefix: Seq<u8>, group_count: int, states: Seq<u64>, k: nat)
    ensures
        ascending_below(damaged_below(prefix, group_count, states, k), k as int),
        damaged_below(prefix, group_count, states, k).len() <= k,
        forall|j: int|
            0 <= j < k ==> (#[trigger] damaged_below(prefix, group_count, states, k).contains(j)
                <==> crc64_rar_of(shard_bytes(prefix, group_count, j)) != states[j]),
    decreases k,
{
    if k > 0 {
        let p = (k - 1) as nat;
        lemma_damaged_below(prefix, group_count, states, p);
        let before = damaged_below(prefix, group_count, states, p);
        let all = damaged_below(prefix, group_count, states, k);
        assert forall|j: int| 0 <= j < k implies (#[trigger] all.contains(j) <==> crc64_rar_of(
            shard_bytes(prefix, group_count, j),
        ) != states[j]) by {
            if j < p {
                assert(before.contains(j) <==> crc64_rar_of(shard_bytes(prefix, group_count, j))
                    != states[j]);
                if before.contains(j) {
                    let c = choose|c: int| 0 <= c < before.len() && before[c] == j;
                    assert(all[c] == j);
                }
                if all.contains(j) {
                    let c = choose|c: int| 0 <= c < all.len() && all[c] == j;
                    assert(c < before.len());
                    assert(before[c] == j);
                }
            } else {
                if all.len() > before.len() {
                    assert(all[before.len() as int] == j);
                } else if all.contains(j) {
                    let c = choose|c: int| 0 <= c < all.len() && all[c] == j;
                    assert(before[c] == j);
                }
            }
        }
    }
}

/// All chunks belong to one record.
pub open spec fn same_record(chunks: Seq<ChunkContent>) -> bool {
    forall|i: int|
        0 <= i < chunks.len() ==> (#[trigger] chunks[i]).plan == chunks[0].plan
            && chunks[i].protected_size == chunks[0].protected_size && chunks[i].data_shard_states
            == chunks[0].data_shard_states
}

/// The recovery rows of chunks.
pub open spec fn chunk_rows(chunks: Seq<ChunkContent>) -> Seq<int> {
    Seq::new(chunks.len(), |i: int| chunks[i].shard_index)
}

/// The recovery shards of chunks.
pub open spec fn chunk_parity(chunks: Seq<ChunkContent>) -> Seq<Seq<u8>> {
    Seq::new(chunks.len(), |i: int| chunks[i].parity)
}

/// Why a prefix cannot be repaired, if there is a reason.
pub open spec fn repair_error(prefix: Seq<u8>, chunks: Seq<ChunkContent>) -> Option<Error> {
    let plan = chunks[0].plan;
    let damaged = damaged_shards(prefix, chunks[0]);
    let rows = chunk_rows(chunks).take(damaged.len() as int);
    if chunks.len() == 0 {
        Some(Error::BadRecoveryChunk)
    } else if chunks[0].protected_size != prefix.len() {
        Some(Error::BadRecoveryChunk)
    } else if !same_record(chunks) {
        Some(Error::BadRecoveryChunk)
    } else if !plan_fits(plan) {
        Some(Error::PlanOverflow)
    } else if !plan_holds(prefix.len() as int, plan) {
        Some(Error::PrefixExceedsPlan)
    } else if damaged.len() == 0 {
        None
    } else if damaged.len() > chunks.len() {
        Some(Error::TooManyDamagedShards)
    } else if plan.group_count % 2 == 1 {
        Some(Error::OddShardSize)
    } else if rows_exceed_field(plan.data_shards as int, rows) {
        Some(Error::TooManyShards)
    } else if is_singular(equations(plan.data_shards as int, rows, damaged)) {
        Some(Error::SingularElement)
    } else {
        None
    }
}

/// The prefix that data shards make up.
pub open spec fn joined(shards: Seq<Seq<u8>>, group_count: int, len: nat) -> Seq<u8> {
    Seq::new(len, |k: int| shards[k / group_count][k % group_count])
}

/// Data shards that keep what is intact of a prefix and encode to the
/// recovery shards.
pub open spec fn repairs(prefix: Seq<u8>, chunks: Seq<ChunkContent>, data: Seq<Seq<u8>>) -> bool {
    let plan = chunks[0].plan;
    let damaged = damaged_shards(prefix, chunks[0]);
    &&& data.len() == plan.data_shards
    &&& all_len(data, plan.group_count as int)
    &&& forall|j: int|
        0 <= j < data.len() && !damaged.contains(j) ==> #[trigger] data[j] == prefix_shards(
            prefix,
            plan,
        )[j]
    &&& encodes_to(
        data,
        chunk_rows(chunks).take(damaged.len() as int),
        chunk_parity(chunks).take(damaged.len() as int),
        plan.group_count as int,
    )
}

/// What a repair returns.
pub open spec fn is_repair_outcome(
    prefix: Seq<u8>,
    chunks: Seq<ChunkContent>,
    outcome: core::result::Result<Seq<u8>, Error>,
) -> bool {
    match repair_error(prefix, chunks) {
        Some(error) => outcome == Err::<Seq<u8>, Error>(error),
        None => outcome is Ok && if damaged_shards(prefix, chunks[0]).len() == 0 {
            outcome->Ok_0 == prefix
        } else {
            exists|data: Seq<Seq<u8>>| #[trigger]
                repairs(prefix, chunks, data) && outcome->Ok_0 == joined(
                    data,
                    chunks[0].plan.group_count as int,
                    prefix.len(),
                )
        },
    }
}

/// The contents of found chunks, without their positions.
pub open spec fn found_contents(found: Seq<FoundContent>) -> Seq<ChunkContent> {
    Seq::new(found.len(), |i: int| found[i].content)
}

/// A chunk as the parser leaves it.
pub open spec fn chunk_wf(chunk: ChunkContent) -> bool {
    &&& chunk.data_shard_states.len() == chunk.plan.data_shards
    &&& chunk.parity.len() == chunk.plan.group_count
    &&& chunk.plan.data_shards < 0x1_0000
    &&& chunk.plan.recovery_shards < 0x1_0000
    &&& 0 <= chunk.shard_index < chunk.plan.recovery_shards
    &&& chunk.plan.recovery_shards * chunk.plan.shard_size <= u64::MAX
    &&& 0x48 <= chunk.plan.shard_size < 0x1_0000_0000
}

/// Whether two lists of states are the same.
fn same_states(a: &Vec<u64>, b: &Vec<u64>) -> (same: bool)
    ensures
        same == (a@ == b@),
{
    if a.len() != b.len() {
        return false;
    }
    let mut i: usize = 0;
    while i < a.len()
        invariant
            i <= a@.len(),
            a@.len() == b@.len(),
            forall|k: int| 0 <= k < i ==> a@[k] == b@[k],
        decreases a@.len() - i,
    {
        if a[i] != b[i] {
            return false;
        }
        i += 1;
    }
    assert(a@ =~= b@);
    true
}

/// The length of a range.
fn range_len(range: &Range<usize>) -> (len: usize)
    ensures
        len == (if range.start < range.end {
            range.end - range.start
        } else {
            0
        }),
{
    if range.start < range.end {
        range.end - range.start
    } else {
        0
    }
}

/// Repairs a prefix with the chunks that were found for it.
pub fn repair_with_chunks(prefix: &[u8], chunks: &[FoundInlineRecoveryChunk]) -> (result: Result<
    Vec<u8>,
>)
    requires
        forall|i: int| 0 <= i < chunks@.len() ==> chunk_wf((#[trigger] chunks@[i]).chunk@),
    ensures
        is_repair_outcome(
            prefix@,
            found_contents(found_view(chunks@)),
            match result {
                Ok(bytes) => Ok(bytes@),
                Err(error) => Err(error),
            },
        ),
{
    let ghost contents = found_contents(found_view(chunks@));
    if chunks.len() == 0 {
        return Err(Error::BadRecoveryChunk);
    }
    let first: &InlineRecoveryChunk = &chunks[0].chunk;
    let plan = first.plan;
    assert(contents[0] == first@);
    let prefix_len: usize = prefix.len();
    if first.protected_size != prefix_len as u64 {
        return Err(Error::BadRecoveryChunk);
    }
    let mut i: usize = 0;
    while i < chunks.len()
        invariant
            i <= chunks@.len(),
            0 < chunks@.len(),
            contents == found_contents(found_view(chunks@)),
            first@ == contents[0],
            plan == contents[0].plan,
            contents[0].protected_size == prefix@.len(),
            forall|k: int|
                0 <= k < i ==> (#[trigger] contents[k]).plan == contents[0].plan
                    && contents[k].protected_size == contents[0].protected_size
                    && contents[k].data_shard_states == contents[0].data_shard_states,
        decreases chunks@.len() - i,
    {
        let chunk: &InlineRecoveryChunk = &chunks[i].chunk;
        assert(contents[i as int] == chunk@);
        if chunk.plan != plan || chunk.protected_size != first.protected_size || !same_states(
            &chunk.data_shard_states,
            &first.data_shard_states,
        ) {
            assert(!same_record(contents));
            return Err(Error::BadRecoveryChunk);
        }
        i += 1;
    }
    let mut data = match split_prefix_shards(prefix, plan) {
        Ok(data) => data,
        Err(error) => {
            return Err(error);
        },
    };
    let ranges = match split_prefix_shard_ranges(prefix_len, plan) {
        Ok(ranges) => ranges,
        Err(error) => {
            return Err(error);
        },
    };
    let group_count: usize = plan.group_count as usize;
    let ghost states = first.data_shard_states@;
    let mut damaged: Vec<usize> = Vec::new();
    let mut j: usize = 0;
    while j < ranges.len()
        invariant
            j <= ranges@.len(),
            plan_fits(plan),
            group_count == plan.group_count,
            prefix_len == prefix@.len(),
            ranges@ == Seq::new(
                plan.data_shards as nat,
                |i: int| shard_range(prefix_len as int, plan.group_count as int, i),
            ),
            states == first.data_shard_states@,
            states.len() == plan.data_shards,
            indices_view(damaged@) == damaged_below(
                prefix@,
                plan.group_count as int,
                states,
                j as nat,
            ),
        decreases ranges@.len() - j,
    {
        let start: usize = ranges[j].start;
        let end: usize = ranges[j].end;
        assert(j * group_count + group_count <= plan.data_shards * group_count) by (nonlinear_arith)
            requires
                j < plan.data_shards,
        ;
        let state: u64 = if start < end {
            let bytes = vstd::slice::slice_subrange(prefix, start, end);
            assert(bytes@ =~= shard_bytes(prefix@, group_count as int, j as int));
            crc64_rar_state(bytes)
        } else {
            assert(shard_bytes(prefix@, group_count as int, j as int) =~= Seq::empty());
            0
        };
        if state != first.data_shard_states[j] {
            damaged.push(j);
        }
        assert(indices_view(damaged@) =~= damaged_below(
            prefix@,
            plan.group_count as int,
            states,
            (j + 1) as nat,
        ));
        j += 1;
    }
    let ghost bad = damaged_shards(prefix@, contents[0]);
    proof {
        lemma_damaged_below(
            prefix@,
            plan.group_count as int,
            states,
            plan.data_shards as nat,
        );
        assert(bad == indices_view(damaged@));
        assert(bad.len() == damaged@.len());
    }
    if damaged.len() == 0 {
        return Ok(copy_bytes(prefix));
    }
    if damaged.len() > chunks.len() {
        return Err(Error::TooManyDamagedShards);
    }
    if group_count % 2 == 1 {
        return Err(Error::OddShardSize);
    }
    let mut recovery: Vec<(usize, &[u8])> = Vec::with_capacity(damaged.len());
    let mut r: usize = 0;
    while r < damaged.len()
        invariant
            r <= damaged@.len(),
            damaged@.len() <= chunks@.len(),
            contents == found_contents(found_view(chunks@)),
            recovery@.len() == r,
            forall|k: int|
                0 <= k < r ==> (#[trigger] recovery@[k]).0 == contents[k].shard_index
                    && recovery@[k].1@ == contents[k].parity,
        decreases damaged@.len() - r,
    {
        let chunk: &InlineRecoveryChunk = &chunks[r].chunk;
        assert(contents[r as int] == chunk@);
        recovery.push((chunk.shard_index, chunk.parity.as_slice()));
        r += 1;
    }
    let ghost rows = chunk_rows(contents).take(bad.len() as int);
    let ghost parity = chunk_parity(contents).take(bad.len() as int);
    proof {
        assert(recovery_rows(recovery@) =~= rows);
        assert(recovery_bytes(recovery@) =~= parity);
        assert forall|k: int| 0 <= k < parity.len() implies (#[trigger] parity[k]).len()
            == group_count by {
            assert(contents[k] == chunks@[k].chunk@);
            assert(contents[k].plan == contents[0].plan);
        }
        assert(shards_view(data@).len() == data@.len());
        assert(prefix_shards(prefix@, plan).len() == plan.data_shards);
        assert forall|k: int| 0 <= k < data@.len() implies (#[trigger] shards_view(
            data@,
        )[k]).len() == group_count by {
            assert(shards_view(data@)[k] == prefix_shards(prefix@, plan)[k]);
        }
    }
    let ghost before = data@;
    match recover_damaged_shards(&mut data, damaged.as_slice(), recovery.as_slice(), group_count) {
        Ok(_) => {},
        Err(error) => {
            return Err(error);
        },
    }
    let ghost solved = shards_view(data@);
    proof {
        assert forall|j: int| 0 <= j < solved.len() && !bad.contains(j) implies #[trigger] solved[j]
            == prefix_shards(prefix@, plan)[j] by {
            assert(data@[j]@ == before[j]@);
            assert(shards_view(before)[j] == prefix_shards(prefix@, plan)[j]);
        }
        assert(repairs(prefix@, contents, solved));
    }
    let mut repaired: Vec<u8> = Vec::with_capacity(prefix_len);
    let mut j: usize = 0;
    assert(0 * group_count == 0);
    while j < ranges.len()
        invariant
            j <= ranges@.len(),
            plan_fits(plan),
            plan_holds(prefix_len as int, plan),
            group_count == plan.group_count,
            ranges@ == Seq::new(
                plan.data_shards as nat,
                |i: int| shard_range(prefix_len as int, plan.group_count as int, i),
            ),
            data@.len() == plan.data_shards,
            solved == shards_view(data@),
            all_len(solved, group_count as int),
            repaired@ == joined(
                solved,
                group_count as int,
                if j * group_count < prefix_len {
                    (j * group_count) as nat
                } else {
                    prefix_len as nat
                },
            ),
        decreases ranges@.len() - j,
    {
        assert(j * group_count + group_count <= plan.data_shards * group_count) by (nonlinear_arith)
            requires
                j < plan.data_shards,
        ;
        assert((j + 1) * group_count == j * group_count + group_count) by (nonlinear_arith);
        let len: usize = range_len(&ranges[j]);
        assert(solved[j as int] == data@[j as int]@);
        assert(solved[j as int].len() == group_count);
        let ghost sofar = repaired@;
        let piece = vstd::slice::slice_subrange(data[j].as_slice(), 0, len);
        crate::bytes::push_all(&mut repaired, piece);
        proof {
            let next: nat = if (j + 1) * group_count < prefix_len {
                ((j + 1) * group_count) as nat
            } else {
                prefix_len as nat
            };
            let whole = joined(solved, group_count as int, next);
            assert(repaired@.len() == next);
            assert forall|k: int| 0 <= k < next implies #[trigger] repaired@[k] == whole[k] by {
                if k < sofar.len() {
                    assert(repaired@[k] == sofar[k]);
                } else {
                    let o = k - j * group_count;
                    assert(0 <= o < group_count);
                    vstd::arithmetic::div_mod::lemma_fundamental_div_mod_converse(
                        k,
                        group_count as int,
                        j as int,
                        o,
                    );
                    assert(repaired@[k] == piece@[o]);
                }
            }
            assert(repaired@ =~= whole);
        }
        j += 1;
    }
    assert(repaired@ == joined(solved, group_count as int, prefix@.len()));
    Ok(repaired)
}

/// What the parser guarantees of a chunk.
pub proof fn lemma_parsed_chunk_wf(input: Seq<u8>)
    ensures
        parsed_chunk(input) matches Ok(chunk) ==> chunk_wf(chunk) && chunk.plan.shard_size
            <= input.len(),
{
    reveal(parsed_chunk);
    if parsed_chunk(input) is Ok {
        lemma_byte_ranges();
        lemma_le_value_bound(input.subrange(0x3a, 0x3c));
        lemma_le_value_bound(input.subrange(0x3c, 0x3e));
        lemma_le_value_bound(input.subrange(0x3e, 0x40));
        lemma_le_value_bound(input.subrange(0x0c, 0x10));
        lemma_le_value_bound(input.subrange(0x10, 0x14));
        lemma_le_value_bound(input.subrange(0x22, 0x2a));
        lemma_le_value_bound(input.subrange(0x2a, 0x32));
        lemma_le_value_bound(input.subrange(0x32, 0x3a));
    }
}

/// What the scanner guarantees of the chunks it finds.
pub proof fn lemma_found_wf(input: Seq<u8>, offset: int)
    ensures
        forall|i: int|
            0 <= i < chunks_from(input, offset).len() ==> ({
                let found = #[trigger] chunks_from(input, offset)[i];
                &&& chunk_wf(found.content)
                &&& offset <= found.offset
                &&& 0 <= found.offset
                &&& found.offset + found.content.plan.shard_size <= input.len()
            }),
    decreases input.len() - offset,
{
    if 0 <= offset < input.len() {
        lemma_parsed_chunk_wf(input.skip(offset));
        match parsed_chunk(input.skip(offset)) {
            Ok(content) => {
                let size = content.plan.shard_size as int;
                lemma_found_wf(input, offset + size);
                let later = chunks_from(input, offset + size);
                assert forall|i: int| 0 <= i < chunks_from(input, offset).len() implies ({
                    let found = #[trigger] chunks_from(input, offset)[i];
                    &&& chunk_wf(found.content)
                    &&& offset <= found.offset
                    &&& 0 <= found.offset
                    &&& found.offset + found.content.plan.shard_size <= input.len()
                }) by {
                    if i > 0 {
                        assert(chunks_from(input, offset)[i] == later[i - 1]);
                    }
                }
            },
            Err(_) => {
                lemma_found_wf(input, offset + 1);
                let later = chunks_from(input, offset + 1);
                assert(chunks_from(input, offset) == later);
                assert forall|i: int| 0 <= i < chunks_from(input, offset).len() implies ({
                    let found = #[trigger] chunks_from(input, offset)[i];
                    &&& chunk_wf(found.content)
                    &&& offset <= found.offset
                    &&& 0 <= found.offset
                    &&& found.offset + found.content.plan.shard_size <= input.len()
                }) by {
                    assert(chunks_from(input, offset)[i] == later[i]);
                }
            },
        }
    }
}

/// The chunks in recovery data.
pub open spec fn available_chunks(recovery_data: Seq<u8>) -> Seq<ChunkContent> {
    found_contents(chunks_from(recovery_data, 0))
}

/// Finds the chunks in recovery data and makes the scanner's guarantees
/// usable.
pub fn find_chunks(input: &[u8]) -> (result: Result<Vec<FoundInlineRecoveryChunk>>)
    ensures
        chunks_from(input@, 0).len() == 0 ==> result is Err && result->Err_0
            == Error::BadRecoveryChunk,
        chunks_from(input@, 0).len() > 0 ==> result is Ok && ({
            let chunks = result->Ok_0@;
            &&& found_view(chunks) == chunks_from(input@, 0)
            &&& chunks.len() > 0
            &&& forall|i: int|
                0 <= i < chunks.len() ==> chunk_wf((#[trigger] chunks[i]).chunk@)
                    && chunks[i].offset + chunks[i].chunk.plan.shard_size <= input@.len()
        }),
{
    match find_inline_recovery_chunks(input) {
        Ok(chunks) => {
            proof {
                lemma_found_wf(input@, 0);
                let found = chunks_from(input@, 0);
                assert(found_view(chunks@).len() == chunks@.len());
                assert forall|i: int| 0 <= i < chunks@.len() implies chunk_wf(
                    (#[trigger] chunks@[i]).chunk@,
                ) && chunks@[i].offset + chunks@[i].chunk.plan.shard_size <= input@.len() by {
                    assert(found[i] == chunks@[i]@);
                }
            }
            Ok(chunks)
        },
        Err(error) => Err(error),
    }
}

/// Repairs an archive prefix with the recovery chunks in `recovery_data`.
///
/// Damaged shards are told by their checksum states. The result keeps what is
/// intact, and encodes to the recovery shards that were used. A record with
/// shards of odd size cannot be used.
pub fn repair_inline_recovery_prefix(archive_prefix: &[u8], recovery_data: &[u8]) -> (result: Result<
    Vec<u8>,
>)
    ensures
        is_repair_outcome(
            archive_prefix@,
            available_chunks(recovery_data@),
            match result {
                Ok(bytes) => Ok(bytes@),
                Err(error) => Err(error),
            },
        ),
{
    match find_chunks(recovery_data) {
        Ok(chunks) => repair_with_chunks(archive_prefix, chunks.as_slice()),
        Err(error) => Err(error),
    }
}

/// The distinct recovery rows of chunks.
pub open spec fn distinct_rows(chunks: Seq<ChunkContent>) -> Set<int> {
    chunk_rows(chunks).to_set()
}

/// Counts the distinct recovery rows of chunks.
pub fn count_distinct_rows(chunks: &[FoundInlineRecoveryChunk]) -> (count: u64)
    ensures
        count == distinct_rows(found_contents(found_view(chunks@))).len(),
{
    let ghost rows = chunk_rows(found_contents(found_view(chunks@)));
    let total: usize = chunks.len();
    let mut seen: Vec<usize> = Vec::new();
    let mut i: usize = 0;
    proof {
        assert(rows.take(0).to_set() =~= Set::<int>::empty());
    }
    while i < chunks.len()
        invariant
            i <= chunks@.len(),
            rows == chunk_rows(found_contents(found_view(chunks@))),
            seen@.len() <= i,
            rows.take(i as int).to_set().finite(),
            seen@.len() == rows.take(i as int).to_set().len(),
            forall|x: int|
                rows.take(i as int).to_set().contains(x) <==> #[trigger] indices_view(
                    seen@,
                ).contains(x),
        decreases chunks@.len() - i,
    {
        let row: usize = chunks[i].chunk.shard_index;
        assert(rows[i as int] == row);
        let mut known: bool = false;
        let mut k: usize = 0;
        while k < seen.len()
            invariant
                k <= seen@.len(),
                known <==> exists|c: int| 0 <= c < k && seen@[c] == row,
            decreases seen@.len() - k,
        {
            if seen[k] == row {
                known = true;
            }
            k += 1;
        }
        let ghost set = rows.take(i as int).to_set();
        let ghost more = rows.take(i + 1).to_set();
        let ghost listed = indices_view(seen@);
        proof {
            assert(rows.take(i + 1) =~= rows.take(i as int).push(row as int));
            assert forall|x: int| more.contains(x) <==> #[trigger] set.insert(row as int).contains(
                x,
            ) by {
                if more.contains(x) && x != row {
                    let longer = rows.take(i + 1);
                    let c = choose|c: int| 0 <= c < longer.len() && longer[c] == x;
                    assert(rows.take(i as int)[c] == x);
                }
                if set.contains(x) {
                    let shorter = rows.take(i as int);
                    let c = choose|c: int| 0 <= c < shorter.len() && shorter[c] == x;
                    assert(rows.take(i + 1)[c] == x);
                }
                assert(rows.take(i + 1)[i as int] == row);
            }
            assert(more =~= set.insert(row as int));
            if known {
                let c = choose|c: int| 0 <= c < seen@.len() && seen@[c] == row;
                assert(listed[c] == row);
                assert(listed.contains(row as int));
                assert(set.contains(row as int));
                assert(more =~= set);
            } else {
                assert(!set.contains(row as int)) by {
                    if set.contains(row as int) {
                        assert(listed.contains(row as int));
                        let c = choose|c: int| 0 <= c < listed.len() && listed[c] == row;
                        assert(seen@[c] == row);
                    }
                }
            }
        }
        if !known {
            seen.push(row);
            proof {
                let longer = indices_view(seen@);
                assert forall|x: int| more.contains(x) <==> #[trigger] longer.contains(x) by {
                    if longer.contains(x) {
                        let c = choose|c: int| 0 <= c < longer.len() && longer[c] == x;
                        if c < listed.len() {
                            assert(listed[c] == x);
                            assert(listed.contains(x));
                        }
                    }
                    if more.contains(x) {
                        if x == row {
                            assert(longer[listed.len() as int] == x);
                        } else {
                            assert(listed.contains(x));
                            let c = choose|c: int| 0 <= c < listed.len() && listed[c] == x;
                            assert(longer[c] == x);
                        }
                    }
                }
            }
        }
        i += 1;
    }
    assert(rows.take(chunks@.len() as int) =~= rows);
    seen.len() as u64
}

/// How many recovery shards there are, and how many there should be.
pub fn inline_recovery_chunk_counts(recovery_data: &[u8]) -> (counts: Result<(u64, u64)>)
    ensures
        ({
            let chunks = available_chunks(recovery_data@);
            if chunks.len() == 0 {
                counts == Err::<(u64, u64), Error>(Error::BadRecoveryChunk)
            } else {
                counts == Ok::<(u64, u64), Error>(
                    (distinct_rows(chunks).len() as u64, chunks[0].plan.recovery_shards),
                )
            }
        }),
{
    match find_chunks(recovery_data) {
        Ok(chunks) => {
            let expected: u64 = chunks[0].chunk.plan.recovery_shards;
            Ok((count_distinct_rows(chunks.as_slice()), expected))
        },
        Err(error) => Err(error),
    }
}

} // verus!
