//! Repairing a prefix shard by shard, without holding all of it.
use std::ops::Range;
use vstd::prelude::*;

use crate::bytes::{copy_bytes, zero_padded};
use crate::recovery::rar5::chunk::{found_view, ChunkContent, FoundInlineRecoveryChunk};
use crate::recovery::rar5::crc64::{crc64_rar_of, crc64_rar_state};
use crate::recovery::rar5::error::{Error, Result};
use crate::recovery::rar5::field::{gf_mul, lemma_xor};
use crate::recovery::rar5::gf16::Gf16;
use crate::recovery::rar5::linear::{
    apply, apply_inverse_matrix, invert_linear_system_matrix, is_inverse, is_singular, is_square,
    maps_to, rows_view,
};
use crate::recovery::rar5::parity::{
    accumulate_scaled, encoder_entry, encoder_matrix, make_encoder_matrix, parity_word, read_word,
    shard_counts_valid, word_at, write_word,
};
use crate::recovery::rar5::plan::{
    plan_fits, plan_holds, shard_range, shards_view, split_prefix_shard_ranges, InlineRecoveryPlan,
};
use crate::recovery::rar5::reconstruct::{
    all_len, ascending_below, encodes_to, equations, indices_view, lemma_word_solved,
};
use crate::recovery::rar5::repair::{
    available_chunks, chunk_parity, chunk_rows, chunk_wf, find_chunks, found_contents,
};
use crate::recovery::rar5::sum::{gf_sum, lemma_sum_congruent};

verus! {

/// The ranges of the shards of a plan.
pub open spec fn plan_ranges(protected_size: int, plan: InlineRecoveryPlan) -> Seq<Range<usize>> {
    Seq::new(
        plan.data_shards as nat,
        |j: int| shard_range(protected_size, plan.group_count as int, j),
    )
}

/// Chunks that agree in plan and protected size.
pub open spec fn same_geometry(chunks: Seq<ChunkContent>) -> bool {
    forall|i: int|
        0 <= i < chunks.len() ==> (#[trigger] chunks[i]).plan == chunks[0].plan
            && chunks[i].protected_size == chunks[0].protected_size
}

/// Why nothing can be repaired, whatever the shards hold, if there is a
/// reason.
pub open spec fn shard_repair_error(
    protected_size: int,
    chunks: Seq<ChunkContent>,
) -> Option<Error> {
    let plan = chunks[0].plan;
    if chunks.len() == 0 {
        Some(Error::BadRecoveryChunk)
    } else if chunks[0].protected_size != protected_size {
        Some(Error::BadRecoveryChunk)
    } else if !same_geometry(chunks) {
        Some(Error::BadRecoveryChunk)
    } else if plan.group_count > usize::MAX {
        Some(Error::PlanOverflow)
    } else if plan.group_count % 2 == 1 {
        Some(Error::OddShardSize)
    } else if !plan_fits(plan) {
        Some(Error::PlanOverflow)
    } else if !plan_holds(protected_size, plan) {
        Some(Error::PrefixExceedsPlan)
    } else {
        None
    }
}

/// Whether a reader takes every range that is read: the shards of the plan, where
/// there is something to repair with, and nothing else.
pub open spec fn takes_shards<F: Fn(Range<usize>) -> Result<Vec<u8>>>(
    read_range: F,
    protected_size: int,
    chunks: Seq<ChunkContent>,
) -> bool {
    shard_repair_error(protected_size, chunks) is None ==> forall|j: int|
        0 <= j < chunks[0].plan.data_shards ==> call_requires(
            read_range,
            (#[trigger] plan_ranges(protected_size, chunks[0].plan)[j],),
        )
}

/// The readings below `k` that do not have the recorded state, in order.
pub open spec fn misread_below(readings: Seq<Seq<u8>>, states: Seq<u64>, k: nat) -> Seq<int>
    decreases k,
{
    if k == 0 {
        Seq::empty()
    } else {
        let before = misread_below(readings, states, (k - 1) as nat);
        if crc64_rar_of(readings[k - 1]) != states[k - 1] {
            before.push(k - 1)
        } else {
            before
        }
    }
}

proof fn lemma_misread_below(readings: Seq<Seq<u8>>, states: Seq<u64>, k: nat)
    ensures
        ascending_below(misread_below(readings, states, k), k as int),
        misread_below(readings, states, k).len() <= k,
    decreases k,
{
    if k > 0 {
        lemma_misread_below(readings, states, (k - 1) as nat);
    }
}

proof fn lemma_misread_congruent(a: Seq<Seq<u8>>, b: Seq<Seq<u8>>, states: Seq<u64>, k: nat)
    requires
        forall|j: int| 0 <= j < k ==> #[trigger] a[j] == b[j],
    ensures
        misread_below(a, states, k) == misread_below(b, states, k),
    decreases k,
{
    if k > 0 {
        lemma_misread_congruent(a, b, states, (k - 1) as nat);
        assert(a[k - 1] == b[k - 1]);
    }
}

/// The reader may return these bytes for a range.
pub open spec fn reads_as<F: Fn(Range<usize>) -> Result<Vec<u8>>>(
    read: F,
    range: Range<usize>,
    bytes: Seq<u8>,
) -> bool {
    exists|v: Vec<u8>| #[trigger] call_ensures(read, (range,), Ok::<Vec<u8>, Error>(v)) && v@ == bytes
}

/// The reader may fail for a range.
pub open spec fn read_fails<F: Fn(Range<usize>) -> Result<Vec<u8>>>(
    read: F,
    range: Range<usize>,
    error: Error,
) -> bool {
    call_ensures(read, (range,), Err::<Vec<u8>, Error>(error))
}

/// Readings of every shard, and second readings of those found intact.
pub open spec fn shards_read<F: Fn(Range<usize>) -> Result<Vec<u8>>>(
    read: F,
    ranges: Seq<Range<usize>>,
    damaged: Seq<int>,
    first: Seq<Seq<u8>>,
    second: Seq<Seq<u8>>,
) -> bool {
    &&& first.len() == ranges.len()
    &&& second.len() == ranges.len()
    &&& forall|j: int| 0 <= j < ranges.len() ==> reads_as(read, #[trigger] ranges[j], first[j])
    &&& forall|j: int|
        0 <= j < ranges.len() && !damaged.contains(j) ==> reads_as(
            read,
            #[trigger] ranges[j],
            second[j],
        )
}

/// Why these readings cannot be repaired, if there is a reason.
pub open spec fn readings_error(
    chunks: Seq<ChunkContent>,
    first: Seq<Seq<u8>>,
    second: Seq<Seq<u8>>,
) -> Option<Error> {
    let plan = chunks[0].plan;
    let damaged = misread_below(first, chunks[0].data_shard_states, plan.data_shards as nat);
    let rows = chunk_rows(chunks).take(damaged.len() as int);
    if damaged.len() == 0 {
        None
    } else if damaged.len() > chunks.len() {
        Some(Error::TooManyDamagedShards)
    } else if !shard_counts_valid(plan.data_shards as int, plan.recovery_shards as int) {
        Some(Error::TooManyShards)
    } else if is_singular(equations(plan.data_shards as int, rows, damaged)) {
        Some(Error::SingularElement)
    } else if exists|j: int|
        0 <= j < plan.data_shards && !damaged.contains(j) && (#[trigger] second[j]).len()
            > plan.group_count {
        Some(Error::ShardSizeMismatch)
    } else {
        None
    }
}

/// The pieces that repair these readings: for each damaged shard its range
/// and its bytes, which together with the intact readings encode to the
/// recovery shards.
pub open spec fn are_repaired_pieces(
    protected_size: int,
    chunks: Seq<ChunkContent>,
    first: Seq<Seq<u8>>,
    second: Seq<Seq<u8>>,
    pieces: Seq<(Range<usize>, Vec<u8>)>,
) -> bool {
    let plan = chunks[0].plan;
    let damaged = misread_below(first, chunks[0].data_shard_states, plan.data_shards as nat);
    &&& pieces.len() == damaged.len()
    &&& damaged.len() > 0 ==> exists|data: Seq<Seq<u8>>|
        {
            &&& data.len() == plan.data_shards
            &&& all_len(data, plan.group_count as int)
            &&& forall|j: int|
                0 <= j < data.len() && !damaged.contains(j) ==> #[trigger] data[j] == zero_padded(
                    second[j],
                    plan.group_count as nat,
                )
            &&& #[trigger] encodes_to(
                data,
                chunk_rows(chunks).take(damaged.len() as int),
                chunk_parity(chunks).take(damaged.len() as int),
                plan.group_count as int,
            )
            &&& forall|c: int|
                0 <= c < pieces.len() ==> ({
                    let range = shard_range(protected_size, plan.group_count as int, damaged[c]);
                    let len = if range.start < range.end {
                        range.end - range.start
                    } else {
                        0
                    };
                    (#[trigger] pieces[c]).0 == range && pieces[c].1@ == data[damaged[c]].take(len)
                })
        }
}

/// What a repair shard by shard returns: the pieces for some readings that
/// the reader gave, the reason why these cannot be repaired, or the reader's
/// own failure.
pub open spec fn is_shard_repair_outcome<F: Fn(Range<usize>) -> Result<Vec<u8>>>(
    protected_size: int,
    chunks: Seq<ChunkContent>,
    read: F,
    outcome: core::result::Result<Seq<(Range<usize>, Vec<u8>)>, Error>,
) -> bool {
    let plan = chunks[0].plan;
    let ranges = plan_ranges(protected_size, plan);
    match shard_repair_error(protected_size, chunks) {
        Some(error) => outcome is Err && outcome->Err_0 == error,
        None => match outcome {
            Ok(pieces) => exists|first: Seq<Seq<u8>>, second: Seq<Seq<u8>>|
                {
                    &&& #[trigger] shards_read(
                        read,
                        ranges,
                        misread_below(
                            first,
                            chunks[0].data_shard_states,
                            plan.data_shards as nat,
                        ),
                        first,
                        second,
                    )
                    &&& readings_error(chunks, first, second) is None
                    &&& are_repaired_pieces(protected_size, chunks, first, second, pieces)
                },
            Err(error) => {
                ||| exists|j: int|
                    0 <= j < ranges.len() && read_fails(read, #[trigger] ranges[j], error)
                ||| exists|first: Seq<Seq<u8>>, second: Seq<Seq<u8>>|
                    {
                        &&& first.len() == ranges.len()
                        &&& forall|j: int|
                            0 <= j < ranges.len() ==> reads_as(
                                read,
                                #[trigger] ranges[j],
                                first[j],
                            )
                        &&& forall|j: int|
                            0 <= j < ranges.len() && (#[trigger] second[j]).len()
                                > plan.group_count ==> reads_as(read, ranges[j], second[j])
                        &&& #[trigger] readings_error(chunks, first, second) == Some(error)
                    }
            },
        },
    }
}

/// The words at `w` of several shards.
pub open spec fn words_at(shards: Seq<Seq<u8>>, w: int) -> Seq<u16> {
    Seq::new(shards.len(), |c: int| word_at(shards[c], w))
}

/// Solves the equations of a system for every word of the right-hand sides.
fn solve_words(
    gf: &Gf16,
    inverse: &Vec<Vec<u16>>,
    rhs: &Vec<Vec<u8>>,
    shard_len: usize,
    system: Ghost<Seq<Seq<u16>>>,
) -> (solved: Vec<Vec<u8>>)
    requires
        shard_len % 2 == 0,
        is_inverse(rows_view(inverse@), system@),
        inverse@.len() == rhs@.len(),
        all_len(shards_view(rhs@), shard_len as int),
    ensures
        solved@.len() == rhs@.len(),
        all_len(shards_view(solved@), shard_len as int),
        forall|w: int|
            0 <= w < shard_len / 2 ==> #[trigger] maps_to(
                system@,
                words_at(shards_view(solved@), w),
                words_at(shards_view(rhs@), w),
            ),
{
    let m: usize = rhs.len();
    let ghost e = rows_view(inverse@);
    let ghost right = shards_view(rhs@);
    let mut solved: Vec<Vec<u8>> = Vec::with_capacity(m);
    let mut c: usize = 0;
    while c < m
        invariant
            c <= m,
            solved@.len() == c,
            forall|k: int| 0 <= k < c ==> (#[trigger] solved@[k])@.len() == shard_len,
        decreases m - c,
    {
        solved.push(vec![0u8; shard_len]);
        c += 1;
    }
    assert(e.len() == m);
    let words: usize = shard_len / 2;
    let mut w: usize = 0;
    while w < words
        invariant
            w <= words,
            words == shard_len / 2,
            shard_len % 2 == 0,
            m == rhs@.len(),
            e == rows_view(inverse@),
            e.len() == m,
            right == shards_view(rhs@),
            is_inverse(e, system@),
            all_len(right, shard_len as int),
            solved@.len() == m,
            forall|k: int| 0 <= k < m ==> (#[trigger] solved@[k])@.len() == shard_len,
            forall|v: int|
                0 <= v < w ==> #[trigger] maps_to(
                    system@,
                    words_at(shards_view(solved@), v),
                    words_at(right, v),
                ),
        decreases words - w,
    {
        let mut values: Vec<u16> = Vec::with_capacity(m);
        let mut r: usize = 0;
        while r < m
            invariant
                r <= m,
                w < words,
                words == shard_len / 2,
                m == rhs@.len(),
                right == shards_view(rhs@),
                all_len(right, shard_len as int),
                values@.len() == r,
                forall|k: int| 0 <= k < r ==> #[trigger] values@[k] == word_at(right[k], w as int),
            decreases m - r,
        {
            assert(right[r as int] == rhs@[r as int]@);
            assert(right[r as int].len() == shard_len);
            values.push(read_word(rhs[r].as_slice(), w));
            r += 1;
        }
        assert(values@ =~= words_at(right, w as int));
        let symbols = match apply_inverse_matrix(gf, inverse.as_slice(), values.as_slice()) {
            Ok(symbols) => symbols,
            Err(_) => {
                return solved;
            },
        };
        proof {
            assert(maps_to(e, values@, symbols@));
            assert(maps_to(system@, symbols@, values@));
        }
        let ghost before = solved@;
        let mut c: usize = 0;
        while c < m
            invariant
                c <= m,
                w < words,
                words == shard_len / 2,
                symbols@.len() == m,
                before.len() == m,
                solved@.len() == m,
                forall|k: int| 0 <= k < m ==> (#[trigger] solved@[k])@.len() == shard_len,
                forall|k: int| c <= k < m ==> #[trigger] solved@[k] == before[k],
                forall|k: int, v: int|
                    0 <= k < m && 0 <= v && v != w ==> #[trigger] word_at(solved@[k]@, v)
                        == word_at(before[k]@, v),
                forall|k: int|
                    0 <= k < c ==> word_at((#[trigger] solved@[k])@, w as int) == symbols@[k],
            decreases m - c,
        {
            write_word(&mut solved[c], w, symbols[c]);
            c += 1;
        }
        proof {
            assert forall|v: int| 0 <= v < w + 1 implies #[trigger] maps_to(
                system@,
                words_at(shards_view(solved@), v),
                words_at(right, v),
            ) by {
                if v < w {
                    assert(words_at(shards_view(solved@), v) =~= words_at(shards_view(before), v)) by {
                        assert forall|k: int| 0 <= k < m implies word_at(
                            shards_view(solved@)[k],
                            v,
                        ) == word_at(shards_view(before)[k], v) by {
                            assert(word_at(solved@[k]@, v) == word_at(before[k]@, v));
                        }
                    }
                    assert(maps_to(
                        system@,
                        words_at(shards_view(before), v),
                        words_at(right, v),
                    ));
                } else {
                    assert(words_at(shards_view(solved@), v) =~= symbols@) by {
                        assert forall|k: int| 0 <= k < m implies word_at(
                            shards_view(solved@)[k],
                            v,
                        ) == symbols@[k] by {
                            assert(word_at(solved@[k]@, w as int) == symbols@[k]);
                        }
                    }
                }
            }
        }
        w += 1;
    }
    assert forall|k: int| 0 <= k < m implies (#[trigger] shards_view(solved@)[k]).len()
        == shard_len by {
        assert(solved@[k]@.len() == shard_len);
    }
    solved
}

/// The shards with the damaged ones filled in.
spec fn filled_in(
    second: Seq<Seq<u8>>,
    damaged: Seq<int>,
    solved: Seq<Seq<u8>>,
    len: nat,
) -> Seq<Seq<u8>> {
    Seq::new(
        second.len(),
        |j: int|
            if damaged.contains(j) {
                solved[damaged.index_of(j)]
            } else {
                zero_padded(second[j], len)
            },
    )
}

/// What is solved from the remainders completes the data.
proof fn lemma_filled_in_encodes(
    second: Seq<Seq<u8>>,
    damaged: Seq<int>,
    solved: Seq<Seq<u8>>,
    remaining: Seq<Seq<u8>>,
    rows: Seq<int>,
    parity: Seq<Seq<u8>>,
    len: nat,
)
    requires
        len % 2 == 0,
        ascending_below(damaged, second.len() as int),
        rows.len() == damaged.len(),
        solved.len() == damaged.len(),
        remaining.len() == damaged.len(),
        parity.len() == damaged.len(),
        all_len(solved, len as int),
        forall|j: int|
            0 <= j < second.len() && !damaged.contains(j) ==> (#[trigger] second[j]).len() <= len,
        forall|r: int, w: int|
            0 <= r < rows.len() && 0 <= w < len / 2 ==> #[trigger] word_at(remaining[r], w)
                == word_at(parity[r], w) ^ gf_sum(
                |j: int|
                    if damaged.contains(j) {
                        0u16
                    } else {
                        gf_mul(encoder_entry(second.len() as int, rows[r], j), word_at(second[j], w))
                    },
                second.len(),
            ),
        forall|w: int|
            0 <= w < len / 2 ==> #[trigger] maps_to(
                equations(second.len() as int, rows, damaged),
                words_at(solved, w),
                words_at(remaining, w),
            ),
    ensures
        ({
            let data = filled_in(second, damaged, solved, len);
            &&& all_len(data, len as int)
            &&& encodes_to(data, rows, parity, len as int)
            &&& forall|c: int| 0 <= c < damaged.len() ==> data[#[trigger] damaged[c]] == solved[c]
        }),
{
    let n = second.len() as int;
    let data = filled_in(second, damaged, solved, len);
    let system = equations(n, rows, damaged);
    assert forall|c: int| 0 <= c < damaged.len() implies data[#[trigger] damaged[c]] == solved[c] by {
        assert(damaged.contains(damaged[c]));
        let d = damaged.index_of(damaged[c]);
        assert(damaged[d] == damaged[c]);
        if d != c {
            if d < c {
                assert(damaged[d] < damaged[c]);
            } else {
                assert(damaged[c] < damaged[d]);
            }
        }
    }
    assert forall|j: int| 0 <= j < data.len() implies (#[trigger] data[j]).len() == len by {
        if damaged.contains(j) {
            let c = damaged.index_of(j);
            assert(damaged[c] == j);
            assert(solved[c].len() == len);
        }
    }
    assert forall|r: int, w: int| 0 <= r < rows.len() && 0 <= w < len as int / 2 implies
        #[trigger] parity_word(data, rows[r], w) == word_at(parity[r], w) by {
        let rhs = word_at(remaining[r], w);
        let xs = words_at(solved, w);
        assert(maps_to(system, xs, words_at(remaining, w)));
        assert(apply(system, xs)[r] == rhs);
        lemma_sum_congruent(
            |c: int| gf_mul(system[r][c], xs[c]),
            |c: int| gf_mul(encoder_entry(n, rows[r], damaged[c]), xs[c]),
            damaged.len(),
        );
        let f = |j: int|
            if damaged.contains(j) {
                0u16
            } else {
                gf_mul(encoder_entry(n, rows[r], j), word_at(second[j], w))
            };
        let g = |j: int|
            if damaged.contains(j) {
                0u16
            } else {
                gf_mul(encoder_entry(data.len() as int, rows[r], j), word_at(data[j], w))
            };
        assert forall|j: int| 0 <= j < n implies #[trigger] f(j) == g(j) by {
            if !damaged.contains(j) {
                assert(second[j].len() <= len);
                assert(word_at(data[j], w) == word_at(second[j], w));
            }
        }
        lemma_sum_congruent(f, g, n as nat);
        assert forall|c: int| 0 <= c < damaged.len() implies word_at(
            data[#[trigger] damaged[c]],
            w,
        ) == xs[c] by {}
        lemma_word_solved(
            data,
            data,
            rows[r],
            damaged,
            w,
            word_at(parity[r], w),
            rhs,
            xs,
        );
    }
}

/// A copy of a range.
fn copy_range(range: &Range<usize>) -> (copy: Range<usize>)
    ensures
        copy == *range,
{
    Range { start: range.start, end: range.end }
}

/// Reads every shard and lists those without the recorded state.
fn list_misread<F: Fn(Range<usize>) -> Result<Vec<u8>>>(
    ranges: &Vec<Range<usize>>,
    states: &Vec<u64>,
    read_range: &F,
) -> (result: (Result<Vec<usize>>, Ghost<Seq<Seq<u8>>>))
    requires
        states@.len() == ranges@.len(),
        forall|j: int|
            0 <= j < ranges@.len() ==> call_requires(*read_range, (#[trigger] ranges@[j],)),
    ensures
        match result.0 {
            Ok(damaged) => {
                &&& result.1@.len() == ranges@.len()
                &&& forall|j: int|
                    0 <= j < ranges@.len() ==> reads_as(
                        *read_range,
                        #[trigger] ranges@[j],
                        result.1@[j],
                    )
                &&& indices_view(damaged@) == misread_below(result.1@, states@, ranges@.len())
            },
            Err(error) => exists|j: int|
                0 <= j < ranges@.len() && read_fails(*read_range, #[trigger] ranges@[j], error),
        },
{
    let mut damaged: Vec<usize> = Vec::new();
    let ghost mut first = Seq::<Seq<u8>>::empty();
    let mut j: usize = 0;
    while j < ranges.len()
        invariant
            j <= ranges@.len(),
            states@.len() == ranges@.len(),
            forall|k: int|
                0 <= k < ranges@.len() ==> call_requires(*read_range, (#[trigger] ranges@[k],)),
            first.len() == j,
            forall|k: int|
                0 <= k < j ==> reads_as(*read_range, #[trigger] ranges@[k], first[k]),
            indices_view(damaged@) == misread_below(first, states@, j as nat),
        decreases ranges@.len() - j,
    {
        let reading = read_range(copy_range(&ranges[j]));
        match reading {
            Ok(shard) => {
                let ghost before = first;
                proof {
                    first = first.push(shard@);
                    assert(reads_as(*read_range, ranges@[j as int], shard@));
                    lemma_misread_congruent(before, first, states@, j as nat);
                }
                if crc64_rar_state(shard.as_slice()) != states[j] {
                    damaged.push(j);
                }
                assert(indices_view(damaged@) =~= misread_below(first, states@, (j + 1) as nat));
            },
            Err(error) => {
                assert(read_fails(*read_range, ranges@[j as int], error));
                return (Err(error), Ghost(first));
            },
        }
        j += 1;
    }
    (Ok(damaged), Ghost(first))
}

/// The chunks have these contents, which fit the plan.
spec fn chunks_usable(
    chunks: Seq<FoundInlineRecoveryChunk>,
    contents: Seq<ChunkContent>,
    recovery_shards: int,
    shard_len: int,
) -> bool {
    forall|k: int|
        0 <= k < chunks.len() ==> {
            &&& (#[trigger] chunks[k]).chunk@ == contents[k]
            &&& 0 <= contents[k].shard_index < recovery_shards
            &&& contents[k].parity.len() == shard_len
        }
}

/// Repairs damaged shards of a protected prefix without holding all of it.
///
/// `read_range` gets byte ranges of the prefix, each of them the range of one
/// shard, and returns the bytes there.
/// The pieces returned are the ranges that have to be written back.
pub fn repair_inline_recovery_prefix_shards<F: Fn(Range<usize>) -> Result<Vec<u8>>>(
    protected_size: usize,
    recovery_data: &[u8],
    read_range: F,
) -> (result: Result<Vec<(Range<usize>, Vec<u8>)>>)
    requires
        takes_shards(read_range, protected_size as int, available_chunks(recovery_data@)),
    ensures
        is_shard_repair_outcome(
            protected_size as int,
            available_chunks(recovery_data@),
            read_range,
            match result {
                Ok(pieces) => Ok(pieces@),
                Err(error) => Err(error),
            },
        ),
{
    let chunks = match find_chunks(recovery_data) {
        Ok(chunks) => chunks,
        Err(error) => {
            return Err(error);
        },
    };
    repair_shards_with_chunks(protected_size, chunks.as_slice(), read_range)
}

fn repair_shards_with_chunks<F: Fn(Range<usize>) -> Result<Vec<u8>>>(
    protected_size: usize,
    chunks: &[FoundInlineRecoveryChunk],
    read_range: F,
) -> (result: Result<Vec<(Range<usize>, Vec<u8>)>>)
    requires
        chunks@.len() > 0,
        forall|i: int| 0 <= i < chunks@.len() ==> chunk_wf((#[trigger] chunks@[i]).chunk@),
        takes_shards(
            read_range,
            protected_size as int,
            found_contents(found_view(chunks@)),
        ),
    ensures
        is_shard_repair_outcome(
            protected_size as int,
            found_contents(found_view(chunks@)),
            read_range,
            match result {
                Ok(pieces) => Ok(pieces@),
                Err(error) => Err(error),
            },
        ),
{
    let ghost contents = found_contents(found_view(chunks@));
    let first_chunk = &chunks[0].chunk;
    let plan = first_chunk.plan;
    assert(contents[0] == first_chunk@);
    if first_chunk.protected_size != protected_size as u64 {
        return Err(Error::BadRecoveryChunk);
    }
    let mut i: usize = 0;
    while i < chunks.len()
        invariant
            i <= chunks@.len(),
            0 < chunks@.len(),
            contents == found_contents(found_view(chunks@)),
            contents[0] == first_chunk@,
            plan == contents[0].plan,
            contents[0].protected_size == protected_size,
            forall|k: int|
                0 <= k < i ==> (#[trigger] contents[k]).plan == contents[0].plan
                    && contents[k].protected_size == contents[0].protected_size,
        decreases chunks@.len() - i,
    {
        assert(contents[i as int] == chunks@[i as int].chunk@);
        if chunks[i].chunk.plan != plan || chunks[i].chunk.protected_size
            != first_chunk.protected_size {
            assert(!same_geometry(contents));
            return Err(Error::BadRecoveryChunk);
        }
        i += 1;
    }
    if plan.group_count > usize::MAX as u64 {
        return Err(Error::PlanOverflow);
    }
    let shard_len: usize = plan.group_count as usize;
    if shard_len % 2 == 1 {
        return Err(Error::OddShardSize);
    }
    let ranges = match split_prefix_shard_ranges(protected_size, plan) {
        Ok(ranges) => ranges,
        Err(error) => {
            return Err(error);
        },
    };
    assert(shard_repair_error(protected_size as int, contents) is None);
    assert(ranges@ == plan_ranges(protected_size as int, plan));
    assert forall|j: int| 0 <= j < ranges@.len() implies call_requires(
        read_range,
        (#[trigger] ranges@[j],),
    ) by {
        assert(ranges@[j] == plan_ranges(protected_size as int, plan)[j]);
    }
    let n: usize = ranges.len();
    let (listed, Ghost(first)) = list_misread(
        &ranges,
        &first_chunk.data_shard_states,
        &read_range,
    );
    let damaged = match listed {
        Ok(damaged) => damaged,
        Err(error) => {
            return Err(error);
        },
    };
    let ghost states = contents[0].data_shard_states;
    let ghost bad = misread_below(first, states, n as nat);
    proof {
        lemma_misread_below(first, states, n as nat);
        assert(bad == indices_view(damaged@));
        assert(bad.len() == damaged@.len());
    }
    let m: usize = damaged.len();
    if m == 0 {
        let pieces: Vec<(Range<usize>, Vec<u8>)> = Vec::new();
        proof {
            assert(shards_read(read_range, ranges@, bad, first, first));
            assert(are_repaired_pieces(protected_size as int, contents, first, first, pieces@));
        }
        return Ok(pieces);
    }
    let ghost unread = Seq::new(n as nat, |j: int| Seq::<u8>::empty());
    if m > chunks.len() {
        assert(readings_error(contents, first, unread) == Some(Error::TooManyDamagedShards));
        return Err(Error::TooManyDamagedShards);
    }
    let recovery_shards: usize = plan.recovery_shards as usize;
    assert(chunk_wf(contents[0])) by {
        assert(chunks@[0].chunk@ == contents[0]);
    }
    let matrix = match make_encoder_matrix(n, recovery_shards) {
        Ok(matrix) => matrix,
        Err(error) => {
            assert(readings_error(contents, first, unread) == Some(Error::TooManyShards));
            return Err(error);
        },
    };
    let ghost entries = encoder_matrix(n as nat, recovery_shards as nat);
    assert(rows_view(matrix@).len() == recovery_shards);
    assert forall|k: int| 0 <= k < recovery_shards implies (#[trigger] matrix@[k])@ == entries[k] by {
        assert(rows_view(matrix@)[k] == matrix@[k]@);
    }
    let ghost rows = chunk_rows(contents).take(m as int);
    let ghost parity = chunk_parity(contents).take(m as int);
    let ghost system = equations(n as int, rows, bad);
    assert(chunks_usable(chunks@, contents, recovery_shards as int, shard_len as int)) by {
        assert forall|k: int| 0 <= k < chunks@.len() implies {
            &&& (#[trigger] chunks@[k]).chunk@ == contents[k]
            &&& 0 <= contents[k].shard_index < recovery_shards
            &&& contents[k].parity.len() == shard_len
        } by {
            assert(contents[k].plan == contents[0].plan);
        }
    }
    let gf = Gf16::new();
    let mut coefficients: Vec<Vec<u16>> = Vec::with_capacity(m);
    let mut remaining: Vec<Vec<u8>> = Vec::with_capacity(m);
    let mut r: usize = 0;
    while r < m
        invariant
            r <= m,
            m == damaged@.len(),
            m <= chunks@.len(),
            bad == indices_view(damaged@),
            ascending_below(bad, n as int),
            rows == chunk_rows(contents).take(m as int),
            parity == chunk_parity(contents).take(m as int),
            contents.len() == chunks@.len(),
            system == equations(n as int, rows, bad),
            entries == encoder_matrix(n as nat, recovery_shards as nat),
            matrix@.len() == recovery_shards,
            forall|k: int|
                0 <= k < recovery_shards ==> (#[trigger] matrix@[k])@ == entries[k],
            chunks_usable(chunks@, contents, recovery_shards as int, shard_len as int),
            coefficients@.len() == r,
            remaining@.len() == r,
            forall|k: int| 0 <= k < r ==> (#[trigger] coefficients@[k])@ == system[k],
            forall|k: int| 0 <= k < r ==> (#[trigger] remaining@[k])@ == parity[k],
        decreases m - r,
    {
        let chunk = &chunks[r].chunk;
        let row: usize = chunk.shard_index;
        assert(chunks@[r as int].chunk@ == contents[r as int]);
        assert(rows[r as int] == row);
        let mut equation: Vec<u16> = Vec::with_capacity(m);
        let mut c: usize = 0;
        while c < m
            invariant
                c <= m,
                m == damaged@.len(),
                bad == indices_view(damaged@),
                ascending_below(bad, n as int),
                row < recovery_shards,
                matrix@.len() == recovery_shards,
                entries == encoder_matrix(n as nat, recovery_shards as nat),
                matrix@[row as int]@ == entries[row as int],
                equation@.len() == c,
                forall|k: int|
                    0 <= k < c ==> #[trigger] equation@[k] == encoder_entry(
                        n as int,
                        row as int,
                        bad[k],
                    ),
            decreases m - c,
        {
            assert(bad[c as int] == damaged@[c as int]);
            equation.push(matrix[row][damaged[c]]);
            c += 1;
        }
        assert(equation@ =~= system[r as int]);
        coefficients.push(equation);
        remaining.push(copy_bytes(chunk.parity.as_slice()));
        r += 1;
    }
    assert(rows_view(coefficients@) =~= system);
    assert(is_square(system));
    let inverse = match invert_linear_system_matrix(&gf, coefficients.as_slice()) {
        Ok(inverse) => inverse,
        Err(error) => {
            assert(readings_error(contents, first, unread) == Some(Error::SingularElement));
            return Err(error);
        },
    };
    let ghost mut second = Seq::<Seq<u8>>::empty();
    let mut next: usize = 0;
    let mut j: usize = 0;
    proof {
        assert forall|r: int, w: int|
            0 <= r < m && 0 <= w < shard_len / 2 implies #[trigger] word_at(remaining@[r]@, w)
            == word_at(parity[r], w) ^ gf_sum(
            |k: int|
                if bad.contains(k) {
                    0u16
                } else {
                    gf_mul(encoder_entry(n as int, rows[r], k), word_at(second[k], w))
                },
            0,
        ) by {
            lemma_xor(word_at(parity[r], w), 0, 0);
        }
    }
    while j < n
        invariant
            j <= n,
            n == ranges@.len(),
            n == plan.data_shards,
            shard_len == plan.group_count,
            shard_len % 2 == 0,
            m > 0,
            m == damaged@.len(),
            m <= chunks@.len(),
            contents == found_contents(found_view(chunks@)),
            plan == contents[0].plan,
            states == contents[0].data_shard_states,
            shard_repair_error(protected_size as int, contents) is None,
            shard_counts_valid(n as int, recovery_shards as int),
            recovery_shards == plan.recovery_shards,
            contents.len() == chunks@.len(),
            ranges@ == plan_ranges(protected_size as int, plan),
            first.len() == n,
            forall|k: int| 0 <= k < n ==> reads_as(read_range, #[trigger] ranges@[k], first[k]),
            forall|k: int| 0 <= k < n ==> call_requires(read_range, (#[trigger] ranges@[k],)),
            bad == misread_below(first, states, n as nat),
            bad == indices_view(damaged@),
            ascending_below(bad, n as int),
            rows == chunk_rows(contents).take(m as int),
            parity == chunk_parity(contents).take(m as int),
            system == equations(n as int, rows, bad),
            !is_singular(system),
            entries == encoder_matrix(n as nat, recovery_shards as nat),
            matrix@.len() == recovery_shards,
            forall|k: int|
                0 <= k < recovery_shards ==> (#[trigger] matrix@[k])@ == entries[k],
            chunks_usable(chunks@, contents, recovery_shards as int, shard_len as int),
            next <= m,
            forall|c: int| 0 <= c < next ==> #[trigger] bad[c] < j,
            forall|c: int| next <= c < m ==> j <= #[trigger] bad[c],
            second.len() == j,
            forall|k: int|
                0 <= k < j && !bad.contains(k) ==> reads_as(
                    read_range,
                    #[trigger] ranges@[k],
                    second[k],
                ),
            forall|k: int|
                0 <= k < j && !bad.contains(k) ==> (#[trigger] second[k]).len() <= shard_len,
            remaining@.len() == m,
            forall|r: int| 0 <= r < m ==> (#[trigger] remaining@[r])@.len() == shard_len,
            forall|r: int, w: int|
                0 <= r < m && 0 <= w < shard_len / 2 ==> #[trigger] word_at(remaining@[r]@, w)
                    == word_at(parity[r], w) ^ gf_sum(
                    |k: int|
                        if bad.contains(k) {
                            0u16
                        } else {
                            gf_mul(encoder_entry(n as int, rows[r], k), word_at(second[k], w))
                        },
                    j as nat,
                ),
        decreases n - j,
    {
        let ghost earlier = second;
        let ghost old_remaining = remaining@;
        if next < m && damaged[next] == j {
            assert(bad[next as int] == j);
            assert(bad.contains(j as int));
            proof {
                second = second.push(Seq::<u8>::empty());
                assert forall|c: int| next < c < m implies j + 1 <= #[trigger] bad[c] by {
                    assert(bad[next as int] < bad[c]);
                }
            }
            next += 1;
            proof {
                assert(second.drop_last() =~= earlier);
                lemma_remaining_step(
                    earlier,
                    second,
                    bad,
                    rows,
                    parity,
                    shards_view(old_remaining),
                    shards_view(remaining@),
                    n as int,
                    shard_len as int,
                );
                assert forall|r: int, w: int|
                    0 <= r < m && 0 <= w < shard_len / 2 implies #[trigger] word_at(
                    remaining@[r]@,
                    w,
                ) == word_at(parity[r], w) ^ gf_sum(
                    |k: int|
                        if bad.contains(k) {
                            0u16
                        } else {
                            gf_mul(encoder_entry(n as int, rows[r], k), word_at(second[k], w))
                        },
                    (j + 1) as nat,
                ) by {
                    assert(word_at(shards_view(remaining@)[r], w) == word_at(remaining@[r]@, w));
                }
            }
        } else {
            proof {
                assert(!bad.contains(j as int)) by {
                    if bad.contains(j as int) {
                        let c = choose|c: int| 0 <= c < bad.len() && bad[c] == j;
                        assert(c >= next);
                        if c > next {
                            assert(bad[next as int] < bad[c]);
                            assert(j <= bad[next as int]);
                        }
                        assert(damaged@[next as int] == bad[next as int]);
                    }
                }
                if next < m {
                    assert(damaged@[next as int] == bad[next as int]);
                }
            }
            let bytes = match read_range(copy_range(&ranges[j])) {
                Ok(bytes) => bytes,
                Err(error) => {
                    assert(read_fails(read_range, ranges@[j as int], error));
                    return Err(error);
                },
            };
            assert(reads_as(read_range, ranges@[j as int], bytes@));
            if bytes.len() > shard_len {
                proof {
                    let long = Seq::new(
                        n as nat,
                        |k: int|
                            if k == j {
                                bytes@
                            } else {
                                Seq::<u8>::empty()
                            },
                    );
                    assert(long[j as int].len() > plan.group_count);
                    assert forall|k: int| 0 <= k < n && (#[trigger] long[k]).len()
                        > plan.group_count implies reads_as(read_range, ranges@[k], long[k]) by {}
                    assert(readings_error(contents, first, long) == Some(Error::ShardSizeMismatch));
                }
                return Err(Error::ShardSizeMismatch);
            }
            proof {
                second = second.push(bytes@);
            }
            let mut r: usize = 0;
            while r < m
                invariant
                    r <= m,
                    j < n,
                    m <= chunks@.len(),
                    shard_len % 2 == 0,
                    bytes@.len() <= shard_len,
                    rows == chunk_rows(contents).take(m as int),
                    contents.len() == chunks@.len(),
                    entries == encoder_matrix(n as nat, recovery_shards as nat),
                    matrix@.len() == recovery_shards,
                    forall|k: int|
                        0 <= k < recovery_shards ==> (#[trigger] matrix@[k])@ == entries[k],
                    chunks_usable(chunks@, contents, recovery_shards as int, shard_len as int),
                    remaining@.len() == m,
                    old_remaining.len() == m,
                    forall|k: int| 0 <= k < m ==> (#[trigger] remaining@[k])@.len() == shard_len,
                    forall|k: int| r <= k < m ==> #[trigger] remaining@[k] == old_remaining[k],
                    forall|k: int, w: int|
                        0 <= k < r && 0 <= w < shard_len / 2 ==> #[trigger] word_at(
                            remaining@[k]@,
                            w,
                        ) == word_at(old_remaining[k]@, w) ^ gf_mul(
                            encoder_entry(n as int, rows[k], j as int),
                            word_at(bytes@, w),
                        ),
                decreases m - r,
            {
                let row: usize = chunks[r].chunk.shard_index;
                assert(chunks@[r as int].chunk@ == contents[r as int]);
                assert(rows[r as int] == row);
                assert(matrix@[row as int]@ == entries[row as int]);
                assert(remaining@[r as int] == old_remaining[r as int]);
                let coefficient: u16 = matrix[row][j];
                accumulate_scaled(&mut remaining[r], 0, bytes.as_slice(), coefficient, &gf);
                r += 1;
            }
            proof {
                assert forall|r: int, w: int|
                    0 <= r < m && 0 <= w < shard_len / 2 implies #[trigger] word_at(
                    remaining@[r]@,
                    w,
                ) == word_at(parity[r], w) ^ gf_sum(
                    |k: int|
                        if bad.contains(k) {
                            0u16
                        } else {
                            gf_mul(encoder_entry(n as int, rows[r], k), word_at(second[k], w))
                        },
                    (j + 1) as nat,
                ) by {
                    let f = |k: int|
                        if bad.contains(k) {
                            0u16
                        } else {
                            gf_mul(encoder_entry(n as int, rows[r], k), word_at(earlier[k], w))
                        };
                    let g = |k: int|
                        if bad.contains(k) {
                            0u16
                        } else {
                            gf_mul(encoder_entry(n as int, rows[r], k), word_at(second[k], w))
                        };
                    assert(word_at(old_remaining[r]@, w) == word_at(parity[r], w) ^ gf_sum(
                        f,
                        j as nat,
                    ));
                    assert forall|k: int| 0 <= k < j implies #[trigger] f(k) == g(k) by {
                        assert(second[k] == earlier[k]);
                    }
                    lemma_sum_congruent(f, g, j as nat);
                    assert(second[j as int] == bytes@);
                    lemma_xor(word_at(parity[r], w), gf_sum(g, j as nat), g(j as int));
                }
            }
        }
        j += 1;
    }
    assert forall|k: int| 0 <= k < m implies (#[trigger] shards_view(remaining@)[k]).len()
        == shard_len by {
        assert(remaining@[k]@.len() == shard_len);
    }
    assert(rows_view(inverse@).len() == inverse@.len());
    let solved = solve_words(&gf, &inverse, &remaining, shard_len, Ghost(system));
    let ghost fixed = shards_view(solved@);
    let ghost data = filled_in(second, bad, fixed, shard_len as nat);
    proof {
        let rem = shards_view(remaining@);
        assert forall|r: int, w: int|
            0 <= r < rows.len() && 0 <= w < shard_len as nat / 2 implies #[trigger] word_at(rem[r], w)
            == word_at(parity[r], w) ^ gf_sum(
            |k: int|
                if bad.contains(k) {
                    0u16
                } else {
                    gf_mul(encoder_entry(second.len() as int, rows[r], k), word_at(second[k], w))
                },
            second.len(),
        ) by {
            assert(word_at(remaining@[r]@, w) == word_at(rem[r], w));
        }
        lemma_filled_in_encodes(
            second,
            bad,
            fixed,
            rem,
            rows,
            parity,
            shard_len as nat,
        );
    }
    let mut pieces: Vec<(Range<usize>, Vec<u8>)> = Vec::with_capacity(m);
    let mut c: usize = 0;
    while c < m
        invariant
            c <= m,
            n == ranges@.len(),
            n == plan.data_shards,
            shard_len == plan.group_count,
            plan_fits(plan),
            plan_holds(protected_size as int, plan),
            m == damaged@.len(),
            m == solved@.len(),
            bad == indices_view(damaged@),
            ascending_below(bad, n as int),
            ranges@ == plan_ranges(protected_size as int, plan),
            fixed == shards_view(solved@),
            all_len(fixed, shard_len as int),
            data.len() == n,
            forall|k: int| 0 <= k < m ==> data[#[trigger] bad[k]] == fixed[k],
            pieces@.len() == c,
            forall|k: int|
                0 <= k < c ==> ({
                    let range = shard_range(protected_size as int, plan.group_count as int, bad[k]);
                    let len = if range.start < range.end {
                        range.end - range.start
                    } else {
                        0
                    };
                    (#[trigger] pieces@[k]).0 == range && pieces@[k].1@ == data[bad[k]].take(len)
                }),
        decreases m - c,
    {
        let at: usize = damaged[c];
        assert(bad[c as int] == at);
        let range = copy_range(&ranges[at]);
        assert(at * shard_len + shard_len <= plan.data_shards * shard_len) by (nonlinear_arith)
            requires
                at < plan.data_shards,
        ;
        let len: usize = if range.start < range.end {
            range.end - range.start
        } else {
            0
        };
        assert(fixed[c as int] == solved@[c as int]@);
        assert(fixed[c as int].len() == shard_len);
        let bytes = copy_bytes(vstd::slice::slice_subrange(solved[c].as_slice(), 0, len));
        assert(bytes@ =~= data[bad[c as int]].take(len as int));
        pieces.push((range, bytes));
        c += 1;
    }
    proof {
        assert(shards_read(read_range, ranges@, bad, first, second));
        assert(readings_error(contents, first, second) is None);
        assert(encodes_to(data, rows, parity, plan.group_count as int));
        assert(are_repaired_pieces(protected_size as int, contents, first, second, pieces@));
    }
    Ok(pieces)
}

/// A damaged shard adds nothing to the share of the intact ones.
proof fn lemma_remaining_step(
    earlier: Seq<Seq<u8>>,
    later: Seq<Seq<u8>>,
    bad: Seq<int>,
    rows: Seq<int>,
    parity: Seq<Seq<u8>>,
    old_remaining: Seq<Seq<u8>>,
    remaining: Seq<Seq<u8>>,
    n: int,
    len: int,
)
    requires
        later.len() == earlier.len() + 1,
        later.drop_last() == earlier,
        bad.contains(earlier.len() as int),
        remaining == old_remaining,
        rows.len() == old_remaining.len(),
        forall|r: int, w: int|
            0 <= r < rows.len() && 0 <= w < len / 2 ==> #[trigger] word_at(old_remaining[r], w)
                == word_at(parity[r], w) ^ gf_sum(
                |k: int|
                    if bad.contains(k) {
                        0u16
                    } else {
                        gf_mul(encoder_entry(n, rows[r], k), word_at(earlier[k], w))
                    },
                earlier.len(),
            ),
    ensures
        forall|r: int, w: int|
            0 <= r < rows.len() && 0 <= w < len / 2 ==> #[trigger] word_at(remaining[r], w)
                == word_at(parity[r], w) ^ gf_sum(
                |k: int|
                    if bad.contains(k) {
                        0u16
                    } else {
                        gf_mul(encoder_entry(n, rows[r], k), word_at(later[k], w))
                    },
                later.len(),
            ),
{
    assert forall|r: int, w: int| 0 <= r < rows.len() && 0 <= w < len / 2 implies
        #[trigger] word_at(remaining[r], w) == word_at(parity[r], w) ^ gf_sum(
        |k: int|
            if bad.contains(k) {
                0u16
            } else {
                gf_mul(encoder_entry(n, rows[r], k), word_at(later[k], w))
            },
        later.len(),
    ) by {
        let f = |k: int|
            if bad.contains(k) {
                0u16
            } else {
                gf_mul(encoder_entry(n, rows[r], k), word_at(earlier[k], w))
            };
        let g = |k: int|
            if bad.contains(k) {
                0u16
            } else {
                gf_mul(encoder_entry(n, rows[r], k), word_at(later[k], w))
            };
        assert(word_at(old_remaining[r], w) == word_at(parity[r], w) ^ gf_sum(f, earlier.len()));
        assert forall|k: int| 0 <= k < earlier.len() implies #[trigger] f(k) == g(k) by {
            assert(later.drop_last()[k] == later[k]);
        }
        lemma_sum_congruent(f, g, earlier.len());
        lemma_xor(gf_sum(g, earlier.len()), 0, 0);
    }
}

} // verus!
