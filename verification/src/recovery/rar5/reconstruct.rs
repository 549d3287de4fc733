//! Reconstruction of missing data shards from recovery shards.
use vstd::prelude::*;

use crate::bytes::{copy_zero_padded, zero_padded};
use crate::recovery::rar5::cauchy::{are_cauchy_points, cauchy_entry, lemma_cauchy_regular};
use crate::recovery::rar5::error::{Error, Result};
use crate::recovery::rar5::field::{gf_mul, lemma_mul_distributes, lemma_xor};
use crate::recovery::rar5::gf16::Gf16;
use crate::recovery::rar5::linear::{
    apply, apply_inverse_matrix, invert_linear_system_matrix, is_inverse, is_singular, is_square,
    maps_to, rows_view,
};
use crate::recovery::rar5::parity::{
    encoder_entry, encoder_matrix, lemma_words_determine, make_encoder_matrix, parity_word,
    read_word, word_at, write_word,
};
use crate::recovery::rar5::plan::shards_view;
use crate::recovery::rar5::sum::{gf_dot, gf_sum, lemma_sum_add, lemma_sum_congruent};

verus! {

/// The coefficients of the damaged data shards in the recovery shards `rows`.
pub open spec fn equations(data_shards: int, rows: Seq<int>, damaged: Seq<int>) -> Seq<Seq<u16>> {
    Seq::new(
        rows.len(),
        |r: int|
            Seq::new(damaged.len(), |c: int| encoder_entry(data_shards, rows[r], damaged[c])),
    )
}

/// The data shards encode to the given recovery shards.
pub open spec fn encodes_to(
    data: Seq<Seq<u8>>,
    rows: Seq<int>,
    parity: Seq<Seq<u8>>,
    len: int,
) -> bool {
    forall|r: int, w: int|
        0 <= r < rows.len() && 0 <= w < len / 2 ==> #[trigger] parity_word(data, rows[r], w)
            == word_at(parity[r], w)
}

/// Strictly increasing indices below `n`.
pub open spec fn ascending_below(indices: Seq<int>, n: int) -> bool {
    &&& forall|a: int, b: int|
        0 <= a < b < indices.len() ==> #[trigger] indices[a] < #[trigger] indices[b]
    &&& forall|a: int| 0 <= a < indices.len() ==> 0 <= #[trigger] indices[a] < n
}

/// All shards have this length.
pub open spec fn all_len(shards: Seq<Seq<u8>>, len: int) -> bool {
    forall|i: int| 0 <= i < shards.len() ==> (#[trigger] shards[i]).len() == len
}

/// Indices as integers.
pub open spec fn indices_view(indices: Seq<usize>) -> Seq<int> {
    Seq::new(indices.len(), |i: int| indices[i] as int)
}

/// The row numbers of numbered recovery shards.
pub open spec fn recovery_rows(recovery: Seq<(usize, &[u8])>) -> Seq<int> {
    Seq::new(recovery.len(), |i: int| recovery[i].0 as int)
}

/// The contents of numbered recovery shards.
pub open spec fn recovery_bytes(recovery: Seq<(usize, &[u8])>) -> Seq<Seq<u8>> {
    Seq::new(recovery.len(), |i: int| recovery[i].1@)
}

/// Some row number is too large for the field.
pub open spec fn rows_exceed_field(data_shards: int, rows: Seq<int>) -> bool {
    exists|r: int| 0 <= r < rows.len() && data_shards + #[trigger] rows[r] + 1 > 65_535
}

pub proof fn lemma_parity_word_congruent(a: Seq<Seq<u8>>, b: Seq<Seq<u8>>, i: int, w: int)
    requires
        a.len() == b.len(),
        forall|j: int| 0 <= j < a.len() ==> word_at(#[trigger] a[j], w) == word_at(b[j], w),
    ensures
        parity_word(a, i, w) == parity_word(b, i, w),
{
    let f = |j: int| gf_mul(encoder_entry(a.len() as int, i, j), word_at(a[j], w));
    let g = |j: int| gf_mul(encoder_entry(b.len() as int, i, j), word_at(b[j], w));
    assert forall|j: int| 0 <= j < a.len() implies #[trigger] f(j) == g(j) by {
        assert(word_at(a[j], w) == word_at(b[j], w));
    }
    lemma_sum_congruent(f, g, a.len());
}

/// A sum splits into the terms at the listed indices and the rest.
pub proof fn lemma_split_sum(f: spec_fn(int) -> u16, n: nat, listed: Seq<int>)
    requires
        ascending_below(listed, n as int),
    ensures
        gf_sum(f, n) == gf_sum(
            |j: int|
                if listed.contains(j) {
                    0u16
                } else {
                    f(j)
                },
            n,
        ) ^ gf_sum(|c: int| f(listed[c]), listed.len()),
    decreases n,
{
    let rest = |j: int|
        if listed.contains(j) {
            0u16
        } else {
            f(j)
        };
    let at = |c: int| f(listed[c]);
    if n == 0 {
        if listed.len() > 0 {
            assert(0 <= listed[0] && listed[0] < n);
        }
        lemma_xor(0, 0, 0);
    } else {
        let m = (n - 1) as nat;
        if listed.len() > 0 && listed.last() == m {
            let fewer = listed.drop_last();
            assert(ascending_below(fewer, m as int)) by {
                assert forall|a: int| 0 <= a < fewer.len() implies 0 <= #[trigger] fewer[a] < m by {
                    assert(listed[a] < listed[listed.len() - 1]);
                }
            }
            lemma_split_sum(f, m, fewer);
            let rest2 = |j: int|
                if fewer.contains(j) {
                    0u16
                } else {
                    f(j)
                };
            let at2 = |c: int| f(fewer[c]);
            assert forall|j: int| 0 <= j < m implies #[trigger] rest(j) == rest2(j) by {
                if listed.contains(j) {
                    let c = choose|c: int| 0 <= c < listed.len() && listed[c] == j;
                    assert(fewer[c] == j);
                }
                if fewer.contains(j) {
                    let c = choose|c: int| 0 <= c < fewer.len() && fewer[c] == j;
                    assert(listed[c] == j);
                }
            }
            lemma_sum_congruent(rest, rest2, m);
            lemma_sum_congruent(at, at2, fewer.len());
            assert(listed.contains(m as int)) by {
                assert(listed[listed.len() - 1] == m);
            }
            let s = gf_sum(rest, m);
            let t = gf_sum(at2, fewer.len());
            lemma_xor(s, t, f(m as int));
            lemma_xor(s, 0, 0);
            assert(gf_sum(at, listed.len()) == t ^ f(m as int));
        } else {
            assert(ascending_below(listed, m as int)) by {
                assert forall|a: int| 0 <= a < listed.len() implies 0 <= #[trigger] listed[a]
                    < m by {
                    if a < listed.len() - 1 {
                        assert(listed[a] < listed[listed.len() - 1]);
                    }
                }
            }
            assert(!listed.contains(m as int)) by {
                if listed.contains(m as int) {
                    let c = choose|c: int| 0 <= c < listed.len() && listed[c] == m;
                }
            }
            lemma_split_sum(f, m, listed);
            let s = gf_sum(rest, m);
            let t = gf_sum(at, listed.len());
            lemma_xor(s, t, f(m as int));
            lemma_xor(t, f(m as int), 0);
            lemma_xor(s, f(m as int), t);
        }
    }
}

/// Distinct recovery shards give regular equations.
pub proof fn lemma_equations_regular(data_shards: int, rows: Seq<int>, damaged: Seq<int>)
    requires
        ascending_below(damaged, data_shards),
        rows.len() == damaged.len(),
        forall|a: int| 0 <= a < rows.len() ==> 0 <= #[trigger] rows[a],
        !rows_exceed_field(data_shards, rows),
        forall|a: int, b: int|
            0 <= a < b < rows.len() ==> #[trigger] rows[a] != #[trigger] rows[b],
    ensures
        !is_singular(equations(data_shards, rows, damaged)),
{
    let m = equations(data_shards, rows, damaged);
    let r = Seq::new(rows.len(), |i: int| (rows[i] + data_shards) as u16);
    let c = Seq::new(damaged.len(), |i: int| damaged[i] as u16);
    assert forall|i: int| 0 <= i < rows.len() implies data_shards + #[trigger] rows[i]
        < 65_535 by {}
    assert(are_cauchy_points(r, c, m.len())) by {
        assert forall|i: int, j: int| 0 <= i < j < m.len() implies #[trigger] r[i]
            != #[trigger] r[j] by {
            assert(rows[i] != rows[j]);
            assert(damaged[i] < data_shards);
            assert(data_shards + rows[i] < 65_535);
            assert(data_shards + rows[j] < 65_535);
        }
        assert forall|i: int, j: int| 0 <= i < j < m.len() implies #[trigger] c[i]
            != #[trigger] c[j] by {
            assert(damaged[i] < damaged[j]);
            assert(data_shards + rows[0] < 65_535);
        }
        assert forall|i: int, j: int|
            0 <= i < m.len() && 0 <= j < m.len() implies #[trigger] r[i] != #[trigger] c[j] by {
            assert(data_shards + rows[i] < 65_535);
            assert(damaged[j] < data_shards);
        }
    }
    assert forall|i: int, j: int| 0 <= i < m.len() && 0 <= j < m.len() implies #[trigger] m[i][j]
        == cauchy_entry(r, c, i, j) by {}
    lemma_cauchy_regular(m, r, c);
}

/// Word `w` of a recovery shard, less the share of the intact data shards.
fn remaining_word(
    gf: &Gf16,
    coefficients: &Vec<u16>,
    data: &Vec<Vec<u8>>,
    damaged: &Vec<bool>,
    parity: u16,
    w: usize,
) -> (word: u16)
    requires
        coefficients@.len() == data@.len(),
        damaged@.len() == data@.len(),
        forall|j: int| 0 <= j < data@.len() ==> 2 * w + 1 < (#[trigger] data@[j])@.len(),
    ensures
        word == parity ^ gf_sum(
            |j: int|
                if damaged@[j] {
                    0u16
                } else {
                    gf_mul(coefficients@[j], word_at(data@[j]@, w as int))
                },
            data@.len(),
        ),
{
    let ghost f = |j: int|
        if damaged@[j] {
            0u16
        } else {
            gf_mul(coefficients@[j], word_at(data@[j]@, w as int))
        };
    let mut word: u16 = parity;
    let mut j: usize = 0;
    proof {
        lemma_xor(parity, 0, 0);
    }
    while j < data.len()
        invariant
            j <= data@.len(),
            coefficients@.len() == data@.len(),
            damaged@.len() == data@.len(),
            forall|k: int| 0 <= k < data@.len() ==> 2 * w + 1 < (#[trigger] data@[k])@.len(),
            f == (|j: int|
                if damaged@[j] {
                    0u16
                } else {
                    gf_mul(coefficients@[j], word_at(data@[j]@, w as int))
                }),
            word == parity ^ gf_sum(f, j as nat),
        decreases data@.len() - j,
    {
        proof {
            lemma_xor(parity, gf_sum(f, j as nat), f(j as int));
            lemma_xor(gf_sum(f, j as nat), 0, 0);
        }
        if !damaged[j] {
            word = word ^ gf.mul(coefficients[j], read_word(data[j].as_slice(), w));
        }
        j += 1;
    }
    word
}

/// What is left when the intact shards' share is taken out of `parity`, and
/// how the damaged words must add up to it.
pub proof fn lemma_word_solved(
    before: Seq<Seq<u8>>,
    after: Seq<Seq<u8>>,
    row: int,
    damaged: Seq<int>,
    w: int,
    parity: u16,
    rhs: u16,
    solved: Seq<u16>,
)
    requires
        before.len() == after.len(),
        ascending_below(damaged, before.len() as int),
        solved.len() == damaged.len(),
        forall|j: int|
            0 <= j < before.len() && !damaged.contains(j) ==> word_at(#[trigger] after[j], w)
                == word_at(before[j], w),
        forall|c: int|
            0 <= c < damaged.len() ==> word_at(after[#[trigger] damaged[c]], w) == solved[c],
        rhs == parity ^ gf_sum(
            |j: int|
                if damaged.contains(j) {
                    0u16
                } else {
                    gf_mul(encoder_entry(before.len() as int, row, j), word_at(before[j], w))
                },
            before.len(),
        ),
        gf_sum(
            |c: int| gf_mul(encoder_entry(before.len() as int, row, damaged[c]), solved[c]),
            damaged.len(),
        ) == rhs,
    ensures
        parity_word(after, row, w) == parity,
{
    let n = before.len();
    let f = |j: int| gf_mul(encoder_entry(n as int, row, j), word_at(after[j], w));
    lemma_split_sum(f, n, damaged);
    let rest = |j: int|
        if damaged.contains(j) {
            0u16
        } else {
            f(j)
        };
    let rest_before = |j: int|
        if damaged.contains(j) {
            0u16
        } else {
            gf_mul(encoder_entry(n as int, row, j), word_at(before[j], w))
        };
    assert forall|j: int| 0 <= j < n implies #[trigger] rest(j) == rest_before(j) by {
        if !damaged.contains(j) {
            assert(word_at(after[j], w) == word_at(before[j], w));
        }
    }
    lemma_sum_congruent(rest, rest_before, n);
    let at = |c: int| f(damaged[c]);
    let at_solved = |c: int| gf_mul(encoder_entry(n as int, row, damaged[c]), solved[c]);
    assert forall|c: int| 0 <= c < damaged.len() implies #[trigger] at(c) == at_solved(c) by {
        assert(word_at(after[damaged[c]], w) == solved[c]);
    }
    lemma_sum_congruent(at, at_solved, damaged.len());
    let s = gf_sum(rest, n);
    lemma_xor(s, parity, s);
    lemma_xor(parity, s, 0);
    lemma_xor(s, s, parity);
    lemma_xor(parity, 0, 0);
    assert(s ^ (parity ^ s) == parity);
}

/// Overwrites the damaged data shards so that the data encodes to the given
/// recovery shards.
pub(crate) fn recover_damaged_shards(
    data: &mut Vec<Vec<u8>>,
    damaged: &[usize],
    recovery: &[(usize, &[u8])],
    shard_len: usize,
) -> (result: Result<()>)
    requires
        shard_len % 2 == 0,
        all_len(shards_view(old(data)@), shard_len as int),
        all_len(recovery_bytes(recovery@), shard_len as int),
        ascending_below(indices_view(damaged@), old(data)@.len() as int),
        damaged@.len() == recovery@.len(),
        damaged@.len() > 0,
    ensures
        ({
            let n = old(data)@.len();
            let rows = recovery_rows(recovery@);
            let bad = indices_view(damaged@);
            if rows_exceed_field(n as int, rows) {
                result == Err::<(), Error>(Error::TooManyShards)
            } else if is_singular(equations(n as int, rows, bad)) {
                result == Err::<(), Error>(Error::SingularElement)
            } else {
                result is Ok
            }
        }),
        final(data)@.len() == old(data)@.len(),
        all_len(shards_view(final(data)@), shard_len as int),
        forall|j: int|
            0 <= j < old(data)@.len() && !indices_view(damaged@).contains(j) ==> (
            #[trigger] final(data)@[j])@ == old(data)@[j]@,
        result is Ok ==> encodes_to(
            shards_view(final(data)@),
            recovery_rows(recovery@),
            recovery_bytes(recovery@),
            shard_len as int,
        ),
{
    let n: usize = data.len();
    let m: usize = damaged.len();
    let ghost rows = recovery_rows(recovery@);
    let ghost parity = recovery_bytes(recovery@);
    let ghost bad = indices_view(damaged@);
    let mut lookup: Vec<bool> = vec![false; n];
    let mut c: usize = 0;
    while c < m
        invariant
            c <= m,
            m == damaged@.len(),
            lookup@.len() == n,
            bad == indices_view(damaged@),
            ascending_below(bad, n as int),
            forall|j: int| 0 <= j < n ==> (#[trigger] lookup@[j] <==> bad.take(c as int).contains(j)),
        decreases m - c,
    {
        assert(bad[c as int] == damaged@[c as int]);
        let at: usize = damaged[c];
        let ghost before = lookup@;
        lookup.set(at, true);
        proof {
            assert(bad.take(c + 1) =~= bad.take(c as int).push(bad[c as int]));
            assert forall|j: int| 0 <= j < n implies (#[trigger] lookup@[j] <==> bad.take(
                c + 1,
            ).contains(j)) by {
                assert(before[j] <==> bad.take(c as int).contains(j));
                if bad.take(c as int).contains(j) {
                    let k = choose|k: int| 0 <= k < c && bad.take(c as int)[k] == j;
                    assert(bad.take(c + 1)[k] == j);
                }
                if j == at {
                    assert(bad.take(c + 1)[c as int] == j);
                }
                if bad.take(c + 1).contains(j) && j != at {
                    let longer = bad.take(c + 1);
                    let k = choose|k: int| 0 <= k < c + 1 && longer[k] == j;
                    assert(bad.take(c as int)[k] == j);
                }
            }
        }
        c += 1;
    }
    assert(bad.take(m as int) =~= bad);

    let mut highest: usize = 0;
    let mut r: usize = 0;
    while r < m
        invariant
            r <= m,
            m == recovery@.len(),
            rows == recovery_rows(recovery@),
            forall|k: int| 0 <= k < r ==> #[trigger] rows[k] <= highest,
            r > 0 ==> exists|k: int| 0 <= k < r && #[trigger] rows[k] == highest,
            r == 0 ==> highest == 0,
        decreases m - r,
    {
        let row: usize = recovery[r].0;
        assert(rows[r as int] == row);
        if row > highest || r == 0 {
            highest = row;
        }
        r += 1;
    }
    assert(bad[0] < n);
    if n > 65_535 || highest > 65_535 || n + highest + 1 > 65_535 {
        proof {
            let k = choose|k: int| 0 <= k < m && #[trigger] rows[k] == highest;
            assert(n + rows[k] + 1 > 65_535);
        }
        return Err(Error::TooManyShards);
    }
    assert(!rows_exceed_field(n as int, rows)) by {
        if rows_exceed_field(n as int, rows) {
            let k = choose|k: int| 0 <= k < rows.len() && n + #[trigger] rows[k] + 1 > 65_535;
            assert(rows[k] <= highest);
        }
    }
    let matrix = match make_encoder_matrix(n, highest + 1) {
        Ok(matrix) => matrix,
        Err(error) => {
            return Err(error);
        },
    };
    assert(rows_view(matrix@).len() == highest + 1);
    assert forall|i: int| 0 <= i <= highest implies (#[trigger] matrix@[i])@ == encoder_matrix(
        n as nat,
        (highest + 1) as nat,
    )[i] by {
        assert(rows_view(matrix@)[i] == matrix@[i]@);
    }

    let gf = Gf16::new();
    let ghost system = equations(n as int, rows, bad);
    let mut coefficients: Vec<Vec<u16>> = Vec::with_capacity(m);
    let mut r: usize = 0;
    while r < m
        invariant
            r <= m,
            m == damaged@.len(),
            m == recovery@.len(),
            rows == recovery_rows(recovery@),
            bad == indices_view(damaged@),
            ascending_below(bad, n as int),
            system == equations(n as int, rows, bad),
            matrix@.len() == highest + 1,
            forall|k: int| 0 <= k < m ==> #[trigger] rows[k] <= highest,
            forall|i: int|
                0 <= i <= highest ==> (#[trigger] matrix@[i])@ == encoder_matrix(
                    n as nat,
                    (highest + 1) as nat,
                )[i],
            coefficients@.len() == r,
            forall|k: int| 0 <= k < r ==> (#[trigger] coefficients@[k])@ == system[k],
        decreases m - r,
    {
        let row: usize = recovery[r].0;
        assert(rows[r as int] == row);
        let mut equation: Vec<u16> = Vec::with_capacity(m);
        let mut c: usize = 0;
        while c < m
            invariant
                c <= m,
                r < m,
                m == damaged@.len(),
                bad == indices_view(damaged@),
                ascending_below(bad, n as int),
                row == rows[r as int],
                row <= highest,
                matrix@.len() == highest + 1,
                matrix@[row as int]@ == encoder_matrix(n as nat, (highest + 1) as nat)[row as int],
                equation@.len() == c,
                forall|k: int|
                    0 <= k < c ==> #[trigger] equation@[k] == encoder_entry(
                        n as int,
                        row as int,
                        bad[k],
                    ),
            decreases m - c,
        {
            assert(bad[c as int] == damaged@[c as int]);
            equation.push(matrix[row][damaged[c]]);
            c += 1;
        }
        assert(equation@ =~= system[r as int]);
        coefficients.push(equation);
        r += 1;
    }
    assert(rows_view(coefficients@) =~= system);
    assert(is_square(system));
    let inverse = match invert_linear_system_matrix(&gf, coefficients.as_slice()) {
        Ok(inverse) => inverse,
        Err(error) => {
            return Err(error);
        },
    };
    let ghost e = rows_view(inverse@);
    let ghost original = shards_view(data@);
    assert forall|j: int| 0 <= j < n implies (#[trigger] data@[j])@.len() == shard_len by {
        assert(original[j].len() == shard_len);
    }
    let words: usize = shard_len / 2;
    let mut w: usize = 0;
    while w < words
        invariant
            w <= words,
            words == shard_len / 2,
            shard_len % 2 == 0,
            m > 0,
            m == damaged@.len(),
            m == recovery@.len(),
            rows == recovery_rows(recovery@),
            parity == recovery_bytes(recovery@),
            bad == indices_view(damaged@),
            ascending_below(bad, n as int),
            all_len(parity, shard_len as int),
            system == equations(n as int, rows, bad),
            is_inverse(e, system),
            e == rows_view(inverse@),
            matrix@.len() == highest + 1,
            forall|k: int| 0 <= k < m ==> #[trigger] rows[k] <= highest,
            forall|i: int|
                0 <= i <= highest ==> (#[trigger] matrix@[i])@ == encoder_matrix(
                    n as nat,
                    (highest + 1) as nat,
                )[i],
            lookup@.len() == n,
            forall|j: int| 0 <= j < n ==> (#[trigger] lookup@[j] <==> bad.contains(j)),
            data@.len() == n,
            original.len() == n,
            forall|j: int| 0 <= j < n ==> (#[trigger] data@[j])@.len() == shard_len,
            forall|j: int|
                0 <= j < n && !bad.contains(j) ==> (#[trigger] data@[j])@ == original[j],
            forall|j: int, v: int|
                0 <= j < n && w <= v ==> #[trigger] word_at(data@[j]@, v) == word_at(
                    original[j],
                    v,
                ),
            forall|r: int, v: int|
                0 <= r < m && 0 <= v < w ==> #[trigger] parity_word(shards_view(data@), rows[r], v)
                    == word_at(parity[r], v),
        decreases words - w,
    {
        let ghost before = shards_view(data@);
        let mut rhs: Vec<u16> = Vec::with_capacity(m);
        let mut r: usize = 0;
        while r < m
            invariant
                r <= m,
                w < words,
                words == shard_len / 2,
                m == recovery@.len(),
                rows == recovery_rows(recovery@),
                parity == recovery_bytes(recovery@),
                all_len(parity, shard_len as int),
                matrix@.len() == highest + 1,
                forall|k: int| 0 <= k < m ==> #[trigger] rows[k] <= highest,
                forall|i: int|
                    0 <= i <= highest ==> (#[trigger] matrix@[i])@ == encoder_matrix(
                        n as nat,
                        (highest + 1) as nat,
                    )[i],
                lookup@.len() == n,
                forall|j: int| 0 <= j < n ==> (#[trigger] lookup@[j] <==> bad.contains(j)),
                data@.len() == n,
                before == shards_view(data@),
                forall|j: int| 0 <= j < n ==> (#[trigger] data@[j])@.len() == shard_len,
                rhs@.len() == r,
                forall|k: int|
                    0 <= k < r ==> #[trigger] rhs@[k] == word_at(parity[k], w as int) ^ gf_sum(
                        |j: int|
                            if bad.contains(j) {
                                0u16
                            } else {
                                gf_mul(
                                    encoder_entry(n as int, rows[k], j),
                                    word_at(before[j], w as int),
                                )
                            },
                        n as nat,
                    ),
            decreases m - r,
        {
            let row: usize = recovery[r].0;
            assert(rows[r as int] == row);
            let bytes: &[u8] = recovery[r].1;
            assert(parity[r as int] == bytes@);
            assert(parity[r as int].len() == shard_len);
            let word: u16 = remaining_word(
                &gf,
                &matrix[row],
                data,
                &lookup,
                read_word(bytes, w),
                w,
            );
            proof {
                let f = |j: int|
                    if lookup@[j] {
                        0u16
                    } else {
                        gf_mul(matrix@[row as int]@[j], word_at(data@[j]@, w as int))
                    };
                let g = |j: int|
                    if bad.contains(j) {
                        0u16
                    } else {
                        gf_mul(
                            encoder_entry(n as int, rows[r as int], j),
                            word_at(before[j], w as int),
                        )
                    };
                assert forall|j: int| 0 <= j < n implies #[trigger] f(j) == g(j) by {
                    assert(lookup@[j] <==> bad.contains(j));
                    assert(before[j] == data@[j]@);
                }
                lemma_sum_congruent(f, g, n as nat);
            }
            rhs.push(word);
            r += 1;
        }
        let solved = match apply_inverse_matrix(&gf, inverse.as_slice(), rhs.as_slice()) {
            Ok(solved) => solved,
            Err(error) => {
                return Err(error);
            },
        };
        proof {
            assert(maps_to(e, rhs@, solved@));
            assert(maps_to(system, solved@, rhs@));
        }
        let mut c: usize = 0;
        while c < m
            invariant
                c <= m,
                w < words,
                words == shard_len / 2,
                m == damaged@.len(),
                solved@.len() == m,
                bad == indices_view(damaged@),
                ascending_below(bad, n as int),
                data@.len() == n,
                before.len() == n,
                original.len() == n,
                forall|j: int| 0 <= j < n ==> (#[trigger] data@[j])@.len() == shard_len,
                forall|j: int|
                    0 <= j < n && !bad.contains(j) ==> (#[trigger] data@[j])@ == original[j],
                forall|j: int|
                    0 <= j < n && !bad.contains(j) ==> (#[trigger] data@[j])@ == before[j],
                forall|j: int, v: int|
                    0 <= j < n && 0 <= v && v != w ==> #[trigger] word_at(data@[j]@, v) == word_at(
                        before[j],
                        v,
                    ),
                forall|k: int|
                    0 <= k < c ==> word_at(data@[#[trigger] bad[k]]@, w as int) == solved@[k],
            decreases m - c,
        {
            let at: usize = damaged[c];
            let ghost was = data@;
            proof {
                assert(bad[c as int] == at);
                assert(bad.contains(at as int));
            }
            write_word(&mut data[at], w, solved[c]);
            proof {
                assert forall|k: int| 0 <= k < c + 1 implies word_at(
                    data@[#[trigger] bad[k]]@,
                    w as int,
                ) == solved@[k] by {
                    if k < c {
                        assert(bad[k] < bad[c as int]);
                        assert(data@[bad[k]] == was[bad[k]]);
                    }
                }
            }
            c += 1;
        }
        proof {
            let after = shards_view(data@);
            assert forall|r: int, v: int| 0 <= r < m && 0 <= v < w + 1 implies #[trigger] parity_word(
                after,
                rows[r],
                v,
            ) == word_at(parity[r], v) by {
                if v < w {
                    assert forall|j: int| 0 <= j < n implies word_at(#[trigger] after[j], v)
                        == word_at(before[j], v) by {
                        assert(word_at(data@[j]@, v) == word_at(before[j], v));
                    }
                    lemma_parity_word_congruent(after, before, rows[r], v);
                    assert(parity_word(before, rows[r], v) == word_at(parity[r], v));
                } else {
                    assert forall|j: int| 0 <= j < n && !bad.contains(j) implies word_at(
                        #[trigger] after[j],
                        w as int,
                    ) == word_at(before[j], w as int) by {
                        assert(data@[j]@ == before[j]);
                    }
                    assert forall|c: int| 0 <= c < bad.len() implies word_at(
                        after[#[trigger] bad[c]],
                        w as int,
                    ) == solved@[c] by {}
                    assert(apply(system, solved@)[r] == rhs@[r]);
                    lemma_sum_congruent(
                        |c: int| gf_mul(system[r][c], solved@[c]),
                        |c: int| gf_mul(encoder_entry(n as int, rows[r], bad[c]), solved@[c]),
                        m as nat,
                    );
                    lemma_word_solved(
                        before,
                        after,
                        rows[r],
                        bad,
                        w as int,
                        word_at(parity[r], w as int),
                        rhs@[r],
                        solved@,
                    );
                }
            }
            assert forall|j: int, v: int| 0 <= j < n && w + 1 <= v implies #[trigger] word_at(
                data@[j]@,
                v,
            ) == word_at(original[j], v) by {
                assert(word_at(before[j], v) == word_at(original[j], v));
            }
        }
        w += 1;
    }
    Ok(())
}

/// The indices below `k` of absent shards, in order.
pub open spec fn missing_below(data: Seq<Option<Seq<u8>>>, k: nat) -> Seq<int>
    decreases k,
{
    if k == 0 {
        Seq::empty()
    } else {
        let before = missing_below(data, (k - 1) as nat);
        if data[k - 1] is None {
            before.push(k - 1)
        } else {
            before
        }
    }
}

/// The length of the longest shard among the first `k`, if one is present.
pub open spec fn longest_below(data: Seq<Option<Seq<u8>>>, k: nat) -> Option<nat>
    decreases k,
{
    if k == 0 {
        None
    } else {
        let before = longest_below(data, (k - 1) as nat);
        match data[k - 1] {
            None => before,
            Some(shard) => match before {
                Some(longest) => Some(
                    if shard.len() > longest {
                        shard.len()
                    } else {
                        longest
                    },
                ),
                None => Some(shard.len()),
            },
        }
    }
}

/// The contents of the present shards.
pub open spec fn present_view(data: Seq<Option<&[u8]>>) -> Seq<Option<Seq<u8>>> {
    Seq::new(
        data.len(),
        |i: int|
            match data[i] {
                Some(shard) => Some(shard@),
                None => None,
            },
    )
}

/// The shards, each filled up with zeros; absent ones are all zeros.
pub open spec fn padded_shards(data: Seq<Option<Seq<u8>>>, len: nat) -> Seq<Seq<u8>> {
    Seq::new(
        data.len(),
        |i: int|
            match data[i] {
                Some(shard) => zero_padded(shard, len),
                None => zero_padded(Seq::empty(), len),
            },
    )
}

pub proof fn lemma_missing_below(data: Seq<Option<Seq<u8>>>, k: nat)
    ensures
        ascending_below(missing_below(data, k), k as int),
        missing_below(data, k).len() <= k,
        forall|j: int|
            0 <= j < k ==> (#[trigger] missing_below(data, k).contains(j) <==> data[j] is None),
    decreases k,
{
    if k > 0 {
        let p = (k - 1) as nat;
        lemma_missing_below(data, p);
        let before = missing_below(data, p);
        let all = missing_below(data, k);
        assert forall|j: int| 0 <= j < k implies (#[trigger] all.contains(j) <==> data[j] is None) by {
            if j < p {
                assert(before.contains(j) <==> data[j] is None);
                if before.contains(j) {
                    let c = choose|c: int| 0 <= c < before.len() && before[c] == j;
                    assert(all[c] == j);
                }
                if all.contains(j) {
                    let c = choose|c: int| 0 <= c < all.len() && all[c] == j;
                    assert(c < before.len());
                    assert(before[c] == j);
                }
            } else {
                if data[j] is None {
                    assert(all[before.len() as int] == j);
                } else if all.contains(j) {
                    let c = choose|c: int| 0 <= c < all.len() && all[c] == j;
                    assert(before[c] == j);
                }
            }
        }
    }
}

/// The length that all shards are taken to have: that of the first recovery
/// shard, or else of the longest data shard present.
pub open spec fn reconstruction_len(
    data: Seq<Option<Seq<u8>>>,
    parity: Seq<Seq<u8>>,
) -> Option<nat> {
    if parity.len() > 0 {
        Some(parity[0].len())
    } else {
        longest_below(data, data.len())
    }
}

/// Why shards cannot be reconstructed, if there is a reason.
pub open spec fn reconstruction_error(
    data: Seq<Option<Seq<u8>>>,
    rows: Seq<int>,
    parity: Seq<Seq<u8>>,
) -> Option<Error> {
    let missing = missing_below(data, data.len());
    match reconstruction_len(data, parity) {
        _ if data.len() == 0 => Some(Error::TooManyShards),
        None => Some(Error::TooManyDamagedShards),
        Some(len) => if len % 2 == 1 {
            Some(Error::OddShardSize)
        } else if !all_len(parity, len as int) {
            Some(Error::ShardSizeMismatch)
        } else if exists|i: int|
            0 <= i < data.len() && (#[trigger] data[i]) is Some && data[i]->0.len() > len {
            Some(Error::ShardSizeMismatch)
        } else if missing.len() == 0 {
            None
        } else if missing.len() > rows.len() {
            Some(Error::TooManyDamagedShards)
        } else if rows_exceed_field(data.len() as int, rows.take(missing.len() as int)) {
            Some(Error::TooManyShards)
        } else if is_singular(
            equations(data.len() as int, rows.take(missing.len() as int), missing),
        ) {
            Some(Error::SingularElement)
        } else {
            None
        },
    }
}

/// Fills in absent data shards from recovery shards.
///
/// As many recovery shards as there are absent data shards are used, in the
/// order given; the data returned encodes to them.
pub fn reconstruct_data_shards(data: &[Option<&[u8]>], recovery: &[(usize, &[u8])]) -> (result:
    Result<Vec<Vec<u8>>>)
    ensures
        ({
            let present = present_view(data@);
            let rows = recovery_rows(recovery@);
            let parity = recovery_bytes(recovery@);
            match reconstruction_error(present, rows, parity) {
                Some(error) => result == Err::<Vec<Vec<u8>>, Error>(error),
                None => result is Ok && ({
                    let missing = missing_below(present, present.len());
                    let len = reconstruction_len(present, parity)->0;
                    let out = shards_view(result->Ok_0@);
                    &&& out.len() == present.len()
                    &&& all_len(out, len as int)
                    &&& forall|j: int|
                        0 <= j < out.len() && (#[trigger] present[j]) is Some ==> out[j]
                            == padded_shards(present, len)[j]
                    &&& encodes_to(
                        out,
                        rows.take(missing.len() as int),
                        parity.take(missing.len() as int),
                        len as int,
                    )
                }),
            }
        }),
{
    let ghost present = present_view(data@);
    let ghost rows = recovery_rows(recovery@);
    let ghost parity = recovery_bytes(recovery@);
    let n: usize = data.len();
    if n == 0 {
        return Err(Error::TooManyShards);
    }
    let mut longest: Option<usize> = None;
    let mut i: usize = 0;
    while i < n
        invariant
            i <= n,
            n == data@.len(),
            present == present_view(data@),
            match longest {
                Some(len) => longest_below(present, i as nat) == Some(len as nat),
                None => longest_below(present, i as nat) is None,
            },
        decreases n - i,
    {
        match data[i] {
            Some(shard) => {
                assert(present[i as int] == Some(shard@));
                let len: usize = shard.len();
                longest = match longest {
                    Some(other) => if len > other {
                        Some(len)
                    } else {
                        Some(other)
                    },
                    None => Some(len),
                };
            },
            None => {
                assert(present[i as int] is None);
            },
        }
        i += 1;
    }
    let shard_len: usize = if recovery.len() > 0 {
        assert(parity[0] == recovery@[0].1@);
        recovery[0].1.len()
    } else {
        match longest {
            Some(len) => len,
            None => {
                return Err(Error::TooManyDamagedShards);
            },
        }
    };
    assert(reconstruction_len(present, parity) == Some(shard_len as nat));
    if shard_len % 2 == 1 {
        return Err(Error::OddShardSize);
    }
    let mut r: usize = 0;
    while r < recovery.len()
        invariant
            r <= recovery@.len(),
            n > 0,
            n == data@.len(),
            present == present_view(data@),
            rows == recovery_rows(recovery@),
            parity == recovery_bytes(recovery@),
            reconstruction_len(present, parity) == Some(shard_len as nat),
            shard_len % 2 == 0,
            forall|k: int| 0 <= k < r ==> (#[trigger] parity[k]).len() == shard_len,
        decreases recovery@.len() - r,
    {
        assert(parity[r as int] == recovery@[r as int].1@);
        if recovery[r].1.len() != shard_len {
            assert(!all_len(parity, shard_len as int));
            return Err(Error::ShardSizeMismatch);
        }
        r += 1;
    }
    let mut out: Vec<Vec<u8>> = Vec::with_capacity(n);
    let mut missing: Vec<usize> = Vec::new();
    let mut i: usize = 0;
    while i < n
        invariant
            i <= n,
            n > 0,
            n == data@.len(),
            present == present_view(data@),
            rows == recovery_rows(recovery@),
            parity == recovery_bytes(recovery@),
            reconstruction_len(present, parity) == Some(shard_len as nat),
            all_len(parity, shard_len as int),
            shard_len % 2 == 0,
            forall|k: int|
                0 <= k < i && (#[trigger] present[k]) is Some ==> present[k]->0.len() <= shard_len,
            out@.len() == i,
            forall|k: int|
                0 <= k < i ==> (#[trigger] out@[k])@ == padded_shards(present, shard_len as nat)[k],
            indices_view(missing@) == missing_below(present, i as nat),
        decreases n - i,
    {
        match data[i] {
            Some(shard) => {
                assert(present[i as int] == Some(shard@));
                if shard.len() > shard_len {
                    return Err(Error::ShardSizeMismatch);
                }
                out.push(copy_zero_padded(shard, shard_len));
            },
            None => {
                assert(present[i as int] is None);
                let zeros: Vec<u8> = vec![0u8; shard_len];
                assert(zeros@ =~= zero_padded(Seq::empty(), shard_len as nat));
                out.push(zeros);
                missing.push(i);
                assert(indices_view(missing@) =~= missing_below(present, (i + 1) as nat));
            },
        }
        i += 1;
    }
    assert(shards_view(out@) =~= padded_shards(present, shard_len as nat));
    proof {
        lemma_missing_below(present, n as nat);
        assert(indices_view(missing@).len() == missing@.len());
    }
    if missing.len() == 0 {
        return Ok(out);
    }
    if missing.len() > recovery.len() {
        return Err(Error::TooManyDamagedShards);
    }
    let used = vstd::slice::slice_subrange(recovery, 0, missing.len());
    proof {
        assert(recovery_rows(used@) =~= rows.take(missing@.len() as int));
        assert(recovery_bytes(used@) =~= parity.take(missing@.len() as int));
        assert(all_len(recovery_bytes(used@), shard_len as int)) by {
            assert forall|k: int| 0 <= k < used@.len() implies (#[trigger] recovery_bytes(
                used@,
            )[k]).len() == shard_len by {
                assert(parity[k].len() == shard_len);
            }
        }
    }
    let ghost before = out@;
    match recover_damaged_shards(&mut out, missing.as_slice(), used, shard_len) {
        Ok(_) => {
            proof {
                let m = missing_below(present, n as nat);
                assert forall|j: int|
                    0 <= j < n && (#[trigger] present[j]) is Some implies shards_view(out@)[j]
                    == padded_shards(present, shard_len as nat)[j] by {
                    assert(m.contains(j) <==> present[j] is None);
                    assert(out@[j]@ == before[j]@);
                }
            }
            Ok(out)
        },
        Err(error) => Err(error),
    }
}

/// What two shard sets have in common when they encode alike.
///
/// If they agree outside the damaged shards, and both encode to the same
/// recovery shards at as many distinct rows as there are damaged shards, they
/// are the same.
pub proof fn law_recovered_data_is_unique(
    a: Seq<Seq<u8>>,
    b: Seq<Seq<u8>>,
    rows: Seq<int>,
    parity: Seq<Seq<u8>>,
    damaged: Seq<int>,
    len: int,
)
    requires
        a.len() == b.len(),
        len >= 0,
        len % 2 == 0,
        all_len(a, len),
        all_len(b, len),
        ascending_below(damaged, a.len() as int),
        rows.len() == damaged.len(),
        forall|r: int| 0 <= r < rows.len() ==> 0 <= #[trigger] rows[r],
        forall|r: int, s: int|
            0 <= r < s < rows.len() ==> #[trigger] rows[r] != #[trigger] rows[s],
        !rows_exceed_field(a.len() as int, rows),
        forall|j: int| 0 <= j < a.len() && !damaged.contains(j) ==> #[trigger] a[j] == b[j],
        encodes_to(a, rows, parity, len),
        encodes_to(b, rows, parity, len),
    ensures
        a == b,
{
    let n = a.len();
    let m = equations(n as int, rows, damaged);
    lemma_equations_regular(n as int, rows, damaged);
    assert forall|j: int| 0 <= j < n implies a[j] == b[j] by {
        assert(a[j].len() == len);
        assert(b[j].len() == len);
        if damaged.contains(j) {
            let at = choose|c: int| 0 <= c < damaged.len() && damaged[c] == j;
            assert forall|w: int| 0 <= w < len / 2 implies #[trigger] word_at(a[j], w) == word_at(
                b[j],
                w,
            ) by {
                let x = Seq::new(
                    damaged.len(),
                    |c: int| word_at(a[damaged[c]], w) ^ word_at(b[damaged[c]], w),
                );
                assert forall|r: int| 0 <= r < m.len() implies gf_dot(#[trigger] m[r], x, m.len())
                    == 0 by {
                    lemma_difference_in_kernel(a, b, rows[r], damaged, w);
                    assert(parity_word(a, rows[r], w) == word_at(parity[r], w));
                    assert(parity_word(b, rows[r], w) == word_at(parity[r], w));
                    lemma_sum_congruent(
                        |c: int| gf_mul(m[r][c], x[c]),
                        |c: int|
                            gf_mul(
                                encoder_entry(n as int, rows[r], damaged[c]),
                                word_at(a[damaged[c]], w) ^ word_at(b[damaged[c]], w),
                            ),
                        m.len(),
                    );
                }
                assert(crate::recovery::rar5::linear::in_kernel(m, x));
                let p = word_at(a[j], w);
                let q = word_at(b[j], w);
                if x[at] != 0 {
                    assert(is_singular(m));
                }
                assert(p ^ q == 0);
                lemma_xor(p, q, q);
                lemma_xor(q, q, 0);
                lemma_xor(p, 0, 0);
                lemma_xor(q, 0, 0);
            }
            lemma_words_determine(a[j], b[j]);
        }
    }
    assert(a =~= b);
}

proof fn lemma_difference_in_kernel(
    a: Seq<Seq<u8>>,
    b: Seq<Seq<u8>>,
    row: int,
    damaged: Seq<int>,
    w: int,
)
    requires
        a.len() == b.len(),
        ascending_below(damaged, a.len() as int),
        forall|j: int| 0 <= j < a.len() && !damaged.contains(j) ==> #[trigger] a[j] == b[j],
        parity_word(a, row, w) == parity_word(b, row, w),
    ensures
        gf_sum(
            |c: int|
                gf_mul(
                    encoder_entry(a.len() as int, row, damaged[c]),
                    word_at(a[damaged[c]], w) ^ word_at(b[damaged[c]], w),
                ),
            damaged.len(),
        ) == 0,
{
    let n = a.len();
    let f = |j: int| gf_mul(encoder_entry(n as int, row, j), word_at(a[j], w));
    let g = |j: int| gf_mul(encoder_entry(n as int, row, j), word_at(b[j], w));
    lemma_split_sum(f, n, damaged);
    lemma_split_sum(g, n, damaged);
    let rest_f = |j: int|
        if damaged.contains(j) {
            0u16
        } else {
            f(j)
        };
    let rest_g = |j: int|
        if damaged.contains(j) {
            0u16
        } else {
            g(j)
        };
    assert forall|j: int| 0 <= j < n implies #[trigger] rest_f(j) == rest_g(j) by {
        if !damaged.contains(j) {
            assert(a[j] == b[j]);
        }
    }
    lemma_sum_congruent(rest_f, rest_g, n);
    let at_f = |c: int| f(damaged[c]);
    let at_g = |c: int| g(damaged[c]);
    let s = gf_sum(rest_f, n);
    let u = gf_sum(at_f, damaged.len());
    let v = gf_sum(at_g, damaged.len());
    // s + u == s + v, so u + v == 0.
    lemma_xor(s, s, u);
    lemma_xor(s, s, v);
    lemma_xor(u, 0, 0);
    lemma_xor(v, 0, 0);
    lemma_xor(u, v, 0);
    assert(s ^ (s ^ u) == u && s ^ (s ^ v) == v);
    lemma_sum_add(at_f, at_g, damaged.len());
    let both = |c: int|
        gf_mul(
            encoder_entry(n as int, row, damaged[c]),
            word_at(a[damaged[c]], w) ^ word_at(b[damaged[c]], w),
        );
    assert forall|c: int| 0 <= c < damaged.len() implies #[trigger] at_f(c) ^ at_g(c) == both(
        c,
    ) by {
        lemma_mul_distributes(
            encoder_entry(n as int, row, damaged[c]),
            word_at(a[damaged[c]], w),
            word_at(b[damaged[c]], w),
        );
    }
    lemma_sum_congruent(|c: int| at_f(c) ^ at_g(c), both, damaged.len());
}

} // verus!
