//! Parity shards: linear combinations of the data shards, word by word.
use vstd::prelude::*;

use crate::bytes::{word_from_bytes, word_of, word_to_bytes};
use crate::recovery::rar5::error::{Error, Result};
use crate::recovery::rar5::field::{gf_mul, lemma_mul_units, lemma_xor};
use crate::recovery::rar5::gf16::Gf16;
use crate::recovery::rar5::linear::rows_view;
use crate::recovery::rar5::order::gf_inv;
use crate::recovery::rar5::sum::gf_sum;

verus! {

/// The word at index `w` of a shard; what lies behind its end is zero.
pub open spec fn word_at(shard: Seq<u8>, w: int) -> u16 {
    word_of(
        if 0 <= 2 * w < shard.len() {
            shard[2 * w]
        } else {
            0
        },
        if 0 <= 2 * w + 1 < shard.len() {
            shard[2 * w + 1]
        } else {
            0
        },
    )
}

/// The coefficient of data shard `j` in recovery shard `i`.
pub open spec fn encoder_entry(data_shards: int, i: int, j: int) -> u16 {
    gf_inv(((i + data_shards) as u16) ^ (j as u16))
}

/// The word at index `w` of recovery shard `i`.
pub open spec fn parity_word(data: Seq<Seq<u8>>, i: int, w: int) -> u16 {
    gf_sum(
        |j: int| gf_mul(encoder_entry(data.len() as int, i, j), word_at(data[j], w)),
        data.len(),
    )
}

/// Byte `at` of the sequence of words `f(0), f(1), ...`.
pub open spec fn byte_of_words(f: spec_fn(int) -> u16, at: int) -> u8 {
    if at % 2 == 0 {
        (f(at / 2) % 256) as u8
    } else {
        (f(at / 2) / 256) as u8
    }
}

/// The recovery shard `i` of data shards of this length.
pub open spec fn parity_shard(data: Seq<Seq<u8>>, len: nat, i: int) -> Seq<u8> {
    Seq::new(len, |at: int| byte_of_words(|w: int| parity_word(data, i, w), at))
}

/// The first `count` recovery shards.
pub open spec fn parity_shards(data: Seq<Seq<u8>>, len: nat, count: nat) -> Seq<Seq<u8>> {
    Seq::new(count, |i: int| parity_shard(data, len, i))
}

/// A byte sequence of even length is determined by its words.
pub proof fn lemma_words_determine(a: Seq<u8>, b: Seq<u8>)
    requires
        a.len() == b.len(),
        a.len() % 2 == 0,
        forall|w: int| 0 <= w < a.len() / 2 ==> #[trigger] word_at(a, w) == word_at(b, w),
    ensures
        a == b,
{
    assert forall|k: int| 0 <= k < a.len() implies a[k] == b[k] by {
        let w = k / 2;
        assert(word_at(a, w) == word_at(b, w));
        assert(word_at(a, w) == a[2 * w] + 256 * a[2 * w + 1]);
        assert(word_at(b, w) == b[2 * w] + 256 * b[2 * w + 1]);
    }
    assert(a =~= b);
}

/// The words of a sequence that was laid out from words.
pub proof fn lemma_word_of_bytes(s: Seq<u8>, f: spec_fn(int) -> u16, w: int)
    requires
        s.len() % 2 == 0,
        0 <= w < s.len() / 2,
        forall|at: int| 0 <= at < s.len() ==> #[trigger] s[at] == byte_of_words(f, at),
    ensures
        word_at(s, w) == f(w),
{
    assert(s[2 * w] == byte_of_words(f, 2 * w));
    assert(s[2 * w + 1] == byte_of_words(f, 2 * w + 1));
}

/// A recovery shard of even length has the words that define it.
pub proof fn lemma_parity_shard_words(data: Seq<Seq<u8>>, len: nat, i: int, w: int)
    requires
        len % 2 == 0,
        0 <= w < len / 2,
    ensures
        word_at(parity_shard(data, len, i), w) == parity_word(data, i, w),
{
    lemma_word_of_bytes(
        parity_shard(data, len, i),
        |w: int| parity_word(data, i, w),
        w,
    );
}

/// The matrix may have this many rows and columns.
pub open spec fn shard_counts_valid(data_shards: int, recovery_shards: int) -> bool {
    data_shards > 0 && recovery_shards > 0 && data_shards + recovery_shards <= 65_535
}

/// The denominators of the Cauchy matrix are not zero.
pub proof fn lemma_encoder_points(data_shards: int, i: int, j: int)
    requires
        0 <= j < data_shards,
        0 <= i,
        i + data_shards <= 65_535,
    ensures
        (((i + data_shards) as u16) ^ (j as u16)) != 0,
{
    let a = (i + data_shards) as u16;
    let b = j as u16;
    lemma_xor(a, b, b);
    lemma_xor(b, b, 0);
    lemma_xor(a, 0, 0);
    lemma_xor(b, 0, 0);
}

/// The coefficients that turn data shards into recovery shards.
pub open spec fn encoder_matrix(data_shards: nat, recovery_shards: nat) -> Seq<Seq<u16>> {
    Seq::new(
        recovery_shards,
        |i: int| Seq::new(data_shards, |j: int| encoder_entry(data_shards as int, i, j)),
    )
}

/// Builds the Cauchy matrix of the encoder.
pub fn make_encoder_matrix(data_shards: usize, recovery_shards: usize) -> (matrix: Result<
    Vec<Vec<u16>>,
>)
    ensures
        !shard_counts_valid(data_shards as int, recovery_shards as int) ==> matrix == Err::<
            Vec<Vec<u16>>,
            Error,
        >(Error::TooManyShards),
        shard_counts_valid(data_shards as int, recovery_shards as int) ==> match matrix {
            Ok(matrix) => rows_view(matrix@) == encoder_matrix(
                data_shards as nat,
                recovery_shards as nat,
            ),
            Err(_) => false,
        },
{
    if data_shards == 0 || recovery_shards == 0 || data_shards > 65_535 || recovery_shards > 65_535
        || data_shards + recovery_shards > 65_535 {
        return Err(Error::TooManyShards);
    }
    let gf = Gf16::new();
    let mut matrix: Vec<Vec<u16>> = Vec::with_capacity(recovery_shards);
    let mut i: usize = 0;
    while i < recovery_shards
        invariant
            i <= recovery_shards,
            data_shards + recovery_shards <= 65_535,
            matrix@.len() == i,
            forall|k: int|
                0 <= k < i ==> (#[trigger] matrix@[k])@ == encoder_matrix(
                    data_shards as nat,
                    recovery_shards as nat,
                )[k],
        decreases recovery_shards - i,
    {
        let mut row: Vec<u16> = Vec::with_capacity(data_shards);
        let mut j: usize = 0;
        while j < data_shards
            invariant
                i < recovery_shards,
                j <= data_shards,
                data_shards + recovery_shards <= 65_535,
                row@.len() == j,
                forall|k: int|
                    0 <= k < j ==> #[trigger] row@[k] == encoder_entry(
                        data_shards as int,
                        i as int,
                        k,
                    ),
            decreases data_shards - j,
        {
            proof {
                lemma_encoder_points(data_shards as int, i as int, j as int);
            }
            let denominator: u16 = ((i + data_shards) as u16) ^ (j as u16);
            match gf.inv(denominator) {
                Ok(entry) => {
                    row.push(entry);
                },
                Err(error) => {
                    return Err(error);
                },
            }
            j += 1;
        }
        assert(row@ =~= encoder_matrix(data_shards as nat, recovery_shards as nat)[i as int]);
        matrix.push(row);
        i += 1;
    }
    assert(rows_view(matrix@) =~= encoder_matrix(data_shards as nat, recovery_shards as nat));
    Ok(matrix)
}

/// Reads a word of a shard of even length.
pub fn read_word(shard: &[u8], w: usize) -> (word: u16)
    requires
        2 * w + 1 < shard@.len(),
    ensures
        word == word_at(shard@, w as int),
{
    let total: usize = shard.len();
    word_from_bytes(shard[2 * w], shard[2 * w + 1])
}

/// Replaces a word of a shard of even length.
pub fn write_word(shard: &mut Vec<u8>, w: usize, word: u16)
    requires
        2 * w + 1 < old(shard)@.len(),
    ensures
        final(shard)@.len() == old(shard)@.len(),
        word_at(final(shard)@, w as int) == word,
        forall|v: int|
            0 <= v && v != w ==> #[trigger] word_at(final(shard)@, v) == word_at(old(shard)@, v),
{
    let total: usize = shard.len();
    let (low, high) = word_to_bytes(word);
    shard.set(2 * w, low);
    shard.set(2 * w + 1, high);
}

/// Adds `coefficient * source` to the words of `destination` from byte
/// `offset` on.
///
/// A trailing odd byte is the low half of a word whose high half is zero.
pub fn accumulate_scaled(
    destination: &mut Vec<u8>,
    offset: usize,
    source: &[u8],
    coefficient: u16,
    gf: &Gf16,
)
    requires
        offset % 2 == 0,
        old(destination)@.len() % 2 == 0,
        offset + source@.len() <= old(destination)@.len(),
    ensures
        final(destination)@.len() == old(destination)@.len(),
        forall|w: int|
            0 <= w < old(destination)@.len() / 2 ==> #[trigger] word_at(final(destination)@, w)
                == word_at(old(destination)@, w) ^ gf_mul(
                coefficient,
                word_at(source@, w - offset / 2),
            ),
{
    let total: usize = destination.len();
    let len: usize = source.len();
    let base: usize = offset / 2;
    let words: usize = len / 2;
    let ghost before = destination@;
    proof {
        lemma_mul_units(coefficient);
    }
    let mut k: usize = 0;
    while k < words
        invariant
            k <= words,
            words == len / 2,
            len == source@.len(),
            base == offset / 2,
            offset % 2 == 0,
            total == before.len(),
            total % 2 == 0,
            offset + len <= total,
            destination@.len() == total,
            gf_mul(coefficient, 0) == 0,
            forall|w: int|
                base <= w < base + k ==> #[trigger] word_at(destination@, w) == word_at(before, w)
                    ^ gf_mul(coefficient, word_at(source@, w - base)),
            forall|w: int|
                0 <= w < total / 2 && !(base <= w < base + k) ==> #[trigger] word_at(
                    destination@,
                    w,
                ) == word_at(before, w),
        decreases words - k,
    {
        let scaled: u16 = gf.mul(coefficient, read_word(source, k));
        assert(word_at(destination@, (base + k) as int) == word_at(before, (base + k) as int));
        if scaled != 0 {
            let current: u16 = read_word(destination.as_slice(), base + k);
            write_word(destination, base + k, current ^ scaled);
        } else {
            proof {
                lemma_xor(word_at(before, (base + k) as int), 0, 0);
            }
        }
        k += 1;
    }
    if len % 2 == 1 {
        let value: u16 = word_from_bytes(source[2 * words], 0);
        let scaled: u16 = gf.mul(coefficient, value);
        assert(value == word_at(source@, words as int));
        assert(word_at(destination@, (base + words) as int) == word_at(
            before,
            (base + words) as int,
        ));
        if scaled != 0 {
            let current: u16 = read_word(destination.as_slice(), base + words);
            write_word(destination, base + words, current ^ scaled);
        } else {
            proof {
                lemma_xor(word_at(before, (base + words) as int), 0, 0);
            }
        }
    }
    proof {
        assert forall|w: int| 0 <= w < total / 2 implies #[trigger] word_at(destination@, w)
            == word_at(before, w) ^ gf_mul(coefficient, word_at(source@, w - offset / 2)) by {
            if w < base || w >= base + (len + 1) / 2 {
                assert(word_at(source@, w - base) == 0);
                lemma_xor(word_at(before, w), 0, 0);
            }
        }
    }
}

} // verus!
