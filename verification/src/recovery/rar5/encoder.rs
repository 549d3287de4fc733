//! Encoding data shards into recovery shards, whole or stripe by stripe.
use vstd::prelude::*;

use crate::recovery::rar5::crc64::{crc64_state, crc64_update, lemma_crc64_concat};
use crate::recovery::rar5::error::{Error, Result};
use crate::recovery::rar5::field::{gf_mul, lemma_mul_distributes, lemma_mul_units, lemma_xor};
use crate::recovery::rar5::gf16::Gf16;
use crate::recovery::rar5::linear::rows_view;
use crate::recovery::rar5::parity::{
    accumulate_scaled, encoder_entry, encoder_matrix, lemma_words_determine,
    lemma_parity_shard_words, make_encoder_matrix, parity_shard, parity_shards, parity_word,
    shard_counts_valid, word_at,
};
use crate::recovery::rar5::plan::{shards_result, shards_view};
use crate::recovery::rar5::sum::{gf_sum, lemma_sum_congruent, lemma_sum_zero};

verus! {

/// The contents of borrowed shards.
pub open spec fn slices_view(shards: Seq<&[u8]>) -> Seq<Seq<u8>> {
    Seq::new(shards.len(), |i: int| shards[i]@)
}

/// One term of a sum changes by `delta`.
proof fn lemma_sum_changed(
    f: spec_fn(int) -> u16,
    g: spec_fn(int) -> u16,
    n: nat,
    at: int,
    delta: u16,
)
    requires
        0 <= at < n,
        g(at) == f(at) ^ delta,
        forall|k: int| 0 <= k < n && k != at ==> #[trigger] g(k) == f(k),
    ensures
        gf_sum(g, n) == gf_sum(f, n) ^ delta,
    decreases n,
{
    let m = (n - 1) as nat;
    let s = gf_sum(f, m);
    let t = f(m as int);
    if at == m {
        lemma_sum_congruent(f, g, m);
        lemma_xor(s, t, delta);
    } else {
        lemma_sum_changed(f, g, m, at, delta);
        assert(g(m as int) == t);
        lemma_xor(s, delta, t);
        lemma_xor(delta, t, 0);
        lemma_xor(s, t, delta);
    }
}

/// The words of two pieces joined at a word boundary.
proof fn lemma_joined_word(a: Seq<u8>, b: Seq<u8>, w: int)
    requires
        a.len() % 2 == 0,
        0 <= w,
    ensures
        word_at(a + b, w) == word_at(a, w) ^ word_at(b, w - a.len() / 2),
{
    lemma_xor(word_at(a + b, w), 0, 0);
    if 2 * w < a.len() {
        assert(word_at(b, w - a.len() / 2) == 0);
        assert(word_at(a + b, w) == word_at(a, w));
    } else {
        assert(word_at(a, w) == 0);
        assert(2 * (w - a.len() / 2) == 2 * w - a.len());
        assert(word_at(a + b, w) == word_at(b, w - a.len() / 2));
    }
}

/// What comes of encoding some shards.
pub open spec fn encode_outcome(shards: Seq<Seq<u8>>, recovery_shards: nat) -> std::result::Result<
    Seq<Seq<u8>>,
    Error,
> {
    let wrong_size = exists|i: int|
        0 <= i < shards.len() && (#[trigger] shards[i]).len() != shards[0].len();
    if shards.len() == 0 {
        Err(Error::TooManyShards)
    } else if shards[0].len() % 2 == 1 {
        Err(Error::OddShardSize)
    } else if wrong_size {
        Err(Error::ShardSizeMismatch)
    } else if !shard_counts_valid(shards.len() as int, recovery_shards as int) {
        Err(Error::TooManyShards)
    } else {
        Ok(parity_shards(shards, shards[0].len(), recovery_shards))
    }
}

/// Encodes shards of equal, even length.
pub fn encode_parity_shards(data: &[&[u8]], recovery_shards: usize) -> (parity: Result<
    Vec<Vec<u8>>,
>)
    ensures
        shards_result(parity) == encode_outcome(slices_view(data@), recovery_shards as nat),
{
    let ghost shards = slices_view(data@);
    if data.len() == 0 {
        return Err(Error::TooManyShards);
    }
    let first: &[u8] = data[0];
    let len: usize = first.len();
    assert(shards[0].len() == len);
    if len % 2 == 1 {
        return Err(Error::OddShardSize);
    }
    let mut j: usize = 0;
    while j < data.len()
        invariant
            j <= data@.len(),
            shards == slices_view(data@),
            len == shards[0].len(),
            len % 2 == 0,
            shards.len() == data@.len(),
            forall|k: int| 0 <= k < j ==> (#[trigger] shards[k]).len() == len,
        decreases data@.len() - j,
    {
        let shard: &[u8] = data[j];
        assert(shards[j as int] == shard@);
        if shard.len() != len {
            assert(shards[j as int].len() != shards[0].len());
            return Err(Error::ShardSizeMismatch);
        }
        j += 1;
    }
    let matrix = match make_encoder_matrix(data.len(), recovery_shards) {
        Ok(matrix) => matrix,
        Err(error) => {
            return Err(error);
        },
    };
    assert(rows_view(matrix@).len() == recovery_shards);
    let gf = Gf16::new();
    let mut parity: Vec<Vec<u8>> = Vec::with_capacity(recovery_shards);
    let mut i: usize = 0;
    while i < recovery_shards
        invariant
            i <= recovery_shards,
            len % 2 == 0,
            shards == slices_view(data@),
            forall|k: int| 0 <= k < shards.len() ==> (#[trigger] shards[k]).len() == len,
            rows_view(matrix@) == encoder_matrix(data@.len(), recovery_shards as nat),
            matrix@.len() == recovery_shards,
            parity@.len() == i,
            forall|k: int|
                0 <= k < i ==> (#[trigger] parity@[k])@ == parity_shard(shards, len as nat, k),
        decreases recovery_shards - i,
    {
        let row = encode_parity_row(&gf, &matrix, data, i, len);
        parity.push(row);
        i += 1;
    }
    assert(shards_view(parity@) =~= parity_shards(shards, len as nat, recovery_shards as nat));
    Ok(parity)
}

/// Encodes one recovery shard.
fn encode_parity_row(
    gf: &Gf16,
    matrix: &Vec<Vec<u16>>,
    data: &[&[u8]],
    index: usize,
    len: usize,
) -> (row: Vec<u8>)
    requires
        len % 2 == 0,
        index < matrix@.len(),
        forall|k: int|
            0 <= k < data@.len() ==> (#[trigger] slices_view(data@)[k]).len() == len,
        rows_view(matrix@) == encoder_matrix(data@.len(), matrix@.len()),
    ensures
        row@ == parity_shard(slices_view(data@), len as nat, index as int),
{
    let ghost shards = slices_view(data@);
    let ghost term = |w: int|
        |k: int|
            gf_mul(encoder_entry(data@.len() as int, index as int, k), word_at(shards[k], w));
    let mut row: Vec<u8> = vec![0u8; len];
    let mut j: usize = 0;
    proof {
        assert forall|w: int| 0 <= w < len / 2 implies #[trigger] word_at(row@, w) == gf_sum(
            term(w),
            0,
        ) by {}
    }
    while j < data.len()
        invariant
            j <= data@.len(),
            len % 2 == 0,
            index < matrix@.len(),
            row@.len() == len,
            shards == slices_view(data@),
            term == (|w: int|
                |k: int|
                    gf_mul(
                        encoder_entry(data@.len() as int, index as int, k),
                        word_at(shards[k], w),
                    )),
            forall|k: int| 0 <= k < data@.len() ==> (#[trigger] shards[k]).len() == len,
            rows_view(matrix@) == encoder_matrix(data@.len(), matrix@.len()),
            forall|w: int|
                0 <= w < len / 2 ==> #[trigger] word_at(row@, w) == gf_sum(term(w), j as nat),
        decreases data@.len() - j,
    {
        let shard: &[u8] = data[j];
        let ghost before = row@;
        proof {
            assert(shards[j as int] == shard@);
            assert(rows_view(matrix@)[index as int] == matrix@[index as int]@);
            assert(matrix@[index as int]@[j as int] == encoder_entry(
                data@.len() as int,
                index as int,
                j as int,
            ));
        }
        accumulate_scaled(&mut row, 0, shard, matrix[index][j], gf);
        proof {
            assert forall|w: int| 0 <= w < len / 2 implies #[trigger] word_at(row@, w) == gf_sum(
                term(w),
                (j + 1) as nat,
            ) by {
                assert(word_at(before, w) == gf_sum(term(w), j as nat));
            }
        }
        j += 1;
    }
    proof {
        let whole = parity_shard(shards, len as nat, index as int);
        assert forall|w: int| 0 <= w < len / 2 implies #[trigger] word_at(row@, w) == word_at(
            whole,
            w,
        ) by {
            lemma_parity_shard_words(shards, len as nat, index as int, w);
            lemma_sum_congruent(
                term(w),
                |k: int|
                    gf_mul(
                        encoder_entry(shards.len() as int, index as int, k),
                        word_at(shards[k], w),
                    ),
                shards.len(),
            );
        }
        lemma_words_determine(row@, whole);
    }
    row
}

/// The coefficients of an encoder, ready for use.
#[derive(Debug)]
pub struct ParityEncoder {
    gf: Gf16,
    matrix: Vec<Vec<u16>>,
    data_shards: usize,
    recovery_shards: usize,
}

impl ParityEncoder {
    /// The number of data shards.
    pub closed spec fn data_shards(self) -> nat {
        self.data_shards as nat
    }

    /// The number of recovery shards.
    pub closed spec fn recovery_shards(self) -> nat {
        self.recovery_shards as nat
    }

    #[verifier::type_invariant]
    spec fn holds_coefficients(self) -> bool {
        &&& shard_counts_valid(self.data_shards as int, self.recovery_shards as int)
        &&& rows_view(self.matrix@) == encoder_matrix(
            self.data_shards as nat,
            self.recovery_shards as nat,
        )
    }

    /// Prepares the coefficients for shards in these numbers.
    pub fn new(data_shards: usize, recovery_shards: usize) -> (encoder: Result<Self>)
        ensures
            shard_counts_valid(data_shards as int, recovery_shards as int) ==> encoder is Ok
                && encoder->Ok_0.data_shards() == data_shards
                && encoder->Ok_0.recovery_shards() == recovery_shards,
            !shard_counts_valid(data_shards as int, recovery_shards as int) ==> encoder == Err::<
                ParityEncoder,
                Error,
            >(Error::TooManyShards),
    {
        match make_encoder_matrix(data_shards, recovery_shards) {
            Ok(matrix) => Ok(
                ParityEncoder { gf: Gf16::new(), matrix, data_shards, recovery_shards },
            ),
            Err(error) => Err(error),
        }
    }
}

/// Recovery shards in the making, over a stripe of columns.
///
/// The data shards' bytes in the stripe are absorbed in pieces, each shard's
/// in order.
pub struct ParityStripe {
    rows: Vec<Vec<u8>>,
    states: Vec<u64>,
    filled: Vec<usize>,
    width: usize,
    absorbed: Ghost<Seq<Seq<u8>>>,
    initial: Ghost<Seq<u64>>,
}

impl ParityStripe {
    /// The bytes of each data shard that were absorbed so far.
    pub closed spec fn absorbed(self) -> Seq<Seq<u8>> {
        self.absorbed@
    }

    /// The checksum states that the stripe started with.
    pub closed spec fn initial_states(self) -> Seq<u64> {
        self.initial@
    }

    /// The number of columns.
    pub closed spec fn width(self) -> nat {
        self.width as nat
    }

    /// The number of recovery shards.
    pub closed spec fn row_count(self) -> nat {
        self.rows@.len()
    }

    /// Rows are the parity, and states the checksums, of what was absorbed.
    pub closed spec fn wf(self) -> bool {
        &&& self.width % 2 == 0
        &&& self.states@.len() == self.absorbed@.len()
        &&& self.filled@.len() == self.absorbed@.len()
        &&& self.initial@.len() == self.absorbed@.len()
        &&& forall|i: int|
            0 <= i < self.rows@.len() ==> (#[trigger] self.rows@[i])@.len() == self.width
        &&& forall|i: int, w: int|
            0 <= i < self.rows@.len() && 0 <= w < self.width / 2 ==> #[trigger] word_at(
                self.rows@[i]@,
                w,
            ) == parity_word(self.absorbed@, i, w)
        &&& forall|j: int|
            0 <= j < self.absorbed@.len() ==> (#[trigger] self.absorbed@[j]).len()
                == self.filled@[j] && self.filled@[j] <= self.width
        &&& forall|j: int|
            0 <= j < self.absorbed@.len() ==> #[trigger] self.states@[j] == crc64_state(
                self.absorbed@[j],
                self.initial@[j],
            )
    }

    /// An empty stripe, its checksums carried on from `states`.
    pub fn new(encoder: &ParityEncoder, width: usize, states: Vec<u64>) -> (stripe: Self)
        requires
            width % 2 == 0,
            states@.len() == encoder.data_shards(),
        ensures
            stripe.wf(),
            stripe.width() == width,
            stripe.row_count() == encoder.recovery_shards(),
            stripe.initial_states() == states@,
            stripe.absorbed() == Seq::new(encoder.data_shards(), |j: int| Seq::<u8>::empty()),
    {
        proof {
            use_type_invariant(encoder);
        }
        let count: usize = encoder.recovery_shards;
        let data_count: usize = encoder.data_shards;
        let mut rows: Vec<Vec<u8>> = Vec::with_capacity(count);
        let mut i: usize = 0;
        while i < count
            invariant
                i <= count,
                rows@.len() == i,
                forall|k: int|
                    0 <= k < i ==> (#[trigger] rows@[k])@ == Seq::new(width as nat, |b: int| 0u8),
            decreases count - i,
        {
            let row: Vec<u8> = vec![0u8; width];
            assert(row@ =~= Seq::new(width as nat, |b: int| 0u8));
            rows.push(row);
            i += 1;
        }
        let filled: Vec<usize> = vec![0usize; data_count];
        let ghost nothing = Seq::new(data_count as nat, |j: int| Seq::<u8>::empty());
        let ghost initial = states@;
        proof {
            assert forall|i: int, w: int|
                0 <= i < rows@.len() && 0 <= w < width / 2 implies #[trigger] word_at(
                rows@[i]@,
                w,
            ) == parity_word(nothing, i, w) by {
                let f = |j: int|
                    gf_mul(encoder_entry(nothing.len() as int, i, j), word_at(nothing[j], w));
                assert forall|j: int| 0 <= j < nothing.len() implies #[trigger] f(j) == 0 by {
                    lemma_mul_units(encoder_entry(nothing.len() as int, i, j));
                    assert(word_at(nothing[j], w) == 0);
                }
                lemma_sum_zero(f, nothing.len());
            }
        }
        ParityStripe {
            rows,
            states,
            filled,
            width,
            absorbed: Ghost(nothing),
            initial: Ghost(initial),
        }
    }

    /// Absorbs the next bytes of one data shard.
    pub fn absorb(&mut self, encoder: &ParityEncoder, index: usize, bytes: &[u8])
        requires
            old(self).wf(),
            old(self).row_count() == encoder.recovery_shards(),
            old(self).absorbed().len() == encoder.data_shards(),
            index < encoder.data_shards(),
            old(self).absorbed()[index as int].len() % 2 == 0,
            old(self).absorbed()[index as int].len() + bytes@.len() <= old(self).width(),
        ensures
            final(self).wf(),
            final(self).width() == old(self).width(),
            final(self).row_count() == old(self).row_count(),
            final(self).initial_states() == old(self).initial_states(),
            final(self).absorbed() == old(self).absorbed().update(
                index as int,
                old(self).absorbed()[index as int] + bytes@,
            ),
    {
        proof {
            use_type_invariant(encoder);
        }
        let ghost before = self.absorbed@;
        let ghost after = before.update(index as int, before[index as int] + bytes@);
        let ghost start = before[index as int];
        let ghost old_rows = self.rows@;
        let len: usize = bytes.len();
        let offset: usize = self.filled[index];
        let width: usize = self.width;
        let state: u64 = crc64_update(bytes, self.states[index]);
        let count: usize = self.rows.len();
        let mut i: usize = 0;
        while i < count
            invariant
                i <= count,
                width % 2 == 0,
                offset % 2 == 0,
                offset + bytes@.len() <= width,
                count == encoder.recovery_shards,
                index < encoder.data_shards,
                encoder.holds_coefficients(),
                before.len() == encoder.data_shards,
                start == before[index as int],
                start.len() == offset,
                after == before.update(index as int, start + bytes@),
                self.rows@.len() == count,
                old_rows.len() == count,
                self.width == old(self).width,
                self.filled == old(self).filled,
                self.states == old(self).states,
                self.initial == old(self).initial,
                self.absorbed == old(self).absorbed,
                forall|k: int| 0 <= k < count ==> (#[trigger] self.rows@[k])@.len() == width,
                forall|k: int| i <= k < count ==> #[trigger] self.rows@[k] == old_rows[k],
                forall|k: int, w: int|
                    0 <= k < count && 0 <= w < width / 2 ==> #[trigger] word_at(old_rows[k]@, w)
                        == parity_word(before, k, w),
                forall|k: int, w: int|
                    0 <= k < i && 0 <= w < width / 2 ==> #[trigger] word_at(self.rows@[k]@, w)
                        == parity_word(after, k, w),
            decreases count - i,
        {
            proof {
                assert(rows_view(encoder.matrix@).len() == count);
                assert(rows_view(encoder.matrix@)[i as int] == encoder.matrix@[i as int]@);
                assert(encoder.matrix@[i as int]@[index as int] == encoder_entry(
                    before.len() as int,
                    i as int,
                    index as int,
                ));
                assert(self.rows@[i as int] == old_rows[i as int]);
            }
            let coefficient: u16 = encoder.matrix[i][index];
            accumulate_scaled(&mut self.rows[i], offset, bytes, coefficient, &encoder.gf);
            proof {
                assert forall|w: int| 0 <= w < width / 2 implies #[trigger] word_at(
                    self.rows@[i as int]@,
                    w,
                ) == parity_word(after, i as int, w) by {
                    assert(word_at(old_rows[i as int]@, w) == parity_word(before, i as int, w));
                    let n = before.len();
                    let f = |j: int|
                        gf_mul(encoder_entry(n as int, i as int, j), word_at(before[j], w));
                    let g = |j: int|
                        gf_mul(encoder_entry(n as int, i as int, j), word_at(after[j], w));
                    let added = word_at(bytes@, w - offset / 2);
                    let delta = gf_mul(coefficient, added);
                    lemma_joined_word(start, bytes@, w);
                    lemma_mul_distributes(coefficient, word_at(start, w), added);
                    lemma_sum_changed(f, g, n, index as int, delta);
                }
            }
            i += 1;
        }
        self.states.set(index, state);
        self.filled.set(index, offset + len);
        self.absorbed = Ghost(after);
        proof {
            lemma_crc64_concat(start, bytes@, self.initial@[index as int]);
        }
    }

    /// Takes the recovery shards and the checksum states out.
    pub fn finish(self) -> (parts: (Vec<Vec<u8>>, Vec<u64>))
        requires
            self.wf(),
        ensures
            shards_view(parts.0@) == parity_shards(self.absorbed(), self.width(), self.row_count()),
            parts.1@ == Seq::new(
                self.absorbed().len(),
                |j: int| crc64_state(self.absorbed()[j], self.initial_states()[j]),
            ),
    {
        proof {
            let whole = parity_shards(self.absorbed(), self.width(), self.row_count());
            assert forall|i: int| 0 <= i < self.rows@.len() implies #[trigger] shards_view(
                self.rows@,
            )[i] == whole[i] by {
                assert(self.rows@[i]@.len() == self.width);
                assert forall|w: int| 0 <= w < self.width / 2 implies #[trigger] word_at(
                    self.rows@[i]@,
                    w,
                ) == word_at(whole[i], w) by {
                    lemma_parity_shard_words(self.absorbed@, self.width as nat, i, w);
                }
                lemma_words_determine(self.rows@[i]@, whole[i]);
            }
            assert(shards_view(self.rows@) =~= whole);
            assert(self.states@ =~= Seq::new(
                self.absorbed().len(),
                |j: int| crc64_state(self.absorbed()[j], self.initial_states()[j]),
            ));
        }
        (self.rows, self.states)
    }
}

} // verus!
