//! Cauchy matrices, whose square submatrices are all regular.
use vstd::prelude::*;

use crate::recovery::rar5::field::{
    gf_mul, lemma_mul_associates, lemma_mul_commutes, lemma_mul_distributes, lemma_mul_units,
    lemma_xor, lemma_xor_exchange,
};
use crate::recovery::rar5::linear::{in_kernel, is_singular};
use crate::recovery::rar5::order::{gf_inv, lemma_inv, lemma_mul_nonzero};
use crate::recovery::rar5::sum::{
    gf_dot, gf_sum, lemma_sum_add, lemma_sum_congruent, lemma_sum_scale, lemma_sum_single,
};

verus! {

/// Factors may be exchanged.
proof fn lemma_mul_exchange(a: u16, b: u16, c: u16)
    ensures
        gf_mul(a, gf_mul(b, c)) == gf_mul(b, gf_mul(a, c)),
{
    lemma_mul_associates(a, b, c);
    lemma_mul_associates(b, a, c);
    lemma_mul_commutes(a, b);
}

proof fn lemma_mul_cancels(a: u16, x: u16)
    requires
        a != 0,
    ensures
        gf_mul(a, gf_mul(gf_inv(a), x)) == x,
{
    lemma_inv(a);
    lemma_mul_associates(a, gf_inv(a), x);
    lemma_mul_units(x);
}

/// `(a + d)/a + (b + d)/b == (a + b) d / (a b)`, applied to `x`.
proof fn lemma_partial_fractions(a: u16, b: u16, d: u16, x: u16)
    requires
        a != 0,
        b != 0,
    ensures
        gf_mul(a ^ d, gf_mul(gf_inv(a), x)) ^ gf_mul(b ^ d, gf_mul(gf_inv(b), x)) == gf_mul(
            a ^ b,
            gf_mul(gf_inv(a), gf_mul(gf_mul(gf_inv(b), d), x)),
        ),
{
    let w = gf_mul(d, x);
    let p = gf_mul(gf_inv(a), w);
    let q = gf_mul(gf_inv(b), w);
    lemma_mul_distributes(gf_mul(gf_inv(a), x), a, d);
    lemma_mul_distributes(gf_mul(gf_inv(b), x), b, d);
    lemma_mul_cancels(a, x);
    lemma_mul_cancels(b, x);
    lemma_mul_exchange(d, gf_inv(a), x);
    lemma_mul_exchange(d, gf_inv(b), x);
    lemma_xor_exchange(x, p, x, q);
    lemma_xor(x, x, 0);
    lemma_xor(p ^ q, 0, 0);
    lemma_xor(p, q, 0);
    lemma_mul_associates(gf_inv(b), d, x);
    let v = gf_mul(gf_inv(a), q);
    lemma_mul_distributes(v, a, b);
    lemma_mul_cancels(a, q);
    lemma_mul_exchange(gf_inv(a), gf_inv(b), w);
    lemma_mul_cancels(b, p);
}

/// The entries of the Cauchy matrix with these row and column points.
pub open spec fn cauchy_entry(r: Seq<u16>, c: Seq<u16>, i: int, j: int) -> u16 {
    gf_inv(r[i] ^ c[j])
}

/// The product of row `i` of that matrix and `x`.
pub open spec fn cauchy_row_sum(r: Seq<u16>, c: Seq<u16>, x: Seq<u16>, i: int, n: nat) -> u16 {
    gf_sum(|j: int| gf_mul(cauchy_entry(r, c, i, j), x[j]), n)
}

/// The points make a Cauchy matrix: no two of them coincide.
pub open spec fn are_cauchy_points(r: Seq<u16>, c: Seq<u16>, n: nat) -> bool {
    &&& forall|i: int, j: int| 0 <= i < j < n ==> #[trigger] r[i] != #[trigger] r[j]
    &&& forall|i: int, j: int| 0 <= i < j < n ==> #[trigger] c[i] != #[trigger] c[j]
    &&& forall|i: int, j: int| 0 <= i < n && 0 <= j < n ==> #[trigger] r[i] != #[trigger] c[j]
}

proof fn lemma_xor_points(a: u16, b: u16, c: u16)
    ensures
        a == b <==> a ^ b == 0,
        (a ^ c) ^ (b ^ c) == a ^ b,
        (a ^ b) ^ (b ^ c) == a ^ c,
{
    lemma_xor_exchange(a, c, b, c);
    lemma_xor(c, c, 0);
    lemma_xor(a ^ b, 0, 0);
    lemma_xor(a, b, b ^ c);
    lemma_xor(b, b, c);
    lemma_xor(c, 0, 0);
    lemma_xor(a, a, 0);
    lemma_xor(a, b, b);
    lemma_xor(b, b, 0);
    lemma_xor(a, 0, 0);
    lemma_xor(b, 0, 0);
}

/// The homogeneous system of a Cauchy matrix has only the zero solution.
pub proof fn lemma_cauchy_kernel(r: Seq<u16>, c: Seq<u16>, x: Seq<u16>, n: nat)
    requires
        are_cauchy_points(r, c, n),
        forall|i: int|
            0 <= i < n ==> #[trigger] cauchy_row_sum(r, c, x, i, n) == 0,
    ensures
        forall|j: int| 0 <= j < n ==> #[trigger] x[j] == 0,
    decreases n,
{
    if n > 0 {
        let p = n - 1;
        let y = Seq::new(
            n,
            |j: int| gf_mul(gf_mul(cauchy_entry(r, c, p, j), c[j] ^ c[p]), x[j]),
        );
        let tp = |j: int| gf_mul(cauchy_entry(r, c, p, j), x[j]);
        assert(cauchy_row_sum(r, c, x, p, n) == 0);
        assert(gf_sum(tp, n) == 0);
        assert forall|i: int| 0 <= i < p implies #[trigger] cauchy_row_sum(
            r,
            c,
            y,
            i,
            p as nat,
        ) == 0 by {
            let ti = |j: int| gf_mul(cauchy_entry(r, c, i, j), x[j]);
            let yi = |j: int| gf_mul(cauchy_entry(r, c, i, j), y[j]);
            assert(cauchy_row_sum(r, c, x, i, n) == 0);
            assert(gf_sum(ti, n) == 0);
            let u = r[i] ^ c[p];
            let v = r[p] ^ c[p];
            let w = r[i] ^ r[p];
            let f = |j: int| gf_mul(u, ti(j));
            let g = |j: int| gf_mul(v, tp(j));
            lemma_sum_scale(u, ti, n);
            lemma_sum_scale(v, tp, n);
            lemma_mul_units(u);
            lemma_mul_units(v);
            lemma_sum_add(f, g, n);
            lemma_xor(0, 0, 0);
            assert forall|j: int| 0 <= j < n implies #[trigger] f(j) ^ g(j) == gf_mul(w, yi(j)) by {
                let a = r[i] ^ c[j];
                let b = r[p] ^ c[j];
                let d = c[j] ^ c[p];
                lemma_xor_points(r[i], c[j], c[p]);
                lemma_xor_points(r[p], c[j], c[p]);
                lemma_xor_points(r[i], r[p], c[j]);
                assert(a ^ d == u);
                assert(b ^ d == v);
                assert(a ^ b == w);
                lemma_partial_fractions(a, b, d, x[j]);
            }
            lemma_sum_congruent(|j: int| f(j) ^ g(j), |j: int| gf_mul(w, yi(j)), n);
            lemma_sum_scale(w, yi, n);
            lemma_xor_points(r[i], r[p], 0);
            assert(w != 0);
            let total = gf_sum(yi, n);
            if total != 0 {
                lemma_mul_nonzero(w, total);
            }
            // The last term vanishes: c[p] + c[p] == 0.
            lemma_xor(c[p], c[p], 0);
            lemma_mul_units(cauchy_entry(r, c, p, p));
            lemma_mul_units(x[p]);
            lemma_mul_units(cauchy_entry(r, c, i, p));
            assert(yi(p) == 0);
            lemma_xor(gf_sum(yi, p as nat), 0, 0);
        }
        lemma_cauchy_kernel(r, c, y, p as nat);
        assert forall|j: int| 0 <= j < p implies #[trigger] x[j] == 0 by {
            assert(y[j] == 0);
            lemma_xor_points(r[p], c[j], 0);
            lemma_xor_points(c[j], c[p], 0);
            lemma_inv(r[p] ^ c[j]);
            lemma_mul_nonzero(cauchy_entry(r, c, p, j), c[j] ^ c[p]);
            if x[j] != 0 {
                lemma_mul_nonzero(gf_mul(cauchy_entry(r, c, p, j), c[j] ^ c[p]), x[j]);
            }
        }
        assert forall|j: int| 0 <= j < n && j != p implies #[trigger] tp(j) == 0 by {
            assert(x[j] == 0);
            lemma_mul_units(cauchy_entry(r, c, p, j));
        }
        lemma_sum_single(tp, n, p);
        lemma_xor_points(r[p], c[p], 0);
        lemma_inv(r[p] ^ c[p]);
        if x[p] != 0 {
            lemma_mul_nonzero(cauchy_entry(r, c, p, p), x[p]);
        }
    }
}

/// A square Cauchy matrix is regular.
pub proof fn lemma_cauchy_regular(m: Seq<Seq<u16>>, r: Seq<u16>, c: Seq<u16>)
    requires
        are_cauchy_points(r, c, m.len()),
        forall|i: int, j: int|
            0 <= i < m.len() && 0 <= j < m.len() ==> #[trigger] m[i][j] == cauchy_entry(r, c, i, j),
    ensures
        !is_singular(m),
{
    if is_singular(m) {
        let n = m.len();
        let x = choose|x: Seq<u16>| #[trigger]
            in_kernel(m, x) && x.len() == m.len() && exists|k: int| 0 <= k < x.len() && x[k] != 0;
        assert forall|i: int| 0 <= i < n implies #[trigger] cauchy_row_sum(r, c, x, i, n)
            == 0 by {
            assert(gf_dot(m[i], x, n) == 0);
            lemma_sum_congruent(
                |j: int| gf_mul(m[i][j], x[j]),
                |j: int| gf_mul(cauchy_entry(r, c, i, j), x[j]),
                n,
            );
        }
        lemma_cauchy_kernel(r, c, x, n);
    }
}

} // verus!
