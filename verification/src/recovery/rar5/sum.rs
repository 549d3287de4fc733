//! Sums over GF(2^16) and the linear maps built from them.
use vstd::prelude::*;

use crate::recovery::rar5::field::{
    gf_mul, lemma_mul_distributes, lemma_mul_units, lemma_xor, lemma_xor_exchange,
};

verus! {

/// `f(0) + f(1) + ... + f(n - 1)`.
pub open spec fn gf_sum(f: spec_fn(int) -> u16, n: nat) -> u16
    decreases n,
{
    if n == 0 {
        0
    } else {
        gf_sum(f, (n - 1) as nat) ^ f(n - 1)
    }
}

/// The sum of the products of corresponding entries.
pub open spec fn gf_dot(a: Seq<u16>, b: Seq<u16>, n: nat) -> u16 {
    gf_sum(|k: int| gf_mul(a[k], b[k]), n)
}

pub proof fn lemma_sum_congruent(f: spec_fn(int) -> u16, g: spec_fn(int) -> u16, n: nat)
    requires
        forall|k: int| 0 <= k < n ==> #[trigger] f(k) == g(k),
    ensures
        gf_sum(f, n) == gf_sum(g, n),
    decreases n,
{
    if n > 0 {
        lemma_sum_congruent(f, g, (n - 1) as nat);
        assert(f(n - 1) == g(n - 1));
    }
}

pub proof fn lemma_sum_zero(f: spec_fn(int) -> u16, n: nat)
    requires
        forall|k: int| 0 <= k < n ==> #[trigger] f(k) == 0,
    ensures
        gf_sum(f, n) == 0,
    decreases n,
{
    if n > 0 {
        lemma_sum_zero(f, (n - 1) as nat);
        assert(f(n - 1) == 0);
        lemma_xor(0, 0, 0);
    }
}

/// A sum with one term that is not zero.
pub proof fn lemma_sum_single(f: spec_fn(int) -> u16, n: nat, at: int)
    requires
        0 <= at < n,
        forall|k: int| 0 <= k < n && k != at ==> #[trigger] f(k) == 0,
    ensures
        gf_sum(f, n) == f(at),
    decreases n,
{
    let m = (n - 1) as nat;
    lemma_xor(f(at), 0, 0);
    if at == m {
        lemma_sum_zero(f, m);
    } else {
        lemma_sum_single(f, m, at);
        assert(f(n - 1) == 0);
    }
}

pub proof fn lemma_sum_add(f: spec_fn(int) -> u16, g: spec_fn(int) -> u16, n: nat)
    ensures
        gf_sum(|k: int| f(k) ^ g(k), n) == gf_sum(f, n) ^ gf_sum(g, n),
    decreases n,
{
    if n == 0 {
        lemma_xor(0, 0, 0);
    } else {
        let m = (n - 1) as nat;
        lemma_sum_add(f, g, m);
        lemma_xor_exchange(gf_sum(f, m), gf_sum(g, m), f(n - 1), g(n - 1));
    }
}

pub proof fn lemma_sum_scale(c: u16, f: spec_fn(int) -> u16, n: nat)
    ensures
        gf_sum(|k: int| gf_mul(c, f(k)), n) == gf_mul(c, gf_sum(f, n)),
    decreases n,
{
    if n == 0 {
        lemma_mul_units(c);
    } else {
        lemma_sum_scale(c, f, (n - 1) as nat);
        lemma_mul_distributes(c, gf_sum(f, (n - 1) as nat), f(n - 1));
    }
}

} // verus!
