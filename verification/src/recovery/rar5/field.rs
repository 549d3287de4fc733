//! The field GF(2^16) in which RAR 5 parity is computed.
//!
//! An element is a polynomial over GF(2) of degree below 16, its coefficients
//! packed into a `u16`; products are reduced modulo
//! `x^16 + x^12 + x^3 + x + 1`.
use vstd::prelude::*;

verus! {

/// The product of `v` and the polynomial `x`.
pub open spec fn xtime(v: u16) -> u16 {
    if v >= 0x8000 {
        (v << 1) ^ 0x100b
    } else {
        v << 1
    }
}

/// The product of `v` and `x^n`.
pub open spec fn xtimes(n: nat, v: u16) -> u16
    decreases n,
{
    if n == 0 {
        v
    } else {
        xtime(xtimes((n - 1) as nat, v))
    }
}

/// The power `x^n`.
pub open spec fn gf_exp(n: nat) -> u16 {
    xtimes(n, 1)
}

/// The coefficient of `x^k` in `a`.
pub open spec fn coefficient(a: u16, k: nat) -> bool {
    (a >> (k as u16)) & 1 == 1
}

/// The product of `b` and the terms of `a` below `x^k`.
pub open spec fn low_product(a: u16, b: u16, k: nat) -> u16
    decreases k,
{
    if k == 0 {
        0
    } else {
        low_product(a, b, (k - 1) as nat) ^ (if coefficient(a, (k - 1) as nat) {
            xtimes((k - 1) as nat, b)
        } else {
            0
        })
    }
}

/// The product of two field elements.
pub open spec fn gf_mul(a: u16, b: u16) -> u16 {
    low_product(a, b, 16)
}

pub proof fn lemma_xor(a: u16, b: u16, c: u16)
    ensures
        a ^ b == b ^ a,
        (a ^ b) ^ c == a ^ (b ^ c),
        a ^ a == 0,
        a ^ 0 == a,
        0 ^ a == a,
{
    assert(a ^ b == b ^ a && (a ^ b) ^ c == a ^ (b ^ c) && a ^ a == 0 && a ^ 0 == a && 0 ^ a == a)
        by (bit_vector);
}

proof fn lemma_xtime_linear(a: u16, b: u16)
    ensures
        xtime(a ^ b) == xtime(a) ^ xtime(b),
        xtime(0) == 0,
        xtime(a) == 0 ==> a == 0,
{
    assert(xtime(a ^ b) == xtime(a) ^ xtime(b) && xtime(0) == 0 && (xtime(a) == 0 ==> a == 0))
        by (bit_vector);
}

proof fn lemma_xtimes_linear(n: nat, a: u16, b: u16)
    ensures
        xtimes(n, a ^ b) == xtimes(n, a) ^ xtimes(n, b),
        xtimes(n, 0) == 0,
        xtimes(n, a) == 0 ==> a == 0,
    decreases n,
{
    if n > 0 {
        lemma_xtimes_linear((n - 1) as nat, a, b);
        lemma_xtime_linear(xtimes((n - 1) as nat, a), xtimes((n - 1) as nat, b));
    }
}

proof fn lemma_xtimes_add(n: nat, m: nat, v: u16)
    ensures
        xtimes(n + m, v) == xtimes(n, xtimes(m, v)),
    decreases n,
{
    if n > 0 {
        lemma_xtimes_add((n - 1) as nat, m, v);
        assert((n + m - 1) as nat == (n - 1) as nat + m);
    }
}

proof fn lemma_low_product_xtime(a: u16, b: u16, k: nat)
    ensures
        low_product(a, xtime(b), k) == xtime(low_product(a, b, k)),
    decreases k,
{
    lemma_xtime_linear(0, 0);
    if k > 0 {
        lemma_low_product_xtime(a, b, (k - 1) as nat);
        lemma_xtimes_add((k - 1) as nat, 1, b);
        lemma_xtimes_add(1, (k - 1) as nat, b);
        reveal_with_fuel(xtimes, 2);
        let t = if coefficient(a, (k - 1) as nat) {
            xtimes((k - 1) as nat, b)
        } else {
            0
        };
        lemma_xtime_linear(low_product(a, b, (k - 1) as nat), t);
    }
}

proof fn lemma_low_product_add(a: u16, c: u16, b: u16, k: nat)
    requires
        k <= 16,
    ensures
        low_product(a ^ c, b, k) == low_product(a, b, k) ^ low_product(c, b, k),
    decreases k,
{
    if k == 0 {
        lemma_xor(0, 0, 0);
    } else {
        let i = (k - 1) as nat;
        lemma_low_product_add(a, c, b, i);
        let s = i as u16;
        assert(((a ^ c) >> s) & 1 == ((a >> s) & 1) ^ ((c >> s) & 1)) by (bit_vector);
        let p = (a >> s) & 1;
        let q = (c >> s) & 1;
        assert(p == 0 || p == 1) by (bit_vector)
            requires
                p == (a >> s) & 1,
        ;
        assert(q == 0 || q == 1) by (bit_vector)
            requires
                q == (c >> s) & 1,
        ;
        assert(1u16 ^ 1u16 == 0 && 1u16 ^ 0u16 == 1 && 0u16 ^ 1u16 == 1 && 0u16 ^ 0u16 == 0)
            by (bit_vector);
        let u = low_product(a, b, i);
        let v = low_product(c, b, i);
        let x = xtimes(i, b);
        assert((u ^ v) ^ x == (u ^ x) ^ v && (u ^ v) ^ x == u ^ (v ^ x) && (u ^ x) ^ (v ^ x) == (u
            ^ v) ^ 0 && u ^ 0 == u && v ^ 0 == v && (u ^ 0) ^ (v ^ 0) == (u ^ v) ^ 0) by (bit_vector);
    }
}

proof fn lemma_low_product_shift(a: u16, b: u16, k: nat)
    requires
        k <= 15,
    ensures
        low_product(a << 1, b, k + 1) == low_product(a, xtime(b), k),
    decreases k,
{
    reveal_with_fuel(low_product, 2);
    let s = k as u16;
    let r = if k == 0 {
        0
    } else {
        (k - 1) as u16
    };
    assert(((a << 1) >> 0) & 1 == 0 && (s >= 1 ==> ((a << 1) >> s) & 1 == (a >> r) & 1))
        by (bit_vector)
        requires
            s <= 15,
            s >= 1 ==> r == s - 1,
    ;
    if k == 0 {
        lemma_xor(0, 0, 0);
    } else {
        let i = (k - 1) as nat;
        lemma_low_product_shift(a, b, i);
        lemma_xtimes_add(i, 1, b);
        reveal_with_fuel(xtimes, 2);
    }
}

proof fn lemma_exp_low(k: nat)
    requires
        k < 16,
    ensures
        xtimes(k, 1) == 1u16 << (k as u16),
    decreases k,
{
    let s = k as u16;
    let r = if k == 0 {
        0
    } else {
        (k - 1) as u16
    };
    assert(1u16 << 0u16 == 1 && (s >= 1 ==> xtime(1u16 << r) == 1u16 << s)) by (bit_vector)
        requires
            s < 16,
            s >= 1 ==> r == s - 1,
    ;
    if k > 0 {
        lemma_exp_low((k - 1) as nat);
    }
}

/// The terms of `b` below `x^k`.
spec fn low_terms(b: u16, k: nat) -> u16 {
    if k >= 16 {
        b
    } else {
        b % (1u16 << (k as u16))
    }
}

/// Every element is the sum of its terms.
proof fn lemma_low_product_terms(b: u16, k: nat)
    requires
        k <= 16,
    ensures
        low_product(b, 1, k) == low_terms(b, k),
    decreases k,
{
    let s = k as u16;
    let r = if k == 0 {
        0
    } else {
        (k - 1) as u16
    };
    let c = (b >> r) & 1;
    assert(b % (1u16 << 0u16) == 0 && (c == 0 || c == 1) && (s >= 1 ==> (b % (1u16 << r)) ^ (if c
        == 1 {
        1u16 << r
    } else {
        0
    }) == (if s == 16 {
        b
    } else {
        b % (1u16 << s)
    }))) by (bit_vector)
        requires
            s <= 16,
            s >= 1 ==> r == s - 1,
            c == (b >> r) & 1,
    ;
    if k > 0 {
        lemma_low_product_terms(b, (k - 1) as nat);
        lemma_exp_low((k - 1) as nat);
    }
}

/// Every element is the sum of its sixteen terms.
pub proof fn lemma_terms(b: u16)
    ensures
        low_product(b, 1, 16) == b,
{
    lemma_low_product_terms(b, 16);
}

/// The product of `b` and `x^12 + x^3 + x + 1`.
spec fn reduction(b: u16) -> u16 {
    low_product(0x100b, b, 16)
}

proof fn lemma_low_product_zero(a: u16, k: nat)
    ensures
        low_product(a, 0, k) == 0,
    decreases k,
{
    if k > 0 {
        lemma_low_product_zero(a, (k - 1) as nat);
        lemma_xtimes_linear((k - 1) as nat, 0, 0);
        lemma_xor(0, 0, 0);
    }
}

proof fn lemma_low_product_xtimes(a: u16, b: u16, n: nat)
    ensures
        low_product(a, xtimes(n, b), 16) == xtimes(n, low_product(a, b, 16)),
    decreases n,
{
    if n > 0 {
        lemma_low_product_xtimes(a, b, (n - 1) as nat);
        lemma_low_product_xtime(a, xtimes((n - 1) as nat, b), 16);
    }
}

proof fn lemma_low_product_linear(a: u16, b: u16, c: u16, k: nat)
    ensures
        low_product(a, b ^ c, k) == low_product(a, b, k) ^ low_product(a, c, k),
    decreases k,
{
    if k == 0 {
        lemma_xor(0, 0, 0);
    } else {
        let i = (k - 1) as nat;
        lemma_low_product_linear(a, b, c, i);
        lemma_xtimes_linear(i, b, c);
        let u = low_product(a, b, i);
        let v = low_product(a, c, i);
        let x = xtimes(i, b);
        let y = xtimes(i, c);
        lemma_xor_exchange(u, v, x, y);
        lemma_xor_exchange(u, v, 0, 0);
        lemma_xor(0, 0, 0);
    }
}

pub proof fn lemma_xor_exchange(u: u16, v: u16, x: u16, y: u16)
    ensures
        (u ^ v) ^ (x ^ y) == (u ^ x) ^ (v ^ y),
{
    assert((u ^ v) ^ (x ^ y) == (u ^ x) ^ (v ^ y)) by (bit_vector);
}

proof fn lemma_reduction_terms(b: u16, k: nat)
    requires
        k <= 16,
    ensures
        xtimes(16, low_product(b, 1, k)) == reduction(low_product(b, 1, k)),
    decreases k,
{
    if k == 0 {
        lemma_xtimes_linear(16, 0, 0);
        lemma_low_product_zero(0x100b, 16);
    } else {
        let i = (k - 1) as nat;
        lemma_reduction_terms(b, i);
        let u = low_product(b, 1, i);
        let t = if coefficient(b, i) {
            xtimes(i, 1)
        } else {
            0
        };
        lemma_xtimes_linear(16, u, t);
        lemma_low_product_linear(0x100b, u, t, 16);
        if coefficient(b, i) {
            lemma_exp_low(15);
            assert(xtime(1u16 << 15u16) == 0x100b) by (bit_vector);
            lemma_low_product_terms(0x100b, 16);
            assert(xtimes(16, 1) == xtime(xtimes(15, 1)));
            lemma_xtimes_add(16, i, 1);
            lemma_xtimes_add(i, 16, 1);
            lemma_low_product_xtimes(0x100b, 1, i);
        } else {
            lemma_xtimes_linear(16, 0, 0);
            lemma_low_product_zero(0x100b, 16);
        }
    }
}

/// `x^16 == x^12 + x^3 + x + 1`, applied to any element.
proof fn lemma_xtimes_16(b: u16)
    ensures
        xtimes(16, b) == reduction(b),
{
    lemma_low_product_terms(b, 16);
    lemma_reduction_terms(b, 16);
}

proof fn lemma_mul_xtime(a: u16, b: u16)
    ensures
        gf_mul(xtime(a), b) == gf_mul(a, xtime(b)),
        gf_mul(a, xtime(b)) == xtime(gf_mul(a, b)),
{
    lemma_low_product_xtime(a, b, 16);
    lemma_low_product_shift(a, b, 15);
    assert(a >= 0x8000 <==> (a >> 15) & 1 == 1) by (bit_vector);
    let u = low_product(a, xtime(b), 15);
    reveal_with_fuel(low_product, 2);
    if a >= 0x8000 {
        lemma_low_product_add(a << 1, 0x100b, b, 16);
        lemma_xtimes_16(b);
        lemma_xtimes_add(15, 1, b);
        reveal_with_fuel(xtimes, 2);
    } else {
        lemma_xor(u, 0, 0);
    }
}

proof fn lemma_low_product_one(b: u16, k: nat)
    requires
        k <= 16,
    ensures
        low_product(1, b, k) == (if k == 0 {
            0
        } else {
            b
        }),
    decreases k,
{
    if k > 0 {
        let i = (k - 1) as nat;
        lemma_low_product_one(b, i);
        lemma_xor(b, 0, 0);
        let s = i as u16;
        assert((1u16 >> s) & 1 == 1 <==> s == 0) by (bit_vector)
            requires
                s < 16,
        ;
    }
}

/// Multiplying by a power of `x` is repeated multiplication by `x`.
pub proof fn lemma_mul_exp(n: nat, b: u16)
    ensures
        gf_mul(gf_exp(n), b) == xtimes(n, b),
    decreases n,
{
    if n == 0 {
        lemma_low_product_one(b, 16);
    } else {
        lemma_mul_exp((n - 1) as nat, b);
        lemma_mul_xtime(gf_exp((n - 1) as nat), b);
    }
}

/// Powers of `x` multiply by adding exponents.
pub proof fn lemma_exp_add(n: nat, m: nat)
    ensures
        gf_mul(gf_exp(n), gf_exp(m)) == gf_exp(n + m),
{
    lemma_mul_exp(n, gf_exp(m));
    lemma_xtimes_add(n, m, 1);
}

proof fn lemma_mul_xtimes(n: nat, a: u16, b: u16)
    ensures
        gf_mul(xtimes(n, a), b) == xtimes(n, gf_mul(a, b)),
    decreases n,
{
    if n > 0 {
        lemma_mul_xtimes((n - 1) as nat, a, b);
        lemma_mul_xtime(xtimes((n - 1) as nat, a), b);
    }
}

/// Multiplication distributes over addition.
pub proof fn lemma_mul_distributes(a: u16, b: u16, c: u16)
    ensures
        gf_mul(a, b ^ c) == gf_mul(a, b) ^ gf_mul(a, c),
        gf_mul(b ^ c, a) == gf_mul(b, a) ^ gf_mul(c, a),
{
    lemma_low_product_linear(a, b, c, 16);
    lemma_low_product_add(b, c, a, 16);
}

/// One is neutral and zero absorbs.
pub proof fn lemma_mul_units(a: u16)
    ensures
        gf_mul(a, 1) == a,
        gf_mul(1, a) == a,
        gf_mul(a, 0) == 0,
        gf_mul(0, a) == 0,
{
    lemma_low_product_terms(a, 16);
    lemma_low_product_one(a, 16);
    lemma_low_product_zero(a, 16);
    lemma_low_product_add(0, 0, a, 16);
    lemma_xor(0, 0, 0);
    lemma_xor(gf_mul(0, a), 0, 0);
}

proof fn lemma_commutes_terms(a: u16, b: u16, k: nat)
    ensures
        gf_mul(b, low_product(a, 1, k)) == low_product(a, b, k),
    decreases k,
{
    if k == 0 {
        lemma_mul_units(b);
    } else {
        let i = (k - 1) as nat;
        lemma_commutes_terms(a, b, i);
        let t = if coefficient(a, i) {
            xtimes(i, 1)
        } else {
            0
        };
        lemma_mul_distributes(b, low_product(a, 1, i), t);
        lemma_mul_units(b);
        lemma_low_product_xtimes(b, 1, i);
    }
}

/// Multiplication is commutative.
pub proof fn lemma_mul_commutes(a: u16, b: u16)
    ensures
        gf_mul(a, b) == gf_mul(b, a),
{
    lemma_low_product_terms(a, 16);
    lemma_commutes_terms(a, b, 16);
}

proof fn lemma_associates_terms(a: u16, b: u16, c: u16, k: nat)
    ensures
        gf_mul(low_product(a, b, k), c) == low_product(a, gf_mul(b, c), k),
    decreases k,
{
    if k == 0 {
        lemma_mul_units(c);
    } else {
        let i = (k - 1) as nat;
        lemma_associates_terms(a, b, c, i);
        let t = if coefficient(a, i) {
            xtimes(i, b)
        } else {
            0
        };
        lemma_mul_distributes(c, low_product(a, b, i), t);
        lemma_mul_units(c);
        lemma_mul_xtimes(i, b, c);
    }
}

/// Multiplication is associative.
pub proof fn lemma_mul_associates(a: u16, b: u16, c: u16)
    ensures
        gf_mul(gf_mul(a, b), c) == gf_mul(a, gf_mul(b, c)),
{
    lemma_associates_terms(a, b, c, 16);
}

} // verus!
