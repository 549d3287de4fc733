//! The multiplicative order of `x`, which makes every nonzero element a power
//! of `x`.
use vstd::prelude::*;

use crate::recovery::rar5::field::{
    coefficient, gf_exp, gf_mul, lemma_exp_add, lemma_mul_associates, lemma_mul_commutes,
    lemma_mul_distributes, lemma_mul_units, lemma_terms, lemma_xor, low_product, xtime, xtimes,
};

verus! {

/// The number of nonzero elements.
pub const FIELD_SIZE: usize = 65_535;

spec fn scaled(v: u16, k: u16, c: u16) -> u16 {
    if (v >> k) & 1 == 1 {
        c
    } else {
        0
    }
}

/// The square of an element: each term `x^i` becomes `x^(2i)`.
spec fn square(v: u16) -> u16 {
    scaled(v, 0, 0x1) ^ scaled(v, 1, 0x4) ^ scaled(v, 2, 0x10) ^ scaled(v, 3, 0x40) ^ scaled(v, 4, 0x100) ^ scaled(v, 5, 0x400) ^ scaled(v, 6, 0x1000) ^ scaled(v, 7, 0x4000) ^ scaled(v, 8, 0x100b) ^ scaled(v, 9, 0x402c) ^ scaled(v, 10, 0x10bb) ^ scaled(v, 11, 0x42ec) ^ scaled(v, 12, 0x1bbb) ^ scaled(v, 13, 0x6eec) ^ scaled(v, 14, 0xabbb) ^ scaled(v, 15, 0x8efa)
}

/// The square of the terms of `v` below `x^k`.
spec fn square_terms(v: u16, k: nat) -> u16
    decreases k,
{
    if k == 0 {
        0
    } else {
        square_terms(v, (k - 1) as nat) ^ (if coefficient(v, (k - 1) as nat) {
            gf_exp(2 * (k - 1) as nat)
        } else {
            0
        })
    }
}

proof fn lemma_square_terms(v: u16, k: nat)
    ensures
        gf_mul(low_product(v, 1, k), low_product(v, 1, k)) == square_terms(v, k),
    decreases k,
{
    if k == 0 {
        lemma_mul_units(0);
    } else {
        let i = (k - 1) as nat;
        lemma_square_terms(v, i);
        let u = low_product(v, 1, i);
        let t = if coefficient(v, i) {
            gf_exp(i)
        } else {
            0
        };
        lemma_mul_distributes(u ^ t, u, t);
        lemma_mul_distributes(u, u, t);
        lemma_mul_distributes(t, u, t);
        lemma_mul_commutes(u, t);
        lemma_exp_add(i, i);
        lemma_mul_units(0);
        let a = gf_mul(u, u);
        let b = gf_mul(u, t);
        let c = gf_mul(t, t);
        lemma_xor(a, b, b ^ c);
        lemma_xor(b, b, c);
        lemma_xor(c, 0, 0);
        assert((a ^ b) ^ (b ^ c) == a ^ c);
    }
}

proof fn lemma_square(v: u16)
    ensures
        gf_mul(v, v) == square(v),
{
    lemma_terms(v);
    lemma_square_terms(v, 16);
    reveal_with_fuel(square_terms, 17);
    reveal_with_fuel(xtimes, 31);
    assert(forall|a: u16| #[trigger] (0 ^ a) == a) by {
        assert forall|a: u16| #[trigger] (0 ^ a) == a by {
            lemma_xor(a, 0, 0);
        }
    }
    assert(xtime(0x1) == 0x2 && xtime(0x2) == 0x4 && xtime(0x4) == 0x8 && xtime(0x8) == 0x10 && xtime(0x10) == 0x20 && xtime(0x20) == 0x40 && xtime(0x40) == 0x80 && xtime(0x80) == 0x100 && xtime(0x100) == 0x200 && xtime(0x200) == 0x400 && xtime(0x400) == 0x800 && xtime(0x800) == 0x1000 && xtime(0x1000) == 0x2000 && xtime(0x2000) == 0x4000 && xtime(0x4000) == 0x8000 && xtime(0x8000) == 0x100b && xtime(0x100b) == 0x2016 && xtime(0x2016) == 0x402c && xtime(0x402c) == 0x8058 && xtime(0x8058) == 0x10bb && xtime(0x10bb) == 0x2176 && xtime(0x2176) == 0x42ec && xtime(0x42ec) == 0x85d8 && xtime(0x85d8) == 0x1bbb && xtime(0x1bbb) == 0x3776 && xtime(0x3776) == 0x6eec && xtime(0x6eec) == 0xddd8 && xtime(0xddd8) == 0xabbb && xtime(0xabbb) == 0x477d && xtime(0x477d) == 0x8efa) by (bit_vector);
}

proof fn lemma_exp_double(n: nat)
    ensures
        gf_exp(2 * n) == square(gf_exp(n)),
        gf_exp(2 * n + 1) == xtime(square(gf_exp(n))),
{
    lemma_exp_add(n, n);
    lemma_square(gf_exp(n));
}

/// `x` to the power 65535 is one; `x` to each maximal proper divisor of 65535
/// is not.
proof fn lemma_exp_divisors()
    ensures
        gf_exp(65535) == 1,
        gf_exp(21845) != 1,
        gf_exp(13107) != 1,
        gf_exp(3855) != 1,
        gf_exp(255) != 1,
{
    assert(xtime(square(0x2)) == 0x8
        && xtime(square(0x8)) == 0x80
        && xtime(square(0x80)) == 0x8000
        && xtime(square(0x8000)) == 0xdff
        && xtime(square(0xdff)) == 0x2e12
        && xtime(square(0x2e12)) == 0xfb26
        && xtime(square(0xfb26)) == 0x8d92
        && xtime(square(0x8d92)) == 0xb4f
        && xtime(square(0xb4f)) == 0x53c
        && xtime(square(0x53c)) == 0xbc0
        && xtime(square(0xbc0)) == 0x8596
        && xtime(square(0x8596)) == 0x8eb7
        && xtime(square(0x8eb7)) == 0xa323
        && xtime(square(0xa323)) == 0x7863
        && xtime(square(0x7863)) == 0x1
        && square(0x2) == 0x4
        && xtime(square(0x4)) == 0x20
        && square(0x20) == 0x400
        && xtime(square(0x400)) == 0x2176
        && square(0x2176) == 0x6bf3
        && xtime(square(0x6bf3)) == 0x1539
        && square(0x1539) == 0x1e4a
        && xtime(square(0x1e4a)) == 0x3308
        && square(0x3308) == 0x2530
        && xtime(square(0x2530)) == 0xd6b8
        && square(0xd6b8) == 0x2b2d
        && xtime(square(0x2b2d)) == 0xf0ec
        && square(0xf0ec) == 0x446
        && xtime(square(0x446)) == 0x15e
        && square(0x8) == 0x40
        && square(0x40) == 0x1000
        && xtime(square(0x1000)) == 0x3776
        && xtime(square(0x3776)) == 0x41be
        && square(0x41be) == 0xfee4
        && square(0xfee4) == 0x167d
        && xtime(square(0x167d)) == 0xbcfa
        && xtime(square(0xbcfa)) == 0xe977
        && square(0xe977) == 0xc5f
        && square(0xc5f) == 0x4302
        && xtime(square(0x4302)) == 0xe73b
        && xtime(square(0xe73b)) == 0x1ce8
        && square(0x8000) == 0x8efa
        && square(0x8efa) == 0xc9c5
        && square(0xc9c5) == 0x27b7
        && square(0x27b7) == 0x6b65
        && xtime(square(0x6b65)) == 0x9711
        && xtime(square(0x9711)) == 0xb9b3
        && xtime(square(0xb9b3)) == 0xc895
        && xtime(square(0xc895)) == 0x4d78) by (bit_vector);
    reveal_with_fuel(xtimes, 2);
    assert(xtime(1) == 2) by (bit_vector);
    assert(gf_exp(1) == 2);
    lemma_exp_double(1);
    lemma_exp_double(2);
    lemma_exp_double(3);
    lemma_exp_double(5);
    lemma_exp_double(6);
    lemma_exp_double(7);
    lemma_exp_double(10);
    lemma_exp_double(12);
    lemma_exp_double(15);
    lemma_exp_double(21);
    lemma_exp_double(25);
    lemma_exp_double(30);
    lemma_exp_double(31);
    lemma_exp_double(42);
    lemma_exp_double(51);
    lemma_exp_double(60);
    lemma_exp_double(63);
    lemma_exp_double(85);
    lemma_exp_double(102);
    lemma_exp_double(120);
    lemma_exp_double(127);
    lemma_exp_double(170);
    lemma_exp_double(204);
    lemma_exp_double(240);
    lemma_exp_double(255);
    lemma_exp_double(341);
    lemma_exp_double(409);
    lemma_exp_double(481);
    lemma_exp_double(511);
    lemma_exp_double(682);
    lemma_exp_double(819);
    lemma_exp_double(963);
    lemma_exp_double(1023);
    lemma_exp_double(1365);
    lemma_exp_double(1638);
    lemma_exp_double(1927);
    lemma_exp_double(2047);
    lemma_exp_double(2730);
    lemma_exp_double(3276);
    lemma_exp_double(4095);
    lemma_exp_double(5461);
    lemma_exp_double(6553);
    lemma_exp_double(8191);
    lemma_exp_double(10922);
    lemma_exp_double(16383);
    lemma_exp_double(32767);
}

proof fn lemma_exp_multiple(n: nat, k: nat)
    requires
        gf_exp(n) == 1,
    ensures
        gf_exp(n * k) == 1,
    decreases k,
{
    if k == 0 {
        assert(n * k == 0);
    } else {
        lemma_exp_multiple(n, (k - 1) as nat);
        assert(n * k == n * (k - 1) as nat + n) by (nonlinear_arith)
            requires
                k > 0,
        ;
        lemma_exp_add(n * (k - 1) as nat, n);
        lemma_mul_units(1);
    }
}

/// Exponents at which the power is one are closed under subtraction, hence
/// under remainder.
proof fn lemma_exp_remainder(n: nat, m: nat)
    requires
        gf_exp(n) == 1,
        gf_exp(m) == 1,
        m > 0,
    ensures
        gf_exp(n % m) == 1,
{
    let q = n / m;
    let r = n % m;
    assert(n == m * q + r && r >= 0) by (nonlinear_arith)
        requires
            q == n / m,
            r == n % m,
            m > 0,
    ;
    lemma_exp_multiple(m, q);
    lemma_exp_add(m * q, r);
    lemma_mul_units(gf_exp(r));
}

/// Some common divisor of two such exponents is such an exponent.
proof fn lemma_exp_common_divisor(n: nat, m: nat) -> (g: nat)
    requires
        gf_exp(n) == 1,
        gf_exp(m) == 1,
        n > 0 || m > 0,
    ensures
        g > 0,
        gf_exp(g) == 1,
        n % g == 0,
        m % g == 0,
        m > 0 ==> g <= m,
    decreases m,
{
    if m == 0 {
        n
    } else {
        lemma_exp_remainder(n, m);
        let r = n % m;
        let g = lemma_exp_common_divisor(m, r);
        assert(n % g == 0 && g <= m) by (nonlinear_arith)
            requires
                g > 0,
                m > 0,
                r == n % m,
                m % g == 0,
                r % g == 0,
        {
            let q = n / m;
            let a = m / g;
            let b = r / g;
            assert(n == m * q + r);
            assert(m == g * a);
            assert(r == g * b);
            assert(n == g * (a * q + b));
            vstd::arithmetic::div_mod::lemma_mod_multiples_vanish((a * q + b) as int, 0, g as int);
            assert(a >= 1);
            assert(g <= m);
        }
        g
    }
}

proof fn lemma_divides_by_3(k: nat, g: nat)
    requires
        k % 3 != 0,
        (k * g) % 3 == 0,
    ensures
        g % 3 == 0,
{
    let i = k % 3;
    let j = g % 3;
    vstd::arithmetic::div_mod::lemma_mul_mod_noop(k as int, g as int, 3);
    assert((i * j) % 3 == 0);
    if j == 1 {
        assert(i * j == i);
    }
    if j == 2 {
        assert(i * j == 2 * i) by (nonlinear_arith)
            requires
                j == 2,
        ;
    }
}

proof fn lemma_divides_by_5(k: nat, g: nat)
    requires
        k % 5 != 0,
        (k * g) % 5 == 0,
    ensures
        g % 5 == 0,
{
    let i = k % 5;
    let j = g % 5;
    vstd::arithmetic::div_mod::lemma_mul_mod_noop(k as int, g as int, 5);
    assert((i * j) % 5 == 0);
    assert(j == 0 || j == 1 || j == 2 || j == 3 || j == 4);
    assert((j == 1 ==> i * j == i) && (j == 2 ==> i * j == 2 * i) && (j == 3 ==> i * j == 3 * i) && (
    j == 4 ==> i * j == 4 * i)) by (nonlinear_arith);
}

proof fn lemma_divides_by_17(k: nat, g: nat)
    requires
        k % 17 != 0,
        (k * g) % 17 == 0,
    ensures
        g % 17 == 0,
{
    let i = k % 17;
    let j = g % 17;
    vstd::arithmetic::div_mod::lemma_mul_mod_noop(k as int, g as int, 17);
    assert((i * j) % 17 == 0);
    assert forall|c: nat| 1 <= c < 17 && j == c implies #[trigger] (i * c) == i * j by {}
    assert(i * j == j * i) by (nonlinear_arith);
    if j != 0 {
        assert(j == 1 || j == 2 || j == 3 || j == 4 || j == 5 || j == 6 || j == 7 || j == 8 || j == 9
            || j == 10 || j == 11 || j == 12 || j == 13 || j == 14 || j == 15 || j == 16);
    }
}

/// No proper divisor of 65535 is the exponent of a power that is one.
proof fn lemma_exp_proper_divisor(g: nat)
    requires
        0 < g < 65535,
        65535nat % g == 0,
    ensures
        gf_exp(g) != 1,
{
    lemma_exp_divisors();
    let k = 65535nat / g;
    assert(k * g == 65535 && k >= 2) by (nonlinear_arith)
        requires
            0 < g < 65535,
            65535nat % g == 0,
            k == 65535nat / g,
    ;
    if gf_exp(g) == 1 {
        if k % 3 == 0 {
            lemma_exp_multiple(g, k / 3);
            assert(g * (k / 3) == 21845) by (nonlinear_arith)
                requires
                    k % 3 == 0,
                    k * g == 65535,
            ;
        } else if k % 5 == 0 {
            lemma_exp_multiple(g, k / 5);
            assert(g * (k / 5) == 13107) by (nonlinear_arith)
                requires
                    k % 5 == 0,
                    k * g == 65535,
            ;
        } else if k % 17 == 0 {
            lemma_exp_multiple(g, k / 17);
            assert(g * (k / 17) == 3855) by (nonlinear_arith)
                requires
                    k % 17 == 0,
                    k * g == 65535,
            ;
        } else {
            lemma_divides_by_3(k, g);
            let g1 = g / 3;
            assert(k * g1 == 21845) by (nonlinear_arith)
                requires
                    g % 3 == 0,
                    g1 == g / 3,
                    k * g == 65535,
            ;
            lemma_divides_by_5(k, g1);
            let g2 = g1 / 5;
            assert(k * g2 == 4369) by (nonlinear_arith)
                requires
                    g1 % 5 == 0,
                    g2 == g1 / 5,
                    k * g1 == 21845,
            ;
            lemma_divides_by_17(k, g2);
            let g3 = g2 / 17;
            assert(k * g3 == 257) by (nonlinear_arith)
                requires
                    g2 % 17 == 0,
                    g3 == g2 / 17,
                    k * g2 == 4369,
            ;
            lemma_factor_of_257(k, g3);
            assert(g3 == 1);
            assert(g == 255);
        }
    }
}

proof fn lemma_factor_of_257(k: nat, h: nat)
    requires
        k * h == 257,
        k >= 2,
    ensures
        h == 1,
{
    assert(h >= 1 && (h <= 16 || k <= 16)) by (nonlinear_arith)
        requires
            k * h == 257,
    ;
    if h > 1 {
        if h <= 16 {
            lemma_small_factor_of_257(h, k);
        } else {
            assert(h * k == 257) by (nonlinear_arith)
                requires
                    k * h == 257,
            ;
            lemma_small_factor_of_257(k, h);
        }
    }
}

proof fn lemma_small_factor_of_257(m: nat, o: nat)
    requires
        2 <= m <= 16,
    ensures
        m * o != 257,
        o * m != 257,
{
    assert(m * o == o * m) by (nonlinear_arith);
    assert(m == 2 || m == 3 || m == 4 || m == 5 || m == 6 || m == 7 || m == 8 || m == 9 || m == 10
        || m == 11 || m == 12 || m == 13 || m == 14 || m == 15 || m == 16);
}

/// The powers below 65535 are distinct.
pub proof fn lemma_exp_injective(i: nat, j: nat)
    requires
        i < 65535,
        j < 65535,
        gf_exp(i) == gf_exp(j),
    ensures
        i == j,
{
    lemma_exp_divisors();
    if i != j {
        let (a, b) = if i < j {
            (i, j)
        } else {
            (j, i)
        };
        // x^a == x^b, so x^(b-a) == x^(b-a) * x^a * x^(65535-a) == 1.
        let d = (b - a) as nat;
        lemma_exp_add((65535 - a) as nat, a);
        lemma_exp_add((65535 - a) as nat, b);
        lemma_exp_add(65535, d);
        lemma_mul_units(gf_exp(d));
        assert((65535 - a) as nat + b == 65535 + d);
        assert(gf_exp(d) == 1);
        let g = lemma_exp_common_divisor(65535, d);
        lemma_exp_proper_divisor(g);
    }
}

/// No power is zero.
pub proof fn lemma_exp_nonzero(n: nat)
    ensures
        gf_exp(n) != 0,
{
    lemma_exp_divisors();
    if gf_exp(n) == 0 {
        lemma_exp_multiple(65535, n + 1);
        let m = (65535 * (n + 1) - n) as nat;
        lemma_exp_add(m, n);
        lemma_mul_units(gf_exp(m));
    }
}

/// Exponents may be reduced modulo 65535.
pub proof fn lemma_exp_periodic(n: nat)
    ensures
        gf_exp(n + 65535) == gf_exp(n),
        gf_exp(65535) == 1,
{
    lemma_exp_divisors();
    lemma_exp_add(65535, n);
    lemma_mul_units(gf_exp(n));
}

/// Every nonzero element is a power of `x`.
pub proof fn lemma_exp_surjective(v: u16) -> (n: nat)
    requires
        v != 0,
    ensures
        n < 65535,
        gf_exp(n) == v,
{
    let dom = vstd::set_lib::set_int_range(0, 65535);
    let target = vstd::set_lib::set_int_range(1, 65536);
    let f = |i: int| gf_exp(i as nat) as int;
    let image = dom.map(f);
    vstd::set_lib::lemma_int_range(0, 65535);
    vstd::set_lib::lemma_int_range(1, 65536);
    assert forall|i: int, j: int| dom.contains(i) && dom.contains(j) && f(i) == f(j) implies i
        == j by {
        lemma_exp_injective(i as nat, j as nat);
    }
    vstd::set_lib::lemma_map_size(dom, image, f);
    assert forall|y: int| image.contains(y) implies target.contains(y) by {
        let i = choose|i: int| dom.contains(i) && f(i) == y;
        lemma_exp_nonzero(i as nat);
    }
    vstd::set_lib::lemma_subset_equality(image, target);
    assert(target.contains(v as int));
    let i = choose|i: int| dom.contains(i) && f(i) == v as int;
    i as nat
}

/// The exponent below 65535 whose power is `v`.
pub open spec fn gf_log(v: u16) -> nat {
    choose|n: nat| n < 65535 && #[trigger] gf_exp(n) == v
}

pub proof fn lemma_log(v: u16)
    requires
        v != 0,
    ensures
        gf_log(v) < 65535,
        gf_exp(gf_log(v)) == v,
{
    let n = lemma_exp_surjective(v);
}

/// A product is zero only if a factor is.
pub proof fn lemma_mul_nonzero(a: u16, b: u16)
    requires
        a != 0,
        b != 0,
    ensures
        gf_mul(a, b) != 0,
        gf_mul(a, b) == gf_exp(gf_log(a) + gf_log(b)),
{
    lemma_log(a);
    lemma_log(b);
    lemma_exp_add(gf_log(a), gf_log(b));
    lemma_exp_nonzero(gf_log(a) + gf_log(b));
}

/// The multiplicative inverse of a nonzero element.
pub open spec fn gf_inv(v: u16) -> u16 {
    choose|w: u16| gf_mul(v, w) == 1
}

/// Inverses exist and are unique.
pub proof fn lemma_inv(v: u16)
    requires
        v != 0,
    ensures
        gf_mul(v, gf_inv(v)) == 1,
        gf_mul(gf_inv(v), v) == 1,
        gf_inv(v) != 0,
        gf_inv(v) == gf_exp((65535 - gf_log(v)) as nat),
        forall|w: u16| #[trigger] gf_mul(v, w) == 1 ==> w == gf_inv(v),
{
    lemma_log(v);
    lemma_exp_divisors();
    let e = gf_exp((65535 - gf_log(v)) as nat);
    lemma_exp_add(gf_log(v), (65535 - gf_log(v)) as nat);
    assert(gf_mul(v, e) == 1);
    assert forall|w: u16| #[trigger] gf_mul(v, w) == 1 implies w == e by {
        lemma_mul_associates(e, v, w);
        lemma_mul_commutes(e, v);
        lemma_mul_units(w);
        lemma_mul_units(e);
    }
    lemma_mul_commutes(v, gf_inv(v));
    lemma_mul_units(v);
}

} // verus!
