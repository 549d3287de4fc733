//! Square systems of linear equations over GF(2^16).
use vstd::prelude::*;

use crate::recovery::rar5::error::{Error, Result};
use crate::recovery::rar5::field::{
    gf_mul, lemma_mul_associates, lemma_mul_commutes, lemma_mul_distributes, lemma_mul_units,
    lemma_xor,
};
use crate::recovery::rar5::gf16::Gf16;
use crate::recovery::rar5::order::{lemma_inv, lemma_mul_nonzero};
use crate::recovery::rar5::sum::{
    gf_dot, lemma_sum_add, lemma_sum_congruent, lemma_sum_scale, lemma_sum_single, lemma_sum_zero,
};

verus! {

/// The rows of a matrix as mathematical sequences.
pub open spec fn rows_view(matrix: Seq<Vec<u16>>) -> Seq<Seq<u16>> {
    Seq::new(matrix.len(), |i: int| matrix[i]@)
}

/// As many rows as columns.
pub open spec fn is_square(m: Seq<Seq<u16>>) -> bool {
    forall|i: int| 0 <= i < m.len() ==> #[trigger] m[i].len() == m.len()
}

/// `x` solves the homogeneous system of `m`.
pub open spec fn in_kernel(m: Seq<Seq<u16>>, x: Seq<u16>) -> bool {
    forall|i: int| 0 <= i < m.len() ==> gf_dot(#[trigger] m[i], x, m.len()) == 0
}

/// Some vector other than zero solves the homogeneous system of `m`.
pub open spec fn is_singular(m: Seq<Seq<u16>>) -> bool {
    exists|x: Seq<u16>| #[trigger]
        in_kernel(m, x) && x.len() == m.len() && exists|k: int| 0 <= k < x.len() && x[k] != 0
}

/// The row of the identity matrix with its one at `i`.
pub open spec fn unit_row(n: nat, i: int) -> Seq<u16> {
    Seq::new(n, |j: int| if i == j { 1u16 } else { 0u16 })
}

/// The vector of the products of the rows of `m` and `x`.
pub open spec fn apply(m: Seq<Seq<u16>>, x: Seq<u16>) -> Seq<u16> {
    Seq::new(m.len(), |i: int| gf_dot(m[i], x, m.len()))
}

/// `m` maps `x` to `y`.
pub open spec fn maps_to(m: Seq<Seq<u16>>, x: Seq<u16>, y: Seq<u16>) -> bool {
    apply(m, x) == y
}

/// `e` undoes `m`: what `m` maps to `y` is what `e` maps `y` to, and only
/// that.
pub open spec fn is_inverse(e: Seq<Seq<u16>>, m: Seq<Seq<u16>>) -> bool {
    &&& e.len() == m.len()
    &&& is_square(e)
    &&& forall|x: Seq<u16>, y: Seq<u16>|
        x.len() == m.len() && y.len() == m.len() ==> (#[trigger] maps_to(m, x, y) <==> maps_to(
            e,
            y,
            x,
        ))
}

/// A row times the zero vector.
proof fn lemma_dot_zero(c: Seq<u16>, x: Seq<u16>, n: nat)
    requires
        forall|k: int| 0 <= k < n ==> #[trigger] x[k] == 0,
    ensures
        gf_dot(c, x, n) == 0,
{
    let f = |k: int| gf_mul(c[k], x[k]);
    assert forall|k: int| 0 <= k < n implies #[trigger] f(k) == 0 by {
        lemma_mul_units(c[k]);
    }
    lemma_sum_zero(f, n);
}

/// A unit row picks an entry.
proof fn lemma_dot_unit(i: int, x: Seq<u16>, n: nat)
    requires
        0 <= i < n,
    ensures
        gf_dot(unit_row(n, i), x, n) == x[i],
{
    let u = unit_row(n, i);
    let f = |k: int| gf_mul(u[k], x[k]);
    assert forall|k: int| 0 <= k < n && k != i implies #[trigger] f(k) == 0 by {
        lemma_mul_units(x[k]);
    }
    lemma_sum_single(f, n, i);
    lemma_mul_units(x[i]);
}

/// A matrix with an inverse is not singular.
pub proof fn lemma_inverse_regular(e: Seq<Seq<u16>>, m: Seq<Seq<u16>>)
    requires
        is_inverse(e, m),
    ensures
        !is_singular(m),
{
    if is_singular(m) {
        let n = m.len();
        let x = choose|x: Seq<u16>| #[trigger]
            in_kernel(m, x) && x.len() == m.len() && exists|k: int| 0 <= k < x.len() && x[k] != 0;
        let k = choose|k: int| 0 <= k < x.len() && x[k] != 0;
        let zero = Seq::new(n, |i: int| 0u16);
        assert(apply(m, x) =~= zero) by {
            assert forall|i: int| 0 <= i < n implies #[trigger] apply(m, x)[i] == 0 by {
                assert(gf_dot(m[i], x, n) == 0);
            }
        }
        assert(maps_to(m, x, zero));
        assert(maps_to(e, zero, x));
        lemma_dot_zero(e[k], zero, n);
        assert(apply(e, zero)[k] == 0);
    }
}

/// The product of a scaled row and a vector.
proof fn lemma_dot_scaled(c: Seq<u16>, s: u16, c2: Seq<u16>, x: Seq<u16>, n: nat)
    requires
        forall|k: int| 0 <= k < n ==> #[trigger] c2[k] == gf_mul(c[k], s),
    ensures
        gf_dot(c2, x, n) == gf_mul(s, gf_dot(c, x, n)),
{
    let f = |k: int| gf_mul(c[k], x[k]);
    lemma_sum_scale(s, f, n);
    assert forall|k: int| 0 <= k < n implies #[trigger] gf_mul(s, f(k)) == gf_mul(c2[k], x[k]) by {
        lemma_mul_associates(s, c[k], x[k]);
        lemma_mul_commutes(s, c[k]);
    }
    lemma_sum_congruent(|k: int| gf_mul(s, f(k)), |k: int| gf_mul(c2[k], x[k]), n);
}

/// The product of a row, a multiple of another added, and a vector.
proof fn lemma_dot_added(c: Seq<u16>, cp: Seq<u16>, s: u16, c2: Seq<u16>, x: Seq<u16>, n: nat)
    requires
        forall|k: int| 0 <= k < n ==> #[trigger] c2[k] == c[k] ^ gf_mul(s, cp[k]),
    ensures
        gf_dot(c2, x, n) == gf_dot(c, x, n) ^ gf_mul(s, gf_dot(cp, x, n)),
{
    let f = |k: int| gf_mul(c[k], x[k]);
    let g = |k: int| gf_mul(cp[k], x[k]);
    let h = |k: int| gf_mul(s, g(k));
    lemma_sum_scale(s, g, n);
    lemma_sum_add(f, h, n);
    assert forall|k: int| 0 <= k < n implies #[trigger] f(k) ^ h(k) == gf_mul(c2[k], x[k]) by {
        lemma_mul_associates(s, cp[k], x[k]);
        lemma_mul_distributes(x[k], c[k], gf_mul(s, cp[k]));
    }
    lemma_sum_congruent(|k: int| f(k) ^ h(k), |k: int| gf_mul(c2[k], x[k]), n);
}

/// `x` under `cur` and `y` under `e` agree row by row.
spec fn balanced(cur: Seq<Seq<u16>>, x: Seq<u16>, e: Seq<Seq<u16>>, y: Seq<u16>) -> bool {
    forall|i: int|
        0 <= i < cur.len() ==> gf_dot(#[trigger] cur[i], x, cur.len()) == gf_dot(
            e[i],
            y,
            cur.len(),
        )
}

/// What elimination maintains: the equations `cur x == e y` have the solutions
/// of `m x == y`, and the columns of `cur` before `col` are those of the
/// identity.
spec fn eliminating(m: Seq<Seq<u16>>, e: Seq<Seq<u16>>, cur: Seq<Seq<u16>>, col: int) -> bool {
    &&& e.len() == m.len()
    &&& cur.len() == m.len()
    &&& is_square(e)
    &&& is_square(cur)
    &&& forall|i: int, j: int|
        0 <= i < m.len() && 0 <= j < col ==> #[trigger] cur[i][j] == (if i == j {
            1u16
        } else {
            0u16
        })
    &&& forall|x: Seq<u16>, y: Seq<u16>|
        x.len() == m.len() && y.len() == m.len() ==> (#[trigger] balanced(cur, x, e, y) <==> maps_to(
            m,
            x,
            y,
        ))
}

proof fn lemma_eliminating_start(m: Seq<Seq<u16>>, e: Seq<Seq<u16>>)
    requires
        is_square(m),
        e.len() == m.len(),
        forall|i: int| 0 <= i < m.len() ==> #[trigger] e[i] == unit_row(m.len(), i),
    ensures
        eliminating(m, e, m, 0),
{
    let n = m.len();
    assert forall|x: Seq<u16>, y: Seq<u16>| x.len() == n && y.len() == n implies (#[trigger] balanced(
        m,
        x,
        e,
        y,
    ) <==> maps_to(m, x, y)) by {
        assert forall|i: int| 0 <= i < n implies gf_dot(e[i], y, n) == #[trigger] y[i] by {
            assert(e[i] == unit_row(n, i));
            lemma_dot_unit(i, y, n);
        }
        if balanced(m, x, e, y) {
            assert forall|i: int| 0 <= i < n implies #[trigger] apply(m, x)[i] == y[i] by {
                assert(gf_dot(m[i], x, n) == gf_dot(e[i], y, n));
            }
            assert(apply(m, x) =~= y);
        }
        if maps_to(m, x, y) {
            assert forall|i: int| 0 <= i < n implies gf_dot(#[trigger] m[i], x, n) == gf_dot(
                e[i],
                y,
                n,
            ) by {
                assert(apply(m, x)[i] == y[i]);
            }
        }
    }
}

/// Without a pivot in column `col` the matrix is singular.
proof fn lemma_no_pivot(m: Seq<Seq<u16>>, e: Seq<Seq<u16>>, cur: Seq<Seq<u16>>, col: int)
    requires
        eliminating(m, e, cur, col),
        0 <= col < m.len(),
        forall|i: int| col <= i < m.len() ==> #[trigger] cur[i][col] == 0,
    ensures
        is_singular(m),
{
    let n = m.len();
    let x = Seq::new(
        n,
        |i: int|
            if i < col {
                cur[i][col]
            } else if i == col {
                1u16
            } else {
                0u16
            },
    );
    let zero = Seq::new(n, |i: int| 0u16);
    assert forall|i: int| 0 <= i < n implies gf_dot(#[trigger] cur[i], x, n) == gf_dot(
        e[i],
        zero,
        n,
    ) by {
        lemma_dot_zero(e[i], zero, n);
        let f = |k: int| gf_mul(cur[i][k], x[k]);
        let g = |k: int|
            if k == col {
                f(k)
            } else {
                0u16
            };
        let h = |k: int|
            if k == col {
                0u16
            } else {
                f(k)
            };
        lemma_sum_add(g, h, n);
        assert forall|k: int| 0 <= k < n implies #[trigger] f(k) == g(k) ^ h(k) by {
            lemma_xor(f(k), 0, 0);
        }
        lemma_sum_congruent(f, |k: int| g(k) ^ h(k), n);
        lemma_sum_single(g, n, col);
        lemma_mul_units(cur[i][col]);
        assert forall|k: int| 0 <= k < n && k != i implies #[trigger] h(k) == 0 by {
            lemma_mul_units(x[k]);
            lemma_mul_units(cur[i][k]);
        }
        if i < col {
            lemma_sum_single(h, n, i);
            lemma_mul_units(x[i]);
            lemma_xor(x[i], 0, 0);
        } else {
            if i > col {
                lemma_mul_units(cur[i][i]);
            }
            lemma_sum_zero(h, n);
            lemma_xor(0, 0, 0);
        }
    }
    assert(balanced(cur, x, e, zero));
    assert(maps_to(m, x, zero));
    assert forall|i: int| 0 <= i < n implies gf_dot(#[trigger] m[i], x, n) == 0 by {
        assert(apply(m, x)[i] == 0);
    }
    assert(in_kernel(m, x));
    assert(x[col] != 0);
}

proof fn lemma_swapped(
    m: Seq<Seq<u16>>,
    e: Seq<Seq<u16>>,
    cur: Seq<Seq<u16>>,
    col: int,
    pivot: int,
    e2: Seq<Seq<u16>>,
    cur2: Seq<Seq<u16>>,
)
    requires
        eliminating(m, e, cur, col),
        0 <= col <= pivot < m.len(),
        e2 == e.update(col, e[pivot]).update(pivot, e[col]),
        cur2 == cur.update(col, cur[pivot]).update(pivot, cur[col]),
    ensures
        eliminating(m, e2, cur2, col),
{
    let n = m.len();
    assert forall|x: Seq<u16>, y: Seq<u16>| x.len() == n && y.len() == n implies (#[trigger] balanced(
        cur2,
        x,
        e2,
        y,
    ) <==> maps_to(m, x, y)) by {
        if balanced(cur2, x, e2, y) {
            assert forall|i: int| 0 <= i < n implies gf_dot(#[trigger] cur[i], x, n) == gf_dot(
                e[i],
                y,
                n,
            ) by {
                let j = if i == col {
                    pivot
                } else if i == pivot {
                    col
                } else {
                    i
                };
                assert(cur2[j] == cur[i] && e2[j] == e[i]);
            }
            assert(balanced(cur, x, e, y));
        }
        if maps_to(m, x, y) {
            assert(balanced(cur, x, e, y));
        }
    }
}

proof fn lemma_scaled(
    m: Seq<Seq<u16>>,
    e: Seq<Seq<u16>>,
    cur: Seq<Seq<u16>>,
    col: int,
    s: u16,
    e2: Seq<Seq<u16>>,
    cur2: Seq<Seq<u16>>,
)
    requires
        eliminating(m, e, cur, col),
        0 <= col < m.len(),
        s != 0,
        e2.len() == m.len(),
        cur2.len() == m.len(),
        e2[col].len() == m.len(),
        cur2[col].len() == m.len(),
        forall|i: int| 0 <= i < m.len() && i != col ==> #[trigger] e2[i] == e[i],
        forall|i: int| 0 <= i < m.len() && i != col ==> #[trigger] cur2[i] == cur[i],
        forall|k: int| 0 <= k < m.len() ==> #[trigger] e2[col][k] == gf_mul(e[col][k], s),
        forall|k: int| 0 <= k < m.len() ==> #[trigger] cur2[col][k] == gf_mul(cur[col][k], s),
    ensures
        eliminating(m, e2, cur2, col),
{
    let n = m.len();
    assert forall|i: int, j: int| 0 <= i < n && 0 <= j < col implies #[trigger] cur2[i][j] == (if i
        == j {
        1u16
    } else {
        0u16
    }) by {
        lemma_mul_units(s);
        assert(cur[i][j] == (if i == j {
            1u16
        } else {
            0u16
        }));
    }
    assert forall|x: Seq<u16>, y: Seq<u16>| x.len() == n && y.len() == n implies (#[trigger] balanced(
        cur2,
        x,
        e2,
        y,
    ) <==> maps_to(m, x, y)) by {
        let a = gf_dot(cur[col], x, n);
        let b = gf_dot(e[col], y, n);
        lemma_dot_scaled(cur[col], s, cur2[col], x, n);
        lemma_dot_scaled(e[col], s, e2[col], y, n);
        lemma_mul_cancel(s, a, b);
        if balanced(cur2, x, e2, y) {
            assert forall|i: int| 0 <= i < n implies gf_dot(#[trigger] cur[i], x, n) == gf_dot(
                e[i],
                y,
                n,
            ) by {
                assert(gf_dot(cur2[i], x, n) == gf_dot(e2[i], y, n));
            }
            assert(balanced(cur, x, e, y));
        }
        if maps_to(m, x, y) {
            assert(balanced(cur, x, e, y));
            assert forall|i: int| 0 <= i < n implies gf_dot(#[trigger] cur2[i], x, n) == gf_dot(
                e2[i],
                y,
                n,
            ) by {
                assert(gf_dot(cur[i], x, n) == gf_dot(e[i], y, n));
            }
        }
    }
}

proof fn lemma_mul_cancel(s: u16, a: u16, b: u16)
    requires
        s != 0,
    ensures
        gf_mul(s, a) == gf_mul(s, b) ==> a == b,
{
    if gf_mul(s, a) == gf_mul(s, b) {
        lemma_mul_distributes(s, a, b);
        lemma_xor(gf_mul(s, a), gf_mul(s, b), 0);
        lemma_xor(a, b, b);
        lemma_xor(b, b, 0);
        lemma_xor(a, 0, 0);
        lemma_xor(b, 0, 0);
        if a ^ b != 0 {
            lemma_mul_nonzero(s, a ^ b);
        }
    }
}

/// One other row is cleared in column `col`.
proof fn lemma_cleared(
    m: Seq<Seq<u16>>,
    e: Seq<Seq<u16>>,
    cur: Seq<Seq<u16>>,
    col: int,
    row: int,
    s: u16,
    e2: Seq<Seq<u16>>,
    cur2: Seq<Seq<u16>>,
)
    requires
        eliminating(m, e, cur, col),
        0 <= col < m.len(),
        0 <= row < m.len(),
        row != col,
        e2.len() == m.len(),
        cur2.len() == m.len(),
        e2[row].len() == m.len(),
        cur2[row].len() == m.len(),
        forall|i: int| 0 <= i < m.len() && i != row ==> #[trigger] e2[i] == e[i],
        forall|i: int| 0 <= i < m.len() && i != row ==> #[trigger] cur2[i] == cur[i],
        forall|k: int|
            0 <= k < m.len() ==> #[trigger] e2[row][k] == e[row][k] ^ gf_mul(s, e[col][k]),
        forall|k: int|
            0 <= k < m.len() ==> #[trigger] cur2[row][k] == cur[row][k] ^ gf_mul(s, cur[col][k]),
    ensures
        eliminating(m, e2, cur2, col),
{
    let n = m.len();
    assert forall|i: int, j: int| 0 <= i < n && 0 <= j < col implies #[trigger] cur2[i][j] == (if i
        == j {
        1u16
    } else {
        0u16
    }) by {
        if i == row {
            assert(cur[col][j] == 0);
            assert(cur[row][j] == (if row == j {
                1u16
            } else {
                0u16
            }));
            lemma_mul_units(s);
            lemma_xor(cur[row][j], 0, 0);
        } else {
            assert(cur2[i] == cur[i]);
            assert(cur[i][j] == (if i == j {
                1u16
            } else {
                0u16
            }));
        }
    }
    assert forall|x: Seq<u16>, y: Seq<u16>| x.len() == n && y.len() == n implies (#[trigger] balanced(
        cur2,
        x,
        e2,
        y,
    ) <==> maps_to(m, x, y)) by {
        lemma_dot_added(cur[row], cur[col], s, cur2[row], x, n);
        lemma_dot_added(e[row], e[col], s, e2[row], y, n);
        if balanced(cur2, x, e2, y) {
            assert forall|i: int| 0 <= i < n implies gf_dot(#[trigger] cur[i], x, n) == gf_dot(
                e[i],
                y,
                n,
            ) by {
                assert(gf_dot(cur2[i], x, n) == gf_dot(e2[i], y, n));
                assert(gf_dot(cur2[col], x, n) == gf_dot(e2[col], y, n));
                if i == row {
                    let p = gf_mul(s, gf_dot(cur[col], x, n));
                    let u = gf_dot(cur[row], x, n);
                    let v = gf_dot(e[row], y, n);
                    lemma_xor(u, p, p);
                    lemma_xor(v, p, p);
                    lemma_xor(p, p, 0);
                    lemma_xor(u, 0, 0);
                    lemma_xor(v, 0, 0);
                }
            }
            assert(balanced(cur, x, e, y));
        }
        if maps_to(m, x, y) {
            assert(balanced(cur, x, e, y));
            assert forall|i: int| 0 <= i < n implies gf_dot(#[trigger] cur2[i], x, n) == gf_dot(
                e2[i],
                y,
                n,
            ) by {
                assert(gf_dot(cur[i], x, n) == gf_dot(e[i], y, n));
                assert(gf_dot(cur[col], x, n) == gf_dot(e[col], y, n));
            }
        }
    }
}

/// When every column is cleared, `e` is the inverse.
proof fn lemma_eliminated(m: Seq<Seq<u16>>, e: Seq<Seq<u16>>, cur: Seq<Seq<u16>>)
    requires
        eliminating(m, e, cur, m.len() as int),
    ensures
        is_inverse(e, m),
{
    let n = m.len();
    assert forall|x: Seq<u16>, y: Seq<u16>| x.len() == n && y.len() == n implies (#[trigger] maps_to(
        m,
        x,
        y,
    ) <==> maps_to(e, y, x)) by {
        assert forall|i: int| 0 <= i < n implies gf_dot(#[trigger] cur[i], x, n) == x[i] by {
            assert(cur[i].len() == n);
            assert forall|j: int| 0 <= j < n implies cur[i][j] == unit_row(n, i)[j] by {
                assert(cur[i][j] == (if i == j {
                    1u16
                } else {
                    0u16
                }));
            }
            assert(cur[i] =~= unit_row(n, i));
            lemma_dot_unit(i, x, n);
        }
        if maps_to(m, x, y) {
            assert(balanced(cur, x, e, y));
            assert forall|i: int| 0 <= i < n implies #[trigger] apply(e, y)[i] == x[i] by {
                assert(gf_dot(cur[i], x, n) == gf_dot(e[i], y, n));
            }
            assert(apply(e, y) =~= x);
        }
        if maps_to(e, y, x) {
            assert forall|i: int| 0 <= i < n implies gf_dot(#[trigger] cur[i], x, n) == gf_dot(
                e[i],
                y,
                n,
            ) by {
                assert(apply(e, y)[i] == x[i]);
            }
            assert(balanced(cur, x, e, y));
        }
    }
}

/// Multiplies every entry of a row.
fn scale_row(gf: &Gf16, row: &Vec<u16>, factor: u16) -> (scaled: Vec<u16>)
    ensures
        scaled@.len() == row@.len(),
        forall|k: int| 0 <= k < row@.len() ==> #[trigger] scaled@[k] == gf_mul(row@[k], factor),
{
    let mut scaled: Vec<u16> = Vec::with_capacity(row.len());
    let mut k: usize = 0;
    while k < row.len()
        invariant
            k <= row@.len(),
            scaled@.len() == k,
            forall|i: int| 0 <= i < k ==> #[trigger] scaled@[i] == gf_mul(row@[i], factor),
        decreases row@.len() - k,
    {
        scaled.push(gf.mul(row[k], factor));
        k += 1;
    }
    scaled
}

/// Adds a multiple of `pivot` to `row`, whose entries before `from` stay.
fn add_scaled_row(gf: &Gf16, row: &Vec<u16>, pivot: &Vec<u16>, factor: u16, from: usize) -> (sum:
    Vec<u16>)
    requires
        pivot@.len() == row@.len(),
        from <= row@.len(),
    ensures
        sum@.len() == row@.len(),
        forall|k: int| 0 <= k < from ==> #[trigger] sum@[k] == row@[k],
        forall|k: int|
            from <= k < row@.len() ==> #[trigger] sum@[k] == row@[k] ^ gf_mul(factor, pivot@[k]),
{
    let mut sum: Vec<u16> = Vec::with_capacity(row.len());
    let mut k: usize = 0;
    while k < row.len()
        invariant
            k <= row@.len(),
            pivot@.len() == row@.len(),
            sum@.len() == k,
            forall|i: int| 0 <= i < k && i < from ==> #[trigger] sum@[i] == row@[i],
            forall|i: int|
                from <= i < k ==> #[trigger] sum@[i] == row@[i] ^ gf_mul(factor, pivot@[i]),
        decreases row@.len() - k,
    {
        if k < from {
            sum.push(row[k]);
        } else {
            sum.push(row[k] ^ gf.mul(factor, pivot[k]));
        }
        k += 1;
    }
    sum
}

fn copy_row(row: &Vec<u16>) -> (copy: Vec<u16>)
    ensures
        copy@ == row@,
{
    let copy = row.clone();
    assert(copy@ =~= row@);
    copy
}

fn identity_row(n: usize, at: usize) -> (row: Vec<u16>)
    requires
        at < n,
    ensures
        row@ == unit_row(n as nat, at as int),
{
    let mut row: Vec<u16> = vec![0u16; n];
    row[at] = 1;
    assert(row@ =~= unit_row(n as nat, at as int));
    row
}

/// Inverts a square matrix by Gauss-Jordan elimination.
pub fn invert_linear_system_matrix(gf: &Gf16, matrix: &[Vec<u16>]) -> (result: Result<
    Vec<Vec<u16>>,
>)
    ensures
        !is_square(rows_view(matrix@)) ==> result == Err::<Vec<Vec<u16>>, Error>(
            Error::BadRecoveryChunk,
        ),
        is_square(rows_view(matrix@)) ==> match result {
            Ok(inverse) => is_inverse(rows_view(inverse@), rows_view(matrix@)) && !is_singular(
                rows_view(matrix@),
            ),
            Err(error) => error == Error::SingularElement && is_singular(rows_view(matrix@)),
        },
{
    let n: usize = matrix.len();
    let ghost m = rows_view(matrix@);
    let mut current: Vec<Vec<u16>> = Vec::with_capacity(n);
    let mut inverse: Vec<Vec<u16>> = Vec::with_capacity(n);
    let mut i: usize = 0;
    while i < n
        invariant
            n == matrix@.len(),
            i <= n,
            m == rows_view(matrix@),
            current@.len() == i,
            inverse@.len() == i,
            forall|k: int| 0 <= k < i ==> (#[trigger] current@[k])@ == m[k],
            forall|k: int| 0 <= k < i ==> (#[trigger] inverse@[k])@ == unit_row(n as nat, k),
            forall|k: int| 0 <= k < i ==> (#[trigger] m[k]).len() == n,
        decreases n - i,
    {
        if matrix[i].len() != n {
            assert(m[i as int].len() != m.len());
            return Err(Error::BadRecoveryChunk);
        }
        current.push(copy_row(&matrix[i]));
        inverse.push(identity_row(n, i));
        i += 1;
    }
    proof {
        assert(rows_view(current@) =~= m);
        lemma_eliminating_start(m, rows_view(inverse@));
    }
    let mut col: usize = 0;
    while col < n
        invariant
            n == matrix@.len(),
            col <= n,
            m == rows_view(matrix@),
            is_square(m),
            eliminating(m, rows_view(inverse@), rows_view(current@), col as int),
        decreases n - col,
    {
        let ghost e0 = rows_view(inverse@);
        let ghost c0 = rows_view(current@);
        let mut pivot: usize = col;
        assert forall|k: int| 0 <= k < n implies (#[trigger] current@[k])@.len() == n by {
            assert(c0[k].len() == n);
        }
        while pivot < n && current[pivot][col] == 0
            invariant
                col <= pivot <= n,
                col < n,
                n == m.len(),
                current@.len() == n,
                c0 == rows_view(current@),
                eliminating(m, e0, c0, col as int),
                forall|k: int| 0 <= k < n ==> (#[trigger] current@[k])@.len() == n,
                forall|k: int| col <= k < pivot ==> #[trigger] c0[k][col as int] == 0,
            decreases n - pivot,
        {
            assert(c0[pivot as int] == current@[pivot as int]@);
            pivot += 1;
        }
        if pivot == n {
            proof {
                lemma_no_pivot(m, e0, c0, col as int);
            }
            return Err(Error::SingularElement);
        }
        proof {
            assert(c0[pivot as int] == current@[pivot as int]@);
            assert(c0[pivot as int].len() == n);
            assert(c0[col as int].len() == n);
            assert(e0[pivot as int].len() == n);
            assert(e0[col as int].len() == n);
        }
        let pivot_row = copy_row(&current[pivot]);
        let pivot_inverse = copy_row(&inverse[pivot]);
        let other_row = copy_row(&current[col]);
        let other_inverse = copy_row(&inverse[col]);
        current.set(col, pivot_row);
        current.set(pivot, other_row);
        inverse.set(col, pivot_inverse);
        inverse.set(pivot, other_inverse);
        let ghost e1 = rows_view(inverse@);
        let ghost c1 = rows_view(current@);
        proof {
            assert(e1 =~= e0.update(col as int, e0[pivot as int]).update(
                pivot as int,
                e0[col as int],
            ));
            assert(c1 =~= c0.update(col as int, c0[pivot as int]).update(
                pivot as int,
                c0[col as int],
            ));
            lemma_swapped(m, e0, c0, col as int, pivot as int, e1, c1);
            assert(c1[col as int] == current@[col as int]@);
            assert(c1[col as int][col as int] != 0);
        }
        let corner: u16 = current[col][col];
        let factor: u16 = match gf.inv(corner) {
            Ok(factor) => factor,
            Err(error) => {
                return Err(error);
            },
        };
        let scaled = scale_row(gf, &current[col], factor);
        let scaled_inverse = scale_row(gf, &inverse[col], factor);
        current.set(col, scaled);
        inverse.set(col, scaled_inverse);
        proof {
            lemma_inv(corner);
            let e2 = rows_view(inverse@);
            let c2 = rows_view(current@);
            assert(e1[col as int].len() == n);
            lemma_scaled(m, e1, c1, col as int, factor, e2, c2);
            assert(c2[col as int][col as int] == 1);
        }
        let mut row: usize = 0;
        while row < n
            invariant
                n == m.len(),
                col < n,
                row <= n,
                eliminating(m, rows_view(inverse@), rows_view(current@), col as int),
                rows_view(current@)[col as int][col as int] == 1,
                forall|k: int|
                    0 <= k < row && k != col ==> (#[trigger] rows_view(current@)[k])[col as int]
                        == 0,
            decreases n - row,
        {
            let ghost e3 = rows_view(inverse@);
            let ghost c3 = rows_view(current@);
            proof {
                assert(c3[row as int] == current@[row as int]@);
                assert(c3[col as int] == current@[col as int]@);
                assert(e3[row as int] == inverse@[row as int]@);
                assert(e3[col as int] == inverse@[col as int]@);
                assert(c3[row as int].len() == n && c3[col as int].len() == n);
                assert(e3[row as int].len() == n && e3[col as int].len() == n);
            }
            if row != col {
                let factor: u16 = current[row][col];
                if factor != 0 {
                    let cleared = add_scaled_row(gf, &current[row], &current[col], factor, col);
                    let cleared_inverse = add_scaled_row(
                        gf,
                        &inverse[row],
                        &inverse[col],
                        factor,
                        0,
                    );
                    current.set(row, cleared);
                    inverse.set(row, cleared_inverse);
                    proof {
                        let e4 = rows_view(inverse@);
                        let c4 = rows_view(current@);
                        assert forall|k: int| 0 <= k < n implies #[trigger] c4[row as int][k]
                            == c3[row as int][k] ^ gf_mul(factor, c3[col as int][k]) by {
                            if k < col {
                                assert(c3[col as int][k] == 0);
                                lemma_mul_units(factor);
                                lemma_xor(c3[row as int][k], 0, 0);
                            }
                        }
                        lemma_cleared(m, e3, c3, col as int, row as int, factor, e4, c4);
                        lemma_mul_units(factor);
                        lemma_xor(factor, 0, 0);
                        assert(c4[row as int][col as int] == 0);
                        assert forall|k: int| 0 <= k < row && k != col implies (#[trigger] c4[k])[
                        col as int] == 0 by {
                            assert(c4[k] == c3[k]);
                        }
                    }
                }
            }
            row += 1;
        }
        proof {
            let c5 = rows_view(current@);
            assert forall|i: int, j: int| 0 <= i < n && 0 <= j < col + 1 implies #[trigger] c5[i][j]
                == (if i == j {
                1u16
            } else {
                0u16
            }) by {
                if j == col {
                    assert(c5[i][col as int] == (if i == col {
                        1u16
                    } else {
                        0u16
                    }));
                }
            }
        }
        col += 1;
    }
    proof {
        lemma_eliminated(m, rows_view(inverse@), rows_view(current@));
        lemma_inverse_regular(rows_view(inverse@), m);
    }
    Ok(inverse)
}

/// Applies an inverse matrix to a right-hand side.
pub fn apply_inverse_matrix(gf: &Gf16, inverse: &[Vec<u16>], rhs: &[u16]) -> (result: Result<
    Vec<u16>,
>)
    ensures
        inverse@.len() == rhs@.len() && is_square(rows_view(inverse@)) ==> match result {
            Ok(solved) => solved@ == apply(rows_view(inverse@), rhs@),
            Err(_) => false,
        },
        !(inverse@.len() == rhs@.len() && is_square(rows_view(inverse@))) ==> result == Err::<
            Vec<u16>,
            Error,
        >(Error::BadRecoveryChunk),
{
    let ghost m = rows_view(inverse@);
    let n: usize = rhs.len();
    if inverse.len() != n {
        return Err(Error::BadRecoveryChunk);
    }
    let mut i: usize = 0;
    while i < n
        invariant
            n == inverse@.len(),
            i <= n,
            m == rows_view(inverse@),
            forall|k: int| 0 <= k < i ==> (#[trigger] m[k]).len() == n,
        decreases n - i,
    {
        if inverse[i].len() != n {
            assert(m[i as int].len() != m.len());
            return Err(Error::BadRecoveryChunk);
        }
        i += 1;
    }
    let mut solved: Vec<u16> = Vec::with_capacity(n);
    let mut row: usize = 0;
    while row < n
        invariant
            n == inverse@.len(),
            n == rhs@.len(),
            row <= n,
            m == rows_view(inverse@),
            is_square(m),
            solved@.len() == row,
            forall|k: int| 0 <= k < row ==> #[trigger] solved@[k] == gf_dot(m[k], rhs@, n as nat),
        decreases n - row,
    {
        let mut sum: u16 = 0;
        let mut k: usize = 0;
        assert(m[row as int] == inverse@[row as int]@);
        assert(m[row as int].len() == n);
        while k < n
            invariant
                n == inverse@.len(),
                n == rhs@.len(),
                row < n,
                k <= n,
                m[row as int] == inverse@[row as int]@,
                m[row as int].len() == n,
                sum == gf_dot(m[row as int], rhs@, k as nat),
            decreases n - k,
        {
            sum = sum ^ gf.mul(inverse[row][k], rhs[k]);
            k += 1;
        }
        solved.push(sum);
        row += 1;
    }
    assert(solved@ =~= apply(m, rhs@));
    Ok(solved)
}

} // verus!
