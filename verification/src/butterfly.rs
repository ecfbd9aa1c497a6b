//! The 32-point transforms by partial butterflies: the symmetries of the basis
//! halve the work again and again.
use crate::arith;
use crate::arith::clip3;
use crate::basis;
use crate::basis::{t32_at, T32};
use crate::transform;
use crate::transform::{col_sum, round_shift_i32};
use vstd::prelude::*;

verus! {

/// Sum of the first `m` entries of row `k` of the basis against `v`.
pub open spec fn row_part(k: int, m: int, v: spec_fn(int) -> int) -> int {
    arith::sum(m, |j: int| basis::t32(k, j) * v(j))
}

/// The row's ends mirror each other, with the opposite sign if `neg`.
spec fn mirrors(k: int, m: int, neg: bool) -> bool {
    forall|j: int|
        0 <= j < m ==> #[trigger] basis::t32(k, j) == if neg {
            -basis::t32(k, 2 * m - 1 - j)
        } else {
            basis::t32(k, 2 * m - 1 - j)
        }
}

/// Folding a row whose ends mirror each other.
proof fn lemma_fold_row(
    k: int,
    m: int,
    v: spec_fn(int) -> int,
    w: spec_fn(int) -> int,
    neg: bool,
)
    requires
        0 <= m,
        mirrors(k, m, neg),
        forall|j: int|
            0 <= j < m ==> #[trigger] w(j) == if neg {
                v(j) - v(2 * m - 1 - j)
            } else {
                v(j) + v(2 * m - 1 - j)
            },
    ensures
        row_part(k, 2 * m, v) == row_part(k, m, w),
{
    let f = |j: int| basis::t32(k, j) * v(j);
    let g = |j: int| f(j) + f(2 * m - 1 - j);
    let h = |j: int| basis::t32(k, j) * w(j);
    arith::lemma_sum_mirror(m, f);
    assert forall|j: int| 0 <= j < m implies #[trigger] g(j) == h(j) by {
        let a = basis::t32(k, j);
        let b = basis::t32(k, 2 * m - 1 - j);
        let x = v(j);
        let y = v(2 * m - 1 - j);
        let z = w(j);
        assert(a * x + b * y == a * z) by (nonlinear_arith)
            requires
                (b == -a && z == x - y) || (b == a && z == x + y),
        ;
    }
    arith::lemma_sum_ext(m, g, h);
}

/// Every row of the basis mirrors itself as often as its number is even.
proof fn lemma_mirrors(k: int)
    requires
        0 <= k < 32,
    ensures
        mirrors(k, 16, k % 2 == 1),
        k % 2 == 0 ==> mirrors(k, 8, k % 4 == 2),
        k % 4 == 0 ==> mirrors(k, 4, k % 8 == 4),
        k % 8 == 0 ==> mirrors(k, 2, k % 16 == 8),
{
    assert forall|j: int| 0 <= j < 16 implies #[trigger] basis::t32(k, j) == if k % 2 == 1 {
        -basis::t32(k, 2 * 16 - 1 - j)
    } else {
        basis::t32(k, 2 * 16 - 1 - j)
    } by {
        basis::lemma_t32_mirror(k, j);
    }
    if k % 2 == 0 {
        assert forall|j: int| 0 <= j < 8 implies #[trigger] basis::t32(k, j) == if k % 4 == 2 {
            -basis::t32(k, 2 * 8 - 1 - j)
        } else {
            basis::t32(k, 2 * 8 - 1 - j)
        } by {
            basis::lemma_t32_mirror_half(k, j);
        }
    }
    if k % 4 == 0 {
        assert forall|j: int| 0 <= j < 4 implies #[trigger] basis::t32(k, j) == if k % 8 == 4 {
            -basis::t32(k, 2 * 4 - 1 - j)
        } else {
            basis::t32(k, 2 * 4 - 1 - j)
        } by {
            basis::lemma_t32_mirror_quarter(k, j);
        }
    }
    if k % 8 == 0 {
        assert forall|j: int| 0 <= j < 2 implies #[trigger] basis::t32(k, j) == if k % 16 == 8 {
            -basis::t32(k, 2 * 2 - 1 - j)
        } else {
            basis::t32(k, 2 * 2 - 1 - j)
        } by {
            basis::lemma_t32_mirror_eighth(k, j);
        }
    }
}

proof fn lemma_row_dot(k: int, v: spec_fn(int) -> int)
    requires
        0 <= k < 32,
    ensures
        transform::row_dot(T32, k, v) == row_part(k, 32, v),
{
    let f = |j: int| T32@[k]@[j] * v(j);
    let g = |j: int| basis::t32(k, j) * v(j);
    assert forall|j: int| 0 <= j < 32 implies #[trigger] f(j) == g(j) by {
        basis::lemma_t32(k, j);
    }
    arith::lemma_sum_ext(32, f, g);
}

/// Sums the first `m` entries of row `k` of the basis against `v`.
fn row_part_sum(k: usize, m: usize, v: &[i32], Ghost(bound): Ghost<int>) -> (r: i32)
    requires
        k < 32,
        m <= 16,
        v@.len() >= m,
        0 <= bound,
        bound * m <= 23592960,
        transform::within(v@, m as int, bound),
    ensures
        r == row_part(k as int, m as int, |j: int| v@[j] as int),
        -2123366400 <= r <= 2123366400,
{
    let ghost w = |j: int| v@[j] as int;
    let ghost f = |j: int| basis::t32(k as int, j) * w(j);
    proof {
        assert forall|j: int| 0 <= j < m implies -(90 * bound) <= #[trigger] f(j) <= 90 * bound by {
            basis::lemma_t32(k as int, j);
            transform::lemma_product_bound(basis::t32(k as int, j), v@[j] as int, bound);
        }
    }
    let mut s: i32 = 0;
    for j in 0..m
        invariant
            k < 32,
            m <= 16,
            v@.len() >= m,
            0 <= bound,
            bound * m <= 23592960,
            f == (|j: int| basis::t32(k as int, j) * w(j)),
            w == (|j: int| v@[j] as int),
            forall|j: int| 0 <= j < m ==> -(90 * bound) <= #[trigger] f(j) <= 90 * bound,
            s == arith::sum(j as int, f),
    {
        proof {
            arith::lemma_sum_bound(j as int, f, 90 * bound);
            arith::lemma_sum_bound(j + 1, f, 90 * bound);
            assert(90 * bound * (j + 1) <= 2123366400 && -(90 * bound) * (j + 1) >= -2123366400
                && 90 * bound * j <= 2123366400 && -(90 * bound) * j >= -2123366400
                && 90 * bound <= 2123366400)
                by (nonlinear_arith)
                requires
                    0 <= bound,
                    bound * m <= 23592960,
                    0 <= j < m,
            ;
            assert(f(j as int) == basis::t32(k as int, j as int) * v@[j as int]);
        }
        s = s + t32_at(k, j) * v[j];
    }
    proof {
        arith::lemma_sum_bound(m as int, f, 90 * bound);
        assert(90 * bound * m <= 2123366400 && -(90 * bound) * m >= -2123366400)
            by (nonlinear_arith)
            requires
                0 <= bound,
                bound * m <= 23592960,
        ;
    }
    s
}

/// Sums and differences of opposite ends of the first `2 * m` values.
fn fold(v: &[i32], m: usize, Ghost(bound): Ghost<int>) -> (r: (Vec<i32>, Vec<i32>))
    requires
        m <= 16,
        v@.len() >= 2 * m,
        0 <= bound <= 0x100_0000,
        transform::within(v@, 2 * m, bound),
    ensures
        r.0@.len() == m,
        r.1@.len() == m,
        forall|j: int| 0 <= j < m ==> #[trigger] r.0@[j] == v@[j] + v@[2 * m - 1 - j],
        forall|j: int| 0 <= j < m ==> #[trigger] r.1@[j] == v@[j] - v@[2 * m - 1 - j],
        transform::within(r.0@, m as int, 2 * bound),
        transform::within(r.1@, m as int, 2 * bound),
{
    let mut e: Vec<i32> = Vec::new();
    let mut o: Vec<i32> = Vec::new();
    for j in 0..m
        invariant
            m <= 16,
            v@.len() >= 2 * m,
            0 <= bound <= 0x100_0000,
            transform::within(v@, 2 * m, bound),
            e@.len() == j,
            o@.len() == j,
            forall|i: int| 0 <= i < j ==> #[trigger] e@[i] == v@[i] + v@[2 * m - 1 - i],
            forall|i: int| 0 <= i < j ==> #[trigger] o@[i] == v@[i] - v@[2 * m - 1 - i],
            transform::within(e@, j as int, 2 * bound),
            transform::within(o@, j as int, 2 * bound),
    {
        let a: i32 = v[j];
        let b: i32 = v[2 * m - 1 - j];
        e.push(a + b);
        o.push(a - b);
    }
    (e, o)
}

/// One 32-point forward transform.
pub fn fwd_transform_1d_32(src: &[i32], shift: u32) -> (r: Vec<i32>)
    requires
        src@.len() >= 32,
        transform::within(src@, 32, 737280),
        shift <= 12,
    ensures
        r@.len() == 32,
        forall|k: int|
            0 <= k < 32 ==> #[trigger] r@[k] == transform::rounded(
                transform::row_dot(T32, k, |j: int| src@[j] as int),
                shift as int,
            ),
{
    let (e, o) = fold(src, 16, Ghost(737280));
    let (ee, eo) = fold(e.as_slice(), 8, Ghost(1474560));
    let (eee, eeo) = fold(ee.as_slice(), 4, Ghost(2949120));
    let (eeee, eeeo) = fold(eee.as_slice(), 2, Ghost(5898240));
    let mut r: Vec<i32> = Vec::new();
    for k in 0..32usize
        invariant
            src@.len() >= 32,
            shift <= 12,
            r@.len() == k,
            forall|i: int|
                0 <= i < k ==> #[trigger] r@[i] == transform::rounded(
                    transform::row_dot(T32, i, |j: int| src@[j] as int),
                    shift as int,
                ),
            o@.len() == 16,
            eo@.len() == 8,
            eeo@.len() == 4,
            eeee@.len() == 2,
            eeeo@.len() == 2,
            e@.len() == 16,
            ee@.len() == 8,
            eee@.len() == 4,
            forall|j: int| 0 <= j < 16 ==> #[trigger] e@[j] == src@[j] + src@[31 - j],
            forall|j: int| 0 <= j < 16 ==> #[trigger] o@[j] == src@[j] - src@[31 - j],
            forall|j: int| 0 <= j < 8 ==> #[trigger] ee@[j] == e@[j] + e@[15 - j],
            forall|j: int| 0 <= j < 8 ==> #[trigger] eo@[j] == e@[j] - e@[15 - j],
            forall|j: int| 0 <= j < 4 ==> #[trigger] eee@[j] == ee@[j] + ee@[7 - j],
            forall|j: int| 0 <= j < 4 ==> #[trigger] eeo@[j] == ee@[j] - ee@[7 - j],
            forall|j: int| 0 <= j < 2 ==> #[trigger] eeee@[j] == eee@[j] + eee@[3 - j],
            forall|j: int| 0 <= j < 2 ==> #[trigger] eeeo@[j] == eee@[j] - eee@[3 - j],
            transform::within(o@, 16, 1474560),
            transform::within(eo@, 8, 2949120),
            transform::within(eeo@, 4, 5898240),
            transform::within(eeee@, 2, 11796480),
            transform::within(eeeo@, 2, 11796480),
    {
        let ghost kk = k as int;
        let ghost vs = |j: int| src@[j] as int;
        let ghost ve = |j: int| e@[j] as int;
        let ghost vee = |j: int| ee@[j] as int;
        let ghost veee = |j: int| eee@[j] as int;
        proof {
            lemma_small(shift);
            lemma_mirrors(kk);
            lemma_row_dot(kk, vs);
            if kk % 2 == 0 {
                lemma_fold_row(kk, 16, vs, ve, false);
            }
            if kk % 4 == 0 {
                lemma_fold_row(kk, 8, ve, vee, false);
            }
            if kk % 8 == 0 {
                lemma_fold_row(kk, 4, vee, veee, false);
            }
        }
        let s: i32 = if k % 2 == 1 {
            proof {
                lemma_fold_row(kk, 16, vs, |j: int| o@[j] as int, true);
            }
            row_part_sum(k, 16, o.as_slice(), Ghost(1474560))
        } else if k % 4 == 2 {
            proof {
                lemma_fold_row(kk, 8, ve, |j: int| eo@[j] as int, true);
            }
            row_part_sum(k, 8, eo.as_slice(), Ghost(2949120))
        } else if k % 8 == 4 {
            proof {
                lemma_fold_row(kk, 4, vee, |j: int| eeo@[j] as int, true);
            }
            row_part_sum(k, 4, eeo.as_slice(), Ghost(5898240))
        } else if k % 16 == 8 {
            proof {
                lemma_fold_row(kk, 2, veee, |j: int| eeeo@[j] as int, true);
            }
            row_part_sum(k, 2, eeeo.as_slice(), Ghost(11796480))
        } else {
            proof {
                lemma_fold_row(kk, 2, veee, |j: int| eeee@[j] as int, false);
            }
            row_part_sum(k, 2, eeee.as_slice(), Ghost(11796480))
        };
        assert(s == row_part(kk, 32, vs));
        r.push(round_shift_i32(s, shift));
    }
    r
}

proof fn lemma_small(shift: u32)
    requires
        shift <= 12,
    ensures
        shift > 0 ==> vstd::arithmetic::power2::pow2((shift - 1) as nat) <= 4096,
{
    vstd::arithmetic::power2::lemma2_to64();
}

/// Row `i` of those that start at `first` and are `step` apart.
pub open spec fn row_at(first: int, step: int, i: int) -> int {
    first + step * i
}

/// Sum over the rows `first`, `first + step`, .. (`count` of them) of column `m`
/// of the basis against `v`.
pub open spec fn col_part(
    m: int,
    first: int,
    step: int,
    count: int,
    v: spec_fn(int) -> int,
) -> int {
    arith::sum(count, |i: int| basis::t32(row_at(first, step, i), m) * v(row_at(first, step, i)))
}

/// Rows taken two apart are the rows taken one apart, in two halves.
proof fn lemma_split_col(m: int, first: int, step: int, half: int, v: spec_fn(int) -> int)
    requires
        0 <= half,
    ensures
        col_part(m, first, step, 2 * half, v) == col_part(m, first, 2 * step, half, v) + col_part(
            m,
            first + step,
            2 * step,
            half,
            v,
        ),
{
    let f = |i: int| basis::t32(row_at(first, step, i), m) * v(row_at(first, step, i));
    arith::lemma_sum_even_odd(half, f);
    let a = |i: int| f(2 * i);
    let b = |i: int| f(2 * i + 1);
    let c = |i: int| basis::t32(row_at(first, 2 * step, i), m) * v(row_at(first, 2 * step, i));
    let d = |i: int|
        basis::t32(row_at(first + step, 2 * step, i), m) * v(row_at(first + step, 2 * step, i));
    assert forall|i: int| #[trigger] a(i) == c(i) by {
        assert(step * (2 * i) == (2 * step) * i) by (nonlinear_arith);
    }
    assert forall|i: int| #[trigger] b(i) == d(i) by {
        assert(step * (2 * i + 1) == step + (2 * step) * i) by (nonlinear_arith);
    }
    arith::lemma_sum_ext(half, a, c);
    arith::lemma_sum_ext(half, b, d);
}

/// A column equals the mirrored one on the given rows, up to sign.
proof fn lemma_mirror_col(
    m: int,
    to: int,
    first: int,
    step: int,
    count: int,
    v: spec_fn(int) -> int,
    neg: bool,
)
    requires
        0 <= count,
        forall|i: int|
            0 <= i < count ==> #[trigger] basis::t32(row_at(first, step, i), m) == if neg {
                -basis::t32(row_at(first, step, i), to)
            } else {
                basis::t32(row_at(first, step, i), to)
            },
    ensures
        col_part(m, first, step, count, v) == if neg {
            -col_part(to, first, step, count, v)
        } else {
            col_part(to, first, step, count, v)
        },
    decreases count,
{
    if count > 0 {
        lemma_mirror_col(m, to, first, step, count - 1, v, neg);
        let a = basis::t32(row_at(first, step, count - 1), m);
        let b = basis::t32(row_at(first, step, count - 1), to);
        let x = v(row_at(first, step, count - 1));
        assert(a * x == if neg { -(b * x) } else { b * x }) by (nonlinear_arith)
            requires
                a == if neg {
                    -b
                } else {
                    b
                },
        ;
    }
}

/// Sums part of column `m` of the basis against `v`.
fn col_part_sum(m: usize, first: usize, step: usize, count: usize, v: &[i32]) -> (r: i32)
    requires
        m < 32,
        count <= 16,
        0 < step <= 16,
        first + step * count <= 31 + step,
        v@.len() >= 32,
        transform::within(v@, 32, 32768),
    ensures
        r == col_part(m as int, first as int, step as int, count as int, |j: int| v@[j] as int),
        -2949120 * count <= r <= 2949120 * count,
{
    let ghost w = |j: int| v@[j] as int;
    let ghost f = |i: int|
        basis::t32(row_at(first as int, step as int, i), m as int) * w(row_at(first as int, step as int, i));
    let mut s: i32 = 0;
    for i in 0..count
        invariant
            m < 32,
            count <= 16,
            0 < step <= 16,
            first + step * count <= 31 + step,
            v@.len() >= 32,
            transform::within(v@, 32, 32768),
            w == (|j: int| v@[j] as int),
            f == (|i: int|
                basis::t32(row_at(first as int, step as int, i), m as int) * w(
                    row_at(first as int, step as int, i),
                )),
            s == arith::sum(i as int, f),
            -2949120 * i <= s <= 2949120 * i,
    {
        proof {
            assert(0 <= step * i && step * i + step <= step * count) by (nonlinear_arith)
                requires
                    0 <= i < count,
                    0 < step,
            ;
        }
        let k: usize = first + step * i;
        let a: i32 = t32_at(k, m);
        assert(f(i as int) == a * v@[k as int]);
        proof {
            transform::lemma_product_bound(a as int, v@[k as int] as int, 32768);
        }
        s = s + a * v[k];
    }
    s
}

proof fn lemma_col_dot(m: int, v: spec_fn(int) -> int)
    requires
        0 <= m < 32,
    ensures
        transform::col_dot(T32, m, v) == col_part(m, 0, 1, 32, v),
{
    let f = |k: int| T32@[k]@[m] * v(k);
    let g = |i: int| basis::t32(row_at(0, 1, i), m) * v(row_at(0, 1, i));
    assert forall|j: int| 0 <= j < 32 implies #[trigger] f(j) == g(j) by {
        basis::lemma_t32(j, m);
    }
    arith::lemma_sum_ext(32, f, g);
}

/// On the rows taken `2 * step` apart, the columns from `m` to `2 * m` mirror
/// those below `m`: with the same sign from row 0, with the opposite sign from
/// row `step`.
pub open spec fn col_mirrors(m: int, step: int, count: int) -> bool {
    &&& forall|k: int, i: int|
        m <= k < 2 * m && 0 <= i < count ==> #[trigger] basis::t32(row_at(0, 2 * step, i), k)
            == basis::t32(row_at(0, 2 * step, i), 2 * m - 1 - k)
    &&& forall|k: int, i: int|
        m <= k < 2 * m && 0 <= i < count ==> #[trigger] basis::t32(row_at(step, 2 * step, i), k)
            == -basis::t32(row_at(step, 2 * step, i), 2 * m - 1 - k)
}

proof fn lemma_col_mirrors()
    ensures
        col_mirrors(16, 1, 16),
        col_mirrors(8, 2, 8),
        col_mirrors(4, 4, 4),
        col_mirrors(2, 8, 2),
{
    assert forall|k: int, i: int| 16 <= k < 32 && 0 <= i < 16 implies #[trigger] basis::t32(
        row_at(0, 2, i),
        k,
    ) == basis::t32(row_at(0, 2, i), 2 * 16 - 1 - k) by {
        basis::lemma_t32_mirror(row_at(0, 2, i), 31 - k);
    }
    assert forall|k: int, i: int| 16 <= k < 32 && 0 <= i < 16 implies #[trigger] basis::t32(
        row_at(1, 2, i),
        k,
    ) == -basis::t32(row_at(1, 2, i), 2 * 16 - 1 - k) by {
        basis::lemma_t32_mirror(row_at(1, 2, i), 31 - k);
    }
    assert forall|k: int, i: int| 8 <= k < 16 && 0 <= i < 8 implies #[trigger] basis::t32(
        row_at(0, 4, i),
        k,
    ) == basis::t32(row_at(0, 4, i), 2 * 8 - 1 - k) by {
        basis::lemma_t32_mirror_half(row_at(0, 4, i), 15 - k);
    }
    assert forall|k: int, i: int| 8 <= k < 16 && 0 <= i < 8 implies #[trigger] basis::t32(
        row_at(2, 4, i),
        k,
    ) == -basis::t32(row_at(2, 4, i), 2 * 8 - 1 - k) by {
        basis::lemma_t32_mirror_half(row_at(2, 4, i), 15 - k);
    }
    assert forall|k: int, i: int| 4 <= k < 8 && 0 <= i < 4 implies #[trigger] basis::t32(
        row_at(0, 8, i),
        k,
    ) == basis::t32(row_at(0, 8, i), 2 * 4 - 1 - k) by {
        basis::lemma_t32_mirror_quarter(row_at(0, 8, i), 7 - k);
    }
    assert forall|k: int, i: int| 4 <= k < 8 && 0 <= i < 4 implies #[trigger] basis::t32(
        row_at(4, 8, i),
        k,
    ) == -basis::t32(row_at(4, 8, i), 2 * 4 - 1 - k) by {
        basis::lemma_t32_mirror_quarter(row_at(4, 8, i), 7 - k);
    }
    assert forall|k: int, i: int| 2 <= k < 4 && 0 <= i < 2 implies #[trigger] basis::t32(
        row_at(0, 16, i),
        k,
    ) == basis::t32(row_at(0, 16, i), 2 * 2 - 1 - k) by {
        basis::lemma_t32_mirror_eighth(row_at(0, 16, i), 3 - k);
    }
    assert forall|k: int, i: int| 2 <= k < 4 && 0 <= i < 2 implies #[trigger] basis::t32(
        row_at(8, 16, i),
        k,
    ) == -basis::t32(row_at(8, 16, i), 2 * 2 - 1 - k) by {
        basis::lemma_t32_mirror_eighth(row_at(8, 16, i), 3 - k);
    }
}

/// One stage of the inverse butterfly: the sums over the rows 0, `step`, .. of
/// all columns below `2 * m`, from those of the even and the odd ones among these
/// rows of the columns below `m`.
fn unfold(
    even: &Vec<i32>,
    odd: &Vec<i32>,
    m: usize,
    Ghost(step): Ghost<int>,
    Ghost(v): Ghost<spec_fn(int) -> int>,
) -> (r: Vec<i32>)
    requires
        1 <= m <= 16,
        even@.len() == m,
        odd@.len() == m,
        col_mirrors(m as int, step, m as int),
        transform::within(even@, m as int, 94371840),
        transform::within(odd@, m as int, 94371840),
        forall|k: int|
            0 <= k < m ==> #[trigger] even@[k] == col_part(k, 0, 2 * step, m as int, v),
        forall|k: int|
            0 <= k < m ==> #[trigger] odd@[k] == col_part(k, step, 2 * step, m as int, v),
    ensures
        r@.len() == 2 * m,
        forall|k: int|
            0 <= k < 2 * m ==> #[trigger] r@[k] == col_part(k, 0, step, 2 * m, v),
{
    let mut r: Vec<i32> = Vec::new();
    for k in 0..2 * m
        invariant
            1 <= m <= 16,
            even@.len() == m,
            odd@.len() == m,
            col_mirrors(m as int, step, m as int),
            transform::within(even@, m as int, 94371840),
            transform::within(odd@, m as int, 94371840),
            forall|k: int|
                0 <= k < m ==> #[trigger] even@[k] == col_part(k, 0, 2 * step, m as int, v),
            forall|k: int|
                0 <= k < m ==> #[trigger] odd@[k] == col_part(k, step, 2 * step, m as int, v),
            r@.len() == k,
            forall|j: int|
                0 <= j < k ==> #[trigger] r@[j] == col_part(j, 0, step, 2 * m, v),
    {
        proof {
            lemma_split_col(k as int, 0, step, m as int, v);
            if k >= m {
                let to = 2 * m - 1 - k;
                lemma_mirror_col(k as int, to, 0, 2 * step, m as int, v, false);
                lemma_mirror_col(k as int, to, step, 2 * step, m as int, v, true);
            }
        }
        if k < m {
            r.push(even[k] + odd[k]);
        } else {
            r.push(even[2 * m - 1 - k] - odd[2 * m - 1 - k]);
        }
    }
    r
}

/// One 32-point inverse transform, clipped to `output_min ..= output_max`. A
/// vector with few non-zero values is summed directly.
pub fn inv_transform_1d_32(src: &[i32], shift: u32, output_min: i32, output_max: i32) -> (r: Vec<
    i32,
>)
    requires
        src@.len() >= 32,
        transform::within(src@, 32, 32768),
        shift <= 12,
        output_min <= output_max,
    ensures
        r@.len() == 32,
        forall|m: int|
            0 <= m < 32 ==> #[trigger] r@[m] == arith::clip(
                output_min as int,
                output_max as int,
                transform::rounded(
                    transform::col_dot(T32, m, |k: int| src@[k] as int),
                    shift as int,
                ),
            ),
{
    let mut nonzero: usize = 0;
    for k in 0..32usize
        invariant
            src@.len() >= 32,
            nonzero <= k,
    {
        if src[k] != 0 {
            nonzero = nonzero + 1;
        }
    }
    let ghost v = |k: int| src@[k] as int;
    let mut r: Vec<i32> = Vec::new();
    if nonzero <= 10 {
        for m in 0..32usize
            invariant
                src@.len() >= 32,
                transform::within(src@, 32, 32768),
                shift <= 12,
                output_min <= output_max,
                v == (|k: int| src@[k] as int),
                r@.len() == m,
                forall|i: int|
                    0 <= i < m ==> #[trigger] r@[i] == arith::clip(
                        output_min as int,
                        output_max as int,
                        transform::rounded(transform::col_dot(T32, i, v), shift as int),
                    ),
        {
            proof {
                basis::lemma_t32_ok();
                lemma_small(shift);
            }
            let s: i32 = col_sum(&T32, m, src);
            r.push(clip3(output_min, output_max, round_shift_i32(s, shift)));
        }
        return r;
    }
    let sums = inverse_sums(src);
    for m in 0..32usize
        invariant
            shift <= 12,
            output_min <= output_max,
            v == (|k: int| src@[k] as int),
            sums@.len() == 32,
            forall|m: int|
                0 <= m < 32 ==> #[trigger] sums@[m] == transform::col_dot(T32, m, v) && -188743680
                    <= sums@[m] <= 188743680,
            r@.len() == m,
            forall|i: int|
                0 <= i < m ==> #[trigger] r@[i] == arith::clip(
                    output_min as int,
                    output_max as int,
                    transform::rounded(transform::col_dot(T32, i, v), shift as int),
                ),
    {
        proof {
            lemma_small(shift);
        }
        r.push(clip3(output_min, output_max, round_shift_i32(sums[m], shift)));
    }
    r
}

/// The sums of all columns of the basis against `src`, by butterflies.
fn inverse_sums(src: &[i32]) -> (r: Vec<i32>)
    requires
        src@.len() >= 32,
        transform::within(src@, 32, 32768),
    ensures
        r@.len() == 32,
        forall|m: int|
            0 <= m < 32 ==> #[trigger] r@[m] == transform::col_dot(
                T32,
                m,
                |k: int| src@[k] as int,
            ) && -188743680 <= r@[m] <= 188743680,
{
    let ghost v = |k: int| src@[k] as int;
    proof {
        lemma_col_mirrors();
    }
    let eeee = col_parts(src, 0, 16, 2);
    let eeeo = col_parts(src, 8, 16, 2);
    let eee = unfold(&eeee, &eeeo, 2, Ghost(8), Ghost(v));
    let eeo = col_parts(src, 4, 8, 4);
    proof {
        lemma_part_bounds(v, 8, 4);
    }
    let ee = unfold(&eee, &eeo, 4, Ghost(4), Ghost(v));
    let eo = col_parts(src, 2, 4, 8);
    proof {
        lemma_part_bounds(v, 4, 8);
    }
    let e = unfold(&ee, &eo, 8, Ghost(2), Ghost(v));
    let o = col_parts(src, 1, 2, 16);
    proof {
        lemma_part_bounds(v, 2, 16);
    }
    let r = unfold(&e, &o, 16, Ghost(1), Ghost(v));
    proof {
        lemma_part_bounds(v, 1, 32);
        assert forall|m: int| 0 <= m < 32 implies #[trigger] r@[m] == transform::col_dot(T32, m, v)
            && -188743680 <= r@[m] <= 188743680 by {
            lemma_col_dot(m, v);
            assert(r@[m] == col_part(m, 0, 1, 32, v));
        }
    }
    r
}

/// The sums over given rows of the first `count` columns.
fn col_parts(src: &[i32], first: usize, step: usize, count: usize) -> (r: Vec<i32>)
    requires
        src@.len() >= 32,
        transform::within(src@, 32, 32768),
        count <= 16,
        0 < step <= 16,
        first + step * count <= 31 + step,
    ensures
        r@.len() == count,
        forall|k: int|
            0 <= k < count ==> #[trigger] r@[k] == col_part(
                k,
                first as int,
                step as int,
                count as int,
                |j: int| src@[j] as int,
            ),
        transform::within(r@, count as int, 94371840),
{
    let mut r: Vec<i32> = Vec::new();
    for k in 0..count
        invariant
            src@.len() >= 32,
            transform::within(src@, 32, 32768),
            count <= 16,
            0 < step <= 16,
            first + step * count <= 31 + step,
            r@.len() == k,
            forall|i: int|
                0 <= i < k ==> #[trigger] r@[i] == col_part(
                    i,
                    first as int,
                    step as int,
                    count as int,
                    |j: int| src@[j] as int,
                ),
            transform::within(r@, k as int, 94371840),
    {
        r.push(col_part_sum(k, first, step, count, src));
    }
    r
}

/// Sums over the rows 0, `step`, .. of bounded values are bounded.
proof fn lemma_part_bounds(v: spec_fn(int) -> int, step: int, count: int)
    requires
        forall|j: int| 0 <= j < 32 ==> -32768 <= #[trigger] v(j) <= 32768,
        step == 8 && count == 4 || step == 4 && count == 8 || step == 2 && count == 16 || step == 1
            && count == 32,
    ensures
        forall|k: int|
            0 <= k < 32 ==> -94371840 <= #[trigger] col_part(k, 0, step, count, v) <= 94371840,
{
    assert forall|k: int| 0 <= k < 32 implies -94371840 <= #[trigger] col_part(k, 0, step, count, v)
        <= 94371840 by {
        let f = |i: int| basis::t32(row_at(0, step, i), k) * v(row_at(0, step, i));
        assert forall|i: int| 0 <= i < count implies -2949120 <= #[trigger] f(i) <= 2949120 by {
            basis::lemma_t32(row_at(0, step, i), k);
            transform::lemma_product_bound(
                basis::t32(row_at(0, step, i), k),
                v(row_at(0, step, i)),
                32768,
            );
        }
        arith::lemma_sum_bound(count, f, 2949120);
    }
}

} // verus!
