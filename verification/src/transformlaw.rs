//! What the forward transforms make of even blocks.
use crate::arith;
use crate::basis;
use crate::basis::{T16, T32, T4, T8};
use crate::gridsum;
use crate::transform;
use crate::transform2d;
use vstd::arithmetic::power2::*;
use vstd::prelude::*;

verus! {

/// The entries of a row of a basis, added up.
spec fn row_sum<const N: usize>(t: [[i32; N]; N], i: int) -> int {
    arith::sum(N as int, |k: int| t@[i]@[k] as int)
}

/// The first row of a basis is 64 throughout, and the others add up to nothing.
#[verifier::opaque]
spec fn balanced<const N: usize>(t: [[i32; N]; N]) -> bool {
    &&& row_sum(t, 0) == 64 * N
    &&& forall|i: int| 1 <= i < N ==> #[trigger] row_sum(t, i) == 0
}

proof fn lemma_t4()
    ensures
        balanced(T4),
{
    reveal(balanced);
    reveal_with_fuel(arith::sum, 5);
    assert forall|i: int| 1 <= i < 4 implies #[trigger] row_sum(T4, i) == 0 by {
        assert(i == 1 || i == 2 || i == 3);
    }
}

/// A sum over mirrored halves that cancel is nothing.
proof fn lemma_odd(m: int, f: spec_fn(int) -> int)
    requires
        0 <= m,
        forall|k: int| 0 <= k < m ==> f(2 * m - 1 - k) == -#[trigger] f(k),
    ensures
        arith::sum(2 * m, f) == 0,
{
    let h = |k: int| f(k) + f(2 * m - 1 - k);
    arith::lemma_sum_mirror(m, f);
    assert forall|k: int| 0 <= k < m implies #[trigger] h(k) == 0 by {
        assert(f(k) == -f(2 * m - 1 - k));
    }
    arith::lemma_sum_constant(m, h, 0);
    assert(0 * m == 0);
}

/// A sum over mirrored halves that agree is twice one of them.
proof fn lemma_even(m: int, f: spec_fn(int) -> int)
    requires
        0 <= m,
        forall|k: int| 0 <= k < m ==> f(2 * m - 1 - k) == #[trigger] f(k),
    ensures
        arith::sum(2 * m, f) == 2 * arith::sum(m, f),
{
    let h = |k: int| f(k) + f(2 * m - 1 - k);
    arith::lemma_sum_mirror(m, f);
    assert forall|k: int| 0 <= k < m implies #[trigger] h(k) == f(k) * 2 by {
        assert(f(2 * m - 1 - k) == f(k));
    }
    gridsum::lemma_sum_times(m, f, h, 2);
}

proof fn lemma_t32_row(i: int)
    requires
        0 <= i < 32,
    ensures
        arith::sum(32, |k: int| basis::t32(i, k)) == if i == 0 {
            2048int
        } else {
            0
        },
{
    let f = |k: int| basis::t32(i, k);
    if i % 2 == 1 {
        assert forall|k: int| 0 <= k < 16 implies f(2 * 16 - 1 - k) == -#[trigger] f(k) by {
            basis::lemma_t32_mirror(i, k);
        }
        lemma_odd(16, f);
    } else {
        assert forall|k: int| 0 <= k < 16 implies f(2 * 16 - 1 - k) == #[trigger] f(k) by {
            basis::lemma_t32_mirror(i, k);
        }
        lemma_even(16, f);
        if i % 4 == 2 {
            assert forall|k: int| 0 <= k < 8 implies f(2 * 8 - 1 - k) == -#[trigger] f(k) by {
                basis::lemma_t32_mirror_half(i, k);
            }
            lemma_odd(8, f);
        } else {
            assert forall|k: int| 0 <= k < 8 implies f(2 * 8 - 1 - k) == #[trigger] f(k) by {
                basis::lemma_t32_mirror_half(i, k);
            }
            lemma_even(8, f);
            if i % 8 == 4 {
                assert forall|k: int| 0 <= k < 4 implies f(2 * 4 - 1 - k) == -#[trigger] f(k) by {
                    basis::lemma_t32_mirror_quarter(i, k);
                }
                lemma_odd(4, f);
            } else {
                assert forall|k: int| 0 <= k < 4 implies f(2 * 4 - 1 - k) == #[trigger] f(k) by {
                    basis::lemma_t32_mirror_quarter(i, k);
                }
                lemma_even(4, f);
                lemma_four(i);
            }
        }
    }
}

/// The rows that repeat every four entries.
proof fn lemma_four(i: int)
    requires
        i == 0 || i == 8 || i == 16 || i == 24,
    ensures
        arith::sum(4, |k: int| basis::t32(i, k)) == if i == 0 {
            256int
        } else {
            0
        },
{
    reveal_with_fuel(arith::sum, 5);
    let f = |k: int| basis::t32(i, k);
    assert(arith::sum(4, f) == f(0) + f(1) + f(2) + f(3));
    basis::lemma_t32(i, 0);
    basis::lemma_t32(i, 1);
    basis::lemma_t32(i, 2);
    basis::lemma_t32(i, 3);
}

proof fn lemma_t32()
    ensures
        balanced(T32),
{
    reveal(balanced);
    assert forall|i: int| 0 <= i < 32 implies #[trigger] row_sum(T32, i) == (if i == 0 {
        2048int
    } else {
        0
    }) by {
        lemma_t32_row(i);
        let g = |k: int| T32@[i]@[k] as int;
        let f = |k: int| basis::t32(i, k);
        assert forall|k: int| 0 <= k < 32 implies #[trigger] g(k) == f(k) by {
            basis::lemma_t32(i, k);
        }
        arith::lemma_sum_ext(32, g, f);
    }
}

/// The rows of eight are even or odd about the middle, and the even ones repeat those of four.
proof fn lemma_t8_mirror(i: int, k: int)
    requires
        0 <= i < 8,
        0 <= k < 4,
    ensures
        i % 2 == 1 ==> T8@[i]@[7 - k] == -T8@[i]@[k],
        i % 2 == 0 ==> T8@[i]@[7 - k] == T8@[i]@[k] && T8@[i]@[k] == T4@[i / 2]@[k],
{
}

proof fn lemma_t8()
    ensures
        balanced(T8),
{
    lemma_t4();
    reveal(balanced);
    assert forall|i: int| 0 <= i < 8 implies #[trigger] row_sum(T8, i) == (if i == 0 {
        512int
    } else {
        0
    }) by {
        let f = |k: int| T8@[i]@[k] as int;
        if i % 2 == 1 {
            assert forall|k: int| 0 <= k < 4 implies f(2 * 4 - 1 - k) == -#[trigger] f(k) by {
                lemma_t8_mirror(i, k);
            }
            lemma_odd(4, f);
        } else {
            assert forall|k: int| 0 <= k < 4 implies f(2 * 4 - 1 - k) == #[trigger] f(k) by {
                lemma_t8_mirror(i, k);
            }
            lemma_even(4, f);
            let g = |k: int| T4@[i / 2]@[k] as int;
            assert forall|k: int| 0 <= k < 4 implies #[trigger] f(k) == g(k) by {
                lemma_t8_mirror(i, k);
            }
            arith::lemma_sum_ext(4, f, g);
            assert(arith::sum(4, g) == row_sum(T4, i / 2));
        }
    }
}

/// The rows of sixteen are even or odd about the middle, and the even ones about its half.
proof fn lemma_t16_mirror(i: int, k: int)
    requires
        0 <= i < 16,
        0 <= k < 8,
    ensures
        i % 2 == 1 ==> T16@[i]@[15 - k] == -T16@[i]@[k],
        i % 2 == 0 ==> T16@[i]@[15 - k] == T16@[i]@[k] && T16@[i]@[k] == T8@[i / 2]@[k],
{
}

proof fn lemma_t16()
    ensures
        balanced(T16),
{
    lemma_t8();
    reveal(balanced);
    assert forall|i: int| 0 <= i < 16 implies #[trigger] row_sum(T16, i) == (if i == 0 {
        1024int
    } else {
        0
    }) by {
        let f = |k: int| T16@[i]@[k] as int;
        if i % 2 == 1 {
            assert forall|k: int| 0 <= k < 8 implies f(2 * 8 - 1 - k) == -#[trigger] f(k) by {
                lemma_t16_mirror(i, k);
            }
            lemma_odd(8, f);
        } else {
            assert forall|k: int| 0 <= k < 8 implies f(2 * 8 - 1 - k) == #[trigger] f(k) by {
                lemma_t16_mirror(i, k);
            }
            lemma_even(8, f);
            let g = |k: int| T8@[i / 2]@[k] as int;
            assert forall|k: int| 0 <= k < 8 implies #[trigger] f(k) == g(k) by {
                lemma_t16_mirror(i, k);
            }
            arith::lemma_sum_ext(8, f, g);
            assert(arith::sum(8, g) == row_sum(T8, i / 2));
        }
    }
}

proof fn lemma_rounded_none(shift: int)
    ensures
        transform::rounded(0, shift) == 0,
{
    if shift > 0 {
        lemma_pow2_unfold(shift as nat);
        lemma_pow2_pos((shift - 1) as nat);
        vstd::arithmetic::div_mod::lemma_basic_div(
            pow2((shift - 1) as nat) as int,
            pow2(shift as nat) as int,
        );
    }
}

/// A row of a basis over equal values.
proof fn lemma_over_equals<const N: usize>(
    t: [[i32; N]; N],
    i: int,
    v: spec_fn(int) -> int,
    d: int,
)
    requires
        forall|k: int| 0 <= k < N ==> #[trigger] v(k) == d,
    ensures
        transform::row_dot(t, i, v) == row_sum(t, i) * d,
{
    let f = |k: int| t@[i]@[k] as int;
    let g = |k: int| t@[i]@[k] * v(k);
    assert forall|k: int| 0 <= k < N implies #[trigger] g(k) == f(k) * d by {
        assert(v(k) == d);
    }
    gridsum::lemma_sum_times(N as int, f, g, d);
}

/// A block whose rows are even has no coefficient but in the first column.
proof fn lemma_even_rows<const N: usize>(
    res: Seq<i32>,
    t: [[i32; N]; N],
    bit_depth: int,
    i: int,
    j: int,
)
    requires
        balanced(t),
        0 <= i < N,
        1 <= j < N,
        forall|r: int, c: int|
            0 <= r < N && 0 <= c < N ==> #[trigger] res[r * N + c] == res[r * N],
    ensures
        transform::fwd_coeff(res, t, bit_depth, i, j) == 0,
{
    reveal(balanced);
    let w = |k: int| transform::fwd_row(res, t, bit_depth, k, j);
    assert forall|k: int| 0 <= k < N implies #[trigger] w(k) == 0 by {
        let v = |c: int| res[k * N + c] as int;
        let d = res[k * N] as int;
        assert forall|c: int| 0 <= c < N implies #[trigger] v(c) == d by {
            assert(res[k * N + c] == res[k * N]);
        }
        lemma_over_equals(t, j, v, d);
        assert(0 * d == 0);
        lemma_rounded_none(transform::log2_size(N as int) + bit_depth - 9);
    }
    lemma_over_equals(t, i, w, 0);
    assert(row_sum(t, i) * 0 == 0);
    lemma_rounded_none(transform::log2_size(N as int) + 6);
}

/// A block whose columns are even has no coefficient but in the first row.
proof fn lemma_even_columns<const N: usize>(
    res: Seq<i32>,
    t: [[i32; N]; N],
    bit_depth: int,
    i: int,
    j: int,
)
    requires
        balanced(t),
        1 <= i < N,
        0 <= j < N,
        forall|r: int, c: int| 0 <= r < N && 0 <= c < N ==> #[trigger] res[r * N + c] == res[c],
    ensures
        transform::fwd_coeff(res, t, bit_depth, i, j) == 0,
{
    reveal(balanced);
    let w = |k: int| transform::fwd_row(res, t, bit_depth, k, j);
    let d = w(0);
    assert forall|k: int| 0 <= k < N implies #[trigger] w(k) == d by {
        let f = |c: int| t@[j]@[c] * (res[k * N + c] as int);
        let g = |c: int| t@[j]@[c] * (res[0 * N + c] as int);
        assert forall|c: int| 0 <= c < N implies #[trigger] f(c) == g(c) by {
            assert(res[k * N + c] == res[c]);
            assert(0 * N + c == c);
        }
        arith::lemma_sum_ext(N as int, f, g);
        let (x, y) = (|c: int| res[k * N + c] as int, |c: int| res[0 * N + c] as int);
        assert(f =~= (|c: int| t@[j]@[c] * x(c)));
        assert(g =~= (|c: int| t@[j]@[c] * y(c)));
    }
    lemma_over_equals(t, i, w, d);
    assert(0 * d == 0);
    lemma_rounded_none(transform::log2_size(N as int) + 6);
}

/// Rounding off what is a whole number of units.
proof fn lemma_rounded_whole(k: int, unit: int, shift: int)
    requires
        0 < shift,
        unit == pow2(shift as nat),
    ensures
        transform::rounded(k * unit, shift) == k,
{
    lemma_pow2_unfold(shift as nat);
    lemma_pow2_pos((shift - 1) as nat);
    let half = pow2((shift - 1) as nat) as int;
    vstd::arithmetic::div_mod::lemma_fundamental_div_mod_converse(
        k * unit + half,
        unit,
        k,
        half,
    );
}

/// The first coefficient of a flat block.
proof fn lemma_flat<const N: usize>(res: Seq<i32>, t: [[i32; N]; N], bit_depth: int, d: int)
    requires
        balanced(t),
        transform::is_size(N as int),
        8 <= bit_depth <= 15,
        forall|r: int, c: int| 0 <= r < N && 0 <= c < N ==> #[trigger] res[r * N + c] == d,
    ensures
        transform::fwd_coeff(res, t, bit_depth, 0, 0) == d * pow2((15 - bit_depth) as nat),
{
    reveal(balanced);
    lemma2_to64();
    let log2 = transform::log2_size(N as int);
    assert(pow2(log2 as nat) == N);
    let s = log2 + bit_depth - 9;
    let up = pow2((15 - bit_depth) as nat) as int;
    let unit = pow2(s as nat) as int;
    lemma_pow2_adds((15 - bit_depth) as nat, s as nat);
    lemma_pow2_adds(log2 as nat, 6);
    assert(up * unit == 64 * N);
    let w = |k: int| transform::fwd_row(res, t, bit_depth, k, 0);
    assert forall|k: int| 0 <= k < N implies #[trigger] w(k) == d * up by {
        let v = |c: int| res[k * N + c] as int;
        assert forall|c: int| 0 <= c < N implies #[trigger] v(c) == d by {
            assert(res[k * N + c] == d);
        }
        lemma_over_equals(t, 0, v, d);
        assert((64 * N) * d == (d * up) * unit) by (nonlinear_arith)
            requires
                up * unit == 64 * N,
        ;
        lemma_rounded_whole(d * up, unit, s);
    }
    lemma_over_equals(t, 0, w, d * up);
    let e = d * up;
    assert((64 * N) * e == e * (64 * N)) by (nonlinear_arith);
    lemma_rounded_whole(e, 64 * N, log2 + 6);
}

/// The place of a coefficient.
proof fn lemma_place(n: int, x: int)
    requires
        transform::is_size(n),
        0 <= x < n * n,
    ensures
        0 <= x / n < n,
        0 <= x % n < n,
        x == n * (x / n) + x % n,
{
    assert(n == 4 || n == 8 || n == 16 || n == 32);
}

/// A block whose rows are even has no coefficients but in the first column: it changes from top
/// to bottom alone.
pub proof fn law_even_rows_have_vertical_coefficients(
    res: Seq<i32>,
    n: int,
    bit_depth: int,
    x: int,
)
    requires
        transform::is_size(n),
        0 <= x < n * n,
        x % n != 0,
        forall|r: int, c: int|
            0 <= r < n && 0 <= c < n ==> #[trigger] res[r * n + c] == res[r * n],
    ensures
        transform2d::fwd_at(res, n, bit_depth, false, x) == 0,
{
    lemma_place(n, x);
    if n == 4 {
        lemma_t4();
        lemma_even_rows(res, T4, bit_depth, x / 4, x % 4);
    } else if n == 8 {
        lemma_t8();
        lemma_even_rows(res, T8, bit_depth, x / 8, x % 8);
    } else if n == 16 {
        lemma_t16();
        lemma_even_rows(res, T16, bit_depth, x / 16, x % 16);
    } else {
        lemma_t32();
        lemma_even_rows(res, T32, bit_depth, x / 32, x % 32);
    }
}

/// A block whose columns are even has no coefficients but in the first row: it changes from
/// left to right alone.
pub proof fn law_even_columns_have_horizontal_coefficients(
    res: Seq<i32>,
    n: int,
    bit_depth: int,
    x: int,
)
    requires
        transform::is_size(n),
        0 <= x < n * n,
        x / n != 0,
        forall|r: int, c: int| 0 <= r < n && 0 <= c < n ==> #[trigger] res[r * n + c] == res[c],
    ensures
        transform2d::fwd_at(res, n, bit_depth, false, x) == 0,
{
    lemma_place(n, x);
    if n == 4 {
        lemma_t4();
        lemma_even_columns(res, T4, bit_depth, x / 4, x % 4);
    } else if n == 8 {
        lemma_t8();
        lemma_even_columns(res, T8, bit_depth, x / 8, x % 8);
    } else if n == 16 {
        lemma_t16();
        lemma_even_columns(res, T16, bit_depth, x / 16, x % 16);
    } else {
        lemma_t32();
        lemma_even_columns(res, T32, bit_depth, x / 32, x % 32);
    }
}

/// A flat block has one coefficient: its value scaled to fifteen bits, whatever its size.
pub proof fn law_a_flat_block_has_one_coefficient(
    res: Seq<i32>,
    n: int,
    bit_depth: int,
    d: int,
    x: int,
)
    requires
        transform::is_size(n),
        8 <= bit_depth <= 15,
        0 <= x < n * n,
        forall|r: int, c: int| 0 <= r < n && 0 <= c < n ==> #[trigger] res[r * n + c] == d,
    ensures
        transform2d::fwd_at(res, n, bit_depth, false, x) == (if x == 0 {
            d * pow2((15 - bit_depth) as nat)
        } else {
            0
        }),
{
    lemma_place(n, x);
    assert forall|r: int, c: int| 0 <= r < n && 0 <= c < n implies #[trigger] res[r * n + c]
        == res[r * n] && res[r * n + c] == res[c] by {
        assert(res[r * n + 0] == d);
        assert(res[0 * n + c] == d);
        assert(r * n + 0 == r * n && 0 * n + c == c);
    }
    if x % n != 0 {
        law_even_rows_have_vertical_coefficients(res, n, bit_depth, x);
    } else if x / n != 0 {
        law_even_columns_have_horizontal_coefficients(res, n, bit_depth, x);
    } else if n == 4 {
        lemma_t4();
        lemma_flat(res, T4, bit_depth, d);
    } else if n == 8 {
        lemma_t8();
        lemma_flat(res, T8, bit_depth, d);
    } else if n == 16 {
        lemma_t16();
        lemma_flat(res, T16, bit_depth, d);
    } else {
        lemma_t32();
        lemma_flat(res, T32, bit_depth, d);
    }
}

/// What is rounded off is at most half a unit.
pub proof fn law_stages_round_to_the_nearest(value: int, shift: int)
    requires
        0 < shift,
    ensures
        ({
            let unit = pow2(shift as nat) as int;
            -unit < 2 * (unit * transform::rounded(value, shift) - value) <= unit
        }),
{
    let unit = pow2(shift as nat) as int;
    lemma_pow2_unfold(shift as nat);
    lemma_pow2_pos((shift - 1) as nat);
    let x = value + pow2((shift - 1) as nat);
    vstd::arithmetic::div_mod::lemma_fundamental_div_mod(x, unit);
    vstd::arithmetic::div_mod::lemma_mod_bound(x, unit);
}

} // verus!
