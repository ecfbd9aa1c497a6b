//! The integer transforms of residual blocks.
use crate::arith;
use crate::arith::{clip3, shr_i32};
use crate::basis;
use vstd::arithmetic::power2::*;
use vstd::prelude::*;

verus! {

/// Largest transform block, in coefficients.
pub const MAX_TB: usize = 1024;

/// Whether a transform of this size exists.
pub open spec fn is_size(n: int) -> bool {
    n == 4 || n == 8 || n == 16 || n == 32
}

/// Binary logarithm of a transform size.
pub open spec fn log2_size(n: int) -> int {
    if n == 4 {
        2
    } else if n == 8 {
        3
    } else if n == 16 {
        4
    } else {
        5
    }
}

/// The logarithm of a block side.
pub fn log2_of(n: usize) -> (r: u32)
    requires
        is_size(n as int),
    ensures
        r == log2_size(n as int),
{
    if n == 4 {
        2
    } else if n == 8 {
        3
    } else if n == 16 {
        4
    } else {
        5
    }
}

/// `value / 2^shift`, rounded to nearest.
pub open spec fn rounded(value: int, shift: int) -> int {
    if shift > 0 {
        (value + pow2((shift - 1) as nat)) / pow2(shift as nat) as int
    } else {
        value
    }
}

/// Sum of one row of a basis against `n` values.
pub open spec fn row_dot<const N: usize>(t: [[i32; N]; N], i: int, v: spec_fn(int) -> int) -> int {
    arith::sum(N as int, |k: int| t@[i]@[k] * v(k))
}

/// Sum of one column of a basis against `n` values.
pub open spec fn col_dot<const N: usize>(t: [[i32; N]; N], m: int, v: spec_fn(int) -> int) -> int {
    arith::sum(N as int, |k: int| t@[k]@[m] * v(k))
}

/// The rows of a residual block after the first forward pass, at row `j` and
/// frequency `i`.
pub open spec fn fwd_row<const N: usize>(
    res: Seq<i32>,
    t: [[i32; N]; N],
    bit_depth: int,
    j: int,
    i: int,
) -> int {
    rounded(
        row_dot(t, i, |k: int| res[j * N + k] as int),
        log2_size(N as int) + bit_depth - 9,
    )
}

/// Coefficient `(i, j)` of the forward transform of a residual block.
pub open spec fn fwd_coeff<const N: usize>(
    res: Seq<i32>,
    t: [[i32; N]; N],
    bit_depth: int,
    i: int,
    j: int,
) -> int {
    rounded(
        row_dot(t, i, |k: int| fwd_row(res, t, bit_depth, k, j)),
        log2_size(N as int) + 6,
    )
}

/// The columns of a coefficient block after the first inverse pass, at row `m`
/// and column `c`.
pub open spec fn inv_col<const N: usize>(
    coeff: Seq<i32>,
    t: [[i32; N]; N],
    m: int,
    c: int,
) -> int {
    arith::clip(
        -32768,
        32767,
        rounded(col_dot(t, m, |k: int| coeff[k * N + c] as int), 7),
    )
}

/// Sample `(r, m)` of the inverse transform of a coefficient block.
pub open spec fn inv_sample<const N: usize>(
    coeff: Seq<i32>,
    t: [[i32; N]; N],
    bit_depth: int,
    r: int,
    m: int,
) -> int {
    rounded(col_dot(t, m, |k: int| inv_col(coeff, t, r, k)), 20 - bit_depth)
}

/// The first `n` values lie within `-bound ..= bound`.
pub open spec fn within(v: Seq<i32>, n: int, bound: int) -> bool {
    forall|i: int| 0 <= i < n ==> -bound <= #[trigger] v[i] <= bound
}

/// `2^k` for small `k`.
fn pow2_i32(k: u32) -> (r: i32)
    requires
        k < 31,
    ensures
        r == pow2(k as nat),
        1 <= r <= 0x4000_0000,
{
    proof {
        lemma2_to64();
        vstd::bits::lemma_u32_shl_is_mul(1, k);
        lemma_pow2_pos(k as nat);
        if k < 30 {
            lemma_pow2_strictly_increases(k as nat, 30);
        }
    }
    (1u32 << k) as i32
}

/// `value / 2^shift`, rounded to nearest.
pub fn round_shift_i32(value: i32, shift: u32) -> (r: i32)
    requires
        shift <= 30,
        shift > 0 ==> value + pow2((shift - 1) as nat) <= i32::MAX,
    ensures
        r == rounded(value as int, shift as int),
{
    if shift > 0 {
        shr_i32(value + pow2_i32(shift - 1), shift)
    } else {
        value
    }
}

/// Rounding to nearest keeps a bound, up to one.
pub proof fn lemma_rounded_bound(value: int, shift: int, bound: int)
    requires
        0 < shift,
        0 <= bound,
        -bound * pow2(shift as nat) <= value <= bound * pow2(shift as nat),
    ensures
        -bound <= rounded(value, shift) <= bound,
{
    lemma_pow2_unfold(shift as nat);
    lemma_pow2_pos((shift - 1) as nat);
    let p = pow2(shift as nat) as int;
    let h = pow2((shift - 1) as nat) as int;
    assert(-bound <= (value + h) / p <= bound) by (nonlinear_arith)
        requires
            p == 2 * h,
            0 < h,
            -bound * p <= value <= bound * p,
    ;
}

/// One product of a basis entry and a bounded value.
pub proof fn lemma_product_bound(a: int, b: int, bound: int)
    requires
        -90 <= a <= 90,
        -bound <= b <= bound,
    ensures
        -(90 * bound) <= a * b <= 90 * bound,
{
    assert(-(90 * bound) <= a * b <= 90 * bound) by (nonlinear_arith)
        requires
            -90 <= a <= 90,
            -bound <= b <= bound,
    ;
}

/// A partial sum of bounded products fits in 32 bits.
proof fn lemma_partial_sum(n: int, k: int, f: spec_fn(int) -> int, bound: int)
    requires
        0 <= k <= n <= 32,
        0 <= bound <= 737280,
        forall|k: int| 0 <= k < n ==> -(90 * bound) <= #[trigger] f(k) <= 90 * bound,
    ensures
        -(90 * bound * n) <= arith::sum(k, f) <= 90 * bound * n,
        90 * bound * n <= 2123366400,
{
    arith::lemma_sum_bound(k, f, 90 * bound);
    assert(90 * bound * k <= 90 * bound * n && -(90 * bound) * k >= -(90 * bound * n) && 90 * bound
        * n <= 2123366400) by (nonlinear_arith)
        requires
            0 <= k <= n <= 32,
            0 <= bound <= 737280,
    ;
}

/// Sums one row of a basis against `N` values.
fn row_sum<const N: usize>(
    t: &[[i32; N]; N],
    i: usize,
    v: &[i32],
    Ghost(bound): Ghost<int>,
) -> (r: i32)
    requires
        N <= 32,
        v@.len() >= N,
        i < N,
        basis::basis_ok(*t),
        0 <= bound <= 737280,
        within(v@, N as int, bound),
    ensures
        r == row_dot(*t, i as int, |k: int| v@[k] as int),
        -(90 * bound * N) <= r <= 90 * bound * N,
{
    let ghost w = |k: int| v@[k] as int;
    let ghost f = |k: int| t@[i as int]@[k] * w(k);
    let mut s: i32 = 0;
    proof {
        assert forall|k: int| 0 <= k < N implies -(90 * bound) <= #[trigger] f(k) <= 90 * bound by {
            lemma_product_bound(t@[i as int]@[k] as int, v@[k] as int, bound);
        }
        lemma_partial_sum(N as int, 0, f, bound);
    }
    for k in 0..N
        invariant
            N <= 32,
            v@.len() >= N,
            i < N,
            0 <= bound <= 737280,
            f == (|k: int| t@[i as int]@[k] * w(k)),
            w == (|k: int| v@[k] as int),
            forall|k: int| 0 <= k < N ==> -(90 * bound) <= #[trigger] f(k) <= 90 * bound,
            s == arith::sum(k as int, f),
            -(90 * bound * N) <= s <= 90 * bound * N,
    {
        proof {
            lemma_partial_sum(N as int, k + 1, f, bound);
            assert(f(k as int) == t@[i as int]@[k as int] * v@[k as int]);
        }
        s = s + t[i][k] * v[k];
    }
    s
}

/// Sums one column of a basis against `N` values.
pub fn col_sum<const N: usize>(
    t: &[[i32; N]; N],
    m: usize,
    v: &[i32],
) -> (r: i32)
    requires
        N <= 32,
        v@.len() >= N,
        m < N,
        basis::basis_ok(*t),
        within(v@, N as int, 32768),
    ensures
        r == col_dot(*t, m as int, |k: int| v@[k] as int),
        -94371840 <= r <= 94371840,
{
    let ghost w = |k: int| v@[k] as int;
    let ghost f = |k: int| t@[k]@[m as int] * w(k);
    let mut s: i32 = 0;
    proof {
        assert forall|k: int| 0 <= k < N implies -2949120 <= #[trigger] f(k) <= 2949120 by {
            lemma_product_bound(t@[k]@[m as int] as int, v@[k] as int, 32768);
        }
    }
    for k in 0..N
        invariant
            N <= 32,
            v@.len() >= N,
            m < N,
            f == (|k: int| t@[k]@[m as int] * w(k)),
            w == (|k: int| v@[k] as int),
            forall|k: int| 0 <= k < N ==> -2949120 <= #[trigger] f(k) <= 2949120,
            s == arith::sum(k as int, f),
            -2949120 * k <= s <= 2949120 * k,
    {
        proof {
            assert(f(k as int) == t@[k as int]@[m as int] * v@[k as int]);
        }
        if v[k] != 0 {
            s = s + t[k][m] * v[k];
        } else {
            assert(t@[k as int]@[m as int] * 0 == 0);
        }
    }
    s
}

/// Position `i * n + j` is column `j` of row `i`.
pub proof fn lemma_at(i: int, j: int, n: int)
    requires
        0 <= j < n,
        0 <= i,
    ensures
        (i * n + j) / n == i,
        (i * n + j) % n == j,
        0 <= i * n,
{
    vstd::arithmetic::div_mod::lemma_fundamental_div_mod_converse(i * n + j, n, i, j);
    assert(0 <= i * n) by (nonlinear_arith)
        requires
            0 <= i,
            0 < n,
    ;
}

/// Row `i` of `n` lies inside `n` rows.
pub proof fn lemma_row_fits(i: int, n: int)
    requires
        0 <= i < n,
    ensures
        0 <= i * n,
        i * n + n <= n * n,
        (i + 1) * n == i * n + n,
        n <= 64 ==> n * n <= 4096,
{
    assert(n <= 64 ==> n * n <= 4096) by (nonlinear_arith)
        requires
            0 <= n,
    ;
    assert(0 <= i * n && i * n + n <= n * n && (i + 1) * n == i * n + n) by (nonlinear_arith)
        requires
            0 <= i < n,
    ;
}

/// The area of a transform block.
pub proof fn lemma_area(n: int)
    requires
        is_size(n),
    ensures
        n * n == if n == 4 {
            16int
        } else if n == 8 {
            64
        } else if n == 16 {
            256
        } else {
            1024
        },
{
    if n == 4 {
        assert(n * n == 16) by (nonlinear_arith)
            requires
                n == 4,
        ;
    } else if n == 8 {
        assert(n * n == 64) by (nonlinear_arith)
            requires
                n == 8,
        ;
    } else if n == 16 {
        assert(n * n == 256) by (nonlinear_arith)
            requires
                n == 16,
        ;
    } else {
        assert(n * n == 1024) by (nonlinear_arith)
            requires
                n == 32,
        ;
    }
}

/// The shift of the first forward pass leaves at most 737280.
pub proof fn lemma_fwd_row_bound<const N: usize>(
    res: Seq<i32>,
    t: [[i32; N]; N],
    bit_depth: int,
    j: int,
    i: int,
)
    requires
        is_size(N as int),
        basis::basis_ok(t),
        8 <= bit_depth <= 16,
        0 <= i < N,
        0 <= j < N,
        within(res, N * N, 4096),
    ensures
        -737280 <= fwd_row(res, t, bit_depth, j, i) <= 737280,
{
    let n = N as int;
    lemma_row_fits(j, n);
    let v = |k: int| res[j * N + k] as int;
    let f = |k: int| t@[i]@[k] * v(k);
    assert forall|k: int| 0 <= k < n implies -(90 * 4096) <= #[trigger] f(k) <= 90 * 4096 by {
        assert(-4096 <= res[j * N + k] <= 4096);
        lemma_product_bound(t@[i]@[k] as int, res[j * N + k] as int, 4096);
    }
    arith::lemma_sum_bound(n, f, 368640);
    let shift = log2_size(n) + bit_depth - 9;
    lemma2_to64();
    if shift > log2_size(n) - 1 {
        lemma_pow2_strictly_increases((log2_size(n) - 1) as nat, shift as nat);
    }
    assert(pow2((log2_size(n) - 1) as nat) == n / 2);
    assert(pow2(shift as nat) >= n / 2);
    assert(368640 * n <= 737280 * pow2(shift as nat)) by (nonlinear_arith)
        requires
            pow2(shift as nat) >= n / 2,
            n % 2 == 0,
            n >= 0,
    ;
    assert(-368640 * n >= -737280 * pow2(shift as nat)) by (nonlinear_arith)
        requires
            pow2(shift as nat) >= n / 2,
            n % 2 == 0,
            n >= 0,
    ;
    lemma_rounded_bound(row_dot(t, i, v), shift, 737280);
}

/// The forward transform with basis `t` of the `N` by `N` residuals `res`, row by
/// row, into the front of `out`. The front of `tmp` receives the first pass.
pub fn fwd_transform_n<const N: usize>(
    res: &[i32],
    t: &[[i32; N]; N],
    bit_depth: u8,
    out: &mut [i32],
    tmp: &mut [i32],
)
    requires
        is_size(N as int),
        basis::basis_ok(*t),
        8 <= bit_depth <= 16,
        res@.len() >= N * N,
        old(out)@.len() >= N * N,
        old(tmp)@.len() >= N * N,
        within(res@, N * N, 4096),
    ensures
        final(out)@.len() == old(out)@.len(),
        final(tmp)@.len() == old(tmp)@.len(),
        forall|x: int|
            0 <= x < N * N ==> #[trigger] final(out)@[x] == fwd_coeff(
                res@,
                *t,
                bit_depth as int,
                x / N as int,
                x % N as int,
            ),
        forall|x: int|
            N * N <= x < old(out)@.len() ==> #[trigger] final(out)@[x] == old(out)@[x],
        forall|x: int|
            N * N <= x < old(tmp)@.len() ==> #[trigger] final(tmp)@[x] == old(tmp)@[x],
{
    let shift1: u32 = log2_of(N) + bit_depth as u32 - 9;
    let shift2: u32 = log2_of(N) + 6;
    let ghost n = N as int;
    proof {
        lemma2_to64();
        lemma_pow2_pos(shift1 as nat);
    }
    for i in 0..N
        invariant
            n == N,
            is_size(N as int),
            basis::basis_ok(*t),
            8 <= bit_depth <= 16,
            shift1 == log2_size(n) + bit_depth - 9,
            res@.len() >= N * N,
            tmp@.len() == old(tmp)@.len(),
            tmp@.len() >= N * N,
            within(res@, N * N, 4096),
            forall|x: int|
                0 <= x < i * N ==> #[trigger] tmp@[x] == fwd_row(
                    res@,
                    *t,
                    bit_depth as int,
                    x % n,
                    x / n,
                ),
            forall|x: int| N * N <= x < old(tmp)@.len() ==> #[trigger] tmp@[x] == old(tmp)@[x],
    {
        proof {
            lemma_row_fits(i as int, n);
        }
        for j in 0..N
            invariant
                n == N,
                is_size(N as int),
                basis::basis_ok(*t),
                8 <= bit_depth <= 16,
                shift1 == log2_size(n) + bit_depth - 9,
                res@.len() >= N * N,
                tmp@.len() == old(tmp)@.len(),
                tmp@.len() >= N * N,
                within(res@, N * N, 4096),
                i < N,
                0 <= i * N,
                i * N + N <= N * N,
                forall|x: int|
                    0 <= x < i * N + j ==> #[trigger] tmp@[x] == fwd_row(
                        res@,
                        *t,
                        bit_depth as int,
                        x % n,
                        x / n,
                    ),
                forall|x: int| N * N <= x < old(tmp)@.len() ==> #[trigger] tmp@[x] == old(tmp)@[x],
        {
            proof {
                lemma_row_fits(j as int, n);
                lemma_at(i as int, j as int, n);
                lemma_fwd_row_bound(res@, *t, bit_depth as int, j as int, i as int);
                lemma_small_pow2(shift1 as int - 1);
            }
            let row = vstd::slice::slice_subrange(res, j * N, (j + 1) * N);
            assert forall|k: int| 0 <= k < n implies -4096 <= #[trigger] row@[k] <= 4096 by {
                assert(row@[k] == res@[j * N + k]);
            }
            let s: i32 = row_sum(t, i, row, Ghost(4096));
            assert(90 * 4096 * n <= 11796480) by (nonlinear_arith)
                requires
                    n <= 32,
            ;
            proof {
                let a = |k: int| row@[k] as int;
                let b = |k: int| res@[j * N + k] as int;
                let fa = |k: int| t@[i as int]@[k] * a(k);
                let fb = |k: int| t@[i as int]@[k] * b(k);
                assert forall|k: int| 0 <= k < n implies #[trigger] fa(k) == fb(k) by {
                    assert(row@[k] == res@[j * N + k]);
                }
                arith::lemma_sum_ext(n, fa, fb);
            }
            tmp[i * N + j] = round_shift_i32(s, shift1);
        }
    }
    for i in 0..N
        invariant
            n == N,
            is_size(N as int),
            basis::basis_ok(*t),
            8 <= bit_depth <= 16,
            shift2 == log2_size(n) + 6,
            res@.len() >= N * N,
            tmp@.len() >= N * N,
            out@.len() == old(out)@.len(),
            out@.len() >= N * N,
            within(res@, N * N, 4096),
            forall|x: int|
                0 <= x < N * N ==> #[trigger] tmp@[x] == fwd_row(
                    res@,
                    *t,
                    bit_depth as int,
                    x % n,
                    x / n,
                ),
            forall|x: int|
                0 <= x < i * N ==> #[trigger] out@[x] == fwd_coeff(
                    res@,
                    *t,
                    bit_depth as int,
                    x / n,
                    x % n,
                ),
            forall|x: int| N * N <= x < old(out)@.len() ==> #[trigger] out@[x] == old(out)@[x],
    {
        proof {
            lemma_row_fits(i as int, n);
        }
        for j in 0..N
            invariant
                n == N,
                is_size(N as int),
                basis::basis_ok(*t),
                8 <= bit_depth <= 16,
                shift2 == log2_size(n) + 6,
                res@.len() >= N * N,
                tmp@.len() >= N * N,
                out@.len() == old(out)@.len(),
                out@.len() >= N * N,
                within(res@, N * N, 4096),
                i < N,
                0 <= i * N,
                i * N + N <= N * N,
                forall|x: int|
                    0 <= x < N * N ==> #[trigger] tmp@[x] == fwd_row(
                        res@,
                        *t,
                        bit_depth as int,
                        x % n,
                        x / n,
                    ),
                forall|x: int|
                    0 <= x < i * N + j ==> #[trigger] out@[x] == fwd_coeff(
                        res@,
                        *t,
                        bit_depth as int,
                        x / n,
                        x % n,
                    ),
                forall|x: int| N * N <= x < old(out)@.len() ==> #[trigger] out@[x] == old(out)@[x],
        {
            proof {
                lemma_row_fits(j as int, n);
                lemma_at(i as int, j as int, n);
                lemma_small_pow2(shift2 as int - 1);
            }
            let row = vstd::slice::slice_subrange(tmp, j * N, (j + 1) * N);
            assert forall|k: int| 0 <= k < n implies #[trigger] row@[k] == fwd_row(
                res@,
                *t,
                bit_depth as int,
                k,
                j as int,
            ) && -737280 <= row@[k] <= 737280 by {
                assert(row@[k] == tmp@[j * N + k]);
                lemma_at(j as int, k, n);
                lemma_fwd_row_bound(res@, *t, bit_depth as int, k, j as int);
            }
            let s: i32 = row_sum(t, i, row, Ghost(737280));
            assert(90 * 737280 * n <= 2123366400) by (nonlinear_arith)
                requires
                    n <= 32,
            ;
            proof {
                let a = |k: int| row@[k] as int;
                let b = |k: int| fwd_row(res@, *t, bit_depth as int, k, j as int);
                let fa = |k: int| t@[i as int]@[k] * a(k);
                let fb = |k: int| t@[i as int]@[k] * b(k);
                assert forall|k: int| 0 <= k < n implies #[trigger] fa(k) == fb(k) by {
                    assert(row@[k] == b(k));
                }
                arith::lemma_sum_ext(n, fa, fb);
            }
            out[i * N + j] = round_shift_i32(s, shift2);
        }
    }
}

/// Powers of two up to `2^11`.
proof fn lemma_small_pow2(k: int)
    requires
        0 <= k <= 12,
    ensures
        1 <= pow2(k as nat) <= 4096,
{
    lemma2_to64();
}

/// The first `n` by `n` values of `v`, with rows and columns swapped.
fn transposed(v: &[i32], n: usize) -> (r: Vec<i32>)
    requires
        0 < n <= 32,
        v@.len() >= n * n,
    ensures
        r@.len() == n * n,
        forall|x: int|
            0 <= x < n * n ==> #[trigger] r@[x] == v@[(x % n as int) * n + x / n as int],
{
    let mut r: Vec<i32> = Vec::new();
    for i in 0..n
        invariant
            0 < n <= 32,
            v@.len() >= n * n,
            r@.len() == i * n,
            forall|x: int|
                0 <= x < i * n ==> #[trigger] r@[x] == v@[(x % n as int) * n + x / n as int],
    {
        proof {
            lemma_row_fits(i as int, n as int);
        }
        for j in 0..n
            invariant
                0 < n <= 32,
                i < n,
                0 <= i * n,
                i * n + n <= n * n <= 4096,
                v@.len() >= n * n,
                r@.len() == i * n + j,
                forall|x: int|
                    0 <= x < i * n + j ==> #[trigger] r@[x] == v@[(x % n as int) * n + x
                        / n as int],
        {
            proof {
                lemma_row_fits(j as int, n as int);
                lemma_at(i as int, j as int, n as int);
            }
            r.push(v[j * n + i]);
        }
    }
    r
}

/// The inverse transform with basis `t` of the `N` by `N` coefficients `coeff`,
/// row by row, into the front of `out`. The front of `tmp` receives the first
/// pass.
pub fn inv_transform_n<const N: usize>(
    coeff: &[i32],
    t: &[[i32; N]; N],
    bit_depth: u8,
    out: &mut [i32],
    tmp: &mut [i32],
)
    requires
        is_size(N as int),
        basis::basis_ok(*t),
        8 <= bit_depth <= 16,
        coeff@.len() >= N * N,
        old(out)@.len() >= N * N,
        old(tmp)@.len() >= N * N,
        within(coeff@, N * N, 32768),
    ensures
        final(out)@.len() == old(out)@.len(),
        final(tmp)@.len() == old(tmp)@.len(),
        forall|x: int|
            0 <= x < N * N ==> #[trigger] final(out)@[x] == inv_sample(
                coeff@,
                *t,
                bit_depth as int,
                x / N as int,
                x % N as int,
            ),
        forall|x: int|
            N * N <= x < old(out)@.len() ==> #[trigger] final(out)@[x] == old(out)@[x],
        forall|x: int|
            N * N <= x < old(tmp)@.len() ==> #[trigger] final(tmp)@[x] == old(tmp)@[x],
{
    let shift2: u32 = 20 - bit_depth as u32;
    let ghost n = N as int;
    let ct = transposed(coeff, N);
    for m in 0..N
        invariant
            n == N,
            is_size(N as int),
            basis::basis_ok(*t),
            coeff@.len() >= N * N,
            ct@.len() == N * N,
            forall|x: int| 0 <= x < N * N ==> #[trigger] ct@[x] == coeff@[(x % n) * n + x / n],
            tmp@.len() == old(tmp)@.len(),
            tmp@.len() >= N * N,
            within(coeff@, N * N, 32768),
            forall|x: int|
                0 <= x < m * N ==> #[trigger] tmp@[x] == inv_col(coeff@, *t, x / n, x % n),
            forall|x: int| N * N <= x < old(tmp)@.len() ==> #[trigger] tmp@[x] == old(tmp)@[x],
    {
        proof {
            lemma_row_fits(m as int, n);
        }
        for c in 0..N
            invariant
                n == N,
                is_size(N as int),
                basis::basis_ok(*t),
                coeff@.len() >= N * N,
                ct@.len() == N * N,
                forall|x: int| 0 <= x < N * N ==> #[trigger] ct@[x] == coeff@[(x % n) * n + x / n],
                tmp@.len() == old(tmp)@.len(),
                tmp@.len() >= N * N,
                within(coeff@, N * N, 32768),
                m < N,
                0 <= m * N,
                m * N + N <= N * N <= 4096,
                forall|x: int|
                    0 <= x < m * N + c ==> #[trigger] tmp@[x] == inv_col(coeff@, *t, x / n, x % n),
                forall|x: int| N * N <= x < old(tmp)@.len() ==> #[trigger] tmp@[x] == old(tmp)@[x],
        {
            proof {
                lemma_row_fits(c as int, n);
                lemma_at(m as int, c as int, n);
                lemma_small_pow2(6);
            }
            let col = vstd::slice::slice_subrange(ct.as_slice(), c * N, (c + 1) * N);
            assert forall|k: int| 0 <= k < n implies #[trigger] col@[k] == coeff@[k * N + c]
                && -32768 <= col@[k] <= 32768 by {
                lemma_at(c as int, k, n);
                lemma_row_fits(k, n);
                assert(col@[k] == ct@[c * N + k]);
            }
            let s: i32 = col_sum(t, m, col);
            proof {
                let a = |k: int| col@[k] as int;
                let b = |k: int| coeff@[k * N + c] as int;
                let fa = |k: int| t@[k]@[m as int] * a(k);
                let fb = |k: int| t@[k]@[m as int] * b(k);
                assert forall|k: int| 0 <= k < n implies #[trigger] fa(k) == fb(k) by {
                    assert(col@[k] == coeff@[k * N + c]);
                }
                arith::lemma_sum_ext(n, fa, fb);
            }
            tmp[m * N + c] = clip3(-32768, 32767, round_shift_i32(s, 7));
        }
    }
    for r in 0..N
        invariant
            n == N,
            is_size(N as int),
            basis::basis_ok(*t),
            8 <= bit_depth <= 16,
            shift2 == 20 - bit_depth,
            tmp@.len() >= N * N,
            out@.len() == old(out)@.len(),
            out@.len() >= N * N,
            forall|x: int|
                0 <= x < N * N ==> #[trigger] tmp@[x] == inv_col(coeff@, *t, x / n, x % n),
            forall|x: int|
                0 <= x < r * N ==> #[trigger] out@[x] == inv_sample(
                    coeff@,
                    *t,
                    bit_depth as int,
                    x / n,
                    x % n,
                ),
            forall|x: int| N * N <= x < old(out)@.len() ==> #[trigger] out@[x] == old(out)@[x],
    {
        proof {
            lemma_row_fits(r as int, n);
        }
        for m in 0..N
            invariant
                n == N,
                is_size(N as int),
                basis::basis_ok(*t),
                8 <= bit_depth <= 16,
                shift2 == 20 - bit_depth,
                tmp@.len() >= N * N,
                out@.len() == old(out)@.len(),
                out@.len() >= N * N,
                r < N,
                0 <= r * N,
                r * N + N <= N * N <= 4096,
                (r + 1) * N == r * N + N,
                forall|x: int|
                    0 <= x < N * N ==> #[trigger] tmp@[x] == inv_col(coeff@, *t, x / n, x % n),
                forall|x: int|
                    0 <= x < r * N + m ==> #[trigger] out@[x] == inv_sample(
                        coeff@,
                        *t,
                        bit_depth as int,
                        x / n,
                        x % n,
                    ),
                forall|x: int| N * N <= x < old(out)@.len() ==> #[trigger] out@[x] == old(out)@[x],
        {
            proof {
                lemma_at(r as int, m as int, n);
                lemma_small_pow2(shift2 as int - 1);
            }
            let row = vstd::slice::slice_subrange(tmp, r * N, (r + 1) * N);
            assert forall|k: int| 0 <= k < n implies #[trigger] row@[k] == inv_col(
                coeff@,
                *t,
                r as int,
                k,
            ) && -32768 <= row@[k] <= 32768 by {
                lemma_at(r as int, k, n);
                assert(row@[k] == tmp@[r * N + k]);
            }
            let s: i32 = col_sum(t, m, row);
            proof {
                let a = |k: int| row@[k] as int;
                let b = |k: int| inv_col(coeff@, *t, r as int, k);
                let fa = |k: int| t@[k]@[m as int] * a(k);
                let fb = |k: int| t@[k]@[m as int] * b(k);
                assert forall|k: int| 0 <= k < n implies #[trigger] fa(k) == fb(k) by {
                    assert(row@[k] == b(k));
                }
                arith::lemma_sum_ext(n, fa, fb);
            }
            out[r * N + m] = round_shift_i32(s, shift2);
        }
    }
}

} // verus!
