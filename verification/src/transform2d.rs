//! The two-dimensional transforms of every block size.
use crate::basis;
use crate::basis::{DST4, T16, T32, T4, T8};
use crate::butterfly::{fwd_transform_1d_32, inv_transform_1d_32};
use crate::transform;
use crate::transform::{fwd_transform_n, inv_transform_n};
use vstd::prelude::*;

verus! {

/// Coefficient `x`, row by row, of the forward transform of an `n` by `n` block,
/// by the cosine basis or, for 4x4 blocks with `sine`, by the sine basis.
pub open spec fn fwd_at(res: Seq<i32>, n: int, bit_depth: int, sine: bool, x: int) -> int {
    if n == 4 {
        if sine {
            transform::fwd_coeff(res, DST4, bit_depth, x / 4, x % 4)
        } else {
            transform::fwd_coeff(res, T4, bit_depth, x / 4, x % 4)
        }
    } else if n == 8 {
        transform::fwd_coeff(res, T8, bit_depth, x / 8, x % 8)
    } else if n == 16 {
        transform::fwd_coeff(res, T16, bit_depth, x / 16, x % 16)
    } else {
        transform::fwd_coeff(res, T32, bit_depth, x / 32, x % 32)
    }
}

/// Sample `x`, row by row, of the inverse transform of an `n` by `n` block.
pub open spec fn inv_at(coeff: Seq<i32>, n: int, bit_depth: int, sine: bool, x: int) -> int {
    if n == 4 {
        if sine {
            transform::inv_sample(coeff, DST4, bit_depth, x / 4, x % 4)
        } else {
            transform::inv_sample(coeff, T4, bit_depth, x / 4, x % 4)
        }
    } else if n == 8 {
        transform::inv_sample(coeff, T8, bit_depth, x / 8, x % 8)
    } else if n == 16 {
        transform::inv_sample(coeff, T16, bit_depth, x / 16, x % 16)
    } else {
        transform::inv_sample(coeff, T32, bit_depth, x / 32, x % 32)
    }
}

/// Two one-dimensional sums over equal values are equal.
proof fn lemma_row_dot_ext(i: int, a: spec_fn(int) -> int, b: spec_fn(int) -> int)
    requires
        forall|k: int| 0 <= k < 32 ==> #[trigger] a(k) == b(k),
    ensures
        transform::row_dot(T32, i, a) == transform::row_dot(T32, i, b),
{
    let fa = |k: int| T32@[i]@[k] * a(k);
    let fb = |k: int| T32@[i]@[k] * b(k);
    assert forall|k: int| 0 <= k < 32 implies #[trigger] fa(k) == fb(k) by {
        assert(a(k) == b(k));
    }
    crate::arith::lemma_sum_ext(32, fa, fb);
}

proof fn lemma_col_dot_ext(m: int, a: spec_fn(int) -> int, b: spec_fn(int) -> int)
    requires
        forall|k: int| 0 <= k < 32 ==> #[trigger] a(k) == b(k),
    ensures
        transform::col_dot(T32, m, a) == transform::col_dot(T32, m, b),
{
    let fa = |k: int| T32@[k]@[m] * a(k);
    let fb = |k: int| T32@[k]@[m] * b(k);
    assert forall|k: int| 0 <= k < 32 implies #[trigger] fa(k) == fb(k) by {
        assert(a(k) == b(k));
    }
    crate::arith::lemma_sum_ext(32, fa, fb);
}

/// Row `r` of a 32 by 32 block.
fn row_of(v: &[i32], r: usize) -> (s: Vec<i32>)
    requires
        r < 32,
        v@.len() >= 1024,
    ensures
        s@.len() == 32,
        forall|k: int| 0 <= k < 32 ==> #[trigger] s@[k] == v@[r * 32 + k],
{
    let mut s: Vec<i32> = Vec::new();
    for k in 0..32usize
        invariant
            r < 32,
            v@.len() >= 1024,
            s@.len() == k,
            forall|i: int| 0 <= i < k ==> #[trigger] s@[i] == v@[r * 32 + i],
    {
        s.push(v[r * 32 + k]);
    }
    s
}

/// Column `c` of a 32 by 32 block.
fn col_of(v: &[i32], c: usize) -> (s: Vec<i32>)
    requires
        c < 32,
        v@.len() >= 1024,
    ensures
        s@.len() == 32,
        forall|k: int| 0 <= k < 32 ==> #[trigger] s@[k] == v@[k * 32 + c],
{
    let mut s: Vec<i32> = Vec::new();
    for k in 0..32usize
        invariant
            c < 32,
            v@.len() >= 1024,
            s@.len() == k,
            forall|i: int| 0 <= i < k ==> #[trigger] s@[i] == v@[i * 32 + c],
    {
        s.push(v[k * 32 + c]);
    }
    s
}

/// Writes row `r` of a 32 by 32 block.
fn put_row(out: &mut [i32], r: usize, s: &Vec<i32>)
    requires
        r < 32,
        old(out)@.len() >= 1024,
        s@.len() == 32,
    ensures
        final(out)@.len() == old(out)@.len(),
        forall|x: int|
            0 <= x < old(out)@.len() ==> #[trigger] final(out)@[x] == if r * 32 <= x < r * 32 + 32 {
                s@[x - r * 32]
            } else {
                old(out)@[x]
            },
{
    for k in 0..32usize
        invariant
            r < 32,
            out@.len() == old(out)@.len(),
            out@.len() >= 1024,
            s@.len() == 32,
            forall|x: int|
                0 <= x < old(out)@.len() ==> #[trigger] out@[x] == if r * 32 <= x < r * 32 + k {
                    s@[x - r * 32]
                } else {
                    old(out)@[x]
                },
    {
        out[r * 32 + k] = s[k];
    }
}

/// Writes column `c` of a 32 by 32 block.
fn put_col(out: &mut [i32], c: usize, s: &Vec<i32>)
    requires
        c < 32,
        old(out)@.len() >= 1024,
        s@.len() == 32,
    ensures
        final(out)@.len() == old(out)@.len(),
        forall|x: int|
            0 <= x < old(out)@.len() ==> #[trigger] final(out)@[x] == if x < 1024 && x % 32 == c {
                s@[x / 32]
            } else {
                old(out)@[x]
            },
{
    for k in 0..32usize
        invariant
            c < 32,
            out@.len() == old(out)@.len(),
            out@.len() >= 1024,
            s@.len() == 32,
            forall|x: int|
                0 <= x < old(out)@.len() ==> #[trigger] out@[x] == if x < 1024 && x % 32 == c && x
                    / 32 < k {
                    s@[x / 32]
                } else {
                    old(out)@[x]
                },
    {
        let ghost before = out@;
        out[k * 32 + c] = s[k];
        assert forall|x: int| 0 <= x < old(out)@.len() implies #[trigger] out@[x] == if x < 1024
            && x % 32 == c && x / 32 < k + 1 {
            s@[x / 32]
        } else {
            old(out)@[x]
        } by {
            if x == k * 32 + c {
            } else {
                assert(out@[x] == before[x]);
            }
        }
    }
}

/// The forward transform of a 32 by 32 block.
fn fwd_transform_32(res: &[i32], bit_depth: u8, out: &mut [i32], tmp: &mut [i32])
    requires
        8 <= bit_depth <= 16,
        res@.len() >= 1024,
        old(out)@.len() >= 1024,
        old(tmp)@.len() >= 1024,
        transform::within(res@, 1024, 4096),
    ensures
        final(out)@.len() == old(out)@.len(),
        final(tmp)@.len() == old(tmp)@.len(),
        forall|x: int|
            0 <= x < 1024 ==> #[trigger] final(out)@[x] == transform::fwd_coeff(
                res@,
                T32,
                bit_depth as int,
                x / 32,
                x % 32,
            ),
        forall|x: int| 1024 <= x < old(out)@.len() ==> #[trigger] final(out)@[x] == old(out)@[x],
        forall|x: int| 1024 <= x < old(tmp)@.len() ==> #[trigger] final(tmp)@[x] == old(tmp)@[x],
{
    let shift1: u32 = bit_depth as u32 - 4;
    let ghost bd = bit_depth as int;
    for row in 0..32usize
        invariant
            8 <= bit_depth <= 16,
            bd == bit_depth,
            shift1 == bd - 4,
            res@.len() >= 1024,
            tmp@.len() == old(tmp)@.len(),
            tmp@.len() >= 1024,
            transform::within(res@, 1024, 4096),
            forall|x: int|
                0 <= x < row * 32 ==> #[trigger] tmp@[x] == transform::fwd_row(
                    res@,
                    T32,
                    bd,
                    x / 32,
                    x % 32,
                ),
            forall|x: int| 1024 <= x < old(tmp)@.len() ==> #[trigger] tmp@[x] == old(tmp)@[x],
    {
        let src = row_of(res, row);
        let ghost a = |k: int| src@[k] as int;
        let ghost b = |k: int| res@[row * 32 + k] as int;
        assert forall|k: int| 0 <= k < 32 implies -737280 <= #[trigger] src@[k] <= 737280 by {
            assert(src@[k] == res@[row * 32 + k]);
        }
        let dst = fwd_transform_1d_32(src.as_slice(), shift1);
        assert forall|k: int| 0 <= k < 32 implies #[trigger] a(k) == b(k) by {
            assert(src@[k] == res@[row * 32 + k]);
        }
        assert forall|i: int| 0 <= i < 32 implies #[trigger] dst@[i] == transform::fwd_row(
            res@,
            T32,
            bd,
            row as int,
            i,
        ) by {
            lemma_row_dot_ext(i, a, b);
        }
        put_row(tmp, row, &dst);
    }
    for c in 0..32usize
        invariant
            8 <= bit_depth <= 16,
            bd == bit_depth,
            res@.len() >= 1024,
            tmp@.len() >= 1024,
            out@.len() == old(out)@.len(),
            out@.len() >= 1024,
            transform::within(res@, 1024, 4096),
            forall|x: int|
                0 <= x < 1024 ==> #[trigger] tmp@[x] == transform::fwd_row(
                    res@,
                    T32,
                    bd,
                    x / 32,
                    x % 32,
                ),
            forall|x: int|
                0 <= x < 1024 && x % 32 < c ==> #[trigger] out@[x] == transform::fwd_coeff(
                    res@,
                    T32,
                    bd,
                    x / 32,
                    x % 32,
                ),
            forall|x: int| 1024 <= x < old(out)@.len() ==> #[trigger] out@[x] == old(out)@[x],
    {
        let src = col_of(tmp, c);
        let ghost a = |k: int| src@[k] as int;
        let ghost b = |k: int| transform::fwd_row(res@, T32, bd, k, c as int);
        assert forall|k: int| 0 <= k < 32 implies #[trigger] a(k) == b(k) && -737280 <= src@[k]
            <= 737280 by {
            assert(src@[k] == tmp@[k * 32 + c]);
            basis::lemma_t32_ok();
            transform::lemma_fwd_row_bound(res@, T32, bd, k, c as int);
        }
        assert(transform::within(src@, 32, 737280)) by {
            assert forall|k: int| 0 <= k < 32 implies -737280 <= #[trigger] src@[k] <= 737280 by {
                assert(a(k) == b(k));
            }
        }
        let dst = fwd_transform_1d_32(src.as_slice(), 11);
        assert forall|i: int| 0 <= i < 32 implies #[trigger] dst@[i] == transform::fwd_coeff(
            res@,
            T32,
            bd,
            i,
            c as int,
        ) by {
            lemma_row_dot_ext(i, a, b);
        }
        put_col(out, c, &dst);
    }
}

/// The inverse transform of a 32 by 32 block.
fn inv_transform_32(coeff: &[i32], bit_depth: u8, out: &mut [i32], tmp: &mut [i32])
    requires
        8 <= bit_depth <= 16,
        coeff@.len() >= 1024,
        old(out)@.len() >= 1024,
        old(tmp)@.len() >= 1024,
        transform::within(coeff@, 1024, 32768),
    ensures
        final(out)@.len() == old(out)@.len(),
        final(tmp)@.len() == old(tmp)@.len(),
        forall|x: int|
            0 <= x < 1024 ==> #[trigger] final(out)@[x] == transform::inv_sample(
                coeff@,
                T32,
                bit_depth as int,
                x / 32,
                x % 32,
            ),
        forall|x: int| 1024 <= x < old(out)@.len() ==> #[trigger] final(out)@[x] == old(out)@[x],
        forall|x: int| 1024 <= x < old(tmp)@.len() ==> #[trigger] final(tmp)@[x] == old(tmp)@[x],
{
    let shift2: u32 = 20 - bit_depth as u32;
    let ghost bd = bit_depth as int;
    for c in 0..32usize
        invariant
            coeff@.len() >= 1024,
            tmp@.len() == old(tmp)@.len(),
            tmp@.len() >= 1024,
            transform::within(coeff@, 1024, 32768),
            forall|x: int|
                0 <= x < 1024 && x % 32 < c ==> #[trigger] tmp@[x] == transform::inv_col(
                    coeff@,
                    T32,
                    x / 32,
                    x % 32,
                ),
            forall|x: int| 1024 <= x < old(tmp)@.len() ==> #[trigger] tmp@[x] == old(tmp)@[x],
    {
        let src = col_of(coeff, c);
        let ghost a = |k: int| src@[k] as int;
        let ghost b = |k: int| coeff@[k * 32 + c] as int;
        assert forall|k: int| 0 <= k < 32 implies -32768 <= #[trigger] src@[k] <= 32768 by {
            assert(src@[k] == coeff@[k * 32 + c]);
        }
        let dst = inv_transform_1d_32(src.as_slice(), 7, -32768, 32767);
        assert forall|k: int| 0 <= k < 32 implies #[trigger] a(k) == b(k) by {
            assert(src@[k] == coeff@[k * 32 + c]);
        }
        assert forall|m: int| 0 <= m < 32 implies #[trigger] dst@[m] == transform::inv_col(
            coeff@,
            T32,
            m,
            c as int,
        ) by {
            lemma_col_dot_ext(m, a, b);
        }
        put_col(tmp, c, &dst);
    }
    for r in 0..32usize
        invariant
            8 <= bit_depth <= 16,
            bd == bit_depth,
            shift2 == 20 - bd,
            tmp@.len() >= 1024,
            out@.len() == old(out)@.len(),
            out@.len() >= 1024,
            forall|x: int|
                0 <= x < 1024 ==> #[trigger] tmp@[x] == transform::inv_col(
                    coeff@,
                    T32,
                    x / 32,
                    x % 32,
                ),
            forall|x: int|
                0 <= x < r * 32 ==> #[trigger] out@[x] == transform::inv_sample(
                    coeff@,
                    T32,
                    bd,
                    x / 32,
                    x % 32,
                ),
            forall|x: int| 1024 <= x < old(out)@.len() ==> #[trigger] out@[x] == old(out)@[x],
    {
        let src = row_of(tmp, r);
        let ghost a = |k: int| src@[k] as int;
        let ghost b = |k: int| transform::inv_col(coeff@, T32, r as int, k);
        assert forall|k: int| 0 <= k < 32 implies #[trigger] a(k) == b(k) by {
            assert(src@[k] == tmp@[r * 32 + k]);
        }
        assert forall|k: int| 0 <= k < 32 implies -32768 <= #[trigger] src@[k] <= 32768 by {
            assert(a(k) == b(k));
        }
        let dst = inv_transform_1d_32(src.as_slice(), shift2, i32::MIN, i32::MAX);
        assert forall|m: int| 0 <= m < 32 implies #[trigger] dst@[m] == transform::inv_sample(
            coeff@,
            T32,
            bd,
            r as int,
            m,
        ) by {
            lemma_col_dot_ext(m, a, b);
            lemma_no_clip(src@, m, shift2 as int);
        }
        put_row(out, r, &dst);
    }
}

/// A rounded column sum of 16-bit values needs no clipping to 32 bits.
proof fn lemma_no_clip(s: Seq<i32>, m: int, shift: int)
    requires
        s.len() == 32,
        0 <= m < 32,
        0 < shift <= 12,
        transform::within(s, 32, 32768),
    ensures
        i32::MIN <= transform::rounded(transform::col_dot(T32, m, |k: int| s[k] as int), shift)
            <= i32::MAX,
{
    let v = |k: int| s[k] as int;
    let f = |k: int| T32@[k]@[m] * v(k);
    basis::lemma_t32_ok();
    assert forall|k: int| 0 <= k < 32 implies -2949120 <= #[trigger] f(k) <= 2949120 by {
        transform::lemma_product_bound(T32@[k]@[m] as int, s[k] as int, 32768);
    }
    crate::arith::lemma_sum_bound(32, f, 2949120);
    let p = vstd::arithmetic::power2::pow2(shift as nat) as int;
    vstd::arithmetic::power2::lemma2_to64();
    assert(94371840 <= 94371840 * p) by (nonlinear_arith)
        requires
            1 <= p,
    ;
    assert(-94371840 * p <= -94371840) by (nonlinear_arith)
        requires
            1 <= p,
    ;
    transform::lemma_rounded_bound(transform::col_dot(T32, m, v), shift, 94371840);
}

/// The forward transform of an `n` by `n` block by the cosine basis, into the
/// front of `out`.
pub fn fwd_transform_into(res: &[i32], n: usize, bit_depth: u8, out: &mut [i32], tmp: &mut [i32])
    requires
        transform::is_size(n as int),
        8 <= bit_depth <= 16,
        res@.len() >= n * n,
        old(out)@.len() >= n * n,
        old(tmp)@.len() >= n * n,
        transform::within(res@, n * n, 4096),
    ensures
        final(out)@.len() == old(out)@.len(),
        final(tmp)@.len() == old(tmp)@.len(),
        forall|x: int|
            0 <= x < n * n ==> #[trigger] final(out)@[x] == fwd_at(
                res@,
                n as int,
                bit_depth as int,
                false,
                x,
            ),
        forall|x: int| n * n <= x < old(out)@.len() ==> #[trigger] final(out)@[x] == old(out)@[x],
        forall|x: int| n * n <= x < old(tmp)@.len() ==> #[trigger] final(tmp)@[x] == old(tmp)@[x],
{
    if n == 4 {
        proof {
            basis::lemma_t4_ok();
            assert(n * n == 16) by (nonlinear_arith)
                requires
                    n == 4,
            ;
        }
        fwd_transform_n::<4>(res, &T4, bit_depth, out, tmp);
    } else if n == 8 {
        proof {
            basis::lemma_t8_ok();
            assert(n * n == 64) by (nonlinear_arith)
                requires
                    n == 8,
            ;
        }
        fwd_transform_n::<8>(res, &T8, bit_depth, out, tmp);
    } else if n == 16 {
        proof {
            basis::lemma_t16_ok();
            assert(n * n == 256) by (nonlinear_arith)
                requires
                    n == 16,
            ;
        }
        fwd_transform_n::<16>(res, &T16, bit_depth, out, tmp);
    } else {
        proof {
            assert(n * n == 1024) by (nonlinear_arith)
                requires
                    n == 32,
            ;
        }
        fwd_transform_32(res, bit_depth, out, tmp);
    }
}

/// The forward transform of an intra luma block: 4x4 blocks use the sine basis.
pub fn fwd_transform_intra_luma_into(
    res: &[i32],
    n: usize,
    bit_depth: u8,
    out: &mut [i32],
    tmp: &mut [i32],
)
    requires
        transform::is_size(n as int),
        8 <= bit_depth <= 16,
        res@.len() >= n * n,
        old(out)@.len() >= n * n,
        old(tmp)@.len() >= n * n,
        transform::within(res@, n * n, 4096),
    ensures
        final(out)@.len() == old(out)@.len(),
        final(tmp)@.len() == old(tmp)@.len(),
        forall|x: int|
            0 <= x < n * n ==> #[trigger] final(out)@[x] == fwd_at(
                res@,
                n as int,
                bit_depth as int,
                true,
                x,
            ),
        forall|x: int| n * n <= x < old(out)@.len() ==> #[trigger] final(out)@[x] == old(out)@[x],
        forall|x: int| n * n <= x < old(tmp)@.len() ==> #[trigger] final(tmp)@[x] == old(tmp)@[x],
{
    if n == 4 {
        proof {
            basis::lemma_t4_ok();
            assert(n * n == 16) by (nonlinear_arith)
                requires
                    n == 4,
            ;
        }
        fwd_transform_n::<4>(res, &DST4, bit_depth, out, tmp);
    } else {
        fwd_transform_into(res, n, bit_depth, out, tmp);
    }
}

/// The forward transform, by the sine basis for 4x4 blocks where `intra_luma`.
pub fn fwd_transform_scalar(
    res: &[i32],
    n: usize,
    bit_depth: u8,
    out: &mut [i32],
    tmp: &mut [i32],
    intra_luma: bool,
)
    requires
        transform::is_size(n as int),
        8 <= bit_depth <= 16,
        res@.len() >= n * n,
        old(out)@.len() >= n * n,
        old(tmp)@.len() >= n * n,
        transform::within(res@, n * n, 4096),
    ensures
        final(out)@.len() == old(out)@.len(),
        final(tmp)@.len() == old(tmp)@.len(),
        forall|x: int|
            0 <= x < n * n ==> #[trigger] final(out)@[x] == fwd_at(
                res@,
                n as int,
                bit_depth as int,
                intra_luma,
                x,
            ),
        forall|x: int| n * n <= x < old(out)@.len() ==> #[trigger] final(out)@[x] == old(out)@[x],
        forall|x: int| n * n <= x < old(tmp)@.len() ==> #[trigger] final(tmp)@[x] == old(tmp)@[x],
{
    if intra_luma {
        fwd_transform_intra_luma_into(res, n, bit_depth, out, tmp);
    } else {
        fwd_transform_into(res, n, bit_depth, out, tmp);
    }
}

/// The inverse transform of an `n` by `n` block by the cosine basis, into the
/// front of `out`.
pub fn inv_transform_into(coeff: &[i32], n: usize, bit_depth: u8, out: &mut [i32], tmp: &mut [i32])
    requires
        transform::is_size(n as int),
        8 <= bit_depth <= 16,
        coeff@.len() >= n * n,
        old(out)@.len() >= n * n,
        old(tmp)@.len() >= n * n,
        transform::within(coeff@, n * n, 32768),
    ensures
        final(out)@.len() == old(out)@.len(),
        final(tmp)@.len() == old(tmp)@.len(),
        forall|x: int|
            0 <= x < n * n ==> #[trigger] final(out)@[x] == inv_at(
                coeff@,
                n as int,
                bit_depth as int,
                false,
                x,
            ),
        forall|x: int| n * n <= x < old(out)@.len() ==> #[trigger] final(out)@[x] == old(out)@[x],
        forall|x: int| n * n <= x < old(tmp)@.len() ==> #[trigger] final(tmp)@[x] == old(tmp)@[x],
{
    if n == 4 {
        proof {
            basis::lemma_t4_ok();
            assert(n * n == 16) by (nonlinear_arith)
                requires
                    n == 4,
            ;
        }
        inv_transform_n::<4>(coeff, &T4, bit_depth, out, tmp);
    } else if n == 8 {
        proof {
            basis::lemma_t8_ok();
            assert(n * n == 64) by (nonlinear_arith)
                requires
                    n == 8,
            ;
        }
        inv_transform_n::<8>(coeff, &T8, bit_depth, out, tmp);
    } else if n == 16 {
        proof {
            basis::lemma_t16_ok();
            assert(n * n == 256) by (nonlinear_arith)
                requires
                    n == 16,
            ;
        }
        inv_transform_n::<16>(coeff, &T16, bit_depth, out, tmp);
    } else {
        proof {
            assert(n * n == 1024) by (nonlinear_arith)
                requires
                    n == 32,
            ;
        }
        inv_transform_32(coeff, bit_depth, out, tmp);
    }
}

/// The inverse transform of an intra luma block: 4x4 blocks use the sine basis.
pub fn inv_transform_intra_luma_into(
    coeff: &[i32],
    n: usize,
    bit_depth: u8,
    out: &mut [i32],
    tmp: &mut [i32],
)
    requires
        transform::is_size(n as int),
        8 <= bit_depth <= 16,
        coeff@.len() >= n * n,
        old(out)@.len() >= n * n,
        old(tmp)@.len() >= n * n,
        transform::within(coeff@, n * n, 32768),
    ensures
        final(out)@.len() == old(out)@.len(),
        final(tmp)@.len() == old(tmp)@.len(),
        forall|x: int|
            0 <= x < n * n ==> #[trigger] final(out)@[x] == inv_at(
                coeff@,
                n as int,
                bit_depth as int,
                true,
                x,
            ),
        forall|x: int| n * n <= x < old(out)@.len() ==> #[trigger] final(out)@[x] == old(out)@[x],
        forall|x: int| n * n <= x < old(tmp)@.len() ==> #[trigger] final(tmp)@[x] == old(tmp)@[x],
{
    if n == 4 {
        proof {
            basis::lemma_t4_ok();
            assert(n * n == 16) by (nonlinear_arith)
                requires
                    n == 4,
            ;
        }
        inv_transform_n::<4>(coeff, &DST4, bit_depth, out, tmp);
    } else {
        inv_transform_into(coeff, n, bit_depth, out, tmp);
    }
}

/// The inverse transform, by the sine basis for 4x4 blocks where `intra_luma`.
pub fn inv_transform_scalar(
    coeff: &[i32],
    n: usize,
    bit_depth: u8,
    out: &mut [i32],
    tmp: &mut [i32],
    intra_luma: bool,
)
    requires
        transform::is_size(n as int),
        8 <= bit_depth <= 16,
        coeff@.len() >= n * n,
        old(out)@.len() >= n * n,
        old(tmp)@.len() >= n * n,
        transform::within(coeff@, n * n, 32768),
    ensures
        final(out)@.len() == old(out)@.len(),
        final(tmp)@.len() == old(tmp)@.len(),
        forall|x: int|
            0 <= x < n * n ==> #[trigger] final(out)@[x] == inv_at(
                coeff@,
                n as int,
                bit_depth as int,
                intra_luma,
                x,
            ),
        forall|x: int| n * n <= x < old(out)@.len() ==> #[trigger] final(out)@[x] == old(out)@[x],
        forall|x: int| n * n <= x < old(tmp)@.len() ==> #[trigger] final(tmp)@[x] == old(tmp)@[x],
{
    if intra_luma {
        inv_transform_intra_luma_into(coeff, n, bit_depth, out, tmp);
    } else {
        inv_transform_into(coeff, n, bit_depth, out, tmp);
    }
}

} // verus!
