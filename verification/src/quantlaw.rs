//! What the quantiser does to a coefficient: it rounds by thirds, and takes back to the
//! nearest.
use crate::arith;
use crate::quant;
use crate::quant::{DEQUANT_SCALE, QUANT_SCALE};
use crate::rdoq;
use crate::transform;
use vstd::arithmetic::power2::*;
use vstd::prelude::*;

verus! {

/// The side of a transform of the given logarithm.
pub open spec fn side_of(log2: int) -> int {
    if log2 == 2 {
        4
    } else if log2 == 3 {
        8
    } else if log2 == 4 {
        16
    } else {
        32
    }
}

pub proof fn lemma_side(log2: int)
    requires
        2 <= log2 <= 5,
    ensures
        transform::log2_size(side_of(log2)) == log2,
{
    assert(log2 == 2 || log2 == 3 || log2 == 4 || log2 == 5);
}

/// A quotient is what fits.
pub proof fn lemma_fits(x: int, u: int)
    requires
        0 < u,
    ensures
        u * (x / u) <= x < u * (x / u) + u,
{
    vstd::arithmetic::div_mod::lemma_fundamental_div_mod(x, u);
    vstd::arithmetic::div_mod::lemma_mod_bound(x, u);
}

/// The magnitude of a level is how many units fit into the scaled coefficient once a third of
/// a unit, 171 parts of 512, is added.
pub proof fn law_levels_round_by_thirds(c: int, log2: int, qp: int, bit_depth: int)
    requires
        2 <= log2 <= 5,
        0 <= qp <= 173,
        8 <= bit_depth <= 15,
    ensures
        ({
            let unit = pow2((29 + qp / 6 - bit_depth - log2) as nat) as int;
            let size = (if c < 0 {
                -c
            } else {
                c
            }) * QUANT_SCALE@[qp % 6];
            let m = quant::raw_level(c, side_of(log2), qp, bit_depth);
            512 * (unit * m) <= 512 * size + 171 * unit < 512 * (unit * m) + 512 * unit
        }),
{
    lemma_side(log2);
    let bits = 29 + qp / 6 - bit_depth - log2;
    let unit = pow2(bits as nat) as int;
    let ninth = pow2((bits - 9) as nat) as int;
    lemma_pow2_adds((bits - 9) as nat, 9);
    lemma2_to64();
    lemma_pow2_pos(bits as nat);
    lemma_fits(quant::scaled(c, qp) + 171 * ninth, unit);
}

/// A level changes its sign with its coefficient.
pub proof fn law_levels_are_odd(c: int, n: int, qp: int, bit_depth: int)
    requires
        quant::raw_level(c, n, qp, bit_depth) >= 0,
        c != 0,
    ensures
        quant::level_of(c, n, qp, bit_depth) <= 32767,
        c > 0 ==> quant::level_of(c, n, qp, bit_depth) >= 0,
        quant::level_of(c, n, qp, bit_depth) > -32768 && quant::level_of(-c, n, qp, bit_depth)
            > -32768 ==> quant::level_of(-c, n, qp, bit_depth) == -quant::level_of(
            c,
            n,
            qp,
            bit_depth,
        ),
{
    assert(quant::mag(-c) == quant::mag(c));
}

/// Six parameters more take twice the coefficient to the same level.
pub proof fn law_six_parameters_double_the_step(c: int, log2: int, qp: int, bit_depth: int)
    requires
        2 <= log2 <= 5,
        0 <= qp <= 167,
        8 <= bit_depth <= 15,
    ensures
        quant::raw_level(2 * c, side_of(log2), qp + 6, bit_depth) == quant::raw_level(
            c,
            side_of(log2),
            qp,
            bit_depth,
        ),
{
    lemma_side(log2);
    let bits = 29 + qp / 6 - bit_depth - log2;
    lemma_pow2_unfold((bits + 1) as nat);
    lemma_pow2_unfold((bits - 8) as nat);
    lemma_pow2_pos(bits as nat);
    let s = QUANT_SCALE@[qp % 6] as int;
    let m = quant::mag(c);
    assert((2 * m) * s == 2 * (m * s)) by (nonlinear_arith);
    let x = quant::scaled(c, qp) + quant::offset(side_of(log2), qp, bit_depth);
    let u = pow2(bits as nat) as int;
    vstd::arithmetic::div_mod::lemma_div_multiples_vanish_quotient(2, x, u);
}

/// A level stands for the integer nearest to it times its step, in range: the step has sixteen
/// parts, doubles every six parameters, and is divided by two for each bit of depth and each
/// doubling of the side.
pub proof fn law_levels_stand_for_the_nearest(level: int, log2: int, qp: int, bit_depth: int)
    requires
        2 <= log2 <= 5,
        0 <= qp <= 173,
        8 <= bit_depth <= 15,
    ensures
        ({
            let unit = pow2((bit_depth + log2 - 5) as nat) as int;
            let exact = level * (DEQUANT_SCALE@[qp % 6] * pow2((qp / 6) as nat) * 16);
            let v = quant::dequant_of(level, side_of(log2), qp, bit_depth);
            let w = rdoq::level_value(level, side_of(log2), qp, bit_depth);
            &&& -32768 <= v <= 32767
            &&& -32768 < v ==> 2 * (unit * v - exact) <= unit
            &&& v < 32767 ==> 2 * (unit * v - exact) > -unit
            &&& 0 <= w <= 32767
            &&& 0 < w ==> 2 * (unit * w - exact) <= unit
            &&& w < 32767 ==> 2 * (unit * w - exact) > -unit
        }),
{
    lemma_side(log2);
    let shift = bit_depth + log2 - 5;
    let unit = pow2(shift as nat) as int;
    let exact = level * (DEQUANT_SCALE@[qp % 6] * pow2((qp / 6) as nat) * 16);
    lemma_pow2_unfold(shift as nat);
    lemma_pow2_pos(shift as nat);
    let half = pow2((shift - 1) as nat) as int;
    let q = (exact + half) / unit;
    lemma_fits(exact + half, unit);
    let v = quant::dequant_of(level, side_of(log2), qp, bit_depth);
    let w = rdoq::level_value(level, side_of(log2), qp, bit_depth);
    assert(v == arith::clip(-32768, 32767, q));
    assert(w == arith::clip(0, 32767, q));
    lemma_grows(unit, v, q);
    lemma_grows(unit, w, q);
}

proof fn lemma_grows(unit: int, a: int, b: int)
    requires
        0 < unit,
    ensures
        a <= b ==> unit * a <= unit * b,
        b <= a ==> unit * b <= unit * a,
{
    assert(a <= b ==> unit * a <= unit * b) by (nonlinear_arith)
        requires
            0 < unit,
    ;
    assert(b <= a ==> unit * b <= unit * a) by (nonlinear_arith)
        requires
            0 < unit,
    ;
}

/// The largest level that is weighed is the one nearest to the scaled coefficient, at most
/// 32767.
pub proof fn law_the_largest_level_is_the_nearest(c: int, log2: int, qp: int, bit_depth: int)
    requires
        2 <= log2 <= 5,
        0 <= qp <= 173,
        8 <= bit_depth <= 15,
    ensures
        ({
            let unit = pow2((29 + qp / 6 - bit_depth - log2) as nat) as int;
            let size = (if c < 0 {
                -c
            } else {
                c
            }) * QUANT_SCALE@[qp % 6];
            let m = rdoq::max_level(c, side_of(log2), qp, bit_depth);
            &&& 0 <= m <= 32767
            &&& 2 * (unit * m - size) <= unit
            &&& m < 32767 ==> 2 * (unit * m - size) > -unit
        }),
{
    lemma_side(log2);
    let bits = 29 + qp / 6 - bit_depth - log2;
    let unit = pow2(bits as nat) as int;
    lemma_pow2_unfold(bits as nat);
    lemma_pow2_pos(bits as nat);
    let half = pow2((bits - 1) as nat) as int;
    let size = quant::scaled(c, qp);
    let s = QUANT_SCALE@[qp % 6] as int;
    let a = quant::mag(c);
    assert(a * s >= 0) by (nonlinear_arith)
        requires
            a >= 0,
            s >= 0,
    ;
    lemma_fits(size + half, unit);
    let q = (size + half) / unit;
    assert(q >= 0) by (nonlinear_arith)
        requires
            q == (size + half) / unit,
            size >= 0,
            half >= 0,
            unit > 0,
    ;
    let m = rdoq::max_level(c, side_of(log2), qp, bit_depth);
    lemma_grows(unit, m, q);
}

} // verus!
