//! Quantisation matrices, and blocks of eight by eight as nested arrays.
use crate::quant;
use crate::quant::dequantize_into;
use crate::scan;
use crate::scan::ZIGZAG;
use crate::transform2d;
use crate::transform2d::inv_transform_into;
use vstd::prelude::*;

verus! {

/// Default steps of the luma frequencies.
pub const LUMA_QUANT_MATRIX: [[u16; 8]; 8] = [
    [16, 11, 10, 16, 24, 40, 51, 61],
    [12, 12, 14, 19, 26, 58, 60, 55],
    [14, 13, 16, 24, 40, 57, 69, 56],
    [14, 17, 22, 29, 51, 87, 80, 62],
    [18, 22, 37, 56, 68, 109, 103, 77],
    [24, 35, 55, 64, 81, 104, 113, 92],
    [49, 64, 78, 87, 103, 121, 120, 101],
    [72, 92, 95, 98, 112, 100, 103, 99],
];

/// Default steps of the chroma frequencies.
pub const CHROMA_QUANT_MATRIX: [[u16; 8]; 8] = [
    [17, 18, 24, 47, 99, 99, 99, 99],
    [18, 21, 26, 66, 99, 99, 99, 99],
    [24, 26, 56, 99, 99, 99, 99, 99],
    [47, 66, 99, 99, 99, 99, 99, 99],
    [99, 99, 99, 99, 99, 99, 99, 99],
    [99, 99, 99, 99, 99, 99, 99, 99],
    [99, 99, 99, 99, 99, 99, 99, 99],
    [99, 99, 99, 99, 99, 99, 99, 99],
];

/// Percentage by which a quality scales the default steps.
pub open spec fn quality_scale(quality: int) -> int {
    let q = crate::arith::clip(1, 100, quality);
    if q < 50 {
        5000int / q
    } else {
        200 - 2 * q
    }
}

/// A step at a quality.
pub open spec fn scaled_step(base: int, quality: int) -> int {
    crate::arith::clip(1, 255, (base * quality_scale(quality) + 50) / 100)
}

/// The steps of a matrix at a quality from 1, the worst, to 100, the best.
pub fn scaled_quant_matrix(base: &[[u16; 8]; 8], quality: u8) -> (out: [[u16; 8]; 8])
    ensures
        forall|r: int, c: int|
            0 <= r < 8 && 0 <= c < 8 ==> #[trigger] out@[r]@[c] == scaled_step(
                base@[r]@[c] as int,
                quality as int,
            ),
{
    let q: u32 = if quality < 1 {
        1
    } else if quality > 100 {
        100
    } else {
        quality as u32
    };
    let scale: u32 = if q < 50 {
        5000 / q
    } else {
        200 - 2 * q
    };
    assert(scale <= 5000) by (nonlinear_arith)
        requires
            1 <= q <= 100,
            scale == if q < 50 {
                5000int / q as int
            } else {
                200 - 2 * q
            },
    ;
    let mut out: [[u16; 8]; 8] = [[0u16; 8]; 8];
    for r in 0..8usize
        invariant
            scale == quality_scale(quality as int),
            scale <= 5000,
            forall|i: int, c: int|
                0 <= i < r && 0 <= c < 8 ==> #[trigger] out@[i]@[c] == scaled_step(
                    base@[i]@[c] as int,
                    quality as int,
                ),
    {
        let mut row: [u16; 8] = [0u16; 8];
        for c in 0..8usize
            invariant
                r < 8,
                scale == quality_scale(quality as int),
                scale <= 5000,
                forall|i: int|
                    0 <= i < c ==> #[trigger] row@[i] == scaled_step(
                        base@[r as int]@[i] as int,
                        quality as int,
                    ),
        {
            let b: u32 = base[r][c] as u32;
            assert(0 <= b * scale <= 65535 * 5000) by (nonlinear_arith)
                requires
                    0 <= b <= 65535,
                    0 <= scale <= 5000,
            ;
            let v: u32 = (b * scale + 50) / 100;
            row[c] = if v < 1 {
                1
            } else if v > 255 {
                255
            } else {
                v as u16
            };
        }
        out[r] = row;
    }
    out
}

/// A scale never grows with the quality.
proof fn lemma_scale_falls(a: int, b: int)
    requires
        a <= b,
    ensures
        0 <= quality_scale(b) <= quality_scale(a),
{
    let (p, q) = (crate::arith::clip(1, 100, a), crate::arith::clip(1, 100, b));
    if q < 50 {
        vstd::arithmetic::div_mod::lemma_div_is_ordered_by_denominator(5000, p, q);
        vstd::arithmetic::div_mod::lemma_div_pos_is_pos(5000, q);
    } else if p < 50 {
        vstd::arithmetic::div_mod::lemma_div_is_ordered_by_denominator(5000, p, 50);
    }
}

/// A better quality never has a larger step; every step is from 1 to 255, a quality below
/// 1 counts as 1, all steps are 1 from 100 on, and at 50 a step is that of the matrix.
pub proof fn law_quality_refines_the_steps(base: int, a: int, b: int)
    requires
        0 <= base,
        a <= b,
    ensures
        1 <= scaled_step(base, b) <= scaled_step(base, a) <= 255,
        a <= 1 ==> scaled_step(base, a) == scaled_step(base, 1),
        b >= 100 ==> scaled_step(base, b) == 1,
        scaled_step(base, 50) == crate::arith::clip(1, 255, base),
{
    lemma_scale_falls(a, b);
    let (x, y) = (quality_scale(a), quality_scale(b));
    assert(base * y <= base * x) by (nonlinear_arith)
        requires
            0 <= base,
            y <= x,
    ;
    assert(quality_scale(50) == 100);
    if b >= 100 {
        assert(y == 0);
        assert(base * y == 0) by (nonlinear_arith)
            requires
                y == 0,
        ;
    }
}

/// The sixty-four values of a block in scan order.
pub fn zigzag_scan(block: &[[i16; 8]; 8]) -> (r: Vec<i16>)
    ensures
        r@.len() == 64,
        forall|k: int|
            0 <= k < 64 ==> #[trigger] r@[k] == block@[ZIGZAG@[k].0 as int]@[ZIGZAG@[k].1 as int],
{
    let mut out: Vec<i16> = Vec::new();
    for k in 0..64usize
        invariant
            out@.len() == k,
            forall|i: int|
                0 <= i < k ==> #[trigger] out@[i] == block@[ZIGZAG@[i].0 as int]@[ZIGZAG@[i].1
                    as int],
    {
        let (r, c): (usize, usize) = ZIGZAG[k];
        proof {
            scan::lemma_zigzag(k as int);
        }
        out.push(block[r][c]);
    }
    out
}

/// The values of a block row by row.
pub open spec fn flat(block: [[i16; 8]; 8]) -> Seq<i16> {
    Seq::new(64, |x: int| block@[x / 8]@[x % 8])
}

/// The coefficients that the levels of an 8-bit block stand for.
pub open spec fn dequantized(block: [[i16; 8]; 8], qp: int) -> Seq<i32> {
    Seq::new(64, |x: int| quant::dequant_of(flat(block)[x] as int, 8, qp, 8) as i32)
}

/// The residual of an 8-bit 8x8 luma block of levels, as a decoder computes it.
pub fn hevc_inverse_8x8(coeffs: &[[i16; 8]; 8], qp: u8) -> (out: [[i32; 8]; 8])
    requires
        qp <= 173,
    ensures
        forall|r: int, c: int|
            0 <= r < 8 && 0 <= c < 8 ==> #[trigger] out@[r]@[c] == transform2d::inv_at(
                dequantized(*coeffs, qp as int),
                8,
                8,
                false,
                8 * r + c,
            ),
{
    let mut levels: Vec<i16> = Vec::new();
    for x in 0..64usize
        invariant
            levels@.len() == x,
            forall|i: int| 0 <= i < x ==> #[trigger] levels@[i] == flat(*coeffs)[i],
    {
        levels.push(coeffs[x / 8][x % 8]);
    }
    let mut d: [i32; 64] = [0i32; 64];
    let mut res: [i32; 64] = [0i32; 64];
    let mut tmp: [i32; 64] = [0i32; 64];
    dequantize_into(&levels, 8, qp, 8, &mut d);
    assert(d@ =~= dequantized(*coeffs, qp as int));
    inv_transform_into(&d, 8, 8, &mut res, &mut tmp);
    let mut out: [[i32; 8]; 8] = [[0i32; 8]; 8];
    for r in 0..8usize
        invariant
            forall|x: int|
                0 <= x < 64 ==> #[trigger] res@[x] == transform2d::inv_at(
                    dequantized(*coeffs, qp as int),
                    8,
                    8,
                    false,
                    x,
                ),
            forall|i: int, c: int|
                0 <= i < r && 0 <= c < 8 ==> #[trigger] out@[i]@[c] == transform2d::inv_at(
                    dequantized(*coeffs, qp as int),
                    8,
                    8,
                    false,
                    8 * i + c,
                ),
    {
        let mut row: [i32; 8] = [0i32; 8];
        for c in 0..8usize
            invariant
                r < 8,
                forall|i: int| 0 <= i < c ==> #[trigger] row@[i] == res@[8 * r + i],
        {
            row[c] = res[8 * r + c];
        }
        out[r] = row;
    }
    out
}

} // verus!
