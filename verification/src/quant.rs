//! Quantisation of transform coefficients.
use crate::arith;
use crate::arith::{pow2_i64, shr_i64};
use crate::transform;
use crate::transform::log2_of;
use vstd::arithmetic::power2::*;
use vstd::prelude::*;

verus! {

/// Forward scale of each sixth of an octave of quantisation steps.
pub const QUANT_SCALE: [i64; 6] = [26214, 23302, 20560, 18396, 16384, 14564];

/// Inverse scale of each sixth of an octave of quantisation steps.
pub const DEQUANT_SCALE: [i64; 6] = [40, 45, 51, 57, 64, 72];

/// A block size, a quantisation parameter and a bit depth that the integer
/// arithmetic has room for.
pub open spec fn quant_ok(n: int, qp: int, bit_depth: int) -> bool {
    &&& transform::is_size(n)
    &&& 0 <= qp <= 173
    &&& 8 <= bit_depth <= 15
}

/// Bits that forward quantisation drops.
pub open spec fn q_bits(n: int, qp: int, bit_depth: int) -> int {
    29 + qp / 6 - bit_depth - transform::log2_size(n)
}

/// Magnitude of `x`.
pub open spec fn mag(x: int) -> int {
    if x < 0 {
        -x
    } else {
        x
    }
}

/// Magnitude of a coefficient times the forward scale.
pub open spec fn scaled(c: int, qp: int) -> int {
    mag(c) * QUANT_SCALE@[qp % 6]
}

/// Rounding offset: a third of a step.
pub open spec fn offset(n: int, qp: int, bit_depth: int) -> int {
    171 * (pow2((q_bits(n, qp, bit_depth) - 9) as nat) as int)
}

/// Magnitude of the level of a coefficient, before it is clipped.
pub open spec fn raw_level(c: int, n: int, qp: int, bit_depth: int) -> int {
    (scaled(c, qp) + offset(n, qp, bit_depth)) / pow2(q_bits(n, qp, bit_depth) as nat) as int
}

/// The level of a coefficient.
pub open spec fn level_of(c: int, n: int, qp: int, bit_depth: int) -> int {
    let m = raw_level(c, n, qp, bit_depth);
    arith::clip(
        -32768,
        32767,
        if c < 0 {
            -m
        } else {
            m
        },
    )
}

/// The coefficient that a level stands for.
pub open spec fn dequant_of(level: int, n: int, qp: int, bit_depth: int) -> int {
    let shift = bit_depth + transform::log2_size(n) - 5;
    let factor = DEQUANT_SCALE@[qp % 6] * pow2((qp / 6) as nat) * 16;
    arith::clip(
        -32768,
        32767,
        (level * factor + pow2((shift - 1) as nat)) / pow2(shift as nat) as int,
    )
}

/// Bounds of the fixed-point quantities.
pub proof fn lemma_quant_bounds(n: int, qp: int, bit_depth: int)
    requires
        quant_ok(n, qp, bit_depth),
    ensures
        9 <= q_bits(n, qp, bit_depth) <= 47,
        0 <= offset(n, qp, bit_depth) <= 0x100_0000_0000_0000,
        14564 <= QUANT_SCALE@[qp % 6] <= 26214,
        40 <= DEQUANT_SCALE@[qp % 6] <= 72,
{
    lemma2_to64();
    lemma2_to64_rest();
    let b = q_bits(n, qp, bit_depth) - 9;
    lemma_pow2_pos(b as nat);
    if b < 38 {
        lemma_pow2_strictly_increases(b as nat, 38);
    }
}

/// A scaled coefficient fits in 47 bits.
pub proof fn lemma_scaled_bound(c: int, qp: int)
    requires
        -0x8000_0000 <= c <= 0x7fff_ffff,
        0 <= qp,
    ensures
        0 <= scaled(c, qp) <= 0x4000_0000_0000,
{
    let q = QUANT_SCALE@[qp % 6] as int;
    assert(0 <= q <= 26214);
    assert(0 <= mag(c) * q <= 0x8000_0000 * 26214) by (nonlinear_arith)
        requires
            0 <= mag(c) <= 0x8000_0000,
            0 <= q <= 26214,
    ;
}

/// Magnitude of a 32-bit value.
pub fn magnitude(x: i32) -> (r: i64)
    ensures
        r == mag(x as int),
{
    if x < 0 {
        -(x as i64)
    } else {
        x as i64
    }
}

/// The fixed-point parameters of a block's quantisation.
pub struct Quantizer {
    pub bits: u32,
    pub scale: i64,
    pub offset: i64,
}

impl Quantizer {
    pub open spec fn wf(&self, n: int, qp: int, bit_depth: int) -> bool {
        &&& quant_ok(n, qp, bit_depth)
        &&& self.bits == q_bits(n, qp, bit_depth)
        &&& self.scale == QUANT_SCALE@[qp % 6]
        &&& self.offset == offset(n, qp, bit_depth)
    }

    /// The quantiser of a block side, a parameter and a bit depth.
    pub fn new(n: usize, qp: u8, bit_depth: u8) -> (r: Quantizer)
        requires
            quant_ok(n as int, qp as int, bit_depth as int),
        ensures
            r.wf(n as int, qp as int, bit_depth as int),
    {
        proof {
            lemma_quant_bounds(n as int, qp as int, bit_depth as int);
        }
        let bits: u32 = 29 + qp as u32 / 6 - bit_depth as u32 - log2_of(n);
        let p: i64 = pow2_i64(bits - 9);
        proof {
            lemma2_to64_rest();
            if bits - 9 < 38 {
                lemma_pow2_strictly_increases((bits - 9) as nat, 38);
            }
        }
        Quantizer { bits, scale: QUANT_SCALE[(qp % 6) as usize], offset: 171 * p }
    }

    /// Magnitude of a coefficient times the forward scale.
    pub fn scale_of(&self, c: i32, Ghost(n): Ghost<int>, Ghost(qp): Ghost<int>, Ghost(bd): Ghost<
        int,
    >) -> (r: i64)
        requires
            self.wf(n, qp, bd),
        ensures
            r == scaled(c as int, qp),
            0 <= r <= 0x4000_0000_0000,
    {
        proof {
            lemma_quant_bounds(n, qp, bd);
            lemma_scaled_bound(c as int, qp);
        }
        magnitude(c) * self.scale
    }

    /// Magnitude of the level of a coefficient, before it is clipped.
    pub fn raw(&self, c: i32, Ghost(n): Ghost<int>, Ghost(qp): Ghost<int>, Ghost(bd): Ghost<
        int,
    >) -> (r: i64)
        requires
            self.wf(n, qp, bd),
        ensures
            r == raw_level(c as int, n, qp, bd),
            0 <= r <= 0x200_0000_0000_0000,
            r * pow2(q_bits(n, qp, bd) as nat) <= scaled(c as int, qp) + offset(n, qp, bd),
    {
        proof {
            lemma_quant_bounds(n, qp, bd);
            lemma_pow2_pos(self.bits as nat);
        }
        let s: i64 = self.scale_of(c, Ghost(n), Ghost(qp), Ghost(bd)) + self.offset;
        let r: i64 = shr_i64(s, self.bits);
        proof {
            let p = pow2(self.bits as nat) as int;
            let t = s as int;
            assert(0 <= t / p <= t && (t / p) * p <= t) by (nonlinear_arith)
                requires
                    0 <= t,
                    1 <= p,
            ;
        }
        r
    }

    /// The level of a coefficient.
    pub fn level(&self, c: i32, Ghost(n): Ghost<int>, Ghost(qp): Ghost<int>, Ghost(bd): Ghost<
        int,
    >) -> (r: i16)
        requires
            self.wf(n, qp, bd),
        ensures
            r == level_of(c as int, n, qp, bd),
            r != 0 ==> (r < 0) == (c < 0),
    {
        let m: i64 = self.raw(c, Ghost(n), Ghost(qp), Ghost(bd));
        let v: i64 = if c < 0 {
            -m
        } else {
            m
        };
        if v < -32768 {
            -32768
        } else if v > 32767 {
            32767
        } else {
            v as i16
        }
    }
}

/// Quantises the `n` by `n` coefficients, without sign hiding.
pub fn quantize_plain_into(coeff: &[i32], n: usize, qp: u8, bit_depth: u8, out: &mut [i16])
    requires
        quant_ok(n as int, qp as int, bit_depth as int),
        coeff@.len() >= n * n,
        old(out)@.len() >= n * n,
    ensures
        final(out)@.len() == old(out)@.len(),
        forall|x: int|
            0 <= x < n * n ==> #[trigger] final(out)@[x] == level_of(
                coeff@[x] as int,
                n as int,
                qp as int,
                bit_depth as int,
            ),
        forall|x: int| n * n <= x < old(out)@.len() ==> #[trigger] final(out)@[x] == old(out)@[x],
        forall|x: int|
            0 <= x < n * n ==> (#[trigger] final(out)@[x] != 0 ==> (final(out)@[x] < 0) == (coeff@[x]
                < 0)),
{
    let q = Quantizer::new(n, qp, bit_depth);
    proof {
        transform::lemma_row_fits(0, n as int);
    }
    let area: usize = n * n;
    for x in 0..area
        invariant
            area == n * n,
            q.wf(n as int, qp as int, bit_depth as int),
            coeff@.len() >= n * n,
            out@.len() == old(out)@.len(),
            out@.len() >= n * n,
            forall|i: int|
                0 <= i < x ==> #[trigger] out@[i] == level_of(
                    coeff@[i] as int,
                    n as int,
                    qp as int,
                    bit_depth as int,
                ),
            forall|i: int|
                0 <= i < x ==> (#[trigger] out@[i] != 0 ==> (out@[i] < 0) == (coeff@[i] < 0)),
            forall|i: int| x <= i < old(out)@.len() ==> #[trigger] out@[i] == old(out)@[i],
    {
        out[x] = q.level(coeff[x], Ghost(n as int), Ghost(qp as int), Ghost(bit_depth as int));
    }
}

/// Turns the `n` by `n` levels into coefficients.
pub fn dequantize_into(level: &[i16], n: usize, qp: u8, bit_depth: u8, out: &mut [i32])
    requires
        quant_ok(n as int, qp as int, bit_depth as int),
        level@.len() >= n * n,
        old(out)@.len() >= n * n,
    ensures
        final(out)@.len() == old(out)@.len(),
        forall|x: int|
            0 <= x < n * n ==> #[trigger] final(out)@[x] == dequant_of(
                level@[x] as int,
                n as int,
                qp as int,
                bit_depth as int,
            ),
        forall|x: int| n * n <= x < old(out)@.len() ==> #[trigger] final(out)@[x] == old(out)@[x],
        transform::within(final(out)@, n * n, 32768),
{
    let shift: u32 = bit_depth as u32 + log2_of(n) - 5;
    proof {
        transform::lemma_row_fits(0, n as int);
        lemma_quant_bounds(n as int, qp as int, bit_depth as int);
        lemma2_to64();
    }
    let add: i64 = pow2_i64(shift - 1);
    let per: i64 = pow2_i64(qp as u32 / 6);
    proof {
        if qp / 6 < 28 {
            lemma_pow2_strictly_increases((qp / 6) as nat, 28);
        }
        if shift - 1 < 15 {
            lemma_pow2_strictly_increases((shift - 1) as nat, 15);
        }
        assert(per <= 0x1000_0000);
        assert(add <= 0x8000);
    }
    let scale: i64 = DEQUANT_SCALE[(qp % 6) as usize];
    assert(0 <= scale * per <= 72 * 0x1000_0000) by (nonlinear_arith)
        requires
            0 <= scale <= 72,
            0 <= per <= 0x1000_0000,
    ;
    let factor: i64 = scale * per * 16;
    let area: usize = n * n;
    for x in 0..area
        invariant
            area == n * n,
            quant_ok(n as int, qp as int, bit_depth as int),
            shift == bit_depth + transform::log2_size(n as int) - 5,
            0 <= factor <= 1152 * 0x1000_0000,
            factor == DEQUANT_SCALE@[qp as int % 6] * pow2((qp as int / 6) as nat) * 16,
            0 <= add <= 0x8000,
            add == pow2((shift - 1) as nat),
            level@.len() >= n * n,
            out@.len() == old(out)@.len(),
            out@.len() >= n * n,
            forall|i: int|
                0 <= i < x ==> #[trigger] out@[i] == dequant_of(
                    level@[i] as int,
                    n as int,
                    qp as int,
                    bit_depth as int,
                ),
            transform::within(out@, x as int, 32768),
            forall|i: int| x <= i < old(out)@.len() ==> #[trigger] out@[i] == old(out)@[i],
    {
        let l: i64 = level[x] as i64;
        assert(-0x8000 * (1152 * 0x1000_0000) <= l * factor <= 0x8000 * (1152 * 0x1000_0000))
            by (nonlinear_arith)
            requires
                -0x8000 <= l <= 0x8000,
                0 <= factor <= 1152 * 0x1000_0000,
        ;
        let v: i64 = shr_i64(l * factor + add, shift);
        out[x] = if v < -32768 {
            -32768
        } else if v > 32767 {
            32767
        } else {
            v as i32
        };
    }
}

} // verus!
