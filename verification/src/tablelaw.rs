//! What the tables hold: how the parameters of the filters and of the quantiser grow.
use crate::cabac::engine::CtxModel;
use crate::dct;
use crate::deblock;
use crate::edgefilter;
use crate::edgefilter::{BETA_TABLE, TC_TABLE};
use crate::fmt::ChromaFormat;
use crate::quant::{DEQUANT_SCALE, QUANT_SCALE};
use vstd::arithmetic::power2::{lemma_pow2_unfold, pow2};
use vstd::prelude::*;

verus! {

/// The chroma parameter in 4:2:0 follows the luma parameter up to 29, falls one behind at 30,
/// grows by one for each two from 34 to 43, and is six behind from there on. In the other
/// formats it is the luma parameter, at most 51.
pub proof fn law_chroma_follows_luma(q: int)
    requires
        0 <= q <= 57,
    ensures
        ({
            let c = edgefilter::chroma_qp_of(q, ChromaFormat::Yuv420);
            &&& q <= 29 ==> c == q
            &&& 30 <= q <= 34 ==> c == q - 1
            &&& 34 <= q <= 43 ==> q + 31 <= 2 * c <= q + 32
            &&& 43 <= q ==> c == q - 6
        }),
        forall|f: ChromaFormat|
            !(f is Yuv420) ==> #[trigger] edgefilter::chroma_qp_of(q, f) == (if q <= 51 {
                q
            } else {
                51
            }),
{
    if 30 <= q < 43 {
        assert(q - 30 == 0 || q - 30 == 1 || q - 30 == 2 || q - 30 == 3 || q - 30 == 4 || q - 30
            == 5 || q - 30 == 6 || q - 30 == 7 || q - 30 == 8 || q - 30 == 9 || q - 30 == 10 || q
            - 30 == 11 || q - 30 == 12);
    }
}

/// The activity up to which luma is filtered is nothing below 16, six there, grows by one up
/// to 28, by two up to 51, and stays.
pub proof fn law_activity_grows_with_the_parameter(q: int)
    requires
        0 <= q <= 255,
    ensures
        ({
            let beta = deblock::beta_of(q, 8);
            &&& q < 16 ==> beta == 0
            &&& 16 <= q <= 28 ==> beta == q - 10
            &&& 28 <= q <= 51 ==> beta == 2 * q - 38
            &&& 51 <= q ==> beta == 64
        }),
{
    let at = if q <= 51 {
        q
    } else {
        51
    };
    lemma_beta(at);
    lemma_unscaled(BETA_TABLE@[at] as int);
}

/// Eight bits leave a threshold as the table has it.
proof fn lemma_unscaled(x: int)
    ensures
        x * pow2((8 - 8) as nat) == x,
{
    vstd::arithmetic::power2::lemma2_to64();
    assert(x * 1 == x);
}

proof fn lemma_beta(q: int)
    requires
        0 <= q <= 51,
    ensures
        q < 16 ==> BETA_TABLE@[q] == 0,
        16 <= q <= 28 ==> BETA_TABLE@[q] == q - 10,
        28 <= q <= 51 ==> BETA_TABLE@[q] == 2 * q - 38,
{
    if q == 0 || q == 1 || q == 2 || q == 3 || q == 4 || q == 5 || q == 6 || q == 7 {
    } else if q == 8 || q == 9 || q == 10 || q == 11 || q == 12 || q == 13 || q == 14 || q == 15 {
    } else if q == 16 || q == 17 || q == 18 || q == 19 || q == 20 || q == 21 || q == 22 || q == 23 {
    } else if q == 24 || q == 25 || q == 26 || q == 27 || q == 28 || q == 29 || q == 30 || q == 31 {
    } else if q == 32 || q == 33 || q == 34 || q == 35 || q == 36 || q == 37 || q == 38 || q == 39 {
    } else if q == 40 || q == 41 || q == 42 || q == 43 || q == 44 || q == 45 || q == 46 || q == 47 {
    } else {
        assert(q == 48 || q == 49 || q == 50 || q == 51);
    }
}

/// The first parameter, two having been added, from which a sample may move by `v` steps.
pub open spec fn moves_from(v: int) -> int {
    if v <= 1 {
        18
    } else if v == 2 {
        27
    } else if v == 3 {
        31
    } else if v == 4 {
        35
    } else if v == 5 {
        38
    } else if v == 6 {
        40
    } else if v <= 11 {
        35 + v
    } else if v <= 13 {
        47
    } else if v == 14 {
        48
    } else {
        41 + (v + 1) / 2
    }
}

/// A sample may move by `v` steps, of the 24 there are, exactly from its first parameter on.
pub proof fn law_movement_grows_with_the_parameter(q: int, v: int)
    requires
        0 <= q <= 255,
        1 <= v <= 24,
    ensures
        deblock::tc_of(q, 8) >= v <==> q + 2 >= moves_from(v),
        0 <= deblock::tc_of(q, 8) <= 24,
{
    let at = if q + 2 <= 53 {
        q + 2
    } else {
        53
    };
    lemma_tc(at, v);
    lemma_unscaled(TC_TABLE@[at] as int);
}

#[verifier::spinoff_prover]
#[verifier::rlimit(40)]
proof fn lemma_tc(q: int, v: int)
    requires
        0 <= q <= 53,
        1 <= v <= 24,
    ensures
        TC_TABLE@[q] >= v <==> q >= moves_from(v),
        0 <= TC_TABLE@[q] <= 24,
{
    if q == 0 || q == 1 || q == 2 || q == 3 || q == 4 || q == 5 || q == 6 || q == 7 {
    } else if q == 8 || q == 9 || q == 10 || q == 11 || q == 12 || q == 13 || q == 14 || q == 15 {
    } else if q == 16 || q == 17 || q == 18 || q == 19 || q == 20 || q == 21 || q == 22 || q == 23 {
    } else if q == 24 || q == 25 || q == 26 || q == 27 || q == 28 || q == 29 || q == 30 || q == 31 {
    } else if q == 32 || q == 33 || q == 34 || q == 35 || q == 36 || q == 37 || q == 38 || q == 39 {
    } else if q == 40 || q == 41 || q == 42 || q == 43 || q == 44 || q == 45 || q == 46 || q == 47 {
    } else {
        assert(q == 48 || q == 49 || q == 50 || q == 51 || q == 52 || q == 53);
    }
}

/// Each bit of depth more doubles both thresholds.
pub proof fn law_depth_doubles_the_thresholds(q: int, bit_depth: int)
    requires
        8 <= bit_depth,
    ensures
        deblock::beta_of(q, bit_depth + 1) == 2 * deblock::beta_of(q, bit_depth),
        deblock::tc_of(q, bit_depth + 1) == 2 * deblock::tc_of(q, bit_depth),
{
    lemma_pow2_unfold((bit_depth - 7) as nat);
    let p = pow2((bit_depth - 8) as nat) as int;
    let b = BETA_TABLE@[crate::arith::clip(0, 51, q)] as int;
    let t = TC_TABLE@[crate::arith::clip(0, 53, q + 2)] as int;
    assert(b * (2 * p) == 2 * (b * p) && t * (2 * p) == 2 * (t * p)) by (nonlinear_arith);
}

/// The sixth power.
pub open spec fn sixth_power(x: int) -> int {
    x * x * x * x * x * x
}

/// Of six parameters the steps are the integers nearest to 64 times two to the sixth parts,
/// the fifth being 64 itself; and each factor of the quantiser is the integer nearest to what
/// makes one with its step, in parts of two to the twentieth.
pub proof fn law_scales_are_nearest(k: int)
    requires
        0 <= k < 6,
    ensures
        ({
            let (d, q) = (DEQUANT_SCALE@[k] as int, QUANT_SCALE@[k] as int);
            let exact = 0x400_0000_0000 * pow2(k as nat);
            &&& 16 * sixth_power(2 * d - 1) < exact < 16 * sixth_power(2 * d + 1)
            &&& -d <= 2 * (q * d - 0x10_0000) <= d
        }),
{
    vstd::arithmetic::power2::lemma2_to64();
    let (d, q) = (DEQUANT_SCALE@[k] as int, QUANT_SCALE@[k] as int);
    assert(-d <= 2 * (q * d - 0x10_0000) <= d) by {
        if k == 0 {
            assert(26214 * d == q * d);
        } else if k == 1 {
            assert(23302 * d == q * d);
        } else if k == 2 {
            assert(20560 * d == q * d);
        } else if k == 3 {
            assert(18396 * d == q * d);
        } else if k == 4 {
            assert(16384 * d == q * d);
        } else {
            assert(14564 * d == q * d);
        }
    }
    if k == 0 {
        assert(sixth_power(79) == 243087455521 && sixth_power(81) == 282429536481);
    } else if k == 1 {
        assert(sixth_power(89) == 496981290961 && sixth_power(91) == 567869252041);
    } else if k == 2 {
        assert(sixth_power(101) == 1061520150601 && sixth_power(103) == 1194052296529);
    } else if k == 3 {
        assert(sixth_power(113) == 2081951752609 && sixth_power(115) == 2313060765625);
    } else if k == 4 {
        assert(sixth_power(127) == 4195872914689 && sixth_power(129) == 4608273662721);
    } else {
        assert(sixth_power(143) == 8550986578849 && sixth_power(145) == 9294114390625);
    }
}

/// Contexts start on a line in the quantisation parameter: its slope, in sixteenths, is a
/// multiple of five, its offset a multiple of eight, and it is held between 1 and 126. What is
/// 64 or more stands for a set bin, what is less for one that is not, and the farther it is
/// from the middle the more skewed it is.
pub proof fn law_contexts_start_on_a_line(m: int, n: int, qp: u8)
    requires
        0 <= m < 16,
        0 <= n < 16,
    ensures
        ({
            let entry = (16 * m + n) as u8;
            let p = CtxModel::pre_state(entry, qp);
            let first = CtxModel::initial(entry, qp);
            let rise = (5 * m - 45) * (if qp > 51 {
                51
            } else {
                qp as int
            });
            let line = p - (8 * n - 16);
            &&& 1 <= p <= 126
            &&& p > 1 ==> 16 * line <= rise
            &&& p < 126 ==> rise < 16 * line + 16
            &&& first.val_mps == 1 <==> p >= 64
            &&& first.val_mps == 1 ==> p == 64 + first.p_state_idx
            &&& first.val_mps != 1 ==> p == 63 - first.p_state_idx && first.val_mps == 0
        }),
{
    let entry = (16 * m + n) as u8;
    let (a, b) = (entry as int / 16, entry as int % 16);
    assert(a == m && b == n);
    let q = if qp > 51 {
        51
    } else {
        qp as int
    };
    assert((a * 5 - 45) * q == (5 * m - 45) * q) by (nonlinear_arith)
        requires
            a == m,
    ;
}

/// A quality under 50 scales the steps by the hundredfold of how often it goes into 50, one of
/// 50 or more by twice what is missing to 100, in parts of 100; a scaled step is the nearest,
/// from 1 to 255.
pub proof fn law_steps_scale_with_the_quality(base: int, quality: int)
    requires
        1 <= quality <= 100,
        0 <= base,
    ensures
        ({
            let scale = dct::quality_scale(quality);
            let step = dct::scaled_step(base, quality);
            &&& quality < 50 ==> scale * quality <= 5000 < scale * quality + quality
            &&& quality >= 50 ==> scale == 2 * (100 - quality)
            &&& 1 <= step <= 255
            &&& step > 1 ==> 100 * step - base * scale <= 50
            &&& step < 255 ==> 100 * step - base * scale > -50
        }),
{
    let scale = dct::quality_scale(quality);
    if quality < 50 {
        vstd::arithmetic::div_mod::lemma_fundamental_div_mod(5000, quality);
        vstd::arithmetic::div_mod::lemma_mod_bound(5000, quality);
        assert(quality * (5000int / quality) == scale * quality) by (nonlinear_arith)
            requires
                scale == 5000int / quality,
        ;
    }
}

} // verus!
