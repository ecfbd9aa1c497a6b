//! Quantisation parameters that differ between coding tree units.
use crate::arith;
use crate::arith::clip3;
use crate::bitseq;
use crate::bitwriter;
use crate::cabac::bins;
use crate::cabac::coder::Coder;
use crate::cabac::contexts;
use crate::cabac::engine::CabacWriter;
use crate::params::activity_aq_enabled;
use crate::params;
use vstd::prelude::*;

verus! {

/// The quantisation parameter of one group of coding units: whether it is coded at
/// all, what it is predicted from, what it shall be, and whether it has been coded.
#[derive(Clone, Copy, Debug)]
pub struct AqCtuState {
    pub enabled: bool,
    pub predictor: u8,
    pub target: u8,
    pub coded: bool,
}

impl AqCtuState {
    /// The parameter that a decoder uses.
    pub open spec fn resolved(self) -> u8 {
        if !self.enabled || self.coded {
            self.target
        } else {
            self.predictor
        }
    }

    /// The parameter in force after the unit.
    pub fn resolved_qp(self) -> (r: u8)
        ensures
            r == self.resolved(),
    {
        if !self.enabled || self.coded {
            self.target
        } else {
            self.predictor
        }
    }
}

/// The parameter of a coding tree unit: that of the slice moved by the unit's
/// offset where parameters differ between units.
pub open spec fn target_of(qp: int, offset: int, lossless: bool) -> int {
    if params::aq_on(qp, lossless) {
        arith::clip(0, 51, qp + offset)
    } else {
        qp
    }
}

/// The parameter that an offset asks of a coding tree unit.
pub fn target_qp(qp: u8, offset: i8, lossless: bool) -> (r: u8)
    ensures
        r == target_of(qp as int, offset as int, lossless),
{
    if activity_aq_enabled(qp, lossless) {
        clip3(0, 51, qp as i32 + offset as i32) as u8
    } else {
        qp
    }
}

/// Place of the highest set bit.
fn log2_of(v: u32) -> (r: u32)
    ensures
        r == bitwriter::log2_floor(v as int),
        r <= 31,
{
    let mut x: u32 = v;
    let mut k: u32 = 0;
    assert(vstd::arithmetic::power2::pow2(0) == 1) by {
        vstd::arithmetic::power2::lemma2_to64();
    }
    while x > 1
        invariant
            k + bitwriter::log2_floor(x as int) == bitwriter::log2_floor(v as int),
            k <= 31,
            x * vstd::arithmetic::power2::pow2(k as nat) <= v,
        decreases x,
    {
        proof {
            let p = vstd::arithmetic::power2::pow2(k as nat);
            vstd::arithmetic::power2::lemma_pow2_unfold((k + 1) as nat);
            assert((x / 2) * (2 * p) <= x * p) by (nonlinear_arith)
                requires
                    0 <= p,
                    0 <= x,
            ;
            assert((x as int / 2) * vstd::arithmetic::power2::pow2((k + 1) as nat) <= v);
            if k == 31 {
                vstd::arithmetic::power2::lemma2_to64();
                assert(2 * p <= x * p) by (nonlinear_arith)
                    requires
                        2 <= x,
                        0 <= p,
                ;
            }
        }
        x = x / 2;
        k += 1;
    }
    k
}

/// A run of set equally probable bins.
pub open spec fn ones(n: int) -> Seq<bins::Bin> {
    Seq::new(n as nat, |i: int| bins::plain(true))
}

/// The bins of the magnitude of a parameter difference: up to five counted with
/// contexts, the rest as an exponential code.
pub open spec fn abs_bins(abs: int) -> Seq<bins::Bin> {
    let prefix = if abs < 5 {
        abs
    } else {
        5
    };
    let counted = Seq::new(
        prefix as nat,
        |i: int|
            bins::coded(
                contexts::CU_QP_DELTA + if i == 0 {
                    0int
                } else {
                    1
                },
                true,
            ),
    );
    if prefix < 5 {
        counted + seq![
            bins::coded(
                contexts::CU_QP_DELTA + if prefix == 0 {
                    0int
                } else {
                    1
                },
                false,
            ),
        ]
    } else {
        let value = abs - 4;
        let order = bitwriter::log2_floor(value);
        counted + ones(order) + seq![bins::plain(false)] + bins::plain_bits(
            bitseq::low_bits(value, order),
        )
    }
}

/// Magnitude.
pub open spec fn abs(x: int) -> int {
    if x < 0 {
        -x
    } else {
        x
    }
}

/// The bins of a parameter difference.
pub open spec fn delta_bins(delta: int) -> Seq<bins::Bin> {
    if delta == 0 {
        abs_bins(0)
    } else {
        abs_bins(abs(delta)) + seq![bins::plain(delta < 0)]
    }
}

/// What coding the parameter of a group says, if it has to be coded.
#[verifier::opaque]
pub open spec fn qp_bins(aq: AqCtuState, needed: bool) -> Seq<bins::Bin> {
    if needed && aq.enabled && !aq.coded {
        delta_bins(aq.target - aq.predictor)
    } else {
        Seq::empty()
    }
}

/// The state of a group after its parameter was coded, if it had to be.
pub open spec fn qp_after(aq: AqCtuState, needed: bool) -> AqCtuState {
    if needed && aq.enabled {
        AqCtuState { coded: true, ..aq }
    } else {
        aq
    }
}

fn encode_abs<W: CabacWriter>(c: &mut Coder<W>, abs: u32)
    requires
        old(c).wf(),
        abs <= 255,
    ensures
        final(c).wf(),
        final(c).adds(*old(c), abs_bins(abs as int)),
{
    let ghost s0 = c.said();
    let prefix: u32 = if abs < 5 {
        abs
    } else {
        5
    };
    let ghost counted = Seq::new(
        prefix as nat,
        |i: int|
            bins::coded(
                contexts::CU_QP_DELTA + if i == 0 {
                    0int
                } else {
                    1
                },
                true,
            ),
    );
    assert(c.said() =~= s0 + counted.take(0));
    for i in 0..prefix
        invariant
            c.wf(),
            prefix <= 5,
            counted.len() == prefix,
            forall|k: int|
                0 <= k < prefix ==> #[trigger] counted[k] == bins::coded(
                    contexts::CU_QP_DELTA + if k == 0 {
                        0int
                    } else {
                        1
                    },
                    true,
                ),
            c.adds(*old(c), counted.take(i as int)),
            s0 == old(c).said(),
    {
        c.cu_qp_delta_bin(if i == 0 { 0 } else { 1 }, true);
        assert(c.said() =~= s0 + counted.take(i + 1));
    }
    assert(counted.take(prefix as int) =~= counted);
    if prefix < 5 {
        c.cu_qp_delta_bin(if prefix == 0 { 0 } else { 1 }, false);
        assert(c.said() =~= s0 + abs_bins(abs as int));
    } else {
        let value: u32 = abs - 4;
        let order: u32 = log2_of(value);
        let ghost s1 = c.said();
        for i in 0..order
            invariant
                c.wf(),
                c.said() == s1 + ones(i as int),
                c.log0 == old(c).log0,
                c.bank0 == old(c).bank0,
        {
            c.plain(true);
            assert(c.said() =~= s1 + ones(i + 1));
        }
        c.plain(false);
        c.plain_bits(value, order);
        assert(c.said() =~= s0 + abs_bins(abs as int));
    }
}

/// Codes the parameter of a group if it has to be coded and has not been yet.
pub fn encode_cu_qp_delta_if_needed<W: CabacWriter>(
    c: &mut Coder<W>,
    aq: &mut AqCtuState,
    need_qp: bool,
)
    requires
        old(c).wf(),
    ensures
        final(c).wf(),
        final(c).adds(*old(c), qp_bins(*old(aq), need_qp)),
        *final(aq) == qp_after(*old(aq), need_qp),
{
    proof {
        reveal(qp_bins);
    }
    if need_qp {
        encode_cu_qp_delta(c, aq);
    } else {
        assert(c.said() =~= old(c).said() + qp_bins(*old(aq), need_qp));
    }
}

/// Codes the parameter of a group unless it has been coded.
pub fn encode_cu_qp_delta<W: CabacWriter>(c: &mut Coder<W>, aq: &mut AqCtuState)
    requires
        old(c).wf(),
    ensures
        final(c).wf(),
        final(c).adds(*old(c), qp_bins(*old(aq), true)),
        *final(aq) == qp_after(*old(aq), true),
{
    let ghost s0 = c.said();
    proof {
        reveal(qp_bins);
    }
    if !aq.enabled || aq.coded {
        assert(c.said() =~= s0 + qp_bins(*old(aq), true));
        return ;
    }
    let delta: i32 = aq.target as i32 - aq.predictor as i32;
    let abs: u32 = if delta < 0 {
        (-delta) as u32
    } else {
        delta as u32
    };
    encode_abs(c, abs);
    if abs != 0 {
        c.plain(delta < 0);
    }
    assert(c.said() =~= s0 + delta_bins(delta as int));
    aq.coded = true;
}

} // verus!
