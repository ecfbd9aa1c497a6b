//! How many bits coded bins take, without coding them.
use crate::cabac::engine::{CabacWriter, CtxModel};
use crate::cabac::{engine, interval, single};
use vstd::prelude::*;

verus! {

/// What the more probable value takes, by probability state, in steps of two to the power
/// of -30 of a bit.
pub const EST_BITS_MPS: [u64; 64] = [
    0x3d96_5f40, 0x3a17_bd80, 0x3700_25c0, 0x3384_8c00, 0x2ff8_ec00, 0x2cec_e580, 0x29ef_d000, 0x2756_abc0,
    0x24f7_5540, 0x22a7_32c0, 0x2065_8c40, 0x1e8a_7620, 0x1cb8_bf00, 0x1b00_8a60, 0x1979_3de0, 0x17fd_2640,
    0x1682_5180, 0x1548_ade0, 0x1416_6160, 0x12e4_d1a0, 0x11f3_6f00, 0x10dc_fcc0, 0x1001_bca0, 0xf10_4920,
    0xe37_0480, 0xd75_6430, 0xcc0_7ee0, 0xc0f_ece0, 0xb60_aa60, 0xad9_c6b0, 0xa2c_c710, 0x9b5_5260,
    0x91a_2620, 0x8a4_0d90, 0x82a_77a0, 0x7b5_9148, 0x762_d840, 0x701_0c70, 0x69c_e4a8, 0x63b_ea90,
    0x5f7_a0b8, 0x5a6_71f0, 0x553_8690, 0x502_e668, 0x4bf_8768, 0x491_eea8, 0x44e_df60, 0x40b_fe38,
    0x3de_bd90, 0x3ad_aba0, 0x380_9918, 0x34d_09a0, 0x331_8b94, 0x2ef_7c24, 0x2d4_1744, 0x2ad_96a8,
    0x281_01f4, 0x25f_3d7c, 0x250_a890, 0x232_ce88, 0x20f_3884, 0x1f1_6f44, 0x1d6_5a14, 0x80_2c0a,
];

/// What the less probable value takes, by probability state.
pub const EST_BITS_LPS: [u64; 64] = [
    0x427a_3580, 0x464f_ad00, 0x49f8_e380, 0x4e6f_fc00, 0x5368_1680, 0x5811_c280, 0x5d0c_4980, 0x61bf_ca80,
    0x6663_4980, 0x6b45_9980, 0x706d_c180, 0x7500_0400, 0x79cf_3e00, 0x7eb1_7d00, 0x8358_8200, 0x882e_5e00,
    0x8d59_f300, 0x91ee_2d00, 0x96b2_5700, 0x9bc6_eb00, 0xa00c_5200, 0xa54a_ed00, 0xa9b0_9a00, 0xaed6_bf00,
    0xb3c7_a400, 0xb875_b800, 0xbd18_3700, 0xc1e4_4300, 0xc6f3_a100, 0xcb12_6200, 0xd0ad_5800, 0xd4c8_6900,
    0xda70_0900, 0xdf03_3e00, 0xe3ff_b000, 0xe916_4000, 0xece1_a400, 0xf198_9100, 0xf6b5_e100, 0xfbf8_4d00,
    0xffe0_1100, 0x1_04c2_b000, 0x1_0a0d_0a00, 0x1_0f85_ca00, 0x1_145f_a200, 0x1_17d0_dc00, 0x1_1d22_d600, 0x1_22c8_2200,
    0x1_26d1_7800, 0x1_2b69_ae00, 0x1_2fda_be00, 0x1_3538_e200, 0x1_3839_1e00, 0x1_3fe0_1200, 0x1_433f_fa00, 0x1_4838_2600,
    0x1_4e57_9a00, 0x1_5345_9a00, 0x1_557d_1800, 0x1_5a34_0a00, 0x1_602a_4a00, 0x1_6579_8000, 0x1_6a97_e200, 0x1_e1f8_0200,
];

/// What a symbol takes.
pub open spec fn symbol_rate(s: interval::Symbol) -> int {
    match s.kind {
        interval::Kind::Regular { state, mps } => if s.bin == mps {
            EST_BITS_MPS@[state as int] as int
        } else {
            EST_BITS_LPS@[state as int] as int
        },
        _ => single::ONE as int,
    }
}

/// What symbols take together after `start`, added up one after another in single
/// precision.
pub open spec fn rate_on(start: int, log: Seq<interval::Symbol>) -> int
    decreases log.len(),
{
    if log.len() == 0 {
        start
    } else {
        single::plus(rate_on(start, log.drop_last()), symbol_rate(log.last()))
    }
}

/// What symbols take together.
pub open spec fn rate(log: Seq<interval::Symbol>) -> int {
    rate_on(0, log)
}

impl CtxModel {
    /// What `bin` (only bit 0 counts) takes with this model.
    pub fn estimated_bits(self, bin: u8) -> (r: u64)
        requires
            self.wf(),
        ensures
            r == symbol_rate(self.symbol(bin % 2 == 1)),
            0 < r <= 8 * single::ONE,
    {
        proof {
            lemma_tables();
        }
        let state: usize = self.p_state_idx as usize;
        if bin % 2 == self.val_mps {
            EST_BITS_MPS[state]
        } else {
            EST_BITS_LPS[state]
        }
    }

    /// What `bin` takes; the model moves to its next state.
    pub fn estimate_and_update(&mut self, bin: u8) -> (r: u64)
        requires
            old(self).wf(),
        ensures
            r == symbol_rate(old(self).symbol(bin % 2 == 1)),
            0 < r <= 8 * single::ONE,
            *final(self) == old(self).after(bin % 2 == 1),
            final(self).wf(),
    {
        let bits: u64 = self.estimated_bits(bin);
        self.update(bin);
        bits
    }
}

/// No value takes more than eight bits, and none takes nothing.
proof fn lemma_tables()
    ensures
        forall|i: int|
            0 <= i < 64 ==> 0 < #[trigger] EST_BITS_MPS@[i] < EST_BITS_LPS@[i] <= 8 * single::ONE,
        forall|i: int| 0 <= i < 64 ==> 0 < #[trigger] EST_BITS_LPS@[i] <= 8 * single::ONE,
{
}

/// A sink that follows the probability models and counts the bits.
pub struct CabacEstimator {
    bits: u64,
    written: Ghost<Seq<interval::Symbol>>,
}

impl CabacEstimator {
    /// A sink that has seen no bins.
    pub fn new() -> (r: Self)
        ensures
            r.log() == Seq::<interval::Symbol>::empty(),
            r.ready(),
    {
        CabacEstimator { bits: 0, written: Ghost(Seq::empty()) }
    }

    /// What the bins so far take, in steps of two to the power of -30 of a bit.
    pub fn bits(&self) -> (r: u64)
        requires
            self.ready(),
        ensures
            r == rate(self.log()),
            r <= single::MOST,
    {
        self.bits
    }

    fn count(&mut self, bits: u64, Ghost(s): Ghost<interval::Symbol>)
        requires
            old(self).ready(),
            bits == symbol_rate(s),
            bits <= 8 * single::ONE,
        ensures
            final(self).ready(),
            final(self).log() == old(self).log().push(s),
    {
        proof {
            assert(self.written@.push(s).drop_last() =~= self.written@);
            self.written@ = self.written@.push(s);
            single::lemma_plus_most(self.bits as int, bits as int);
        }
        self.bits = single::add_single(self.bits, bits);
    }
}

impl CabacWriter for CabacEstimator {
    closed spec fn log(&self) -> Seq<interval::Symbol> {
        self.written@
    }

    closed spec fn ready(&self) -> bool {
        self.bits == rate(self.written@) && self.bits <= single::MOST
    }

    fn encode_bin(&mut self, bin_val: u8, ctx: &mut CtxModel) {
        let ghost s = ctx.symbol(bin_val % 2 == 1);
        let bits: u64 = ctx.estimate_and_update(bin_val);
        self.count(bits, Ghost(s));
    }

    fn encode_bypass(&mut self, bin_val: u8) {
        let ghost s = engine::bypass(bin_val != 0);
        self.count(single::ONE, Ghost(s));
    }
}

/// Counting goes on from where it stands.
pub proof fn law_counting_goes_on(
    start: int,
    a: Seq<interval::Symbol>,
    b: Seq<interval::Symbol>,
)
    ensures
        rate_on(start, a + b) == rate_on(rate_on(start, a), b),
    decreases b.len(),
{
    if b.len() == 0 {
        assert(a + b =~= a);
    } else {
        law_counting_goes_on(start, a, b.drop_last());
        assert((a + b).drop_last() =~= a + b.drop_last());
        assert((a + b).last() == b.last());
    }
}

/// Every symbol takes bits: a value that its model makes less probable takes more
/// than one that it makes more probable, and no bin is free.
pub proof fn law_the_less_probable_value_costs_more(m: CtxModel)
    requires
        m.wf(),
    ensures
        0 < symbol_rate(m.symbol(m.val_mps == 1)) < symbol_rate(m.symbol(m.val_mps != 1)),
{
    lemma_tables();
}

} // verus!
