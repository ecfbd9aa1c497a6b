//! The arithmetic coder and the probability models that drive it.
use crate::arith;
use crate::bitseq;
use crate::cabac::interval;
use vstd::arithmetic::power2::*;
use vstd::prelude::*;

verus! {

/// Width of the less probable sub-interval, by probability state and by the
/// quarter of the current range.
pub const RANGE_TAB_LPS: [[u8; 4]; 64] = [
    [128, 176, 208, 240], [128, 167, 197, 227], [128, 158, 187, 216], [123, 150, 178, 205],
    [116, 142, 169, 195], [111, 135, 160, 185], [105, 128, 152, 175], [100, 122, 144, 166],
    [95, 116, 137, 158], [90, 110, 130, 150], [85, 104, 123, 142], [81, 99, 117, 135],
    [77, 94, 111, 128], [73, 89, 105, 122], [69, 85, 100, 116], [66, 80, 95, 110],
    [62, 76, 90, 104], [59, 72, 86, 99], [56, 69, 81, 94], [53, 65, 77, 89],
    [51, 62, 73, 85], [48, 59, 69, 80], [46, 56, 66, 76], [43, 53, 63, 72],
    [41, 50, 59, 69], [39, 48, 56, 65], [37, 45, 54, 62], [35, 43, 51, 59],
    [33, 41, 48, 56], [32, 39, 46, 53], [30, 37, 43, 50], [29, 35, 41, 48],
    [27, 33, 39, 45], [26, 31, 37, 43], [24, 30, 35, 41], [23, 28, 33, 39],
    [22, 27, 32, 37], [21, 26, 30, 35], [20, 24, 29, 33], [19, 23, 27, 31],
    [18, 22, 26, 30], [17, 21, 25, 28], [16, 20, 23, 27], [15, 19, 22, 25],
    [14, 18, 21, 24], [14, 17, 20, 23], [13, 16, 19, 22], [12, 15, 18, 21],
    [12, 14, 17, 20], [11, 14, 16, 19], [11, 13, 15, 18], [10, 12, 15, 17],
    [10, 12, 14, 16], [9, 11, 13, 15], [9, 11, 12, 14], [8, 10, 12, 14],
    [8, 9, 11, 13], [7, 9, 11, 12], [7, 9, 10, 12], [7, 8, 10, 11],
    [6, 8, 9, 11], [6, 7, 9, 10], [6, 7, 8, 9], [2, 2, 2, 2],
];

/// Next probability state after the more probable value.
pub const TRANS_IDX_MPS: [u8; 64] = [
    1, 2, 3, 4, 5, 6, 7, 8, 9, 10, 11, 12, 13, 14, 15, 16,
    17, 18, 19, 20, 21, 22, 23, 24, 25, 26, 27, 28, 29, 30, 31, 32,
    33, 34, 35, 36, 37, 38, 39, 40, 41, 42, 43, 44, 45, 46, 47, 48,
    49, 50, 51, 52, 53, 54, 55, 56, 57, 58, 59, 60, 61, 62, 62, 63,
];

/// Next probability state after the less probable value.
pub const TRANS_IDX_LPS: [u8; 64] = [
    0, 0, 1, 2, 2, 4, 4, 5, 6, 7, 8, 9, 9, 11, 11, 12,
    13, 13, 15, 15, 16, 16, 18, 18, 19, 19, 21, 21, 22, 22, 23, 24,
    24, 25, 26, 26, 27, 27, 28, 29, 29, 30, 30, 30, 31, 32, 32, 33,
    33, 33, 34, 34, 35, 35, 35, 36, 36, 36, 37, 37, 37, 38, 38, 63,
];

/// The probability model of one context: how skewed it is, and towards which
/// value.
#[derive(Clone, Copy, Debug, PartialEq, Eq, Structural)]
pub struct CtxModel {
    pub p_state_idx: u8,
    pub val_mps: u8,
}

impl CtxModel {
    /// The state index and the more probable value are in range.
    pub open spec fn wf(self) -> bool {
        self.p_state_idx < 64 && self.val_mps < 2
    }

    /// The model after `bin` was coded with it.
    pub open spec fn after(self, bin: bool) -> CtxModel {
        if bin == (self.val_mps == 1) {
            CtxModel { p_state_idx: TRANS_IDX_MPS@[self.p_state_idx as int], ..self }
        } else {
            CtxModel {
                p_state_idx: TRANS_IDX_LPS@[self.p_state_idx as int],
                val_mps: if self.p_state_idx == 0 {
                    (1 - self.val_mps) as u8
                } else {
                    self.val_mps
                },
            }
        }
    }

    /// A model that can still adapt stays so; its more probable value changes exactly
    /// where the other one is coded while both are equally probable.
    pub proof fn law_models_keep_adapting(self, bin: bool)
        requires
            self.wf(),
            self.p_state_idx <= 62,
        ensures
            self.after(bin).wf(),
            self.after(bin).p_state_idx <= 62,
            self.after(bin).val_mps != self.val_mps <==> bin != (self.val_mps == 1)
                && self.p_state_idx == 0,
    {
        assert(forall|i: int| 0 <= i < 63 ==> #[trigger] TRANS_IDX_MPS@[i] <= 62);
        assert(forall|i: int| 0 <= i < 63 ==> #[trigger] TRANS_IDX_LPS@[i] <= 62);
    }

    /// The symbol that stands for `bin` coded with this model.
    pub open spec fn symbol(self, bin: bool) -> interval::Symbol {
        interval::Symbol {
            kind: interval::Kind::Regular { state: self.p_state_idx, mps: self.val_mps == 1 },
            bin,
        }
    }

    /// The probability state before it is split into skew and direction, for a
    /// context whose table entry is `init_value`.
    pub open spec fn pre_state(init_value: u8, qp: u8) -> int {
        let slope = (init_value as int / 16) * 5 - 45;
        let offset = (init_value as int % 16) * 8 - 16;
        let qpc = if qp > 51 { 51 } else { qp as int };
        let pre = (slope * qpc) / 16 + offset;
        if pre < 1 {
            1
        } else if pre > 126 {
            126
        } else {
            pre
        }
    }

    /// The model that `init` makes.
    pub open spec fn initial(init_value: u8, qp: u8) -> CtxModel {
        let pre = CtxModel::pre_state(init_value, qp);
        if pre >= 64 {
            CtxModel { p_state_idx: (pre - 64) as u8, val_mps: 1 }
        } else {
            CtxModel { p_state_idx: (63 - pre) as u8, val_mps: 0 }
        }
    }

    /// Moves the model to its next state after `bin` (only bit 0 counts).
    pub fn update(&mut self, bin: u8)
        requires
            old(self).wf(),
        ensures
            *final(self) == old(self).after(bin % 2 == 1),
            final(self).wf(),
    {
        let state: usize = self.p_state_idx as usize;
        if bin % 2 == self.val_mps {
            self.p_state_idx = TRANS_IDX_MPS[state];
        } else {
            if self.p_state_idx == 0 {
                self.val_mps = 1 - self.val_mps;
            }
            self.p_state_idx = TRANS_IDX_LPS[state];
        }
    }

    /// The initial model of a context, from its table entry and the slice QP.
    pub fn init(init_value: u8, qp: u8) -> (r: CtxModel)
        ensures
            r == CtxModel::initial(init_value, qp),
            r.wf(),
            r.p_state_idx <= 62,
    {
        let slope: i32 = (init_value / 16) as i32 * 5 - 45;
        let offset: i32 = (init_value % 16) as i32 * 8 - 16;
        let qpc: i32 = if qp > 51 {
            51
        } else {
            qp as i32
        };
        assert(-45 * 51 <= slope * qpc <= 30 * 51) by (nonlinear_arith)
            requires
                -45 <= slope <= 30,
                0 <= qpc <= 51,
        ;
        proof {
            lemma2_to64();
        }
        let pre: i32 = arith::shr_i32(slope * qpc, 4) + offset;
        let pre: i32 = if pre < 1 {
            1
        } else if pre > 126 {
            126
        } else {
            pre
        };
        if pre >= 64 {
            CtxModel { p_state_idx: (pre - 64) as u8, val_mps: 1 }
        } else {
            CtxModel { p_state_idx: (63 - pre) as u8, val_mps: 0 }
        }
    }

    /// A model in a given state.
    pub fn fixed(p: u8, m: u8) -> (r: CtxModel)
        ensures
            r == (CtxModel { p_state_idx: p, val_mps: m }),
    {
        CtxModel { p_state_idx: p, val_mps: m }
    }
}

/// The symbol that stands for an equally probable `bin`.
pub open spec fn bypass(bin: bool) -> interval::Symbol {
    interval::Symbol { kind: interval::Kind::Bypass, bin }
}

/// The symbol that stands for an end-of-data flag.
pub open spec fn terminate(bin: bool) -> interval::Symbol {
    interval::Symbol { kind: interval::Kind::Terminate, bin }
}

/// Where coded bins go: the arithmetic coder, or a sink that only follows the
/// probability models.
pub trait CabacWriter: Sized {
    /// The symbols written so far.
    spec fn log(&self) -> Seq<interval::Symbol>;

    /// More symbols can be written.
    spec fn ready(&self) -> bool;

    /// Codes `bin_val` (only bit 0 counts) with `ctx` and adapts the model.
    fn encode_bin(&mut self, bin_val: u8, ctx: &mut CtxModel)
        requires
            old(self).ready(),
            old(ctx).wf(),
        ensures
            final(self).ready(),
            final(self).log() == old(self).log().push(old(ctx).symbol(bin_val % 2 == 1)),
            *final(ctx) == old(ctx).after(bin_val % 2 == 1),
            final(ctx).wf(),
    ;

    /// Codes a bin whose two values are equally probable.
    fn encode_bypass(&mut self, bin_val: u8)
        requires
            old(self).ready(),
        ensures
            final(self).ready(),
            final(self).log() == old(self).log().push(bypass(bin_val != 0)),
    ;
}

/// A sink that follows the probability models and writes nothing.
pub struct CabacContextUpdater {
    written: Ghost<Seq<interval::Symbol>>,
}

impl CabacContextUpdater {
    /// A sink that has seen no bins.
    pub fn new() -> (r: Self)
        ensures
            r.log() == Seq::<interval::Symbol>::empty(),
            r.ready(),
    {
        CabacContextUpdater { written: Ghost(Seq::empty()) }
    }
}

impl CabacWriter for CabacContextUpdater {
    closed spec fn log(&self) -> Seq<interval::Symbol> {
        self.written@
    }

    closed spec fn ready(&self) -> bool {
        true
    }

    fn encode_bin(&mut self, bin_val: u8, ctx: &mut CtxModel) {
        proof {
            self.written@ = self.written@.push(ctx.symbol(bin_val % 2 == 1));
        }
        ctx.update(bin_val);
    }

    fn encode_bypass(&mut self, bin_val: u8) {
        proof {
            self.written@ = self.written@.push(bypass(bin_val != 0));
        }
    }
}

/// The arithmetic coder: a 10-bit `low` register, the current range, and the
/// bits whose value a later carry may still flip.
pub struct CabacEncoder {
    low: u32,
    m_range: u32,
    /// One entry for each pending carry-dependent bit.
    bits_outstanding: Vec<()>,
    /// The next resolved bit is the first one, which is not written.
    first_bit: bool,
    bit_buffer: u8,
    bit_count: u8,
    output: Vec<u8>,
    written: Ghost<Seq<interval::Symbol>>,
}

/// The number held by resolved bits that spell `e`, by `out` pending bits and by
/// the register `reg`.
pub open spec fn held(e: int, out: nat, reg: int) -> int {
    1024 * (e * pow2(out)) + 512 * (pow2(out) - 1) + reg
}

/// Resolving the pending bits, while the held number doubles and grows by `x`.
proof fn lemma_resolve(e: int, out: nat, reg: int, x: int, b: bool)
    ensures
        2 * held(e, out, reg) + x == held(
            (2 * e + bitseq::bit(b)) * pow2(out) + (if b {
                0
            } else {
                pow2(out) - 1
            }),
            0,
            2 * reg + x - 1024 * bitseq::bit(b),
        ),
{
    lemma2_to64();
    let p = pow2(out) as int;
    let e2 = (2 * e + bitseq::bit(b)) * p + (if b {
        0
    } else {
        p - 1
    });
    assert((2 * e + bitseq::bit(b)) * p == 2 * (e * p) + bitseq::bit(b) * p) by (nonlinear_arith);
    assert(bitseq::bit(b) * p == if b { p } else { 0 });
    assert(e2 * 1 == e2);
}

/// Deferring one more bit, while the held number doubles and grows by `x`.
proof fn lemma_defer(e: int, out: nat, reg: int, x: int)
    ensures
        2 * held(e, out, reg) + x == held(e, out + 1, 2 * reg + x - 512),
{
    lemma_pow2_unfold(out + 1);
    let p = pow2(out) as int;
    assert(e * (2 * p) == 2 * (e * p)) by (nonlinear_arith);
}

/// Bytes go on from others.
pub open spec fn grown(before: Seq<u8>, now: Seq<u8>) -> bool {
    &&& before.len() <= now.len()
    &&& forall|i: int| 0 <= i < before.len() ==> #[trigger] now[i] == before[i]
}

impl CabacEncoder {
    /// The lower end of the interval, as far as it is not written.
    pub closed spec fn register(&self) -> int {
        self.low as int
    }

    /// The width of the interval.
    pub closed spec fn range(&self) -> int {
        self.m_range as int
    }

    /// The whole bytes written so far.
    pub closed spec fn bytes(&self) -> Seq<u8> {
        self.output@
    }

    /// As long as more symbols can be written the registers hold a renormalised
    /// interval.
    pub proof fn law_registers_stay_in_range(&self)
        requires
            self.ready(),
        ensures
            256 <= self.range() <= 510,
            0 <= self.register(),
            self.register() + self.range() <= 1024,
    {
    }

    /// The resolved bits, without the first one.
    pub closed spec fn bits(&self) -> Seq<bool> {
        bitseq::of_bytes(self.output@) + bitseq::low_bits(
            self.bit_buffer as int,
            self.bit_count as int,
        )
    }

    /// The interval that the registers and the resolved bits hold.
    spec fn interval(&self) -> interval::Interval {
        interval::Interval {
            low: held(bitseq::value(self.bits()), self.bits_outstanding@.len(), self.low as int),
            range: self.m_range as int,
            shifts: self.bits_outstanding@.len() + (if self.first_bit {
                0
            } else {
                self.bits().len() + 1
            }),
        }
    }

    /// The partial byte is in range, and there is none before the first bit.
    spec fn sane(&self) -> bool {
        &&& self.bit_count < 8
        &&& self.bit_buffer < pow2(self.bit_count as nat)
        &&& self.first_bit ==> self.bit_count == 0 && self.output@.len() == 0
    }

    /// The registers hold an interval of positive width inside the starting one.
    spec fn holds(&self) -> bool {
        &&& self.sane()
        &&& 0 < self.m_range <= 510
        &&& self.low + self.m_range <= 1024
        &&& interval::fits(self.interval())
    }

    /// The end-of-data flag has been set and the code is complete.
    pub open spec fn closed(&self) -> bool {
        self.log().len() > 0 && interval::ends(self.log().last())
    }

    /// The coder's state is the one that its log of symbols leads to.
    pub closed spec fn wf(&self) -> bool {
        &&& self.sane()
        &&& interval::legal_log(self.log())
        &&& if self.closed() {
            self.bits() == interval::codeword(self.log())
        } else {
            &&& self.holds()
            &&& self.m_range >= 256
            &&& self.interval() == interval::encode(self.log())
        }
    }

    /// Only symbols that can be coded were written, and none after the end.
    pub proof fn lemma_legal(&self)
        requires
            self.wf(),
        ensures
            interval::legal_log(self.log()),
    {
    }

    /// A coder that has written nothing.
    pub fn new() -> (r: Self)
        ensures
            r.ready(),
            r.log() == Seq::<interval::Symbol>::empty(),
    {
        let r = CabacEncoder {
            low: 0,
            m_range: 510,
            bits_outstanding: Vec::new(),
            first_bit: true,
            bit_buffer: 0,
            bit_count: 0,
            output: Vec::new(),
            written: Ghost(Seq::empty()),
        };
        proof {
            lemma2_to64();
            assert(r.bits() =~= Seq::empty());
        }
        r
    }

    /// Appends one bit.
    fn emit_bit(&mut self, b: bool)
        requires
            old(self).sane(),
            !old(self).first_bit,
        ensures
            final(self).sane(),
            final(self).bits() == old(self).bits().push(b),
            final(self).low == old(self).low,
            final(self).m_range == old(self).m_range,
            final(self).bits_outstanding == old(self).bits_outstanding,
            final(self).first_bit == old(self).first_bit,
            final(self).written == old(self).written,
            grown(old(self).output@, final(self).output@),
    {
        proof {
            lemma_pow2_unfold((self.bit_count + 1) as nat);
            lemma2_to64();
            if self.bit_count < 7 {
                lemma_pow2_strictly_increases(self.bit_count as nat, 7);
            }
            bitseq::lemma_low_bits_push(self.bit_buffer as int, self.bit_count as int, b);
        }
        let ghost all = self.bits().push(b);
        self.bit_buffer = self.bit_buffer * 2 + (if b {
            1
        } else {
            0
        });
        self.bit_count = self.bit_count + 1;
        assert(self.bits() =~= all);
        if self.bit_count == 8 {
            proof {
                bitseq::lemma_of_bytes_push(self.output@, self.bit_buffer);
            }
            self.output.push(self.bit_buffer);
            self.bit_buffer = 0;
            self.bit_count = 0;
            assert(bitseq::low_bits(0, 0) =~= Seq::empty());
            assert(self.bits() =~= all);
        }
    }

    /// Appends a resolved bit, and the opposite bit for each pending one.
    fn put_bit(&mut self, b: bool)
        requires
            old(self).sane(),
            old(self).first_bit ==> !b,
        ensures
            final(self).sane(),
            !final(self).first_bit,
            final(self).bits_outstanding@.len() == 0,
            final(self).bits().len() == old(self).bits().len() + old(self).bits_outstanding@.len()
                + (if old(self).first_bit { 0int } else { 1 }),
            bitseq::value(final(self).bits()) == (2 * bitseq::value(old(self).bits())
                + bitseq::bit(b)) * pow2(old(self).bits_outstanding@.len()) + (if b {
                0
            } else {
                pow2(old(self).bits_outstanding@.len()) - 1
            }),
            final(self).low == old(self).low,
            final(self).m_range == old(self).m_range,
            final(self).written == old(self).written,
            grown(old(self).output@, final(self).output@),
    {
        let ghost e0 = bitseq::value(self.bits());
        if self.first_bit {
            assert(self.bits() =~= Seq::empty());
            self.first_bit = false;
            assert(self.bits() =~= Seq::empty());
        } else {
            proof {
                bitseq::lemma_value_push(self.bits(), b);
            }
            self.emit_bit(b);
        }
        let ghost mid = self.bits();
        let ghost n = self.bits_outstanding@.len();
        assert(bitseq::value(mid) == 2 * e0 + bitseq::bit(b));
        assert(mid =~= mid + bitseq::run(!b, 0));
        while self.bits_outstanding.len() > 0
            invariant
                self.sane(),
                !self.first_bit,
                self.bits_outstanding@.len() <= n,
                self.bits() == mid + bitseq::run(!b, n - self.bits_outstanding@.len()),
                self.low == old(self).low,
                self.m_range == old(self).m_range,
                self.written == old(self).written,
                grown(old(self).output@, self.output@),
            decreases self.bits_outstanding@.len(),
        {
            self.emit_bit(!b);
            self.bits_outstanding.pop();
            assert(self.bits() =~= mid + bitseq::run(!b, n - self.bits_outstanding@.len()));
        }
        proof {
            bitseq::lemma_value_add(mid, bitseq::run(!b, n as int));
            bitseq::lemma_value_run(!b, n as int);
        }
    }

    /// Before the first bit is resolved, the registers stay below 512.
    proof fn lemma_first_bit(&self)
        requires
            self.holds(),
            self.first_bit,
        ensures
            self.low + self.m_range <= 510,
    {
        assert(self.bits() =~= Seq::empty());
        let p = pow2(self.bits_outstanding@.len()) as int;
        lemma_pow2_pos(self.bits_outstanding@.len());
        assert(0 * p == 0);
    }

    /// Doubles the interval until it is at least 256 wide, moving each decided
    /// bit out of the register.
    fn renorm(&mut self)
        requires
            old(self).holds(),
        ensures
            final(self).holds(),
            final(self).m_range >= 256,
            final(self).interval() == interval::renorm(old(self).interval()),
            final(self).written == old(self).written,
            grown(old(self).output@, final(self).output@),
    {
        while self.m_range < 256
            invariant
                self.holds(),
                interval::renorm(self.interval()) == interval::renorm(old(self).interval()),
                self.written == old(self).written,
                grown(old(self).output@, self.output@),
            decreases 512 - self.m_range,
        {
            let ghost before = self.interval();
            let ghost e = bitseq::value(self.bits());
            let ghost out = self.bits_outstanding@.len();
            let ghost reg = self.low as int;
            proof {
                lemma_pow2_unfold(before.shifts + 1);
                if self.first_bit {
                    self.lemma_first_bit();
                }
            }
            if self.low < 256 {
                proof {
                    lemma_resolve(e, out, reg, 0, false);
                }
                self.put_bit(false);
            } else if self.low >= 512 {
                proof {
                    lemma_resolve(e, out, reg, 0, true);
                }
                self.low = self.low - 512;
                self.put_bit(true);
            } else {
                proof {
                    lemma_defer(e, out, reg, 0);
                }
                self.low = self.low - 256;
                self.bits_outstanding.push(());
            }
            self.m_range = self.m_range * 2;
            self.low = self.low * 2;
            assert(self.interval().low == 2 * before.low);
        }
    }

    /// Codes the end-of-data flag; a set flag completes the code.
    pub fn encode_terminate(&mut self, flag: u8)
        requires
            old(self).ready(),
        ensures
            final(self).wf(),
            final(self).log() == old(self).log().push(terminate(flag != 0)),
            final(self).ready() == (flag == 0),
            grown(old(self).bytes(), final(self).bytes()),
    {
        let ghost s = terminate(flag != 0);
        let ghost before = self.interval();
        let ghost log = self.log();
        proof {
            interval::lemma_encode_push(log, s);
            interval::lemma_narrow(before, s);
            interval::lemma_legal_push(log, s);
            self.written@ = self.written@.push(s);
            assert(self.log().drop_last() =~= log);
        }
        self.m_range = self.m_range - 2;
        if flag != 0 {
            self.low = self.low + self.m_range;
            self.m_range = 2;
            assert(self.interval() == interval::narrow(before, s));
            self.flush();
        } else {
            assert(self.interval() == interval::narrow(before, s));
            self.renorm();
        }
    }

    /// Completes the code after a set end-of-data flag.
    fn flush(&mut self)
        requires
            old(self).holds(),
            old(self).m_range == 2,
        ensures
            final(self).sane(),
            ({
                let iv = old(self).interval();
                final(self).bits() == bitseq::low_bits(
                    if iv.low % 2 == 0 {
                        iv.low + 1
                    } else {
                        iv.low
                    },
                    iv.shifts as int + 9,
                )
            }),
            final(self).written == old(self).written,
            grown(old(self).output@, final(self).output@),
    {
        let ghost iv = self.interval();
        proof {
            reveal_with_fuel(interval::renorm, 9);
        }
        self.renorm();
        let ghost iv2 = self.interval();
        assert(iv2 == interval::Interval {
            low: 128 * iv.low,
            range: 256,
            shifts: iv.shifts + 7,
        });
        let ghost e = bitseq::value(self.bits());
        let ghost out = self.bits_outstanding@.len();
        let top: bool = self.low >= 512;
        let q: u32 = (self.low / 128) % 4;
        proof {
            if self.first_bit {
                self.lemma_first_bit();
            }
            lemma_resolve(e, out, self.low as int, 0, top);
        }
        self.put_bit(top);
        let ghost e1 = bitseq::value(self.bits());
        let ghost b1 = self.bits();
        assert(2 * iv2.low == held(e1, 0, 2 * self.low - 1024 * bitseq::bit(top)));
        proof {
            lemma2_to64();
            assert(e1 * 1 == e1);
        }
        assert(128 * iv.low == 512 * e1 + self.low - 512 * bitseq::bit(top));
        assert(self.low % 128 == 0);
        assert(iv.low == 4 * e1 + q);
        self.emit_bit(q >= 2);
        let ghost b2 = self.bits();
        self.emit_bit(true);
        proof {
            bitseq::lemma_value_push(b1, q >= 2);
            bitseq::lemma_value_push(b2, true);
            bitseq::lemma_bits_value(self.bits());
        }
    }

    /// The code as bytes, the last one filled up with zero bits.
    pub fn finish(self) -> (r: Vec<u8>)
        requires
            self.wf(),
        ensures
            r@.len() == (self.bits().len() + 7) / 8,
            bitseq::of_bytes(r@) == self.bits() + bitseq::run(
                false,
                8 * r@.len() - self.bits().len(),
            ),
            self.closed() ==> self.bits() == interval::codeword(self.log()),
    {
        let mut output = self.output;
        if self.bit_count > 0 {
            let pad: u8 = 8 - self.bit_count;
            proof {
                lemma2_to64();
                lemma_pow2_adds(self.bit_count as nat, pad as nat);
                lemma_pow2_pos(pad as nat);
                assert(self.bit_buffer * pow2(pad as nat) <= 255) by (nonlinear_arith)
                    requires
                        self.bit_buffer < pow2(self.bit_count as nat),
                        pow2(self.bit_count as nat) * pow2(pad as nat) == 256,
                        pow2(pad as nat) > 0,
                ;
                vstd::bits::lemma_u8_shl_is_mul(self.bit_buffer, pad);
                bitseq::lemma_low_bits_pad(
                    self.bit_buffer as int,
                    self.bit_count as int,
                    pad as int,
                );
                bitseq::lemma_of_bytes_push(output@, self.bit_buffer << pad);
            }
            output.push(self.bit_buffer << pad);
            assert(bitseq::of_bytes(output@) =~= self.bits() + bitseq::run(
                false,
                8 * output@.len() - self.bits().len(),
            ));
        } else {
            assert(bitseq::of_bytes(output@) =~= self.bits() + bitseq::run(
                false,
                8 * output@.len() - self.bits().len(),
            ));
        }
        output
    }
}

impl CabacWriter for CabacEncoder {
    closed spec fn log(&self) -> Seq<interval::Symbol> {
        self.written@
    }

    open spec fn ready(&self) -> bool {
        self.wf() && !self.closed()
    }

    fn encode_bin(&mut self, bin_val: u8, ctx: &mut CtxModel)
        ensures
            grown(old(self).bytes(), final(self).bytes()),
    {
        let ghost s = ctx.symbol(bin_val % 2 == 1);
        let ghost before = self.interval();
        proof {
            interval::lemma_encode_push(self.log(), s);
            interval::lemma_narrow(before, s);
            interval::lemma_legal_push(self.log(), s);
            interval::lemma_lps_width(ctx.p_state_idx, self.m_range as int);
            self.written@ = self.written@.push(s);
        }
        let lps: u32 = RANGE_TAB_LPS[ctx.p_state_idx as usize][((self.m_range / 64) % 4) as usize] as u32;
        self.m_range = self.m_range - lps;
        if bin_val % 2 != ctx.val_mps {
            self.low = self.low + self.m_range;
            self.m_range = lps;
        }
        ctx.update(bin_val);
        assert(self.interval() == interval::narrow(before, s));
        self.renorm();
    }

    fn encode_bypass(&mut self, bin_val: u8)
        ensures
            grown(old(self).bytes(), final(self).bytes()),
    {
        let ghost s = bypass(bin_val != 0);
        let ghost before = self.interval();
        let ghost e = bitseq::value(self.bits());
        let ghost out = self.bits_outstanding@.len();
        let ghost reg = self.low as int;
        let ghost x: int = if bin_val != 0 {
            self.m_range as int
        } else {
            0
        };
        proof {
            interval::lemma_encode_push(self.log(), s);
            interval::lemma_narrow(before, s);
            interval::lemma_legal_push(self.log(), s);
            assert(bitseq::bit(s.bin) * before.range == x);
            if self.first_bit {
                self.lemma_first_bit();
                assert(self.bits() =~= Seq::empty());
                lemma_pow2_pos(out);
                lemma_pow2_unfold(out + 1);
                assert(0 * pow2(out) == 0);
            }
            self.written@ = self.written@.push(s);
        }
        self.low = self.low * 2;
        if bin_val != 0 {
            self.low = self.low + self.m_range;
        }
        if self.low >= 1024 {
            proof {
                lemma_resolve(e, out, reg, x, true);
            }
            self.put_bit(true);
            self.low = self.low - 1024;
        } else if self.low < 512 {
            proof {
                lemma_resolve(e, out, reg, x, false);
            }
            self.put_bit(false);
        } else {
            proof {
                lemma_defer(e, out, reg, x);
            }
            self.low = self.low - 512;
            self.bits_outstanding.push(());
        }
        assert(self.interval() == interval::narrow(before, s));
    }
}

} // verus!
