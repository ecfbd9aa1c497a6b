//! A writer together with its contexts, and the run of bins that it has coded.
use crate::bitseq;
use crate::cabac::bins;
use crate::cabac::contexts;
use crate::cabac::contexts::{ContextSet, IntraModeContexts};
use crate::cabac::engine::{CabacEncoder, CabacWriter, CtxModel};
use crate::cabac::interval;
use crate::cabac::residual;
use crate::cabac::residual::{encode_cbf_chroma, encode_cbf_luma, encode_residual_scan};
use crate::scan;
use vstd::prelude::*;

verus! {

/// Numbers of the intra mode contexts behind those of `ContextSet`.
pub const PART_MODE: usize = 132;

pub const PREV_INTRA_LUMA: usize = 133;

pub const INTRA_CHROMA: usize = 134;

/// All contexts of a slice as one bank.
pub open spec fn bank_of(ctx: ContextSet, ictx: IntraModeContexts) -> Seq<CtxModel> {
    ctx@ + ictx@
}

/// Appending is associative.
pub proof fn lemma_then(a: Seq<bins::Bin>, b: Seq<bins::Bin>, c: Seq<bins::Bin>)
    ensures
        (a + b) + c == a + (b + c),
{
    assert((a + b) + c =~= a + (b + c));
}

/// Appending nothing changes nothing.
pub proof fn lemma_nothing(a: Seq<bins::Bin>)
    ensures
        a + Seq::<bins::Bin>::empty() == a,
{
    assert(a + Seq::<bins::Bin>::empty() =~= a);
}

/// A writer, its contexts, and the bins coded since the coder was set up.
pub struct Coder<W: CabacWriter> {
    pub enc: W,
    pub ctx: ContextSet,
    pub ictx: IntraModeContexts,
    pub said: Ghost<Seq<bins::Bin>>,
    pub log0: Ghost<Seq<interval::Symbol>>,
    pub bank0: Ghost<Seq<CtxModel>>,
}

impl<W: CabacWriter> Coder<W> {
    /// The bins coded since the coder was set up.
    pub open spec fn said(self) -> Seq<bins::Bin> {
        self.said@
    }

    pub open spec fn bank(self) -> Seq<CtxModel> {
        bank_of(self.ctx, self.ictx)
    }

    /// The log and the contexts are those that the bins lead to.
    pub open spec fn kept(self) -> bool {
        &&& self.ctx.wf()
        &&& self.ictx.wf()
        &&& self.bank0@.len() == 135
        &&& bins::wrote(self.log0@, self.bank0@, self.enc.log(), self.bank(), self.said@)
    }

    pub open spec fn wf(self) -> bool {
        self.kept() && self.enc.ready()
    }

    /// The coder has coded `more` since it was `before`.
    pub open spec fn adds(self, before: Self, more: Seq<bins::Bin>) -> bool {
        &&& self.said() == before.said() + more
        &&& self.log0 == before.log0
        &&& self.bank0 == before.bank0
    }

    /// The contexts are those that the bins lead to.
    pub proof fn lemma_bank_is(self)
        requires
            self.kept(),
        ensures
            self.bank() == bins::bank_after(self.bank0@, self.said()),
    {
        bins::lemma_wrote_exact(
            self.log0@,
            self.bank0@,
            self.enc.log(),
            self.bank(),
            self.said@,
        );
    }

    /// Sets up a coder that has coded nothing.
    pub fn new(enc: W, ctx: ContextSet, ictx: IntraModeContexts) -> (r: Self)
        requires
            enc.ready(),
            ctx.wf(),
            ictx.wf(),
        ensures
            r.wf(),
            r.said() == Seq::<bins::Bin>::empty(),
            r.enc == enc,
            r.ctx == ctx,
            r.ictx == ictx,
            r.log0@ == enc.log(),
            r.bank0@ == bank_of(ctx, ictx),
    {
        proof {
            bins::lemma_wrote_none(enc.log(), bank_of(ctx, ictx));
        }
        Coder {
            enc,
            ctx,
            ictx,
            said: Ghost(Seq::empty()),
            log0: Ghost(enc.log()),
            bank0: Ghost(bank_of(ctx, ictx)),
        }
    }

    /// What `ContextSet` functions did is what the whole coder did.
    proof fn lemma_lift(
        before: Self,
        log1: Seq<interval::Symbol>,
        ctx1: ContextSet,
        more: Seq<bins::Bin>,
    )
        requires
            before.kept(),
            bins::wrote(before.enc.log(), before.ctx@, log1, ctx1@, more),
        ensures
            bins::wrote(
                before.log0@,
                before.bank0@,
                log1,
                bank_of(ctx1, before.ictx),
                before.said@ + more,
            ),
    {
        bins::lemma_wrote_lift(
            before.enc.log(),
            before.ctx@,
            log1,
            ctx1@,
            more,
            before.ictx@,
        );
        bins::lemma_wrote_add(
            before.log0@,
            before.bank0@,
            before.enc.log(),
            before.bank(),
            log1,
            bank_of(ctx1, before.ictx),
            before.said@,
            more,
        );
    }

    /// Codes whether a square is cut into four units.
    pub fn split_cu_flag(&mut self, idx: usize, bit: bool)
        requires
            old(self).wf(),
            idx < 3,
        ensures
            final(self).wf(),
            final(self).adds(*old(self), seq![bins::coded(contexts::SPLIT_CU_FLAG + idx, bit)]),
    {
        self.ctx.code_split_cu_flag(&mut self.enc, idx, bit);
        proof {
            let more = seq![bins::coded(contexts::SPLIT_CU_FLAG + idx, bit)];
            Self::lemma_lift(*old(self), self.enc.log(), self.ctx, more);
            self.said@ = self.said@ + more;
        }
    }

    /// Codes whether a transform square is cut in four.
    pub fn split_transform_flag(&mut self, idx: usize, bit: bool)
        requires
            old(self).wf(),
            idx < 3,
        ensures
            final(self).wf(),
            final(self).adds(
                *old(self),
                seq![bins::coded(contexts::SPLIT_TRANSFORM_FLAG + idx, bit)],
            ),
    {
        self.ctx.code_split_transform_flag(&mut self.enc, idx, bit);
        proof {
            let more = seq![bins::coded(contexts::SPLIT_TRANSFORM_FLAG + idx, bit)];
            Self::lemma_lift(*old(self), self.enc.log(), self.ctx, more);
            self.said@ = self.said@ + more;
        }
    }

    /// Codes whether a unit is without loss.
    pub fn transquant_bypass(&mut self, bit: bool)
        requires
            old(self).wf(),
        ensures
            final(self).wf(),
            final(self).adds(
                *old(self),
                seq![bins::coded(contexts::TRANSQUANT_BYPASS as int, bit)],
            ),
    {
        self.ctx.code_transquant_bypass(&mut self.enc, bit);
        proof {
            let more = seq![bins::coded(contexts::TRANSQUANT_BYPASS as int, bit)];
            Self::lemma_lift(*old(self), self.enc.log(), self.ctx, more);
            self.said@ = self.said@ + more;
        }
    }

    /// Codes a bin of a change of the parameter.
    pub fn cu_qp_delta_bin(&mut self, idx: usize, bit: bool)
        requires
            old(self).wf(),
            idx < 2,
        ensures
            final(self).wf(),
            final(self).adds(*old(self), seq![bins::coded(contexts::CU_QP_DELTA + idx, bit)]),
    {
        self.ctx.code_cu_qp_delta(&mut self.enc, idx, bit);
        proof {
            let more = seq![bins::coded(contexts::CU_QP_DELTA + idx, bit)];
            Self::lemma_lift(*old(self), self.enc.log(), self.ctx, more);
            self.said@ = self.said@ + more;
        }
    }

    /// Codes whether a luma block has levels.
    pub fn cbf_luma(&mut self, flag: bool, depth: usize)
        requires
            old(self).wf(),
        ensures
            final(self).wf(),
            final(self).adds(*old(self), residual::cbf_luma_bins(flag, depth as int)),
    {
        encode_cbf_luma(&mut self.enc, &mut self.ctx, flag, depth);
        proof {
            let more = residual::cbf_luma_bins(flag, depth as int);
            Self::lemma_lift(*old(self), self.enc.log(), self.ctx, more);
            self.said@ = self.said@ + more;
        }
    }

    /// Codes whether a chroma block has levels.
    pub fn cbf_chroma(&mut self, flag: bool, depth: usize)
        requires
            old(self).wf(),
        ensures
            final(self).wf(),
            final(self).adds(*old(self), residual::cbf_chroma_bins(flag, depth as int)),
    {
        encode_cbf_chroma(&mut self.enc, &mut self.ctx, flag, depth);
        proof {
            let more = residual::cbf_chroma_bins(flag, depth as int);
            Self::lemma_lift(*old(self), self.enc.log(), self.ctx, more);
            self.said@ = self.said@ + more;
        }
    }

    /// Codes a block of levels in scan order.
    pub fn residual(
        &mut self,
        coeffs: &[i16],
        log2_ts: u32,
        is_luma: bool,
        scan_idx: u8,
        hide: bool,
    )
        requires
            old(self).wf(),
            scan::scan_ok(log2_ts as int, scan_idx as int),
            coeffs@.len() >= scan::area(log2_ts as int),
        ensures
            final(self).wf(),
            final(self).adds(
                *old(self),
                (residual::Block {
                    coeffs: coeffs@,
                    log2: log2_ts as int,
                    is_luma,
                    scan_idx: scan_idx as int,
                    hide,
                }).bins(),
            ),
    {
        encode_residual_scan(
            &mut self.enc,
            &mut self.ctx,
            coeffs,
            log2_ts,
            is_luma,
            scan_idx,
            hide,
        );
        proof {
            let more = (residual::Block {
                coeffs: coeffs@,
                log2: log2_ts as int,
                is_luma,
                scan_idx: scan_idx as int,
                hide,
            }).bins();
            Self::lemma_lift(*old(self), self.enc.log(), self.ctx, more);
            self.said@ = self.said@ + more;
        }
    }

    /// One bin of an intra mode context led from `before` to here.
    proof fn lemma_intra_bin(
        before: Self,
        log1: Seq<interval::Symbol>,
        ictx1: IntraModeContexts,
        k: int,
        bit: bool,
    )
        requires
            before.kept(),
            0 <= k < 3,
            log1 == before.enc.log().push(before.ictx@[k].symbol(bit)),
            ictx1@ == before.ictx@.update(k, before.ictx@[k].after(bit)),
        ensures
            bins::wrote(
                before.log0@,
                before.bank0@,
                log1,
                bank_of(before.ctx, ictx1),
                before.said@ + seq![bins::coded(132 + k, bit)],
            ),
    {
        let bank = before.bank();
        bins::lemma_wrote_coded(before.enc.log(), bank, 132 + k, bit);
        assert(bank[132 + k] == before.ictx@[k]);
        assert(bank.update(132 + k, bank[132 + k].after(bit)) =~= bank_of(before.ctx, ictx1));
        bins::lemma_wrote_add(
            before.log0@,
            before.bank0@,
            before.enc.log(),
            bank,
            log1,
            bank_of(before.ctx, ictx1),
            before.said@,
            seq![bins::coded(132 + k, bit)],
        );
    }

    /// Codes whether a unit has one luma mode.
    pub fn part_mode(&mut self, bit: bool)
        requires
            old(self).wf(),
        ensures
            final(self).wf(),
            final(self).adds(*old(self), seq![bins::coded(PART_MODE as int, bit)]),
    {
        assert(self.ictx@[0].wf());
        let mut m: CtxModel = self.ictx.part_mode;
        self.enc.encode_bin(if bit { 1 } else { 0 }, &mut m);
        self.ictx.part_mode = m;
        proof {
            assert(self.ictx@ =~= old(self).ictx@.update(0, old(self).ictx@[0].after(bit)));
            Self::lemma_intra_bin(*old(self), self.enc.log(), self.ictx, 0, bit);
            self.said@ = self.said@ + seq![bins::coded(PART_MODE as int, bit)];
        }
    }

    /// Codes whether a luma mode is a probable one.
    pub fn prev_intra_luma(&mut self, bit: bool)
        requires
            old(self).wf(),
        ensures
            final(self).wf(),
            final(self).adds(*old(self), seq![bins::coded(PREV_INTRA_LUMA as int, bit)]),
    {
        assert(self.ictx@[1].wf());
        let mut m: CtxModel = self.ictx.prev_intra_luma_pred_flag;
        self.enc.encode_bin(if bit { 1 } else { 0 }, &mut m);
        self.ictx.prev_intra_luma_pred_flag = m;
        proof {
            assert(self.ictx@ =~= old(self).ictx@.update(1, old(self).ictx@[1].after(bit)));
            Self::lemma_intra_bin(*old(self), self.enc.log(), self.ictx, 1, bit);
            self.said@ = self.said@ + seq![bins::coded(PREV_INTRA_LUMA as int, bit)];
        }
    }

    /// Codes whether the chroma mode departs from the luma mode.
    pub fn intra_chroma(&mut self, bit: bool)
        requires
            old(self).wf(),
        ensures
            final(self).wf(),
            final(self).adds(*old(self), seq![bins::coded(INTRA_CHROMA as int, bit)]),
    {
        assert(self.ictx@[2].wf());
        let mut m: CtxModel = self.ictx.intra_chroma_pred_mode;
        self.enc.encode_bin(if bit { 1 } else { 0 }, &mut m);
        self.ictx.intra_chroma_pred_mode = m;
        proof {
            assert(self.ictx@ =~= old(self).ictx@.update(2, old(self).ictx@[2].after(bit)));
            Self::lemma_intra_bin(*old(self), self.enc.log(), self.ictx, 2, bit);
            self.said@ = self.said@ + seq![bins::coded(INTRA_CHROMA as int, bit)];
        }
    }

    /// Codes an equally probable bin.
    pub fn plain(&mut self, bit: bool)
        requires
            old(self).wf(),
        ensures
            final(self).wf(),
            final(self).adds(*old(self), seq![bins::plain(bit)]),
    {
        self.enc.encode_bypass(if bit { 1 } else { 0 });
        proof {
            let before = *old(self);
            bins::lemma_wrote_plain(before.enc.log(), before.bank(), bit);
            bins::lemma_wrote_add(
                before.log0@,
                before.bank0@,
                before.enc.log(),
                before.bank(),
                self.enc.log(),
                self.bank(),
                before.said@,
                seq![bins::plain(bit)],
            );
            self.said@ = self.said@ + seq![bins::plain(bit)];
        }
    }

    /// Codes the `n` low bits of `x`, the highest first.
    pub fn plain_bits(&mut self, x: u32, n: u32)
        requires
            old(self).wf(),
            n <= 32,
        ensures
            final(self).wf(),
            final(self).adds(
                *old(self),
                bins::plain_bits(bitseq::low_bits(x as int, n as int)),
            ),
    {
        let ghost all = bins::plain_bits(bitseq::low_bits(x as int, n as int));
        assert(self.said() =~= old(self).said() + all.take(0));
        for i in 0..n
            invariant
                self.wf(),
                n <= 32,
                all == bins::plain_bits(bitseq::low_bits(x as int, n as int)),
                self.adds(*old(self), all.take(i as int)),
        {
            let k: u32 = n - 1 - i;
            proof {
                vstd::bits::lemma_u32_shr_is_div(x, k);
            }
            let bit: bool = (x >> k) % 2 == 1;
            self.plain(bit);
            assert(self.said() =~= old(self).said() + all.take(i + 1));
        }
        assert(all.take(n as int) =~= all);
    }
}

impl Coder<CabacEncoder> {
    /// Codes an end-of-data flag; a set one completes the code.
    pub fn end(&mut self, bit: bool)
        requires
            old(self).wf(),
        ensures
            final(self).kept(),
            final(self).enc.wf(),
            final(self).enc.ready() == !bit,
            bit ==> final(self).enc.closed(),
            final(self).adds(*old(self), seq![bins::end(bit)]),
    {
        self.enc.encode_terminate(if bit { 1 } else { 0 });
        proof {
            let before = *old(self);
            bins::lemma_wrote_end(before.enc.log(), before.bank(), bit);
            bins::lemma_wrote_add(
                before.log0@,
                before.bank0@,
                before.enc.log(),
                before.bank(),
                self.enc.log(),
                self.bank(),
                before.said@,
                seq![bins::end(bit)],
            );
            self.said@ = self.said@ + seq![bins::end(bit)];
        }
    }

    /// The code as bytes, once it is complete.
    pub fn finish(self) -> (r: Vec<u8>)
        requires
            self.kept(),
            self.enc.wf(),
            self.enc.closed(),
            self.log0@ == Seq::<interval::Symbol>::empty(),
        ensures
            code_of(r@, self.bank0@, self.said()),
    {
        proof {
            bins::lemma_wrote_exact(
                self.log0@,
                self.bank0@,
                self.enc.log(),
                self.bank(),
                self.said@,
            );
            assert(self.enc.log() =~= bins::symbols(self.bank0@, self.said@));
            self.enc.lemma_legal();
        }
        self.enc.finish()
    }
}

/// Bytes are the arithmetic code of bins, from the contexts `bank` on, filled up
/// with zero bits. The last bin is a set end-of-data flag, and the only one.
pub open spec fn code_of(bytes: Seq<u8>, bank: Seq<CtxModel>, said: Seq<bins::Bin>) -> bool {
    let log = bins::symbols(bank, said);
    let code = interval::codeword(log);
    &&& interval::legal_log(log)
    &&& log.len() > 0
    &&& interval::ends(log.last())
    &&& bytes.len() == (code.len() + 7) / 8
    &&& bitseq::of_bytes(bytes) == code + bitseq::run(false, 8 * bytes.len() - code.len())
}

/// The symbols that code bins have the values of the bins.
proof fn lemma_symbol_values(bank: Seq<CtxModel>, said: Seq<bins::Bin>)
    ensures
        interval::bins(bins::symbols(bank, said)) == Seq::new(said.len(), |i: int| said[i].bit),
    decreases said.len(),
{
    let values = Seq::new(said.len(), |i: int| said[i].bit);
    if said.len() == 0 {
        assert(interval::bins(bins::symbols(bank, said)) =~= values);
    } else {
        lemma_symbol_values(bank, said.drop_last());
        let before = bins::symbols(bank, said.drop_last());
        let s = bins::symbol(bins::bank_after(bank, said.drop_last()), said.last());
        assert(s.bin == said.last().bit);
        assert(interval::bins(before.push(s)) =~= interval::bins(before).push(s.bin));
        assert(interval::bins(bins::symbols(bank, said)) =~= values);
    }
}

/// A decoder that is told how each bin is coded reads every bin back from the bytes
/// of a substream.
pub proof fn law_bytes_give_back_the_bins(
    bytes: Seq<u8>,
    bank: Seq<CtxModel>,
    said: Seq<bins::Bin>,
)
    requires
        code_of(bytes, bank, said),
    ensures
        ({
            let bits = bitseq::of_bytes(bytes);
            interval::decode_all(
                interval::decoder_start(bits),
                interval::kinds(bins::symbols(bank, said)),
                bits,
            ) == Seq::new(said.len(), |i: int| said[i].bit)
        }),
{
    let log = bins::symbols(bank, said);
    lemma_symbol_values(bank, said);
    let code = interval::codeword(log);
    assert(code.is_prefix_of(bitseq::of_bytes(bytes)));
    interval::law_decoder_recovers_symbols(log, bitseq::of_bytes(bytes));
}

} // verus!
