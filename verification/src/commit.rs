//! Coding one transform block into the picture.
use crate::cabac::contexts::ContextSet;
use crate::cabac::engine::CtxModel;
use crate::fmt::ChromaFormat;
use crate::frame;
use crate::frame::{take_block, Frame, Picture};
use crate::intra;
use crate::intra::should_filter_refs;
use crate::planes;
use crate::planes::{put_block, Yuv};
use crate::quant;
use crate::rdoq;
use crate::rdoq::quantize_with_sign_hiding_into;
use crate::refs;
use crate::scan;
use crate::scan::{coeff_scan, scan_idx_for};
use crate::tb;
use crate::tb::{
    code_lossless, decode_block, pack_levels, predict_chroma, predict_luma, transform_block,
    zero_levels, Tb,
};
use crate::transform;
use crate::transform::log2_of;
use vstd::prelude::*;

verus! {

/// What the choice of levels depends on besides the coefficients.
#[derive(Clone, Copy)]
pub struct LevelJob {
    pub n: usize,
    pub qp: u8,
    pub bit_depth: u8,
    pub scan_idx: u8,
    pub is_luma: bool,
    pub depth: usize,
}

impl LevelJob {
    pub open spec fn ok(self) -> bool {
        &&& quant::quant_ok(self.n as int, self.qp as int, self.bit_depth as int)
        &&& scan::scan_ok(transform::log2_size(self.n as int), self.scan_idx as int)
    }
}

/// Chooses the levels of a block from its coefficients.
pub trait LevelChooser: Sized {
    /// `levels` may be chosen for `coeff` while the contexts are `bank`: any levels,
    /// unless the chooser says more.
    open spec fn may_choose(
        &self,
        job: LevelJob,
        coeff: Seq<i32>,
        bank: Seq<CtxModel>,
        levels: Seq<i16>,
    ) -> bool {
        true
    }

    fn pick(&self, job: LevelJob, coeff: &Vec<i32>, ctx: &ContextSet) -> (levels: Vec<i16>)
        requires
            job.ok(),
            coeff@.len() == job.n * job.n,
            ctx.wf(),
        ensures
            levels@.len() == job.n * job.n,
            self.may_choose(job, coeff@, ctx@, levels@),
    ;
}

/// Quantises each coefficient on its own and hides signs.
pub struct PlainLevels {}

/// The levels of a block, each coefficient quantised on its own, with signs hidden.
pub open spec fn plain_choice(job: LevelJob, coeff: Seq<i32>) -> Seq<i16> {
    let n = job.n as int;
    rdoq::maybe_hidden(
        rdoq::hider(
            coeff,
            n,
            scan::scan_list(transform::log2_size(n), job.scan_idx as int),
            job.qp as int,
            job.bit_depth as int,
            true,
        ),
        rdoq::plain_levels(coeff, n, job.qp as int, job.bit_depth as int, tb::zeros(n)),
    )
}

impl LevelChooser for PlainLevels {
    open spec fn may_choose(
        &self,
        job: LevelJob,
        coeff: Seq<i32>,
        bank: Seq<CtxModel>,
        levels: Seq<i16>,
    ) -> bool {
        levels == plain_choice(job, coeff)
    }

    fn pick(&self, job: LevelJob, coeff: &Vec<i32>, ctx: &ContextSet) -> (levels: Vec<i16>) {
        let log2: u32 = log2_of(job.n);
        let order: Vec<(usize, usize)> = coeff_scan(log2, job.scan_idx);
        proof {
            transform::lemma_area(job.n as int);
            scan::law_scan_is_a_bijection(log2 as int, job.scan_idx as int);
            assert forall|k: int| 0 <= k < order@.len() implies (#[trigger] order@[k]).0 < job.n
                && order@[k].1 < job.n by {
                let p = scan::scan_pos(log2 as int, job.scan_idx as int, k);
            }
        }
        let mut levels: Vec<i16> = zero_levels(job.n);
        quantize_with_sign_hiding_into(coeff, job.n, job.qp, job.bit_depth, &order, &mut levels);
        levels
    }
}

/// The samples that a decoder makes of a block.
pub open spec fn block_samples(
    pred: Seq<u16>,
    levels: Seq<i16>,
    n: int,
    mode: int,
    qp: int,
    bit_depth: int,
    sine: bool,
    max_val: int,
    lossless: bool,
) -> Seq<u16> {
    if lossless {
        tb::lossless_samples(pred, levels, n, mode, max_val)
    } else {
        tb::lossy_samples(pred, levels, n, qp, bit_depth, sine, max_val)
    }
}

/// Where a luma block is and how it is coded.
#[derive(Clone, Copy)]
pub struct LumaBlock {
    pub row: usize,
    pub col: usize,
    pub n: usize,
    /// Side of the blocks by which coding order is counted.
    pub min_pu: usize,
    pub mode: u8,
    pub qp: u8,
    pub lossless: bool,
}

impl LumaBlock {
    pub open spec fn ok(self, f: Frame) -> bool {
        &&& quant::quant_ok(self.n as int, self.qp as int, f.bit_depth.spec_bits())
        &&& f.luma_fits(self.row as int, self.col as int, self.n as int)
        &&& 4 <= self.min_pu <= 64
        &&& self.mode <= 34
    }

    /// The prediction of the block.
    pub open spec fn pred(self, f: Frame, y: Seq<u16>) -> Seq<u16> {
        tb::luma_pred(
            y,
            f.luma_geo_of(self.row as int, self.col as int, self.n as int, self.min_pu as int),
            self.mode as int,
            f.max(),
        )
    }

    /// The luma plane after a decoder put the block into it.
    pub open spec fn after(self, f: Frame, y: Seq<u16>, levels: Seq<i16>) -> Seq<u16> {
        planes::with_block(
            y,
            f.w as int,
            self.row as int,
            self.col as int,
            self.n as int,
            self.n as int,
            block_samples(
                self.pred(f, y),
                levels,
                self.n as int,
                self.mode as int,
                self.qp as int,
                f.bit_depth.spec_bits(),
                true,
                f.max(),
                self.lossless,
            ),
        )
    }

    /// The scan of the block.
    pub open spec fn scan_of(self) -> int {
        scan::scan_idx_of(self.mode as int, transform::log2_size(self.n as int), true, false)
    }

    /// The source of the block.
    pub open spec fn source(self, f: Frame, src: Yuv) -> Seq<u16> {
        frame::source_block(
            src.y@,
            f.src_w as int,
            f.src_h as int,
            self.row as int,
            self.col as int,
            self.n as int,
        )
    }

    /// What the choice of levels is told.
    pub open spec fn job(self, f: Frame, depth: int) -> LevelJob {
        LevelJob {
            n: self.n,
            qp: self.qp,
            bit_depth: f.bit_depth.spec_bits() as u8,
            scan_idx: self.scan_of() as u8,
            is_luma: true,
            depth: depth as usize,
        }
    }

    /// `levels` may be chosen for the block: without loss they follow from the
    /// source and the prediction.
    pub open spec fn chosen<Q: LevelChooser>(
        self,
        f: Frame,
        src: Yuv,
        y: Seq<u16>,
        q: Q,
        bank: Seq<CtxModel>,
        depth: int,
        levels: Seq<i16>,
    ) -> bool {
        let n = self.n as int;
        if self.lossless {
            levels == tb::lossless_levels(
                self.source(f, src),
                self.pred(f, y),
                n,
                self.mode as int,
            )
        } else {
            q.may_choose(
                self.job(f, depth),
                tb::coefficients(
                    self.source(f, src),
                    self.pred(f, y),
                    n,
                    f.bit_depth.spec_bits(),
                    true,
                ),
                bank,
                levels,
            )
        }
    }
}

/// A plane with a block of samples up to `max` in it has samples up to `max`.
pub proof fn lemma_with_block_le(
    plane: Seq<u16>,
    stride: int,
    height: int,
    row: int,
    col: int,
    n: int,
    block: Seq<u16>,
    max: int,
)
    requires
        planes::block_fits(plane.len() as int, stride, height, row, col, n, n),
        block.len() == n * n,
        tb::samples_le(plane, max),
        tb::samples_le(block, max),
    ensures
        tb::samples_le(planes::with_block(plane, stride, row, col, n, n, block), max),
{
    let r = planes::with_block(plane, stride, row, col, n, n, block);
    assert forall|x: int| 0 <= x < r.len() implies #[trigger] r[x] <= max by {
        let (a, b) = (x / stride - row, x % stride - col);
        if 0 <= a < n && 0 <= b < n {
            refs::lemma_inside(a, b, n, n);
        }
    }
}

/// Codes a luma block: predicts it, chooses its levels, and puts the samples that a
/// decoder will see into the picture.
pub fn commit_luma<Q: LevelChooser>(
    f: &Frame,
    src: &Yuv,
    pic: &mut Picture,
    b: LumaBlock,
    q: &Q,
    ctx: &ContextSet,
    depth: usize,
) -> (r: Tb)
    requires
        f.wf(),
        f.source_ok(*src),
        f.picture_ok(*old(pic)),
        b.ok(*f),
        ctx.wf(),
    ensures
        r.wf(),
        r.n == b.n,
        r.scan_idx == b.scan_of(),
        b.chosen(*f, *src, old(pic).y@, *q, ctx@, depth as int, r.levels@),
        final(pic).y@ == b.after(*f, old(pic).y@, r.levels@),
        final(pic).cb == old(pic).cb,
        final(pic).cr == old(pic).cr,
        f.picture_ok(*final(pic)),
{
    let max: u16 = f.bit_depth.max_val();
    let bits: u8 = f.bit_depth.bits();
    let n: usize = b.n;
    proof {
        assert(f.h * f.w == f.w * f.h) by (nonlinear_arith);
        transform::lemma_area(n as int);
    }
    let g: refs::LumaRefGeometry = f.luma_geo(b.row, b.col, n, b.min_pu);
    let pred: Vec<u16> = predict_luma(&pic.y, g, b.mode, max);
    let orig: Vec<u16> = take_block(&src.y, f.src_w, f.src_h, b.row, b.col, n, Ghost(f.max()));
    let log2: u32 = log2_of(n);
    let scan_idx: u8 = scan_idx_for(b.mode, log2, true, false);
    let ghost y0 = pic.y@;
    proof {
        assert forall|i: int| 0 <= i < orig@.len() implies #[trigger] orig@[i] <= 4095 by {
            assert(orig@[i] <= f.max());
        }
        assert forall|i: int| 0 <= i < pred@.len() implies #[trigger] pred@[i] <= 4095 by {
            assert(pred@[i] <= f.max());
        }
    }
    if b.lossless {
        let t: Tb = code_lossless(&orig, &pred, n, b.mode, scan_idx);
        proof {
            tb::law_lossless_blocks_are_exact(orig@, pred@, n as int, b.mode as int, f.max());
            lemma_with_block_le(
                y0,
                f.w as int,
                f.h as int,
                b.row as int,
                b.col as int,
                n as int,
                orig@,
                f.max(),
            );
        }
        put_block(&mut pic.y, f.w, b.row, b.col, n, n, &orig, Ghost(f.h as int));
        return t;
    }
    let coeff: Vec<i32> = transform_block(&orig, &pred, n, bits, true);
    let job: LevelJob = LevelJob { n, qp: b.qp, bit_depth: bits, scan_idx, is_luma: true, depth };
    let levels: Vec<i16> = q.pick(job, &coeff, ctx);
    let rec: Vec<u16> = decode_block(&pred, &levels, n, b.qp, bits, true, max);
    let t: Tb = pack_levels(levels, n, scan_idx);
    proof {
        lemma_with_block_le(
            y0,
            f.w as int,
            f.h as int,
            b.row as int,
            b.col as int,
            n as int,
            rec@,
            f.max(),
        );
    }
    put_block(&mut pic.y, f.w, b.row, b.col, n, n, &rec, Ghost(f.h as int));
    t
}

/// Where a chroma block is and how it is coded.
#[derive(Clone, Copy)]
pub struct ChromaBlock {
    pub row: usize,
    pub col: usize,
    pub n: usize,
    /// Side of the luma blocks by which coding order is counted.
    pub min_pu: usize,
    /// The luma that stands for the block in coding order.
    pub lrow: usize,
    pub lcol: usize,
    pub mode: u8,
    pub qp: u8,
    pub lossless: bool,
    /// The reference samples may be smoothed.
    pub smooth: bool,
}

impl ChromaBlock {
    pub open spec fn ok(self, f: Frame) -> bool {
        &&& quant::quant_ok(self.n as int, self.qp as int, f.bit_depth.spec_bits())
        &&& !(f.chroma is Monochrome)
        &&& f.chroma_fits(self.row as int, self.col as int, self.n as int)
        &&& 4 <= self.min_pu <= 64
        &&& self.lrow < f.h
        &&& self.lcol < f.w
        &&& self.mode <= 34
    }

    /// The reference samples are smoothed.
    pub open spec fn smooths(self) -> bool {
        self.smooth && self.n > 4 && intra::smooths(self.mode as int, self.n as int)
    }

    /// The prediction of the block in a plane.
    pub open spec fn pred(self, f: Frame, plane: Seq<u16>) -> Seq<u16> {
        tb::chroma_pred(
            plane,
            f.chroma_geo_of(
                self.row as int,
                self.col as int,
                self.n as int,
                self.min_pu as int,
                self.lrow as int,
                self.lcol as int,
            ),
            self.mode as int,
            self.smooths(),
            f.max(),
        )
    }

    /// A plane after a decoder put the block into it.
    pub open spec fn after(self, f: Frame, plane: Seq<u16>, levels: Seq<i16>) -> Seq<u16> {
        planes::with_block(
            plane,
            f.cw as int,
            self.row as int,
            self.col as int,
            self.n as int,
            self.n as int,
            block_samples(
                self.pred(f, plane),
                levels,
                self.n as int,
                self.mode as int,
                self.qp as int,
                f.bit_depth.spec_bits(),
                false,
                f.max(),
                self.lossless,
            ),
        )
    }

    /// The scan of the block.
    pub open spec fn scan_of(self, f: Frame) -> int {
        scan::scan_idx_of(
            self.mode as int,
            transform::log2_size(self.n as int),
            false,
            f.chroma is Yuv444,
        )
    }

    /// The source of the block in a plane.
    pub open spec fn source(self, f: Frame, src: Seq<u16>) -> Seq<u16> {
        frame::source_block(
            src,
            f.src_cw as int,
            f.src_ch as int,
            self.row as int,
            self.col as int,
            self.n as int,
        )
    }

    /// What the choice of levels is told.
    pub open spec fn job(self, f: Frame, depth: int) -> LevelJob {
        LevelJob {
            n: self.n,
            qp: self.qp,
            bit_depth: f.bit_depth.spec_bits() as u8,
            scan_idx: self.scan_of(f) as u8,
            is_luma: false,
            depth: depth as usize,
        }
    }

    /// `levels` may be chosen for the block of a plane.
    pub open spec fn chosen<Q: LevelChooser>(
        self,
        f: Frame,
        src: Seq<u16>,
        plane: Seq<u16>,
        q: Q,
        bank: Seq<CtxModel>,
        depth: int,
        levels: Seq<i16>,
    ) -> bool {
        let n = self.n as int;
        if self.lossless {
            levels == tb::lossless_levels(
                self.source(f, src),
                self.pred(f, plane),
                n,
                self.mode as int,
            )
        } else {
            q.may_choose(
                self.job(f, depth),
                tb::coefficients(
                    self.source(f, src),
                    self.pred(f, plane),
                    n,
                    f.bit_depth.spec_bits(),
                    false,
                ),
                bank,
                levels,
            )
        }
    }
}

/// One of the two chroma planes.
pub open spec fn plane_of(first: bool, cb: Seq<u16>, cr: Seq<u16>) -> Seq<u16> {
    if first {
        cb
    } else {
        cr
    }
}

/// Codes a chroma block of one of the planes.
pub fn commit_chroma<Q: LevelChooser>(
    f: &Frame,
    src: &Yuv,
    pic: &mut Picture,
    first: bool,
    b: ChromaBlock,
    q: &Q,
    ctx: &ContextSet,
    depth: usize,
) -> (r: Tb)
    requires
        f.wf(),
        f.source_ok(*src),
        f.picture_ok(*old(pic)),
        b.ok(*f),
        ctx.wf(),
    ensures
        r.wf(),
        r.n == b.n,
        r.scan_idx == b.scan_of(*f),
        b.chosen(
            *f,
            plane_of(first, src.cb@, src.cr@),
            plane_of(first, old(pic).cb@, old(pic).cr@),
            *q,
            ctx@,
            depth as int,
            r.levels@,
        ),
        final(pic).y == old(pic).y,
        final(pic).cb@ == if first {
            b.after(*f, old(pic).cb@, r.levels@)
        } else {
            old(pic).cb@
        },
        final(pic).cr@ == if first {
            old(pic).cr@
        } else {
            b.after(*f, old(pic).cr@, r.levels@)
        },
        f.picture_ok(*final(pic)),
{
    let max: u16 = f.bit_depth.max_val();
    let bits: u8 = f.bit_depth.bits();
    let n: usize = b.n;
    proof {
        f.lemma_chroma_dims();
        assert(f.ch * f.cw == f.cw * f.ch) by (nonlinear_arith);
        transform::lemma_area(n as int);
    }
    let g: refs::ChromaRefGeometry = f.chroma_geo(b.row, b.col, n, b.min_pu, b.lrow, b.lcol);
    let smooth: bool = b.smooth && n > 4 && should_filter_refs(b.mode, n);
    let pred: Vec<u16> = predict_chroma(&pic.cb, &pic.cr, first, g, b.mode, smooth, max);
    let orig: Vec<u16> = if first {
        take_block(&src.cb, f.src_cw, f.src_ch, b.row, b.col, n, Ghost(f.max()))
    } else {
        take_block(&src.cr, f.src_cw, f.src_ch, b.row, b.col, n, Ghost(f.max()))
    };
    let log2: u32 = log2_of(n);
    let scan_idx: u8 = scan_idx_for(
        b.mode,
        log2,
        false,
        matches!(f.chroma, ChromaFormat::Yuv444),
    );
    let ghost p0 = plane_of(first, pic.cb@, pic.cr@);
    proof {
        assert forall|i: int| 0 <= i < orig@.len() implies #[trigger] orig@[i] <= 4095 by {
            assert(orig@[i] <= f.max());
        }
        assert forall|i: int| 0 <= i < pred@.len() implies #[trigger] pred@[i] <= 4095 by {
            assert(pred@[i] <= f.max());
        }
    }
    let t: Tb;
    let rec: Vec<u16>;
    if b.lossless {
        t = code_lossless(&orig, &pred, n, b.mode, scan_idx);
        proof {
            tb::law_lossless_blocks_are_exact(orig@, pred@, n as int, b.mode as int, f.max());
        }
        rec = orig;
    } else {
        let coeff: Vec<i32> = transform_block(&orig, &pred, n, bits, false);
        let job: LevelJob = LevelJob {
            n,
            qp: b.qp,
            bit_depth: bits,
            scan_idx,
            is_luma: false,
            depth,
        };
        let levels: Vec<i16> = q.pick(job, &coeff, ctx);
        rec = decode_block(&pred, &levels, n, b.qp, bits, false, max);
        t = pack_levels(levels, n, scan_idx);
    }
    proof {
        lemma_with_block_le(
            p0,
            f.cw as int,
            f.ch as int,
            b.row as int,
            b.col as int,
            n as int,
            rec@,
            f.max(),
        );
    }
    if first {
        put_block(&mut pic.cb, f.cw, b.row, b.col, n, n, &rec, Ghost(f.ch as int));
    } else {
        put_block(&mut pic.cr, f.cw, b.row, b.col, n, n, &rec, Ghost(f.ch as int));
    }
    t
}

} // verus!
