//! Where the luma of a unit without loss is cut: where that takes fewer bits.
use crate::cabac::coder::Coder;
use crate::cabac::contexts::{ContextSet, IntraModeContexts};
use crate::cabac::engine::{CabacWriter, CtxModel};
use crate::cabac::rate::CabacEstimator;
use crate::cabac::{bins, coder, contexts, residual, single};
use crate::cumaps;
use crate::cumaps::split_transform_context;
use crate::frame::{take_block, Frame, Picture};
use crate::lossless;
use crate::planes::Yuv;
use crate::scan::scan_idx_for;
use crate::tb;
use crate::tb::{code_lossless, predict_luma, Tb};
use crate::transform;
use crate::transform::log2_of;
use crate::trial;
use crate::tusyntax;
use crate::tusyntax::encode_levels;
use vstd::prelude::*;

verus! {

/// The blocks of a square at every size down to four.
pub enum Weighed {
    Small { tb: Tb },
    Node { tb: Tb, q0: Box<Weighed>, q1: Box<Weighed>, q2: Box<Weighed>, q3: Box<Weighed> },
}

/// How a square is cut.
pub enum Cuts {
    Whole,
    Four { q0: Box<Cuts>, q1: Box<Cuts>, q2: Box<Cuts>, q3: Box<Cuts> },
}

/// The flag that tells whether a square is cut; one of side four cannot be.
pub open spec fn flag_bins(size: int, cut: bool) -> Seq<bins::Bin> {
    if size > 4 {
        seq![
            bins::coded(contexts::SPLIT_TRANSFORM_FLAG + cumaps::split_transform_ctx(size), cut),
        ]
    } else {
        Seq::empty()
    }
}

/// The flags of a square in one piece.
pub open spec fn leaf_flags(t: Tb, size: int, depth: int) -> Seq<bins::Bin> {
    flag_bins(size, false) + residual::cbf_luma_bins(t.nz, depth)
}

/// What a square in one piece takes: its flags, and its levels on top.
pub open spec fn leaf_rate(t: Tb, bank: Seq<CtxModel>, size: int, depth: int) -> int {
    let head = leaf_flags(t, size, depth);
    let r = trial::bins_rate(bank, head);
    if t.nz {
        single::plus(
            r,
            trial::bins_rate(bins::bank_after(bank, head), tusyntax::res_bins(t, true, false)),
        )
    } else {
        r
    }
}

impl Weighed {
    /// The block of the whole square.
    pub open spec fn tb(self) -> Tb {
        match self {
            Weighed::Small { tb } => tb,
            Weighed::Node { tb, .. } => tb,
        }
    }

    pub open spec fn wf(self, size: int) -> bool
        decreases self,
    {
        &&& self.tb().wf()
        &&& self.tb().n == size
        &&& match self {
            Weighed::Small { .. } => size == 4,
            Weighed::Node { q0, q1, q2, q3, .. } => {
                &&& size == 8 || size == 16 || size == 32
                &&& q0.wf(size / 2)
                &&& q1.wf(size / 2)
                &&& q2.wf(size / 2)
                &&& q3.wf(size / 2)
            },
        }
    }

    /// The blocks are those of the square at `(row, col)` of the source, predicted
    /// from the plane `y`.
    pub open spec fn of(
        self,
        f: Frame,
        src: Yuv,
        y: Seq<u16>,
        row: int,
        col: int,
        size: int,
        mode: u8,
        qp: u8,
    ) -> bool
        decreases self,
    {
        let b = lossless::luma_block(row, col, size, mode, qp);
        let h = size / 2;
        &&& self.tb().scan_idx == b.scan_of()
        &&& self.tb().levels@ == tb::lossless_levels(
            b.source(f, src),
            b.pred(f, y),
            size,
            mode as int,
        )
        &&& match self {
            Weighed::Small { .. } => true,
            Weighed::Node { q0, q1, q2, q3, .. } => {
                &&& q0.of(f, src, y, row, col, h, mode, qp)
                &&& q1.of(f, src, y, row, col + h, h, mode, qp)
                &&& q2.of(f, src, y, row + h, col, h, mode, qp)
                &&& q3.of(f, src, y, row + h, col + h, h, mode, qp)
            },
        }
    }

    /// The bins of the square in one piece.
    pub open spec fn whole_bins(self, size: int, depth: int) -> Seq<bins::Bin> {
        flag_bins(size, false) + lossless::luma_leaf_bins(self.tb(), depth)
    }

    /// The bins of the square in four pieces, each cut as is best for it.
    pub open spec fn cut_bins(self, bank: Seq<CtxModel>, size: int, depth: int) -> Seq<bins::Bin>
        decreases self, 0int,
    {
        match self {
            Weighed::Small { .. } => Seq::empty(),
            Weighed::Node { q0, q1, q2, q3, .. } => {
                let h = size / 2;
                let b = flag_bins(size, true);
                let b = b + q0.bins(bins::bank_after(bank, b), h, depth + 1);
                let b = b + q1.bins(bins::bank_after(bank, b), h, depth + 1);
                let b = b + q2.bins(bins::bank_after(bank, b), h, depth + 1);
                b + q3.bins(bins::bank_after(bank, b), h, depth + 1)
            },
        }
    }

    /// What the square in one piece takes: its flags, and its levels on top.
    pub open spec fn whole_rate(self, bank: Seq<CtxModel>, size: int, depth: int) -> int {
        leaf_rate(self.tb(), bank, size, depth)
    }

    /// What the square in four pieces takes: its flag, and each piece on top.
    pub open spec fn cut_rate(self, bank: Seq<CtxModel>, size: int, depth: int) -> int
        decreases self, 0int,
    {
        match self {
            Weighed::Small { .. } => 0,
            Weighed::Node { q0, q1, q2, q3, .. } => {
                let h = size / 2;
                let b = flag_bins(size, true);
                let r = trial::bins_rate(bank, b);
                let r = single::plus(r, q0.rate(bins::bank_after(bank, b), h, depth + 1));
                let b = b + q0.bins(bins::bank_after(bank, b), h, depth + 1);
                let r = single::plus(r, q1.rate(bins::bank_after(bank, b), h, depth + 1));
                let b = b + q1.bins(bins::bank_after(bank, b), h, depth + 1);
                let r = single::plus(r, q2.rate(bins::bank_after(bank, b), h, depth + 1));
                let b = b + q2.bins(bins::bank_after(bank, b), h, depth + 1);
                single::plus(r, q3.rate(bins::bank_after(bank, b), h, depth + 1))
            },
        }
    }

    /// Four pieces take fewer bits than one, from the contexts `bank` on.
    pub open spec fn pays(self, bank: Seq<CtxModel>, size: int, depth: int) -> bool
        decreases self, 1int,
    {
        self is Node && self.cut_rate(bank, size, depth) < self.whole_rate(bank, size, depth)
    }

    /// What the square takes, cut as is best.
    pub open spec fn rate(self, bank: Seq<CtxModel>, size: int, depth: int) -> int
        decreases self, 2int,
    {
        if self.pays(bank, size, depth) {
            self.cut_rate(bank, size, depth)
        } else {
            self.whole_rate(bank, size, depth)
        }
    }

    /// The bins of the square, cut as is best.
    pub open spec fn bins(self, bank: Seq<CtxModel>, size: int, depth: int) -> Seq<bins::Bin>
        decreases self, 2int,
    {
        if self.pays(bank, size, depth) {
            self.cut_bins(bank, size, depth)
        } else {
            self.whole_bins(size, depth)
        }
    }

    /// How the square is cut best.
    pub open spec fn cuts(self, bank: Seq<CtxModel>, size: int, depth: int) -> Cuts
        decreases self,
    {
        match self {
            Weighed::Node { q0, q1, q2, q3, .. } if self.pays(bank, size, depth) => {
                let h = size / 2;
                let b = flag_bins(size, true);
                let c0 = q0.cuts(bins::bank_after(bank, b), h, depth + 1);
                let b = b + q0.bins(bins::bank_after(bank, b), h, depth + 1);
                let c1 = q1.cuts(bins::bank_after(bank, b), h, depth + 1);
                let b = b + q1.bins(bins::bank_after(bank, b), h, depth + 1);
                let c2 = q2.cuts(bins::bank_after(bank, b), h, depth + 1);
                let b = b + q2.bins(bins::bank_after(bank, b), h, depth + 1);
                let c3 = q3.cuts(bins::bank_after(bank, b), h, depth + 1);
                Cuts::Four { q0: Box::new(c0), q1: Box::new(c1), q2: Box::new(c2), q3: Box::new(c3) }
            },
            _ => Cuts::Whole,
        }
    }
}

/// Codes the blocks of a square at every size, without loss. The picture shall have
/// the source in the square, as it has where nothing is lost.
fn weigh(
    f: &Frame,
    src: &Yuv,
    pic: &Picture,
    row: usize,
    col: usize,
    size: usize,
    mode: u8,
    qp: u8,
) -> (w: Weighed)
    requires
        f.wf(),
        f.source_ok(*src),
        f.picture_ok(*pic),
        size == 4 || size == 8 || size == 16 || size == 32,
        f.luma_fits(row as int, col as int, size as int),
        mode <= 34,
    ensures
        w.wf(size as int),
        w.of(*f, *src, pic.y@, row as int, col as int, size as int, mode, qp),
    decreases size,
{
    let tb: Tb = lossless_tb(f, src, pic, row, col, size, mode, Ghost(qp));
    if size == 4 {
        return Weighed::Small { tb };
    }
    let h: usize = size / 2;
    let q0: Weighed = weigh(f, src, pic, row, col, h, mode, qp);
    let q1: Weighed = weigh(f, src, pic, row, col + h, h, mode, qp);
    let q2: Weighed = weigh(f, src, pic, row + h, col, h, mode, qp);
    let q3: Weighed = weigh(f, src, pic, row + h, col + h, h, mode, qp);
    Weighed::Node {
        tb,
        q0: Box::new(q0),
        q1: Box::new(q1),
        q2: Box::new(q2),
        q3: Box::new(q3),
    }
}

/// A luma block without loss.
fn lossless_tb(
    f: &Frame,
    src: &Yuv,
    pic: &Picture,
    row: usize,
    col: usize,
    n: usize,
    mode: u8,
    Ghost(qp): Ghost<u8>,
) -> (t: Tb)
    requires
        f.wf(),
        f.source_ok(*src),
        f.picture_ok(*pic),
        n == 4 || n == 8 || n == 16 || n == 32,
        f.luma_fits(row as int, col as int, n as int),
        mode <= 34,
    ensures
        t.wf(),
        t.n == n,
        ({
            let b = lossless::luma_block(row as int, col as int, n as int, mode, qp);
            &&& t.scan_idx == b.scan_of()
            &&& t.levels@ == tb::lossless_levels(
                b.source(*f, *src),
                b.pred(*f, pic.y@),
                n as int,
                mode as int,
            )
        }),
{
    let max: u16 = f.bit_depth.max_val();
    proof {
        assert(f.h * f.w == f.w * f.h) by (nonlinear_arith);
        transform::lemma_area(n as int);
    }
    let pred: Vec<u16> = predict_luma(&pic.y, f.luma_geo(row, col, n, n), mode, max);
    let orig: Vec<u16> = take_block(&src.y, f.src_w, f.src_h, row, col, n, Ghost(f.max()));
    let scan_idx: u8 = scan_idx_for(mode, log2_of(n), true, false);
    proof {
        assert forall|i: int| 0 <= i < orig@.len() implies #[trigger] orig@[i] <= 4095 by {
            assert(orig@[i] <= f.max());
        }
        assert forall|i: int| 0 <= i < pred@.len() implies #[trigger] pred@[i] <= 4095 by {
            assert(pred@[i] <= f.max());
        }
    }
    code_lossless(&orig, &pred, n, mode, scan_idx)
}

/// What a square takes, and the contexts after it.
struct Taken {
    bits: u64,
    ctx: ContextSet,
    ictx: IntraModeContexts,
}

impl Taken {
    /// Bins were counted from the contexts `bank` on, and take `r`.
    spec fn counts(self, bank: Seq<CtxModel>, b: Seq<bins::Bin>, r: int) -> bool {
        &&& self.ctx.wf()
        &&& self.ictx.wf()
        &&& self.bits == r
        &&& coder::bank_of(self.ctx, self.ictx) == bins::bank_after(bank, b)
    }
}

/// What a coder has counted since it was set up.
fn taken(c: Coder<CabacEstimator>, Ghost(b): Ghost<Seq<bins::Bin>>) -> (t: Taken)
    requires
        c.wf(),
        c.said() == b,
        c.log0@.len() == 0,
    ensures
        t.counts(c.bank0@, b, trial::bins_rate(c.bank0@, b)),
        t.bits <= single::MOST,
{
    proof {
        c.lemma_bank_is();
        bins::lemma_wrote_exact(c.log0@, c.bank0@, c.enc.log(), c.bank(), c.said@);
        assert(c.enc.log() =~= bins::symbols(c.bank0@, b));
    }
    let bits: u64 = c.enc.bits();
    Taken { bits, ctx: c.ctx, ictx: c.ictx }
}

fn estimator(ctx: &ContextSet, ictx: &IntraModeContexts) -> (c: Coder<CabacEstimator>)
    requires
        ctx.wf(),
        ictx.wf(),
    ensures
        c.wf(),
        c.said() == Seq::<bins::Bin>::empty(),
        c.log0@.len() == 0,
        c.bank0@ == coder::bank_of(*ctx, *ictx),
{
    Coder::new(CabacEstimator::new(), *ctx, *ictx)
}

/// What a square in one piece takes.
fn count_whole(tb: &Tb, size: usize, depth: usize, ctx: &ContextSet, ictx: &IntraModeContexts) -> (t:
    Taken)
    requires
        tb.wf(),
        tb.n == size,
        size == 4 || size == 8 || size == 16 || size == 32,
        ctx.wf(),
        ictx.wf(),
    ensures
        t.counts(
            coder::bank_of(*ctx, *ictx),
            flag_bins(size as int, false) + lossless::luma_leaf_bins(*tb, depth as int),
            leaf_rate(*tb, coder::bank_of(*ctx, *ictx), size as int, depth as int),
        ),
        t.bits <= 3 * single::MOST,
{
    let ghost bank = coder::bank_of(*ctx, *ictx);
    let ghost head = leaf_flags(*tb, size as int, depth as int);
    let ghost rest = tusyntax::res_bins(*tb, true, false);
    let ghost b = flag_bins(size as int, false) + lossless::luma_leaf_bins(*tb, depth as int);
    let mut c: Coder<CabacEstimator> = estimator(ctx, ictx);
    if size > 4 {
        c.split_transform_flag(split_transform_context(size), false);
    }
    c.cbf_luma(tb.nz, depth);
    assert(c.said() =~= head);
    let t: Taken = taken(c, Ghost(head));
    assert(b =~= head + rest);
    if !tb.nz {
        proof {
            reveal(tusyntax::res_bins);
            assert(b =~= head);
        }
        return t;
    }
    let mut c: Coder<CabacEstimator> = estimator(&t.ctx, &t.ictx);
    encode_levels(&mut c, tb, true, false);
    assert(c.said() =~= rest);
    let u: Taken = taken(c, Ghost(rest));
    proof {
        bins::lemma_symbols_add(bank, head, rest);
    }
    add_taken(t, u)
}

/// What comes after is counted on.
fn add_taken(a: Taken, b: Taken) -> (t: Taken)
    requires
        a.bits <= 16 * single::MOST,
        b.bits <= 16 * single::MOST,
    ensures
        t.bits == single::plus(a.bits as int, b.bits as int),
        16 * t.bits <= 17 * (a.bits + b.bits),
        t.ctx == b.ctx,
        t.ictx == b.ictx,
{
    Taken { bits: single::add_single(a.bits, b.bits), ctx: b.ctx, ictx: b.ictx }
}

/// What the flag of a square that is cut takes.
fn count_flag(size: usize, ctx: &ContextSet, ictx: &IntraModeContexts) -> (t: Taken)
    requires
        size == 8 || size == 16 || size == 32,
        ctx.wf(),
        ictx.wf(),
    ensures
        t.counts(
            coder::bank_of(*ctx, *ictx),
            flag_bins(size as int, true),
            trial::bins_rate(coder::bank_of(*ctx, *ictx), flag_bins(size as int, true)),
        ),
        t.bits <= single::MOST,
{
    let mut c: Coder<CabacEstimator> = estimator(ctx, ictx);
    c.split_transform_flag(split_transform_context(size), true);
    assert(c.said() =~= flag_bins(size as int, true));
    taken(c, Ghost(flag_bins(size as int, true)))
}

/// Cuts a square where that takes fewer bits.
#[verifier::spinoff_prover]
#[verifier::rlimit(60)]
fn cut(w: &Weighed, size: usize, depth: usize, ctx: &ContextSet, ictx: &IntraModeContexts) -> (r: (
    Cuts,
    Taken,
))
    requires
        w.wf(size as int),
        depth + size <= 64,
        4 <= size,
        ctx.wf(),
        ictx.wf(),
    ensures
        r.0 == w.cuts(coder::bank_of(*ctx, *ictx), size as int, depth as int),
        r.1.counts(
            coder::bank_of(*ctx, *ictx),
            w.bins(coder::bank_of(*ctx, *ictx), size as int, depth as int),
            w.rate(coder::bank_of(*ctx, *ictx), size as int, depth as int),
        ),
        r.1.bits <= 3 * single::MOST,
    decreases w, 0int,
{
    let ghost bank = coder::bank_of(*ctx, *ictx);
    match w {
        Weighed::Small { tb } => (Cuts::Whole, count_whole(tb, size, depth, ctx, ictx)),
        Weighed::Node { tb, q0, q1, q2, q3 } => {
            let whole: Taken = count_whole(tb, size, depth, ctx, ictx);
            let h: usize = size / 2;
            let ghost b0 = flag_bins(size as int, true);
            let t0: Taken = count_flag(size, ctx, ictx);
            let (c0, t1, Ghost(b1)): (Cuts, Taken, Ghost<Seq<bins::Bin>>) = cut_next(
                q0,
                h,
                depth + 1,
                t0,
                Ghost(bank),
                Ghost(b0),
            );
            let (c1, t2, Ghost(b2)): (Cuts, Taken, Ghost<Seq<bins::Bin>>) = cut_next(
                q1,
                h,
                depth + 1,
                t1,
                Ghost(bank),
                Ghost(b1),
            );
            let (c2, t3, Ghost(b3)): (Cuts, Taken, Ghost<Seq<bins::Bin>>) = cut_next(
                q2,
                h,
                depth + 1,
                t2,
                Ghost(bank),
                Ghost(b2),
            );
            let (c3, t4, Ghost(b4)): (Cuts, Taken, Ghost<Seq<bins::Bin>>) = cut_next(
                q3,
                h,
                depth + 1,
                t3,
                Ghost(bank),
                Ghost(b3),
            );
            assert(w.cut_bins(bank, size as int, depth as int) == b4);
            assert(w.cut_rate(bank, size as int, depth as int) == t4.bits);
            if t4.bits < whole.bits {
                assert(w.pays(bank, size as int, depth as int));
                let four: Cuts = Cuts::Four {
                    q0: Box::new(c0),
                    q1: Box::new(c1),
                    q2: Box::new(c2),
                    q3: Box::new(c3),
                };
                (four, t4)
            } else {
                assert(!w.pays(bank, size as int, depth as int));
                (Cuts::Whole, whole)
            }
        },
    }
}

/// Cuts the next quarter, after the bins `b` from the contexts `bank` on.
fn cut_next(
    w: &Weighed,
    size: usize,
    depth: usize,
    t: Taken,
    Ghost(bank): Ghost<Seq<CtxModel>>,
    Ghost(b): Ghost<Seq<bins::Bin>>,
) -> (r: (Cuts, Taken, Ghost<Seq<bins::Bin>>))
    requires
        w.wf(size as int),
        depth + size <= 64,
        4 <= size,
        t.counts(bank, b, t.bits as int),
        t.bits <= 12 * single::MOST,
    ensures
        r.0 == w.cuts(bins::bank_after(bank, b), size as int, depth as int),
        r.2@ == b + w.bins(bins::bank_after(bank, b), size as int, depth as int),
        r.1.counts(
            bank,
            r.2@,
            single::plus(
                t.bits as int,
                w.rate(bins::bank_after(bank, b), size as int, depth as int),
            ),
        ),
        16 * r.1.bits <= 17 * (t.bits + 3 * single::MOST),
    decreases w, 1int,
{
    let ghost more = w.bins(bins::bank_after(bank, b), size as int, depth as int);
    let ghost all = b + more;
    let (c, u): (Cuts, Taken) = cut(w, size, depth, &t.ctx, &t.ictx);
    proof {
        bins::lemma_symbols_add(bank, b, more);
    }
    (c, add_taken(t, u), Ghost(all))
}

impl Cuts {
    /// How node `k` is cut; the four below node `k` are `4 k + 1` and those after it.
    pub open spec fn node(self, k: int) -> Cuts
        decreases k,
    {
        if k <= 0 {
            self
        } else {
            match self.node((k - 1) / 4) {
                Cuts::Whole => Cuts::Whole,
                Cuts::Four { q0, q1, q2, q3 } => {
                    let i = (k - 1) % 4;
                    if i == 0 {
                        *q0
                    } else if i == 1 {
                        *q1
                    } else if i == 2 {
                        *q2
                    } else {
                        *q3
                    }
                },
            }
        }
    }

    fn node_at(&self, k: usize) -> (r: &Cuts)
        ensures
            *r == self.node(k as int),
        decreases k,
    {
        if k == 0 {
            return self;
        }
        let up: &Cuts = self.node_at((k - 1) / 4);
        match up {
            Cuts::Whole => up,
            Cuts::Four { q0, q1, q2, q3 } => {
                let i: usize = (k - 1) % 4;
                if i == 0 {
                    q0
                } else if i == 1 {
                    q1
                } else if i == 2 {
                    q2
                } else {
                    q3
                }
            },
        }
    }

    /// The flags of the nodes.
    fn flags(&self) -> (r: [bool; 85])
        ensures
            forall|k: int| 0 <= k < 85 ==> #[trigger] r@[k] == self.node(k) is Four,
    {
        let mut r: [bool; 85] = [false;85];
        for k in 0..85usize
            invariant
                forall|j: int| 0 <= j < k ==> #[trigger] r@[j] == self.node(j) is Four,
        {
            r[k] = matches!(self.node_at(k), Cuts::Four { .. });
        }
        r
    }
}

/// Cuts the luma of a unit without loss where that takes fewer bits: the flags of
/// the nodes of its tree, and the blocks that were weighed.
pub fn choose_lossless_luma_tree(
    f: &Frame,
    src: &Yuv,
    pic: &Picture,
    row: usize,
    col: usize,
    size: usize,
    mode: u8,
    qp: u8,
    ctx: &ContextSet,
    ictx: &IntraModeContexts,
) -> (r: ([bool; 85], Weighed))
    requires
        f.wf(),
        f.source_ok(*src),
        f.picture_ok(*pic),
        size == 8 || size == 16 || size == 32,
        f.luma_fits(row as int, col as int, size as int),
        mode <= 34,
        ctx.wf(),
        ictx.wf(),
    ensures
        r.1.wf(size as int),
        r.1.of(*f, *src, pic.y@, row as int, col as int, size as int, mode, qp),
        forall|k: int|
            0 <= k < 85 ==> #[trigger] r.0@[k] == r.1.cuts(
                coder::bank_of(*ctx, *ictx),
                size as int,
                0,
            ).node(k) is Four,
{
    let w: Weighed = weigh(f, src, pic, row, col, size, mode, qp);
    let (cuts, _): (Cuts, Taken) = cut(&w, size, 0, ctx, ictx);
    (cuts.flags(), w)
}

/// Cutting where it pays never takes more bits than leaving the square whole.
pub proof fn law_cutting_takes_no_more(w: Weighed, bank: Seq<CtxModel>, size: int, depth: int)
    ensures
        w.rate(bank, size, depth) <= w.whole_rate(bank, size, depth),
{
}

} // verus!
