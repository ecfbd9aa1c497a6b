//! Lossless coding units: their transform trees, how they are coded, and why they
//! are exact.
use crate::cabac::bins;
use crate::cabac::coder;
use crate::cabac::coder::Coder;
use crate::cabac::contexts;
use crate::cabac::contexts::ContextSet;
use crate::cabac::engine::CabacWriter;
use crate::cabac::residual;
use crate::commit;
use crate::commit::{commit_chroma, commit_luma, ChromaBlock, LumaBlock, PlainLevels};
use crate::cumaps;
use crate::cumaps::split_transform_context;
use crate::fmt::ChromaFormat;
use crate::frame;
use crate::frame::{Frame, Picture};
use crate::planes;
use crate::planes::Yuv;
use crate::quant;
use crate::refs;
use crate::tb;
use crate::tb::Tb;
use crate::transform;
use crate::tusyntax;
use crate::tusyntax::{encode_level_list, encode_levels};
use vstd::prelude::*;

verus! {

/// The luma blocks of a lossless unit.
pub enum LumaTree {
    Leaf { tb: Tb },
    Split { q0: Box<LumaTree>, q1: Box<LumaTree>, q2: Box<LumaTree>, q3: Box<LumaTree> },
}

/// A luma block of a lossless unit.
pub open spec fn luma_block(row: int, col: int, size: int, mode: u8, qp: u8) -> LumaBlock {
    LumaBlock {
        row: row as usize,
        col: col as usize,
        n: size as usize,
        min_pu: size as usize,
        mode,
        qp,
        lossless: true,
    }
}

impl LumaTree {
    pub open spec fn wf(self, size: int) -> bool
        decreases self,
    {
        match self {
            LumaTree::Leaf { tb } => tb.wf() && tb.n == size,
            LumaTree::Split { q0, q1, q2, q3 } => {
                &&& size > 4
                &&& q0.wf(size / 2)
                &&& q1.wf(size / 2)
                &&& q2.wf(size / 2)
                &&& q3.wf(size / 2)
            },
        }
    }

    /// The tree is cut as the flags of its nodes say.
    pub open spec fn follows(self, split: Seq<bool>, node: int, size: int) -> bool
        decreases self,
    {
        match self {
            LumaTree::Leaf { .. } => !(size > 4 && split[node]),
            LumaTree::Split { q0, q1, q2, q3 } => {
                &&& size > 4
                &&& split[node]
                &&& q0.follows(split, node * 4 + 1, size / 2)
                &&& q1.follows(split, node * 4 + 2, size / 2)
                &&& q2.follows(split, node * 4 + 3, size / 2)
                &&& q3.follows(split, node * 4 + 4, size / 2)
            },
        }
    }

    /// The luma plane after a decoder put the blocks into it.
    pub open spec fn after(
        self,
        f: Frame,
        y: Seq<u16>,
        row: int,
        col: int,
        size: int,
        mode: u8,
        qp: u8,
    ) -> Seq<u16>
        decreases self,
    {
        let h = size / 2;
        match self {
            LumaTree::Leaf { tb } => luma_block(row, col, size, mode, qp).after(f, y, tb.levels@),
            LumaTree::Split { q0, q1, q2, q3 } => {
                let y = q0.after(f, y, row, col, h, mode, qp);
                let y = q1.after(f, y, row, col + h, h, mode, qp);
                let y = q2.after(f, y, row + h, col, h, mode, qp);
                q3.after(f, y, row + h, col + h, h, mode, qp)
            },
        }
    }
}

/// A plane with the source in the square of side `n` at `(row, col)`.
pub open spec fn sourced(
    plane: Seq<u16>,
    stride: int,
    src: Seq<u16>,
    sw: int,
    sh: int,
    row: int,
    col: int,
    bw: int,
    bh: int,
) -> Seq<u16> {
    Seq::new(
        plane.len(),
        |x: int|
            {
                let (r, c) = (x / stride, x % stride);
                if row <= r < row + bh && col <= c < col + bw {
                    planes::clamped(src, sw, sh, r, c)
                } else {
                    plane[x]
                }
            },
    )
}

/// Putting the source of a block is having the source there.
proof fn lemma_put_source(
    plane: Seq<u16>,
    stride: int,
    src: Seq<u16>,
    sw: int,
    sh: int,
    row: int,
    col: int,
    n: int,
)
    requires
        0 < n,
    ensures
        planes::with_block(
            plane,
            stride,
            row,
            col,
            n,
            n,
            frame::source_block(src, sw, sh, row, col, n),
        ) == sourced(plane, stride, src, sw, sh, row, col, n, n),
{
    let b = frame::source_block(src, sw, sh, row, col, n);
    let p = planes::with_block(plane, stride, row, col, n, n, b);
    let q = sourced(plane, stride, src, sw, sh, row, col, n, n);
    assert forall|x: int| 0 <= x < plane.len() implies #[trigger] p[x] == q[x] by {
        let (r, c) = (x / stride - row, x % stride - col);
        if 0 <= r < n && 0 <= c < n {
            transform::lemma_at(r, c, n);
            refs::lemma_inside(r, c, n, n);
        }
    }
    assert(p =~= q);
}

/// The source in four quarters is the source in the whole.
proof fn lemma_quarters(
    plane: Seq<u16>,
    stride: int,
    src: Seq<u16>,
    sw: int,
    sh: int,
    row: int,
    col: int,
    n: int,
)
    requires
        n % 2 == 0,
        0 <= n,
    ensures
        ({
            let h = n / 2;
            let p = sourced(plane, stride, src, sw, sh, row, col, h, h);
            let p = sourced(p, stride, src, sw, sh, row, col + h, h, h);
            let p = sourced(p, stride, src, sw, sh, row + h, col, h, h);
            let p = sourced(p, stride, src, sw, sh, row + h, col + h, h, h);
            p == sourced(plane, stride, src, sw, sh, row, col, n, n)
        }),
{
    let h = n / 2;
    let p = sourced(plane, stride, src, sw, sh, row, col, h, h);
    let p = sourced(p, stride, src, sw, sh, row, col + h, h, h);
    let p = sourced(p, stride, src, sw, sh, row + h, col, h, h);
    let p = sourced(p, stride, src, sw, sh, row + h, col + h, h, h);
    assert(p =~= sourced(plane, stride, src, sw, sh, row, col, n, n));
}

/// Codes the luma of a lossless unit, cut as `split` says from node `node` on: the
/// picture has the source there, and a decoder makes the same of the levels.
pub fn commit_lossless_luma_tree(
    f: &Frame,
    src: &Yuv,
    pic: &mut Picture,
    split: &[bool; 85],
    node: usize,
    row: usize,
    col: usize,
    size: usize,
    mode: u8,
    qp: u8,
    ctx: &ContextSet,
) -> (t: LumaTree)
    requires
        f.wf(),
        f.source_ok(*src),
        f.picture_ok(*old(pic)),
        quant::quant_ok(size as int, qp as int, f.bit_depth.spec_bits()),
        f.luma_fits(row as int, col as int, size as int),
        mode <= 34,
        node < cumaps::node_limit(size as int),
        ctx.wf(),
    ensures
        t.wf(size as int),
        t.follows(split@, node as int, size as int),
        f.picture_ok(*final(pic)),
        final(pic).cb == old(pic).cb,
        final(pic).cr == old(pic).cr,
        final(pic).y@ == t.after(
            *f,
            old(pic).y@,
            row as int,
            col as int,
            size as int,
            mode,
            qp,
        ),
        final(pic).y@ == sourced(
            old(pic).y@,
            f.w as int,
            src.y@,
            f.src_w as int,
            f.src_h as int,
            row as int,
            col as int,
            size as int,
            size as int,
        ),
    decreases size,
{
    let ghost y0 = pic.y@;
    let ghost (w, sw, sh) = (f.w as int, f.src_w as int, f.src_h as int);
    if size > 4 && split[node] {
        let h: usize = size / 2;
        let q0: LumaTree = commit_lossless_luma_tree(
            f,
            src,
            pic,
            split,
            node * 4 + 1,
            row,
            col,
            h,
            mode,
            qp,
            ctx,
        );
        let q1: LumaTree = commit_lossless_luma_tree(
            f,
            src,
            pic,
            split,
            node * 4 + 2,
            row,
            col + h,
            h,
            mode,
            qp,
            ctx,
        );
        let q2: LumaTree = commit_lossless_luma_tree(
            f,
            src,
            pic,
            split,
            node * 4 + 3,
            row + h,
            col,
            h,
            mode,
            qp,
            ctx,
        );
        let q3: LumaTree = commit_lossless_luma_tree(
            f,
            src,
            pic,
            split,
            node * 4 + 4,
            row + h,
            col + h,
            h,
            mode,
            qp,
            ctx,
        );
        proof {
            lemma_quarters(y0, w, src.y@, sw, sh, row as int, col as int, size as int);
        }
        return LumaTree::Split {
            q0: Box::new(q0),
            q1: Box::new(q1),
            q2: Box::new(q2),
            q3: Box::new(q3),
        };
    }
    let b: LumaBlock = LumaBlock { row, col, n: size, min_pu: size, mode, qp, lossless: true };
    let t: Tb = commit_luma(f, src, pic, b, &PlainLevels {  }, ctx, 0);
    proof {
        lemma_luma_exact(*f, *src, y0, b, t.levels@);
        lemma_put_source(y0, w, src.y@, sw, sh, row as int, col as int, size as int);
    }
    LumaTree::Leaf { tb: t }
}

/// A lossless luma block has the samples of its source.
proof fn lemma_luma_exact(f: Frame, src: Yuv, y: Seq<u16>, b: LumaBlock, levels: Seq<i16>)
    requires
        f.wf(),
        f.source_ok(src),
        b.ok(f),
        b.lossless,
        y.len() == f.w * f.h,
        tb::samples_le(y, f.max()),
        levels == tb::lossless_levels(
            b.source(f, src),
            b.pred(f, y),
            b.n as int,
            b.mode as int,
        ),
    ensures
        b.after(f, y, levels) == planes::with_block(
            y,
            f.w as int,
            b.row as int,
            b.col as int,
            b.n as int,
            b.n as int,
            b.source(f, src),
        ),
{
    let g = f.luma_geo_of(b.row as int, b.col as int, b.n as int, b.min_pu as int);
    assert(f.h * f.w == f.w * f.h) by (nonlinear_arith);
    tb::lemma_luma_pred_le(y, g, b.mode as int, f.max());
    lemma_source_le(
        src.y@,
        f.src_w as int,
        f.src_h as int,
        b.row as int,
        b.col as int,
        b.n as int,
        f.max(),
    );
    tb::law_lossless_blocks_are_exact(
        b.source(f, src),
        b.pred(f, y),
        b.n as int,
        b.mode as int,
        f.max(),
    );
}

/// The source of a block has no larger samples than the source.
pub proof fn lemma_source_le(src: Seq<u16>, w: int, h: int, row: int, col: int, n: int, max: int)
    requires
        1 <= w,
        1 <= h,
        src.len() >= w * h,
        0 <= row,
        0 <= col,
        0 < n,
        tb::samples_le(src, max),
    ensures
        tb::samples_le(frame::source_block(src, w, h, row, col, n), max),
{
    let b = frame::source_block(src, w, h, row, col, n);
    assert forall|x: int| 0 <= x < b.len() implies #[trigger] b[x] <= max by {
        let (r, c) = (planes::min(row + x / n, h - 1), planes::min(col + x % n, w - 1));
        assert(0 <= x / n && 0 <= x % n) by (nonlinear_arith)
            requires
                0 <= x,
                0 < n,
        ;
        refs::lemma_inside(r, c, w, h);
        assert(h * w == w * h) by (nonlinear_arith);
    }
}

/// The chroma blocks of a lossless unit: a square of luma that is not cut, or whose
/// quarters would be too small for chroma of their own, has one block in each plane
/// or two, one above the other.
pub enum ChromaTree {
    Leaf { cb: Vec<Tb>, cr: Vec<Tb> },
    Split { q0: Box<ChromaTree>, q1: Box<ChromaTree>, q2: Box<ChromaTree>, q3: Box<ChromaTree> },
}

/// The chroma of a luma tree is cut where the luma is.
pub open spec fn cuts_chroma(l: LumaTree, size: int, chroma: ChromaFormat) -> bool {
    l is Split && (size > 8 || chroma is Yuv444)
}

/// Chroma block `t` of the square of luma at `(row, col)`.
pub open spec fn chroma_block(
    row: int,
    col: int,
    size: int,
    t: int,
    chroma: ChromaFormat,
    mode: u8,
    qp: u8,
) -> ChromaBlock {
    let (sw, sh) = (chroma.spec_sub_w(), chroma.spec_sub_h());
    let side = size / sw;
    ChromaBlock {
        row: (row / sh + t * side) as usize,
        col: (col / sw) as usize,
        n: side as usize,
        min_pu: size as usize,
        lrow: (row + t * side * sh) as usize,
        lcol: col as usize,
        mode,
        qp,
        lossless: true,
        smooth: false,
    }
}

/// A plane after a decoder put the first `k` of the blocks that are one above the
/// other into it.
pub open spec fn stack_after(
    f: Frame,
    plane: Seq<u16>,
    ts: Seq<Tb>,
    row: int,
    col: int,
    size: int,
    mode: u8,
    qp: u8,
    k: int,
) -> Seq<u16>
    decreases k,
{
    if k <= 0 {
        plane
    } else {
        chroma_block(row, col, size, k - 1, f.chroma, mode, qp).after(
            f,
            stack_after(f, plane, ts, row, col, size, mode, qp, k - 1),
            ts[k - 1].levels@,
        )
    }
}

impl ChromaTree {
    pub open spec fn wf(self, size: int, chroma: ChromaFormat) -> bool
        decreases self,
    {
        match self {
            ChromaTree::Leaf { cb, cr } => {
                &&& cb@.len() == tusyntax::stacked(chroma)
                &&& cr@.len() == tusyntax::stacked(chroma)
                &&& tusyntax::list_ok(cb@)
                &&& tusyntax::list_ok(cr@)
            },
            ChromaTree::Split { q0, q1, q2, q3 } => {
                &&& q0.wf(size / 2, chroma)
                &&& q1.wf(size / 2, chroma)
                &&& q2.wf(size / 2, chroma)
                &&& q3.wf(size / 2, chroma)
            },
        }
    }

    /// The tree is cut where the luma is.
    pub open spec fn follows(self, l: LumaTree, size: int, chroma: ChromaFormat) -> bool
        decreases self,
    {
        match self {
            ChromaTree::Leaf { .. } => !cuts_chroma(l, size, chroma),
            ChromaTree::Split { q0, q1, q2, q3 } => {
                &&& cuts_chroma(l, size, chroma)
                &&& l matches LumaTree::Split { q0: l0, q1: l1, q2: l2, q3: l3 } && {
                    &&& q0.follows(*l0, size / 2, chroma)
                    &&& q1.follows(*l1, size / 2, chroma)
                    &&& q2.follows(*l2, size / 2, chroma)
                    &&& q3.follows(*l3, size / 2, chroma)
                }
            },
        }
    }

    /// A chroma plane after a decoder put the blocks into it.
    pub open spec fn after(
        self,
        first: bool,
        f: Frame,
        plane: Seq<u16>,
        row: int,
        col: int,
        size: int,
        mode: u8,
        qp: u8,
    ) -> Seq<u16>
        decreases self,
    {
        let h = size / 2;
        match self {
            ChromaTree::Leaf { cb, cr } => {
                let ts = if first {
                    cb@
                } else {
                    cr@
                };
                stack_after(f, plane, ts, row, col, size, mode, qp, ts.len() as int)
            },
            ChromaTree::Split { q0, q1, q2, q3 } => {
                let p = q0.after(first, f, plane, row, col, h, mode, qp);
                let p = q1.after(first, f, p, row, col + h, h, mode, qp);
                let p = q2.after(first, f, p, row + h, col, h, mode, qp);
                q3.after(first, f, p, row + h, col + h, h, mode, qp)
            },
        }
    }
}

/// A lossless chroma block has the samples of its source.
proof fn lemma_chroma_exact(
    f: Frame,
    src: Seq<u16>,
    plane: Seq<u16>,
    b: ChromaBlock,
    levels: Seq<i16>,
)
    requires
        f.wf(),
        src.len() >= f.src_cw * f.src_ch,
        tb::samples_le(src, f.max()),
        b.ok(f),
        b.lossless,
        plane.len() == f.cw * f.ch,
        tb::samples_le(plane, f.max()),
        levels == tb::lossless_levels(
            b.source(f, src),
            b.pred(f, plane),
            b.n as int,
            b.mode as int,
        ),
    ensures
        b.after(f, plane, levels) == planes::with_block(
            plane,
            f.cw as int,
            b.row as int,
            b.col as int,
            b.n as int,
            b.n as int,
            b.source(f, src),
        ),
{
    let g = f.chroma_geo_of(
        b.row as int,
        b.col as int,
        b.n as int,
        b.min_pu as int,
        b.lrow as int,
        b.lcol as int,
    );
    f.lemma_chroma_dims();
    assert(f.ch * f.cw == f.cw * f.ch) by (nonlinear_arith);
    tb::lemma_chroma_pred_le(plane, g, b.mode as int, b.smooths(), f.max());
    lemma_source_le(
        src,
        f.src_cw as int,
        f.src_ch as int,
        b.row as int,
        b.col as int,
        b.n as int,
        f.max(),
    );
    tb::law_lossless_blocks_are_exact(
        b.source(f, src),
        b.pred(f, plane),
        b.n as int,
        b.mode as int,
        f.max(),
    );
}

/// The rectangle of chroma that belongs to a square of luma, in samples.
pub open spec fn chroma_rect(row: int, col: int, size: int, chroma: ChromaFormat) -> (
    int,
    int,
    int,
    int,
) {
    let (sw, sh) = (chroma.spec_sub_w(), chroma.spec_sub_h());
    (row / sh, col / sw, size / sw, size / sh)
}

/// A chroma plane with the source in the chroma of a square of luma.
#[verifier::opaque]
pub open spec fn chroma_sourced(
    f: Frame,
    plane: Seq<u16>,
    src: Seq<u16>,
    row: int,
    col: int,
    size: int,
) -> Seq<u16> {
    let (r, c, w, h) = chroma_rect(row, col, size, f.chroma);
    sourced(plane, f.cw as int, src, f.src_cw as int, f.src_ch as int, r, c, w, h)
}

/// A square of luma lies inside the picture, on a grid that its chroma can follow.
pub open spec fn unit_fits(f: Frame, row: int, col: int, size: int) -> bool {
    &&& f.luma_fits(row, col, size)
    &&& row % 4 == 0
    &&& col % 4 == 0
    &&& size == 4 || size == 8 || size == 16 || size == 32
    &&& size == 4 ==> f.chroma is Yuv444
    &&& size > 4 ==> row % 8 == 0 && col % 8 == 0
}

/// The chroma blocks of a square of luma lie inside the planes.
proof fn lemma_chroma_block_ok(f: Frame, row: int, col: int, size: int, t: int, mode: u8, qp: u8)
    requires
        f.wf(),
        !(f.chroma is Monochrome),
        unit_fits(f, row, col, size),
        0 <= t < tusyntax::stacked(f.chroma),
        mode <= 34,
        0 <= qp <= 173,
    ensures
        chroma_block(row, col, size, t, f.chroma, mode, qp).ok(f),
        ({
            let (sw, sh) = (f.chroma.spec_sub_w(), f.chroma.spec_sub_h());
            let b = chroma_block(row, col, size, t, f.chroma, mode, qp);
            &&& b.row == row / sh + t * (size / sw)
            &&& b.col == col / sw
            &&& b.n == size / sw
            &&& b.lrow == row + t * (size / sw) * sh
            &&& b.lcol == col
            &&& b.min_pu == size
        }),
{
    f.lemma_chroma_dims();
    let (sw, sh) = (f.chroma.spec_sub_w(), f.chroma.spec_sub_h());
    assert(sw == 1 || sw == 2);
    assert(sh == 1 || sh == 2);
    assert(t == 0 || t == 1);
    let side = size / sw;
    if t == 0 {
        assert(t * side == 0 && t * side * sh == 0) by (nonlinear_arith)
            requires
                t == 0,
        ;
    } else {
        assert(sh == 1 && sw == 2);
        assert(t * side == side && t * side * sh == side) by (nonlinear_arith)
            requires
                t == 1,
                sh == 1,
        ;
    }
}

/// Codes the chroma blocks of one plane of a square of luma, one below the other.
fn commit_lossless_stack(
    f: &Frame,
    src: &Yuv,
    pic: &mut Picture,
    first: bool,
    row: usize,
    col: usize,
    size: usize,
    mode: u8,
    qp: u8,
    ctx: &ContextSet,
) -> (ts: Vec<Tb>)
    requires
        f.wf(),
        f.source_ok(*src),
        f.picture_ok(*old(pic)),
        !(f.chroma is Monochrome),
        unit_fits(*f, row as int, col as int, size as int),
        mode <= 34,
        qp <= 173,
        ctx.wf(),
    ensures
        ts@.len() == tusyntax::stacked(f.chroma),
        tusyntax::list_ok(ts@),
        f.picture_ok(*final(pic)),
        final(pic).y == old(pic).y,
        ({
            let p0 = commit::plane_of(first, old(pic).cb@, old(pic).cr@);
            let p1 = commit::plane_of(first, final(pic).cb@, final(pic).cr@);
            let s = commit::plane_of(first, src.cb@, src.cr@);
            &&& p1 == stack_after(
                *f,
                p0,
                ts@,
                row as int,
                col as int,
                size as int,
                mode,
                qp,
                ts@.len() as int,
            )
            &&& p1 == chroma_sourced(*f, p0, s, row as int, col as int, size as int)
        }),
        first ==> final(pic).cr@ == old(pic).cr@,
        !first ==> final(pic).cb@ == old(pic).cb@,
{
    let (sw, sh): (usize, usize) = (f.chroma.sub_w(), f.chroma.sub_h());
    let side: usize = size / sw;
    let count: usize = f.chroma.chroma_tbs_per_cu();
    let ghost p0 = commit::plane_of(first, pic.cb@, pic.cr@);
    let ghost s = commit::plane_of(first, src.cb@, src.cr@);
    let ghost (gr, gc, gs) = (row as int, col as int, size as int);
    let ghost (fw, scw, sch) = (f.cw as int, f.src_cw as int, f.src_ch as int);
    let ghost (r0, c0, rw, rh) = chroma_rect(gr, gc, gs, f.chroma);
    let mut ts: Vec<Tb> = Vec::new();
    proof {
        assert(sourced(p0, fw, s, scw, sch, r0, c0, rw, 0) =~= p0);
        assert(0 * side == 0);
    }
    for t in 0..count
        invariant
            f.wf(),
            f.source_ok(*src),
            f.picture_ok(*pic),
            !(f.chroma is Monochrome),
            unit_fits(*f, gr, gc, gs),
            (gr, gc, gs) == (row as int, col as int, size as int),
            (fw, scw, sch) == (f.cw as int, f.src_cw as int, f.src_ch as int),
            (r0, c0, rw, rh) == chroma_rect(gr, gc, gs, f.chroma),
            sw == f.chroma.spec_sub_w(),
            sh == f.chroma.spec_sub_h(),
            side == gs / sw as int,
            mode <= 34,
            qp <= 173,
            ctx.wf(),
            count == tusyntax::stacked(f.chroma),
            s == commit::plane_of(first, src.cb@, src.cr@),
            ts@.len() == t,
            tusyntax::list_ok(ts@),
            p0 == commit::plane_of(first, old(pic).cb@, old(pic).cr@),
            pic.y == old(pic).y,
            first ==> pic.cr@ == old(pic).cr@,
            !first ==> pic.cb@ == old(pic).cb@,
            commit::plane_of(first, pic.cb@, pic.cr@) == stack_after(
                *f,
                p0,
                ts@,
                gr,
                gc,
                gs,
                mode,
                qp,
                t as int,
            ),
            commit::plane_of(first, pic.cb@, pic.cr@) == sourced(
                p0,
                fw,
                s,
                scw,
                sch,
                r0,
                c0,
                rw,
                t * side,
            ),
    {
        let ghost b0 = chroma_block(gr, gc, gs, t as int, f.chroma, mode, qp);
        proof {
            lemma_chroma_block_ok(*f, gr, gc, gs, t as int, mode, qp);
            f.lemma_chroma_dims();
            assert(t * side <= side && t * side * sh <= side) by (nonlinear_arith)
                requires
                    t == 0 || (t == 1 && sh == 1),
                    0 <= side,
            ;
            assert(0 <= t * side);
        }
        let b: ChromaBlock = ChromaBlock {
            row: row / sh + t * side,
            col: col / sw,
            n: side,
            min_pu: size,
            lrow: row + t * side * sh,
            lcol: col,
            mode,
            qp,
            lossless: true,
            smooth: false,
        };
        assert(b == b0);
        let ghost before = commit::plane_of(first, pic.cb@, pic.cr@);
        let ghost ts0 = ts@;
        let x: Tb = commit_chroma(f, src, pic, first, b, &PlainLevels {  }, ctx, 0);
        proof {
            lemma_chroma_exact(*f, s, before, b, x.levels@);
            lemma_put_source(before, fw, s, scw, sch, b.row as int, b.col as int, side as int);
            lemma_stack_ext(*f, p0, ts0, ts0.push(x), gr, gc, gs, mode, qp, t as int);
            assert((t + 1) * side == t * side + side) by (nonlinear_arith);
            let now = sourced(before, fw, s, scw, sch, b.row as int, c0, rw, side as int);
            assert(now =~= sourced(p0, fw, s, scw, sch, r0, c0, rw, (t + 1) * side));
        }
        ts.push(x);
    }
    proof {
        assert(count * side == rh) by {
            let c = f.chroma;
            if c is Yuv422 {
                assert(2 * side == rh);
            } else {
                assert(1 * side == rh);
            }
        }
        reveal(chroma_sourced);
    }
    ts
}

/// Only the blocks that are put count.
proof fn lemma_stack_ext(
    f: Frame,
    plane: Seq<u16>,
    a: Seq<Tb>,
    b: Seq<Tb>,
    row: int,
    col: int,
    size: int,
    mode: u8,
    qp: u8,
    k: int,
)
    requires
        0 <= k <= a.len(),
        k <= b.len(),
        forall|i: int| 0 <= i < k ==> a[i] == b[i],
    ensures
        stack_after(f, plane, a, row, col, size, mode, qp, k) == stack_after(
            f,
            plane,
            b,
            row,
            col,
            size,
            mode,
            qp,
            k,
        ),
    decreases k,
{
    if k > 0 {
        lemma_stack_ext(f, plane, a, b, row, col, size, mode, qp, k - 1);
    }
}

/// The chroma source in four quarters is the chroma source in the whole.
proof fn lemma_chroma_quarters(
    f: Frame,
    plane: Seq<u16>,
    src: Seq<u16>,
    row: int,
    col: int,
    size: int,
)
    requires
        size == 8 || size == 16 || size == 32,
        row % 8 == 0,
        col % 8 == 0,
        0 <= row,
        0 <= col,
    ensures
        ({
            let h = size / 2;
            let p = chroma_sourced(f, plane, src, row, col, h);
            let p = chroma_sourced(f, p, src, row, col + h, h);
            let p = chroma_sourced(f, p, src, row + h, col, h);
            let p = chroma_sourced(f, p, src, row + h, col + h, h);
            p == chroma_sourced(f, plane, src, row, col, size)
        }),
{
    reveal(chroma_sourced);
    let h = size / 2;
    let (sw, sh) = (f.chroma.spec_sub_w(), f.chroma.spec_sub_h());
    assert(sw == 1 || sw == 2);
    assert(sh == 1 || sh == 2);
    let p = chroma_sourced(f, plane, src, row, col, h);
    let p = chroma_sourced(f, p, src, row, col + h, h);
    let p = chroma_sourced(f, p, src, row + h, col, h);
    let p = chroma_sourced(f, p, src, row + h, col + h, h);
    assert(p =~= chroma_sourced(f, plane, src, row, col, size));
}

/// The quarters of a square lie where the square does.
proof fn lemma_unit_quarters(f: Frame, row: int, col: int, size: int)
    requires
        unit_fits(f, row, col, size),
        size > 8 || (size == 8 && f.chroma is Yuv444),
    ensures
        unit_fits(f, row, col, size / 2),
        unit_fits(f, row, col + size / 2, size / 2),
        unit_fits(f, row + size / 2, col, size / 2),
        unit_fits(f, row + size / 2, col + size / 2, size / 2),
{
}

/// Codes the chroma of a square of luma that is not cut.
fn commit_lossless_chroma_leaf(
    f: &Frame,
    src: &Yuv,
    pic: &mut Picture,
    row: usize,
    col: usize,
    size: usize,
    mode: u8,
    qp: u8,
    ctx: &ContextSet,
) -> (t: ChromaTree)
    requires
        f.wf(),
        f.source_ok(*src),
        f.picture_ok(*old(pic)),
        !(f.chroma is Monochrome),
        unit_fits(*f, row as int, col as int, size as int),
        mode <= 34,
        qp <= 173,
        ctx.wf(),
    ensures
        t is Leaf,
        t.wf(size as int, f.chroma),
        f.picture_ok(*final(pic)),
        final(pic).y == old(pic).y,
        final(pic).cb@ == t.after(
            true,
            *f,
            old(pic).cb@,
            row as int,
            col as int,
            size as int,
            mode,
            qp,
        ),
        final(pic).cr@ == t.after(
            false,
            *f,
            old(pic).cr@,
            row as int,
            col as int,
            size as int,
            mode,
            qp,
        ),
        final(pic).cb@ == chroma_sourced(
            *f,
            old(pic).cb@,
            src.cb@,
            row as int,
            col as int,
            size as int,
        ),
        final(pic).cr@ == chroma_sourced(
            *f,
            old(pic).cr@,
            src.cr@,
            row as int,
            col as int,
            size as int,
        ),
{
    let cb: Vec<Tb> = commit_lossless_stack(f, src, pic, true, row, col, size, mode, qp, ctx);
    let cr: Vec<Tb> = commit_lossless_stack(f, src, pic, false, row, col, size, mode, qp, ctx);
    ChromaTree::Leaf { cb, cr }
}

/// Codes the chroma of a lossless unit, cut where its luma is: the planes have the
/// source there, and a decoder makes the same of the levels.
pub fn commit_lossless_chroma_tree(
    f: &Frame,
    src: &Yuv,
    pic: &mut Picture,
    l: &LumaTree,
    row: usize,
    col: usize,
    size: usize,
    mode: u8,
    qp: u8,
    ctx: &ContextSet,
) -> (t: ChromaTree)
    requires
        f.wf(),
        f.source_ok(*src),
        f.picture_ok(*old(pic)),
        !(f.chroma is Monochrome),
        l.wf(size as int),
        unit_fits(*f, row as int, col as int, size as int),
        mode <= 34,
        qp <= 173,
        ctx.wf(),
    ensures
        t.wf(size as int, f.chroma),
        t.follows(*l, size as int, f.chroma),
        f.picture_ok(*final(pic)),
        final(pic).y == old(pic).y,
        final(pic).cb@ == t.after(
            true,
            *f,
            old(pic).cb@,
            row as int,
            col as int,
            size as int,
            mode,
            qp,
        ),
        final(pic).cr@ == t.after(
            false,
            *f,
            old(pic).cr@,
            row as int,
            col as int,
            size as int,
            mode,
            qp,
        ),
        final(pic).cb@ == chroma_sourced(
            *f,
            old(pic).cb@,
            src.cb@,
            row as int,
            col as int,
            size as int,
        ),
        final(pic).cr@ == chroma_sourced(
            *f,
            old(pic).cr@,
            src.cr@,
            row as int,
            col as int,
            size as int,
        ),
    decreases l,
{
    let cuts: bool = size > 8 || matches!(f.chroma, ChromaFormat::Yuv444);
    match l {
        LumaTree::Split { q0, q1, q2, q3 } if cuts => {
            let h: usize = size / 2;
            let ghost (b0, r0) = (pic.cb@, pic.cr@);
            proof {
                lemma_unit_quarters(*f, row as int, col as int, size as int);
                lemma_chroma_quarters(*f, b0, src.cb@, row as int, col as int, size as int);
                lemma_chroma_quarters(*f, r0, src.cr@, row as int, col as int, size as int);
            }
            let (r1, c1): (usize, usize) = (row + h, col + h);
            let t0: ChromaTree = commit_lossless_chroma_tree(
                f, src, pic, q0, row, col, h, mode, qp, ctx);
            let t1: ChromaTree = commit_lossless_chroma_tree(
                f, src, pic, q1, row, c1, h, mode, qp, ctx);
            let t2: ChromaTree = commit_lossless_chroma_tree(
                f, src, pic, q2, r1, col, h, mode, qp, ctx);
            let t3: ChromaTree = commit_lossless_chroma_tree(
                f, src, pic, q3, r1, c1, h, mode, qp, ctx);
            ChromaTree::Split {
                q0: Box::new(t0),
                q1: Box::new(t1),
                q2: Box::new(t2),
                q3: Box::new(t3),
            }
        },
        _ => commit_lossless_chroma_leaf(f, src, pic, row, col, size, mode, qp, ctx),
    }
}

/// The chroma tree of a unit without chroma: cut as the luma, with no blocks.
pub fn empty_chroma_tree(l: &LumaTree, size: usize) -> (t: ChromaTree)
    requires
        l.wf(size as int),
    ensures
        t.wf(size as int, ChromaFormat::Monochrome),
        t.follows(*l, size as int, ChromaFormat::Monochrome),
    decreases l,
{
    match l {
        LumaTree::Split { q0, q1, q2, q3 } if size > 8 => {
            let h: usize = size / 2;
            ChromaTree::Split {
                q0: Box::new(empty_chroma_tree(q0, h)),
                q1: Box::new(empty_chroma_tree(q1, h)),
                q2: Box::new(empty_chroma_tree(q2, h)),
                q3: Box::new(empty_chroma_tree(q3, h)),
            }
        },
        _ => ChromaTree::Leaf { cb: Vec::new(), cr: Vec::new() },
    }
}

/// Which of the chroma blocks of a square, one above the other, have levels.
#[derive(Clone, Copy)]
pub struct Flags {
    pub upper: bool,
    pub lower: bool,
}

/// The flags of a list of blocks.
pub open spec fn list_flags(ts: Seq<Tb>) -> Flags {
    Flags { upper: ts.len() > 0 && ts[0].nz, lower: ts.len() > 1 && ts[1].nz }
}

/// Flags of four quarters together.
pub open spec fn joint_flags(
    a: Flags,
    b: Flags,
    c: Flags,
    d: Flags,
    size: int,
    chroma: ChromaFormat,
) -> Flags {
    let upper = a.upper || b.upper || c.upper || d.upper;
    let lower = a.lower || b.lower || c.lower || d.lower;
    if chroma is Yuv422 && size > 8 {
        Flags { upper: upper || lower, lower: upper || lower }
    } else {
        Flags { upper, lower }
    }
}

impl ChromaTree {
    /// The flags of a plane of the tree.
    pub open spec fn flags(self, first: bool, size: int, chroma: ChromaFormat) -> Flags
        decreases self,
    {
        match self {
            ChromaTree::Leaf { cb, cr } => list_flags(
                if first {
                    cb@
                } else {
                    cr@
                },
            ),
            ChromaTree::Split { q0, q1, q2, q3 } => joint_flags(
                q0.flags(first, size / 2, chroma),
                q1.flags(first, size / 2, chroma),
                q2.flags(first, size / 2, chroma),
                q3.flags(first, size / 2, chroma),
                size,
                chroma,
            ),
        }
    }
}

fn list_flags_of(ts: &Vec<Tb>) -> (r: Flags)
    ensures
        r == list_flags(ts@),
{
    Flags { upper: ts.len() > 0 && ts[0].nz, lower: ts.len() > 1 && ts[1].nz }
}

/// The flags of a plane of a chroma tree.
pub fn aggregate_lossless_chroma(
    t: &ChromaTree,
    first: bool,
    size: usize,
    chroma: ChromaFormat,
) -> (r: Flags)
    requires
        t.wf(size as int, chroma),
    ensures
        r == t.flags(first, size as int, chroma),
    decreases t,
{
    match t {
        ChromaTree::Leaf { cb, cr } => if first {
            list_flags_of(cb)
        } else {
            list_flags_of(cr)
        },
        ChromaTree::Split { q0, q1, q2, q3 } => {
            let a: Flags = aggregate_lossless_chroma(q0, first, size / 2, chroma);
            let b: Flags = aggregate_lossless_chroma(q1, first, size / 2, chroma);
            let c: Flags = aggregate_lossless_chroma(q2, first, size / 2, chroma);
            let d: Flags = aggregate_lossless_chroma(q3, first, size / 2, chroma);
            let upper: bool = a.upper || b.upper || c.upper || d.upper;
            let lower: bool = a.lower || b.lower || c.lower || d.lower;
            if matches!(chroma, ChromaFormat::Yuv422) && size > 8 {
                Flags { upper: upper || lower, lower: upper || lower }
            } else {
                Flags { upper, lower }
            }
        },
    }
}

/// A flag of a node, where its parent has the flag set or there is no parent.
pub open spec fn node_flag(flag: bool, parent: bool, depth: int) -> Seq<bins::Bin> {
    if depth == 0 || parent {
        residual::cbf_chroma_bins(flag, depth)
    } else {
        Seq::empty()
    }
}

/// The second flag of a node is coded.
pub open spec fn second_flag(chroma: ChromaFormat, split: bool, size: int) -> bool {
    chroma is Yuv422 && (!split || size == 8)
}

/// The flags of one plane at a node.
pub open spec fn node_flags(
    flags: Flags,
    parent: Flags,
    depth: int,
    second: bool,
) -> Seq<bins::Bin> {
    if second {
        node_flag(flags.upper, parent.upper, depth) + node_flag(flags.lower, parent.lower, depth)
    } else {
        node_flag(flags.upper, parent.upper, depth)
    }
}

/// The flags that the children of a node see.
pub open spec fn seen_flags(flags: Flags, chroma: ChromaFormat, second: bool) -> Flags {
    if chroma is Yuv422 && !second {
        Flags { upper: flags.upper, lower: flags.upper }
    } else {
        flags
    }
}

/// A luma block: its flag and its levels.
pub open spec fn luma_leaf_bins(t: Tb, depth: int) -> Seq<bins::Bin> {
    residual::cbf_luma_bins(t.nz, depth) + tusyntax::res_bins(t, true, false)
}

/// The luma block of a quarter that is not cut further.
pub open spec fn small_bins(l: LumaTree, depth: int) -> Seq<bins::Bin> {
    match l {
        LumaTree::Leaf { tb } => luma_leaf_bins(tb, depth),
        LumaTree::Split { .. } => Seq::empty(),
    }
}

/// The chroma levels of a node.
pub open spec fn chroma_leaf_bins(ch: ChromaTree) -> Seq<bins::Bin> {
    match ch {
        ChromaTree::Leaf { cb, cr } => tusyntax::res_list(cb@, 0, cb@.len() as int, false)
            + tusyntax::res_list(cr@, 0, cr@.len() as int, false),
        ChromaTree::Split { .. } => Seq::empty(),
    }
}

/// The flags at the start of a node: whether it is cut, and which chroma blocks
/// have levels.
pub open spec fn head_bins(
    l: LumaTree,
    ch: ChromaTree,
    size: int,
    depth: int,
    chroma: ChromaFormat,
    pcb: Flags,
    pcr: Flags,
) -> Seq<bins::Bin> {
    let second = second_flag(chroma, l is Split, size);
    let b = if size > 4 {
        seq![
            bins::coded(
                contexts::SPLIT_TRANSFORM_FLAG + cumaps::split_transform_ctx(size),
                l is Split,
            ),
        ]
    } else {
        Seq::empty()
    };
    if chroma is Monochrome {
        b
    } else {
        b + node_flags(ch.flags(true, size, chroma), pcb, depth, second) + node_flags(
            ch.flags(false, size, chroma),
            pcr,
            depth,
            second,
        )
    }
}

/// The transform tree of a lossless unit from one node on.
pub open spec fn node_bins(
    l: LumaTree,
    ch: ChromaTree,
    size: int,
    depth: int,
    chroma: ChromaFormat,
    pcb: Flags,
    pcr: Flags,
) -> Seq<bins::Bin>
    decreases l,
{
    let second = second_flag(chroma, l is Split, size);
    let cb = seen_flags(ch.flags(true, size, chroma), chroma, second);
    let cr = seen_flags(ch.flags(false, size, chroma), chroma, second);
    let head = head_bins(l, ch, size, depth, chroma, pcb, pcr);
    let h = size / 2;
    match l {
        LumaTree::Leaf { tb } => head + luma_leaf_bins(tb, depth) + chroma_leaf_bins(ch),
        LumaTree::Split { q0, q1, q2, q3 } => match ch {
            ChromaTree::Leaf { .. } => head + small_bins(*q0, depth + 1) + small_bins(
                *q1,
                depth + 1,
            ) + small_bins(*q2, depth + 1) + small_bins(*q3, depth + 1) + chroma_leaf_bins(ch),
            ChromaTree::Split { q0: c0, q1: c1, q2: c2, q3: c3 } => head + node_bins(
                *q0,
                *c0,
                h,
                depth + 1,
                chroma,
                cb,
                cr,
            ) + node_bins(*q1, *c1, h, depth + 1, chroma, cb, cr) + node_bins(
                *q2,
                *c2,
                h,
                depth + 1,
                chroma,
                cb,
                cr,
            ) + node_bins(*q3, *c3, h, depth + 1, chroma, cb, cr),
        },
    }
}

fn encode_node_flag<W: CabacWriter>(c: &mut Coder<W>, flag: bool, parent: bool, depth: usize)
    requires
        old(c).wf(),
    ensures
        final(c).wf(),
        final(c).adds(*old(c), node_flag(flag, parent, depth as int)),
{
    if depth == 0 || parent {
        c.cbf_chroma(flag, depth);
    } else {
        proof {
            coder::lemma_nothing(c.said());
        }
    }
}

fn encode_node_flags<W: CabacWriter>(
    c: &mut Coder<W>,
    flags: Flags,
    parent: Flags,
    depth: usize,
    second: bool,
)
    requires
        old(c).wf(),
    ensures
        final(c).wf(),
        final(c).adds(*old(c), node_flags(flags, parent, depth as int, second)),
{
    let ghost s0 = c.said();
    encode_node_flag(c, flags.upper, parent.upper, depth);
    if second {
        encode_node_flag(c, flags.lower, parent.lower, depth);
        proof {
            coder::lemma_then(
                s0,
                node_flag(flags.upper, parent.upper, depth as int),
                node_flag(flags.lower, parent.lower, depth as int),
            );
        }
    }
}

fn encode_luma_leaf<W: CabacWriter>(c: &mut Coder<W>, t: &Tb, depth: usize)
    requires
        old(c).wf(),
        t.wf(),
    ensures
        final(c).wf(),
        final(c).adds(*old(c), luma_leaf_bins(*t, depth as int)),
{
    let ghost s0 = c.said();
    c.cbf_luma(t.nz, depth);
    encode_levels(c, t, true, false);
    proof {
        coder::lemma_then(
            s0,
            residual::cbf_luma_bins(t.nz, depth as int),
            tusyntax::res_bins(*t, true, false),
        );
    }
}

fn encode_small<W: CabacWriter>(c: &mut Coder<W>, l: &LumaTree, depth: usize)
    requires
        old(c).wf(),
        l.wf(4),
    ensures
        final(c).wf(),
        final(c).adds(*old(c), small_bins(*l, depth as int)),
{
    match l {
        LumaTree::Leaf { tb } => encode_luma_leaf(c, tb, depth),
        LumaTree::Split { .. } => {
            proof {
                coder::lemma_nothing(c.said());
            }
        },
    }
}

/// Codes the chroma levels of a node.
fn encode_lossless_chroma_residuals<W: CabacWriter>(
    c: &mut Coder<W>,
    ch: &ChromaTree,
    Ghost(size): Ghost<int>,
    Ghost(chroma): Ghost<ChromaFormat>,
)
    requires
        old(c).wf(),
        ch.wf(size, chroma),
    ensures
        final(c).wf(),
        final(c).adds(*old(c), chroma_leaf_bins(*ch)),
{
    let ghost s0 = c.said();
    match ch {
        ChromaTree::Leaf { cb, cr } => {
            encode_level_list(c, cb, 0, cb.len(), false);
            encode_level_list(c, cr, 0, cr.len(), false);
            proof {
                coder::lemma_then(
                    s0,
                    tusyntax::res_list(cb@, 0, cb@.len() as int, false),
                    tusyntax::res_list(cr@, 0, cr@.len() as int, false),
                );
            }
        },
        ChromaTree::Split { .. } => {
            proof {
                coder::lemma_nothing(c.said());
            }
        },
    }
}

/// Codes the flags at the start of a node.
fn encode_head<W: CabacWriter>(
    c: &mut Coder<W>,
    l: &LumaTree,
    ch: &ChromaTree,
    size: usize,
    depth: usize,
    chroma: ChromaFormat,
    pcb: Flags,
    pcr: Flags,
    cb: Flags,
    cr: Flags,
    second: bool,
)
    requires
        old(c).wf(),
        size == 4 || size == 8 || size == 16 || size == 32,
        cb == ch.flags(true, size as int, chroma),
        cr == ch.flags(false, size as int, chroma),
        second == second_flag(chroma, *l is Split, size as int),
    ensures
        final(c).wf(),
        final(c).adds(
            *old(c),
            head_bins(*l, *ch, size as int, depth as int, chroma, pcb, pcr),
        ),
{
    let ghost s0 = c.said();
    let cut: bool = matches!(l, LumaTree::Split { .. });
    let ghost b0 = if size > 4 {
        seq![
            bins::coded(
                contexts::SPLIT_TRANSFORM_FLAG + cumaps::split_transform_ctx(size as int),
                cut,
            ),
        ]
    } else {
        Seq::empty()
    };
    proof {
        coder::lemma_nothing(s0);
    }
    if size > 4 {
        c.split_transform_flag(split_transform_context(size), cut);
    }
    if !chroma.is_monochrome() {
        encode_node_flags(c, cb, pcb, depth, second);
        encode_node_flags(c, cr, pcr, depth, second);
        proof {
            let x = node_flags(cb, pcb, depth as int, second);
            let y = node_flags(cr, pcr, depth as int, second);
            coder::lemma_then(s0, b0, x);
            coder::lemma_then(s0, b0 + x, y);
        }
    }
}

/// Codes the transform tree of a lossless unit from one node on.
fn encode_lossless_transform_node<W: CabacWriter>(
    c: &mut Coder<W>,
    l: &LumaTree,
    ch: &ChromaTree,
    size: usize,
    depth: usize,
    chroma: ChromaFormat,
    pcb: Flags,
    pcr: Flags,
)
    requires
        old(c).wf(),
        l.wf(size as int),
        ch.wf(size as int, chroma),
        ch.follows(*l, size as int, chroma),
        size == 4 || size == 8 || size == 16 || size == 32,
        size == 4 ==> depth <= 3,
        size == 8 ==> depth <= 2,
        size == 16 ==> depth <= 1,
        size == 32 ==> depth == 0,
    ensures
        final(c).wf(),
        final(c).adds(
            *old(c),
            node_bins(*l, *ch, size as int, depth as int, chroma, pcb, pcr),
        ),
    decreases l,
{
    let ghost s0 = c.said();
    let ghost (gs, gd) = (size as int, depth as int);
    let cut: bool = matches!(l, LumaTree::Split { .. });
    let second: bool = matches!(chroma, ChromaFormat::Yuv422) && (!cut || size == 8);
    let cb0: Flags = aggregate_lossless_chroma(ch, true, size, chroma);
    let cr0: Flags = aggregate_lossless_chroma(ch, false, size, chroma);
    encode_head(c, l, ch, size, depth, chroma, pcb, pcr, cb0, cr0, second);
    let ghost head = head_bins(*l, *ch, gs, gd, chroma, pcb, pcr);
    match l {
        LumaTree::Leaf { tb } => {
            encode_luma_leaf(c, tb, depth);
            encode_lossless_chroma_residuals(c, ch, Ghost(gs), Ghost(chroma));
            proof {
                coder::lemma_then(s0, head, luma_leaf_bins(*tb, gd));
                coder::lemma_then(s0, head + luma_leaf_bins(*tb, gd), chroma_leaf_bins(*ch));
            }
        },
        LumaTree::Split { q0, q1, q2, q3 } => match ch {
            ChromaTree::Leaf { .. } => {
                assert(size == 8);
                encode_small(c, q0, depth + 1);
                encode_small(c, q1, depth + 1);
                encode_small(c, q2, depth + 1);
                encode_small(c, q3, depth + 1);
                encode_lossless_chroma_residuals(c, ch, Ghost(gs), Ghost(chroma));
                proof {
                    let (x0, x1) = (small_bins(**q0, gd + 1), small_bins(**q1, gd + 1));
                    let (x2, x3) = (small_bins(**q2, gd + 1), small_bins(**q3, gd + 1));
                    coder::lemma_then(s0, head, x0);
                    coder::lemma_then(s0, head + x0, x1);
                    coder::lemma_then(s0, head + x0 + x1, x2);
                    coder::lemma_then(s0, head + x0 + x1 + x2, x3);
                    coder::lemma_then(s0, head + x0 + x1 + x2 + x3, chroma_leaf_bins(*ch));
                }
            },
            ChromaTree::Split { q0: c0, q1: c1, q2: c2, q3: c3 } => {
                let h: usize = size / 2;
                let same: bool = matches!(chroma, ChromaFormat::Yuv422) && !second;
                let cb: Flags = Flags {
                    upper: cb0.upper,
                    lower: if same {
                        cb0.upper
                    } else {
                        cb0.lower
                    },
                };
                let cr: Flags = Flags {
                    upper: cr0.upper,
                    lower: if same {
                        cr0.upper
                    } else {
                        cr0.lower
                    },
                };
                encode_lossless_transform_node(c, q0, c0, h, depth + 1, chroma, cb, cr);
                encode_lossless_transform_node(c, q1, c1, h, depth + 1, chroma, cb, cr);
                encode_lossless_transform_node(c, q2, c2, h, depth + 1, chroma, cb, cr);
                encode_lossless_transform_node(c, q3, c3, h, depth + 1, chroma, cb, cr);
                proof {
                    let g = gs / 2;
                    let x0 = node_bins(**q0, **c0, g, gd + 1, chroma, cb, cr);
                    let x1 = node_bins(**q1, **c1, g, gd + 1, chroma, cb, cr);
                    let x2 = node_bins(**q2, **c2, g, gd + 1, chroma, cb, cr);
                    let x3 = node_bins(**q3, **c3, g, gd + 1, chroma, cb, cr);
                    coder::lemma_then(s0, head, x0);
                    coder::lemma_then(s0, head + x0, x1);
                    coder::lemma_then(s0, head + x0 + x1, x2);
                    coder::lemma_then(s0, head + x0 + x1 + x2, x3);
                }
            },
        },
    }
}

/// The transform tree of a lossless unit.
pub open spec fn lossless_bins(l: LumaTree, ch: ChromaTree, size: int, chroma: ChromaFormat) -> Seq<
    bins::Bin,
> {
    let none = Flags { upper: false, lower: false };
    node_bins(l, ch, size, 0, chroma, none, none)
}

/// Codes the transform tree of a lossless unit.
pub fn encode_lossless_transform_tree<W: CabacWriter>(
    c: &mut Coder<W>,
    l: &LumaTree,
    ch: &ChromaTree,
    size: usize,
    chroma: ChromaFormat,
)
    requires
        old(c).wf(),
        l.wf(size as int),
        ch.wf(size as int, chroma),
        ch.follows(*l, size as int, chroma),
        size == 8 || size == 16 || size == 32,
    ensures
        final(c).wf(),
        final(c).adds(*old(c), lossless_bins(*l, *ch, size as int, chroma)),
{
    let none: Flags = Flags { upper: false, lower: false };
    encode_lossless_transform_node(c, l, ch, size, 0, chroma, none, none);
}

} // verus!
