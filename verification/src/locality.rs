//! A unit changes a scene only where it lies.
use crate::canvas;
use crate::canvas::Scene;
use crate::commit::{ChromaBlock, LumaBlock};
use crate::cu::{Cu, CuTus};
use crate::cumaps;
use crate::cuplan::CuPlace;
use crate::cusyntax;
use crate::frame::Frame;
use crate::lossless;
use crate::lossless::{ChromaTree, LumaTree};
use crate::refs;
use crate::runs;
use crate::tb::Tb;
use crate::transform;
use crate::tusyntax;
use crate::unitsync;
use vstd::prelude::*;

verus! {

/// A rectangle: its first row and column, and how many rows and columns it has.
pub struct Rect {
    pub row: int,
    pub col: int,
    pub rows: int,
    pub cols: int,
}

impl Rect {
    /// Entry `x` of a map with `stride` columns lies in the rectangle.
    #[verifier::opaque]
    pub open spec fn has(self, stride: int, x: int) -> bool {
        &&& self.row <= x / stride < self.row + self.rows
        &&& self.col <= x % stride < self.col + self.cols
    }

    /// All of the rectangle lies in another one.
    pub open spec fn within(self, o: Rect) -> bool {
        &&& o.row <= self.row
        &&& self.row + self.rows <= o.row + o.rows
        &&& o.col <= self.col
        &&& self.col + self.cols <= o.col + o.cols
    }
}

/// Two maps differ only in a rectangle.
#[verifier::opaque]
pub open spec fn same_outside<T>(a: Seq<T>, b: Seq<T>, stride: int, r: Rect) -> bool {
    &&& a.len() == b.len()
    &&& forall|x: int| 0 <= x < a.len() && !r.has(stride, x) ==> #[trigger] a[x] == b[x]
}

/// The luma square of a unit.
pub open spec fn luma_rect(row: int, col: int, size: int) -> Rect {
    Rect { row, col, rows: size, cols: size }
}

/// The chroma of a luma square.
pub open spec fn chroma_rect(f: Frame, row: int, col: int, size: int) -> Rect {
    let (sw, sh) = (f.chroma.spec_sub_w(), f.chroma.spec_sub_h());
    Rect { row: row / sh, col: col / sw, rows: size / sh, cols: size / sw }
}

/// The 4x4 blocks of a luma square.
pub open spec fn cell_rect(row: int, col: int, size: int) -> Rect {
    Rect { row: row / 4, col: col / 4, rows: size / 4, cols: size / 4 }
}

proof fn lemma_luma_block(f: Frame, b: LumaBlock, y: Seq<u16>, levels: Seq<i16>, r: Rect)
    requires
        luma_rect(b.row as int, b.col as int, b.n as int).within(r),
    ensures
        same_outside(b.after(f, y, levels), y, f.w as int, r),
{
    reveal(same_outside);
    reveal(Rect::has);
}

proof fn lemma_chroma_block(f: Frame, b: ChromaBlock, p: Seq<u16>, levels: Seq<i16>, r: Rect)
    requires
        luma_rect(b.row as int, b.col as int, b.n as int).within(r),
    ensures
        same_outside(b.after(f, p, levels), p, f.cw as int, r),
{
    reveal(same_outside);
    reveal(Rect::has);
}

/// Nothing has changed.
proof fn lemma_none<T>(a: Seq<T>, stride: int, r: Rect)
    ensures
        same_outside(a, a, stride, r),
{
    reveal(same_outside);
}

proof fn lemma_itself(r: Rect)
    ensures
        r.within(r),
{
}

proof fn lemma_luma_run(f: Frame, y: Seq<u16>, bs: Seq<LumaBlock>, ts: Seq<Tb>, k: int, r: Rect)
    requires
        0 <= k <= bs.len(),
        forall|i: int|
            0 <= i < bs.len() ==> luma_rect(
                (#[trigger] bs[i]).row as int,
                bs[i].col as int,
                bs[i].n as int,
            ).within(r),
    ensures
        same_outside(runs::luma_after(f, y, bs, ts, k), y, f.w as int, r),
    decreases k,
{
    if k > 0 {
        lemma_luma_run(f, y, bs, ts, k - 1, r);
        let p = runs::luma_after(f, y, bs, ts, k - 1);
        lemma_luma_block(f, bs[k - 1], p, ts[k - 1].levels@, r);
        lemma_both(runs::luma_after(f, y, bs, ts, k), p, y, f.w as int, r, r);
    } else {
        lemma_none(y, f.w as int, r);
    }
}

proof fn lemma_chroma_run(
    f: Frame,
    y: Seq<u16>,
    bs: Seq<ChromaBlock>,
    ts: Seq<Tb>,
    k: int,
    r: Rect,
)
    requires
        0 <= k <= bs.len(),
        forall|i: int|
            0 <= i < bs.len() ==> luma_rect(
                (#[trigger] bs[i]).row as int,
                bs[i].col as int,
                bs[i].n as int,
            ).within(r),
    ensures
        same_outside(runs::chroma_after(f, y, bs, ts, k), y, f.cw as int, r),
    decreases k,
{
    if k > 0 {
        lemma_chroma_run(f, y, bs, ts, k - 1, r);
        let p = runs::chroma_after(f, y, bs, ts, k - 1);
        lemma_chroma_block(f, bs[k - 1], p, ts[k - 1].levels@, r);
        lemma_both(runs::chroma_after(f, y, bs, ts, k), p, y, f.cw as int, r, r);
    } else {
        lemma_none(y, f.cw as int, r);
    }
}

/// One change after another inside a rectangle is a change inside it.
proof fn lemma_both<T>(a: Seq<T>, b: Seq<T>, c: Seq<T>, stride: int, q: Rect, r: Rect)
    requires
        same_outside(a, b, stride, q),
        same_outside(b, c, stride, r),
        q.within(r),
    ensures
        same_outside(a, c, stride, r),
{
    reveal(same_outside);
    reveal(Rect::has);
    assert forall|x: int| 0 <= x < a.len() && !r.has(stride, x) implies #[trigger] a[x]
        == c[x] by {
        assert(b[x] == c[x]);
    }
}

proof fn lemma_luma_tree(
    f: Frame,
    l: LumaTree,
    y: Seq<u16>,
    row: int,
    col: int,
    size: int,
    mode: u8,
    qp: u8,
)
    requires
        f.wf(),
        unitsync::square_ok(f, row, col, size),
        l.wf(size),
    ensures
        same_outside(
            l.after(f, y, row, col, size, mode, qp),
            y,
            f.w as int,
            luma_rect(row, col, size),
        ),
    decreases l,
{
    let h = size / 2;
    let r = luma_rect(row, col, size);
    let w = f.w as int;
    match l {
        LumaTree::Leaf { tb } => {
            lemma_luma_block(f, lossless::luma_block(row, col, size, mode, qp), y, tb.levels@, r);
        },
        LumaTree::Split { q0, q1, q2, q3 } => {
            unitsync::lemma_quarters(f, row, col, size);
            let y0 = q0.after(f, y, row, col, h, mode, qp);
            let y1 = q1.after(f, y0, row, col + h, h, mode, qp);
            let y2 = q2.after(f, y1, row + h, col, h, mode, qp);
            let y3 = q3.after(f, y2, row + h, col + h, h, mode, qp);
            lemma_luma_tree(f, *q0, y, row, col, h, mode, qp);
            lemma_luma_tree(f, *q1, y0, row, col + h, h, mode, qp);
            lemma_luma_tree(f, *q2, y1, row + h, col, h, mode, qp);
            lemma_luma_tree(f, *q3, y2, row + h, col + h, h, mode, qp);
            lemma_wider(y0, y, w, luma_rect(row, col, h), r);
            lemma_both(y1, y0, y, w, luma_rect(row, col + h, h), r);
            lemma_both(y2, y1, y, w, luma_rect(row + h, col, h), r);
            lemma_both(y3, y2, y, w, luma_rect(row + h, col + h, h), r);
        },
    }
}

proof fn lemma_wider<T>(a: Seq<T>, b: Seq<T>, stride: int, q: Rect, r: Rect)
    requires
        same_outside(a, b, stride, q),
        q.within(r),
    ensures
        same_outside(a, b, stride, r),
{
    reveal(same_outside);
    reveal(Rect::has);
}

/// The luma of a unit.
proof fn lemma_unit_luma(f: Frame, cu: Cu, lossless: bool, y: Seq<u16>)
    requires
        f.wf(),
        cu.wf(f, lossless),
    ensures
        same_outside(
            cu.luma_after(f, y),
            y,
            f.w as int,
            luma_rect(cu.place.row as int, cu.place.col as int, cu.place.size as int),
        ),
{
    let (row, col, size) = (cu.place.row as int, cu.place.col as int, cu.place.size as int);
    let r = luma_rect(row, col, size);
    match cu.tus {
        CuTus::Lossless { luma, .. } => {
            assert(unitsync::square_ok(f, row, col, size));
            lemma_luma_tree(
                f,
                luma,
                y,
                row,
                col,
                size,
                cu.choice.luma_mode(0),
                cu.place.luma_qp(f) as u8,
            );
        },
        _ => {
            let bs = cu.place.luma_blocks(f, cu.choice);
            let ts = cu.tus.ys();
            assert forall|i: int| 0 <= i < bs.len() implies luma_rect(
                (#[trigger] bs[i]).row as int,
                bs[i].col as int,
                bs[i].n as int,
            ).within(r) by {
                if cu.choice.quartered() {
                    let h = size / 2;
                    assert((i / 2 == 0 ==> (i / 2) * h == 0) && (i / 2 == 1 ==> (i / 2) * h == h)
                        && (i % 2 == 0 ==> (i % 2) * h == 0) && (i % 2 == 1 ==> (i % 2) * h == h))
                        by (nonlinear_arith);
                }
            }
            lemma_luma_run(f, y, bs, ts, ts.len() as int, r);
        },
    }
}

/// Half of a side lies in the side, on the scale of the chroma.
proof fn lemma_half(at: int, size: int, d: int, sub: int)
    requires
        size == 8 || size == 16 || size == 32,
        d == 0 || d == size / 2,
        sub == 1 || sub == 2,
    ensures
        at / sub <= (at + d) / sub,
        (at + d) / sub + size / 2 / sub <= at / sub + size / sub,
{
    if sub == 1 {
        assert((at + d) / 1 == at + d && at / 1 == at && size / 1 == size && size / 2 / 1 == size
            / 2);
    } else if size == 8 {
    } else if size == 16 {
    } else {
    }
}

/// The chroma of a quarter lies in that of the square.
proof fn lemma_quarter_rect(f: Frame, row: int, col: int, size: int, dy: int, dx: int)
    requires
        size == 8 || size == 16 || size == 32,
        dy == 0 || dy == size / 2,
        dx == 0 || dx == size / 2,
    ensures
        chroma_rect(f, row + dy, col + dx, size / 2).within(chroma_rect(f, row, col, size)),
{
    lemma_half(row, size, dy, f.chroma.spec_sub_h());
    lemma_half(col, size, dx, f.chroma.spec_sub_w());
}

/// The chroma blocks of a square lie one above the other.
proof fn lemma_stacked(size: int, sw: int, sh: int, t: int)
    requires
        size == 4 || size == 8 || size == 16 || size == 32,
        (sw == 1 && sh == 1 && t == 0) || (sw == 2 && sh == 1 && (t == 0 || t == 1)) || (sw == 2
            && sh == 2 && t == 0),
    ensures
        0 <= t * (size / sw),
        t * (size / sw) + size / sw <= size / sh,
{
    assert(size / 1 == size);
    if t == 0 {
    } else {
        assert(1 * (size / 2) == size / 2);
    }
}

proof fn lemma_stack_rect(f: Frame, row: int, col: int, size: int, t: int, b: ChromaBlock)
    requires
        f.wf(),
        !(f.chroma is Monochrome),
        unitsync::square_ok(f, row, col, size),
        0 <= t < tusyntax::stacked(f.chroma),
        ({
            let (sw, sh) = (f.chroma.spec_sub_w(), f.chroma.spec_sub_h());
            &&& b.row == (row / sh + t * (size / sw)) as usize
            &&& b.col == (col / sw) as usize
            &&& b.n == (size / sw) as usize
        }),
    ensures
        luma_rect(b.row as int, b.col as int, b.n as int).within(chroma_rect(f, row, col, size)),
{
    unitsync::lemma_fields(f, row, col, size, t);
    lemma_stacked(size, f.chroma.spec_sub_w(), f.chroma.spec_sub_h(), t);
}

proof fn lemma_stack(
    f: Frame,
    p: Seq<u16>,
    ts: Seq<Tb>,
    row: int,
    col: int,
    size: int,
    mode: u8,
    qp: u8,
    k: int,
)
    requires
        f.wf(),
        !(f.chroma is Monochrome),
        unitsync::square_ok(f, row, col, size),
        size >= 8 || f.chroma is Yuv444,
        0 <= k <= tusyntax::stacked(f.chroma),
    ensures
        same_outside(
            lossless::stack_after(f, p, ts, row, col, size, mode, qp, k),
            p,
            f.cw as int,
            chroma_rect(f, row, col, size),
        ),
    decreases k,
{
    if k > 0 {
        lemma_stack(f, p, ts, row, col, size, mode, qp, k - 1);
        let b = lossless::chroma_block(row, col, size, k - 1, f.chroma, mode, qp);
        let r = chroma_rect(f, row, col, size);
        lemma_stack_rect(f, row, col, size, k - 1, b);
        let before = lossless::stack_after(f, p, ts, row, col, size, mode, qp, k - 1);
        lemma_chroma_block(f, b, before, ts[k - 1].levels@, r);
        let after = lossless::stack_after(f, p, ts, row, col, size, mode, qp, k);
        lemma_itself(r);
        lemma_both(after, before, p, f.cw as int, r, r);
    } else {
        lemma_none(p, f.cw as int, chroma_rect(f, row, col, size));
    }
}

proof fn lemma_chroma_tree(
    f: Frame,
    ch: ChromaTree,
    l: LumaTree,
    first: bool,
    p: Seq<u16>,
    row: int,
    col: int,
    size: int,
    mode: u8,
    qp: u8,
)
    requires
        f.wf(),
        !(f.chroma is Monochrome),
        unitsync::square_ok(f, row, col, size),
        size >= 8 || f.chroma is Yuv444,
        l.wf(size),
        ch.wf(size, f.chroma),
        ch.follows(l, size, f.chroma),
    ensures
        same_outside(
            ch.after(first, f, p, row, col, size, mode, qp),
            p,
            f.cw as int,
            chroma_rect(f, row, col, size),
        ),
    decreases ch,
{
    let h = size / 2;
    let w = f.cw as int;
    let r = chroma_rect(f, row, col, size);
    match ch {
        ChromaTree::Leaf { cb, cr } => {
            let ts = if first {
                cb@
            } else {
                cr@
            };
            lemma_stack(f, p, ts, row, col, size, mode, qp, ts.len() as int);
        },
        ChromaTree::Split { q0, q1, q2, q3 } => {
            match l {
                LumaTree::Leaf { .. } => {},
                LumaTree::Split { q0: l0, q1: l1, q2: l2, q3: l3 } => {
                    unitsync::lemma_quarters(f, row, col, size);
                    lemma_quarter_rect(f, row, col, size, 0, 0);
                    lemma_quarter_rect(f, row, col, size, 0, h);
                    lemma_quarter_rect(f, row, col, size, h, 0);
                    lemma_quarter_rect(f, row, col, size, h, h);
                    let p0 = q0.after(first, f, p, row, col, h, mode, qp);
                    let p1 = q1.after(first, f, p0, row, col + h, h, mode, qp);
                    let p2 = q2.after(first, f, p1, row + h, col, h, mode, qp);
                    let p3 = q3.after(first, f, p2, row + h, col + h, h, mode, qp);
                    lemma_chroma_tree(f, *q0, *l0, first, p, row, col, h, mode, qp);
                    lemma_chroma_tree(f, *q1, *l1, first, p0, row, col + h, h, mode, qp);
                    lemma_chroma_tree(f, *q2, *l2, first, p1, row + h, col, h, mode, qp);
                    lemma_chroma_tree(f, *q3, *l3, first, p2, row + h, col + h, h, mode, qp);
                    lemma_wider(p0, p, w, chroma_rect(f, row, col, h), r);
                    lemma_both(p1, p0, p, w, chroma_rect(f, row, col + h, h), r);
                    lemma_both(p2, p1, p, w, chroma_rect(f, row + h, col, h), r);
                    lemma_both(p3, p2, p, w, chroma_rect(f, row + h, col + h, h), r);
                },
            }
        },
    }
}

/// A block of a unit whose chroma is cut in four lies in the chroma of the unit.
proof fn lemma_cut_rect(f: Frame, place: CuPlace, mode: u8, x: int)
    requires
        f.wf(),
        !(f.chroma is Monochrome),
        place.ok(f),
        !tusyntax::shares_chroma(place.size as int, f.chroma),
        0 <= x < 4 * tusyntax::stacked(f.chroma),
    ensures
        ({
            let b = place.chroma_quarter(f, mode, x);
            luma_rect(b.row as int, b.col as int, b.n as int).within(
                chroma_rect(f, place.row as int, place.col as int, place.size as int),
            )
        }),
{
    place.lemma_quarter_place(f, x);
    let (sw, sh) = (f.chroma.spec_sub_w(), f.chroma.spec_sub_h());
    let k = tusyntax::stacked(f.chroma);
    let side = place.size as int / sw / 2;
    let (i, s) = (x / k, x % k);
    lemma_corner(place.size as int, sw, sh, k, side, (i / 2) * side, (i / 2) * side * k, s * side);
    let b = place.chroma_quarter(f, mode, x);
    lemma_not_negative(place.row as int, sh);
    lemma_not_negative(place.col as int, sw);
    assert(b.row == place.row as int / sh + (i / 2) * side * k + s * side);
    assert(b.col == place.col as int / sw + (i % 2) * side);
    assert(b.n == side);
}

proof fn lemma_not_negative(at: int, sub: int)
    requires
        0 <= at,
        sub == 1 || sub == 2,
    ensures
        0 <= at / sub <= at,
{
    if sub == 1 {
        assert(at / 1 == at);
    }
}

/// A block of a quarter ends inside the chroma of the unit; `a` and `b` are how far
/// down the quarter and the block in it start.
proof fn lemma_corner(
    size: int,
    sw: int,
    sh: int,
    k: int,
    side: int,
    half: int,
    a: int,
    b: int,
)
    requires
        size == 8 || size == 16 || size == 32,
        (sw == 1 && sh == 1 && k == 1) || (sw == 2 && sh == 1 && k == 2) || (sw == 2 && sh == 2 && k
            == 1),
        side == size / sw / 2,
        0 <= half <= side,
        a == half * k,
        0 <= b <= side,
        k == 1 ==> b == 0,
    ensures
        a + b + side <= size / sh,
        2 * side == size / sw,
{
    if k == 2 {
        assert(half * 2 <= 2 * side);
    } else {
        assert(half * 1 == half);
    }
    if sw == 1 {
        assert(size / 1 == size);
    } else if sh == 1 {
        assert(size / 1 == size);
    }
}

/// The chroma of a unit.
proof fn lemma_unit_chroma(f: Frame, cu: Cu, lossless: bool, first: bool, p: Seq<u16>)
    requires
        f.wf(),
        !(f.chroma is Monochrome),
        cu.wf(f, lossless),
    ensures
        same_outside(
            cu.chroma_after(first, f, p),
            p,
            f.cw as int,
            chroma_rect(f, cu.place.row as int, cu.place.col as int, cu.place.size as int),
        ),
{
    let (row, col, size) = (cu.place.row as int, cu.place.col as int, cu.place.size as int);
    let r = chroma_rect(f, row, col, size);
    assert(unitsync::square_ok(f, row, col, size));
    match cu.tus {
        CuTus::Lossless { luma, chroma } => {
            lemma_chroma_tree(
                f,
                chroma,
                luma,
                first,
                p,
                row,
                col,
                size,
                cu.choice.chroma_mode(f.chroma, 0),
                cu.place.chroma_qp(f) as u8,
            );
        },
        _ => {
            let bs = cu.place.chroma_blocks(f, cu.choice);
            let ts = if first {
                cu.tus.cbs()
            } else {
                cu.tus.crs()
            };
            let k = tusyntax::stacked(f.chroma);
            assert forall|i: int| 0 <= i < bs.len() implies luma_rect(
                (#[trigger] bs[i]).row as int,
                bs[i].col as int,
                bs[i].n as int,
            ).within(r) by {
                if cu.choice.chroma_quartered(size, f.chroma) {
                    lemma_cut_rect(f, cu.place, cu.choice.chroma_mode(f.chroma, i / k), i);
                } else {
                    lemma_stack_rect(f, row, col, size, i, bs[i]);
                }
            }
            lemma_chroma_run(f, p, bs, ts, ts.len() as int, r);
        },
    }
}

/// The modes of a unit with four predictions.
#[verifier::spinoff_prover]
proof fn lemma_part_modes(f: Frame, cu: Cu, lossless: bool, map: Seq<u8>, k: int)
    requires
        f.wf(),
        cu.wf(f, lossless),
        cu.choice is Parts,
        cusyntax::modes_ok(f, map),
        0 <= k <= 4,
    ensures
        same_outside(
            cu.part_map(f, map, k),
            map,
            f.w as int / 4,
            cell_rect(cu.place.row as int, cu.place.col as int, cu.place.size as int),
        ),
        cusyntax::modes_ok(f, cu.part_map(f, map, k)),
    decreases k,
{
    let stride = f.w as int / 4;
    let r = cell_rect(cu.place.row as int, cu.place.col as int, cu.place.size as int);
    if k > 0 {
        lemma_part_modes(f, cu, lossless, map, k - 1);
        let (row, col) = cu.part_at(k - 1);
        let i = cusyntax::mode_index(f, row, col);
        let rows = f.h as int / 4;
        assert(f.w == 4 * stride && f.h == 4 * rows);
        lemma_part_cell(cu.place.row as int, cu.place.col as int, stride, rows, k - 1);
        assert(r.has(stride, i));
        lemma_one_mode(
            cu.part_map(f, map, k - 1),
            map,
            stride,
            r,
            i,
            cu.choice.luma_mode(k - 1),
        );
    } else {
        lemma_none(map, stride, r);
    }
}

/// The cell of quarter `i` of an 8x8 unit.
proof fn lemma_part_cell(row: int, col: int, stride: int, rows: int, i: int)
    requires
        row % 8 == 0,
        col % 8 == 0,
        0 <= row,
        0 <= col,
        row + 8 <= 4 * rows,
        col + 8 <= 4 * stride,
        0 <= i < 4,
    ensures
        ({
            let x = ((row + (i / 2) * 4) / 4) * stride + (col + (i % 2) * 4) / 4;
            &&& cell_rect(row, col, 8).has(stride, x)
            &&& 0 <= x < stride * rows
        }),
{
    let (r, c) = ((row + (i / 2) * 4) / 4, (col + (i % 2) * 4) / 4);
    assert(r == row / 4 + i / 2 && c == col / 4 + i % 2);
    transform::lemma_at(r, c, stride);
    refs::lemma_inside(r, c, stride, rows);
    assert(rows * stride == stride * rows) by (nonlinear_arith);
    reveal(Rect::has);
}

/// One more mode in a rectangle of a map.
#[verifier::spinoff_prover]
proof fn lemma_one_mode(before: Seq<u8>, map: Seq<u8>, stride: int, r: Rect, i: int, mode: u8)
    requires
        same_outside(before, map, stride, r),
        r.has(stride, i),
        0 <= i < before.len(),
        mode <= 34,
        forall|x: int| 0 <= x < before.len() ==> #[trigger] before[x] <= 34,
    ensures
        same_outside(before.update(i, mode), map, stride, r),
        forall|x: int|
            0 <= x < before.len() ==> #[trigger] before.update(i, mode)[x] <= 34,
{
    reveal(same_outside);
    let after = before.update(i, mode);
    assert forall|x: int| 0 <= x < after.len() && !r.has(stride, x) implies #[trigger] after[x]
        == map[x] by {
        assert(before[x] == map[x]);
    }
}

/// Whether an entry is filled.
#[verifier::spinoff_prover]
proof fn lemma_filled_at<T>(map: Seq<T>, stride: int, r: Rect, v: T, x: int)
    requires
        0 <= x < map.len(),
    ensures
        cumaps::filled(map, stride, r.row, r.col, r.rows, r.cols, v)[x] == if r.has(stride, x) {
            v
        } else {
            map[x]
        },
{
    reveal(Rect::has);
}

/// A map with a rectangle filled.
#[verifier::spinoff_prover]
proof fn lemma_filled<T>(map: Seq<T>, stride: int, r: Rect, v: T)
    ensures
        same_outside(
            cumaps::filled(map, stride, r.row, r.col, r.rows, r.cols, v),
            map,
            stride,
            r,
        ),
{
    reveal(same_outside);
    let after = cumaps::filled(map, stride, r.row, r.col, r.rows, r.cols, v);
    assert forall|x: int| 0 <= x < after.len() && !r.has(stride, x) implies #[trigger] after[x]
        == map[x] by {
        lemma_filled_at(map, stride, r, v, x);
    }
}

/// A unit changes the samples of the planes and the entries of the maps of modes,
/// depths and parameters only where it lies, and leaves modes in the map.
#[verifier::spinoff_prover]
pub proof fn law_a_unit_changes_its_square_alone(
    f: Frame,
    s: Scene,
    cu: Cu,
    lossless: bool,
    qp: u8,
)
    requires
        f.wf(),
        cu.wf(f, lossless),
        cusyntax::modes_ok(f, s.modes),
    ensures
        ({
            let (row, col, size) = (
                cu.place.row as int,
                cu.place.col as int,
                cu.place.size as int,
            );
            let t = s.after(f, cu, qp);
            let (luma, chroma) = (luma_rect(row, col, size), chroma_rect(f, row, col, size));
            let cells = cell_rect(row, col, size);
            &&& same_outside(t.y, s.y, f.w as int, luma)
            &&& if f.chroma is Monochrome {
                t.cb == s.cb && t.cr == s.cr
            } else {
                &&& same_outside(t.cb, s.cb, f.cw as int, chroma)
                &&& same_outside(t.cr, s.cr, f.cw as int, chroma)
            }
            &&& same_outside(t.modes, s.modes, f.w as int / 4, cells)
            &&& cusyntax::modes_ok(f, t.modes)
            &&& same_outside(t.qp, s.qp, f.w as int / 4, cells)
            &&& same_outside(
                t.depth,
                s.depth,
                f.w as int / 8,
                (Rect { row: row / 8, col: col / 8, rows: size / 8, cols: size / 8 }),
            )
        }),
{
    let (row, col, size) = (cu.place.row as int, cu.place.col as int, cu.place.size as int);
    lemma_unit_luma(f, cu, lossless, s.y);
    if !(f.chroma is Monochrome) {
        lemma_unit_chroma(f, cu, lossless, true, s.cb);
        lemma_unit_chroma(f, cu, lossless, false, s.cr);
    }
    let cells = cell_rect(row, col, size);
    let stride = f.w as int / 4;
    if cu.choice is Parts {
        lemma_part_modes(f, cu, lossless, s.modes, 4);
    } else {
        let mode = cu.choice.luma_mode(0);
        assert(mode <= 34);
        lemma_filled(s.modes, stride, cells, mode);
        lemma_filled_modes(s.modes, stride, cells, mode);
    }
    lemma_filled(s.qp, stride, cells, qp);
    lemma_none(s.qp, stride, cells);
    let eights = Rect { row: row / 8, col: col / 8, rows: size / 8, cols: size / 8 };
    lemma_filled(s.depth, f.w as int / 8, eights, canvas::depth_of(size) as u8);
}

#[verifier::spinoff_prover]
proof fn lemma_filled_modes(map: Seq<u8>, stride: int, r: Rect, mode: u8)
    requires
        mode <= 34,
        forall|x: int| 0 <= x < map.len() ==> #[trigger] map[x] <= 34,
    ensures
        ({
            let after = cumaps::filled(map, stride, r.row, r.col, r.rows, r.cols, mode);
            &&& after.len() == map.len()
            &&& forall|x: int| 0 <= x < map.len() ==> #[trigger] after[x] <= 34
        }),
{
    let after = cumaps::filled(map, stride, r.row, r.col, r.rows, r.cols, mode);
    assert forall|x: int| 0 <= x < map.len() implies #[trigger] after[x] <= 34 by {
        lemma_filled_at(map, stride, r, mode, x);
    }
}

} // verus!
