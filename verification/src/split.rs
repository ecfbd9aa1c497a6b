//! What speaks for splitting a unit, measured on the source alone, and what a
//! unit's reconstruction has lost.
use crate::activity;
use crate::activity::{Block, Cell};
use crate::arith;
use crate::cost;
use crate::frame::{Frame, Picture};
use crate::planes;
use crate::planes::{clamped_at, Yuv};
use vstd::prelude::*;

verus! {

/// The largest of the first `n` values.
pub open spec fn peak(n: int, f: spec_fn(int) -> int) -> int
    decreases n,
{
    if n <= 1 {
        f(0)
    } else {
        let p = peak(n - 1, f);
        if f(n - 1) > p {
            f(n - 1)
        } else {
            p
        }
    }
}

/// The square of a number.
pub open spec fn square(x: int) -> int {
    x * x
}

impl Block {
    /// Step from the sample on the left.
    pub open spec fn dx(self, r: int, c: int) -> int {
        if c == 0 {
            0
        } else {
            self.at(r, c) - self.at(r, c - 1)
        }
    }

    /// Step from the sample above.
    pub open spec fn dy(self, r: int, c: int) -> int {
        if r == 0 {
            0
        } else {
            self.at(r, c) - self.at(r - 1, c)
        }
    }
}

/// What is measured of a square block.
pub struct SplitStats {
    /// The quarters, in raster order.
    pub quarters: [Cell; 4],
    /// The smallest sample.
    pub lowest: u32,
    /// The largest sample.
    pub highest: u32,
    /// The magnitudes of the steps between neighbours.
    pub steps: u64,
    /// The horizontal steps.
    pub slope_x: i64,
    /// The vertical steps.
    pub slope_y: i64,
    /// The squares of the steps across the two lines that part the quarters.
    pub midline: u64,
}

impl SplitStats {
    /// The measures are those of the block.
    pub open spec fn of(self, b: Block) -> bool {
        let n = b.rows as int;
        let h = n / 2;
        &&& self.quarters@ == seq![
            b.cell(0, 0, h, h),
            b.cell(0, h, h, h),
            b.cell(h, 0, h, h),
            b.cell(h, h, h, h),
        ]
        &&& self.highest == peak(n, |r: int| peak(n, |c: int| b.at(r, c)))
        &&& self.lowest == -peak(n, |r: int| peak(n, |c: int| -b.at(r, c)))
        &&& self.steps == activity::grid(
            n,
            n,
            |r: int, c: int| cost::abs(b.dx(r, c)) + cost::abs(b.dy(r, c)),
        )
        &&& self.slope_x == activity::grid(n, n, |r: int, c: int| b.dx(r, c))
        &&& self.slope_y == activity::grid(n, n, |r: int, c: int| b.dy(r, c))
        &&& self.midline == arith::sum(n, |i: int| square(b.dx(i, h)) + square(b.dy(h, i)))
    }
}

fn step(b: &Block, r: usize, c: usize, across: bool) -> (d: i64)
    requires
        b.wf(),
        r < b.rows,
        c < b.cols,
    ensures
        d == if across {
            b.dx(r as int, c as int)
        } else {
            b.dy(r as int, c as int)
        },
        -0x3_ffff <= d <= 0x3_ffff,
{
    if across {
        if c == 0 {
            0
        } else {
            b.get(r, c) as i64 - b.get(r, c - 1) as i64
        }
    } else if r == 0 {
        0
    } else {
        b.get(r, c) as i64 - b.get(r - 1, c) as i64
    }
}

fn magnitude(x: i64) -> (r: u64)
    requires
        x > i64::MIN,
    ensures
        r == cost::abs(x as int),
{
    if x < 0 {
        (-x) as u64
    } else {
        x as u64
    }
}

/// The steps of a row.
fn row_steps(b: &Block, r: usize) -> (s: (u64, i64, i64))
    requires
        b.wf(),
        r < b.rows,
    ensures
        s.0 == arith::sum(
            b.cols as int,
            |c: int| cost::abs(b.dx(r as int, c)) + cost::abs(b.dy(r as int, c)),
        ),
        s.1 == arith::sum(b.cols as int, |c: int| b.dx(r as int, c)),
        s.2 == arith::sum(b.cols as int, |c: int| b.dy(r as int, c)),
        s.0 <= 0x200_0000,
        -0x100_0000 <= s.1 <= 0x100_0000,
        -0x100_0000 <= s.2 <= 0x100_0000,
{
    let ghost f = |c: int| cost::abs(b.dx(r as int, c)) + cost::abs(b.dy(r as int, c));
    let ghost fx = |c: int| b.dx(r as int, c);
    let ghost fy = |c: int| b.dy(r as int, c);
    let (mut steps, mut sx, mut sy): (u64, i64, i64) = (0, 0, 0);
    for c in 0..b.cols
        invariant
            b.wf(),
            r < b.rows,
            f == (|c: int| cost::abs(b.dx(r as int, c)) + cost::abs(b.dy(r as int, c))),
            fx == (|c: int| b.dx(r as int, c)),
            fy == (|c: int| b.dy(r as int, c)),
            steps == arith::sum(c as int, f),
            sx == arith::sum(c as int, fx),
            sy == arith::sum(c as int, fy),
            steps <= c * 0x8_0000,
            -0x4_0000 * c <= sx <= 0x4_0000 * c,
            -0x4_0000 * c <= sy <= 0x4_0000 * c,
    {
        let (x, y): (i64, i64) = (step(b, r, c, true), step(b, r, c, false));
        assert(f(c as int) == cost::abs(x as int) + cost::abs(y as int));
        assert(fx(c as int) == x);
        assert(fy(c as int) == y);
        steps += magnitude(x) + magnitude(y);
        sx += x;
        sy += y;
    }
    (steps, sx, sy)
}

/// The steps of a square block.
fn block_steps(b: &Block) -> (s: (u64, i64, i64))
    requires
        b.wf(),
        b.cols == b.rows,
    ensures
        s.0 == activity::grid(
            b.rows as int,
            b.rows as int,
            |r: int, c: int| cost::abs(b.dx(r, c)) + cost::abs(b.dy(r, c)),
        ),
        s.1 == activity::grid(b.rows as int, b.rows as int, |r: int, c: int| b.dx(r, c)),
        s.2 == activity::grid(b.rows as int, b.rows as int, |r: int, c: int| b.dy(r, c)),
{
    let ghost n = b.rows as int;
    let ghost g = |r: int, c: int| cost::abs(b.dx(r, c)) + cost::abs(b.dy(r, c));
    let ghost gx = |r: int, c: int| b.dx(r, c);
    let ghost gy = |r: int, c: int| b.dy(r, c);
    let (mut steps, mut sx, mut sy): (u64, i64, i64) = (0, 0, 0);
    for r in 0..b.rows
        invariant
            b.wf(),
            b.cols == b.rows,
            n == b.rows,
            g == (|r: int, c: int| cost::abs(b.dx(r, c)) + cost::abs(b.dy(r, c))),
            gx == (|r: int, c: int| b.dx(r, c)),
            gy == (|r: int, c: int| b.dy(r, c)),
            steps == activity::grid(r as int, n, g),
            sx == activity::grid(r as int, n, gx),
            sy == activity::grid(r as int, n, gy),
            steps <= r * 0x200_0000,
            -0x100_0000 * r <= sx <= 0x100_0000 * r,
            -0x100_0000 * r <= sy <= 0x100_0000 * r,
    {
        let (a, x, y): (u64, i64, i64) = row_steps(b, r);
        proof {
            activity::lemma_grid_step(n, n, g, r as int);
            activity::lemma_grid_step(n, n, gx, r as int);
            activity::lemma_grid_step(n, n, gy, r as int);
            arith::lemma_sum_ext(
                n,
                |c: int| g(r as int, c),
                |c: int| cost::abs(b.dx(r as int, c)) + cost::abs(b.dy(r as int, c)),
            );
            arith::lemma_sum_ext(n, |c: int| gx(r as int, c), |c: int| b.dx(r as int, c));
            arith::lemma_sum_ext(n, |c: int| gy(r as int, c), |c: int| b.dy(r as int, c));
        }
        steps += a;
        sx += x;
        sy += y;
    }
    (steps, sx, sy)
}

/// The squares of the steps across the two middle lines of a square block.
fn midline_of(b: &Block) -> (m: u64)
    requires
        b.wf(),
        b.cols == b.rows,
        b.rows >= 2,
    ensures
        m == arith::sum(
            b.rows as int,
            |i: int| square(b.dx(i, b.rows as int / 2)) + square(b.dy(b.rows as int / 2, i)),
        ),
{
    let half: usize = b.rows / 2;
    let ghost f = |i: int| square(b.dx(i, half as int)) + square(b.dy(half as int, i));
    let mut m: u64 = 0;
    for i in 0..b.rows
        invariant
            b.wf(),
            b.cols == b.rows,
            half == b.rows / 2,
            half < b.rows,
            f == (|i: int| square(b.dx(i, half as int)) + square(b.dy(half as int, i))),
            m == arith::sum(i as int, f),
            m <= i * 0x20_0000_0000,
    {
        let (x, y): (i64, i64) = (step(b, i, half, true), step(b, half, i, false));
        assert(0 <= x * x <= 0x10_0000_0000) by (nonlinear_arith)
            requires
                -0x4_0000 <= x <= 0x4_0000,
        ;
        assert(0 <= y * y <= 0x10_0000_0000) by (nonlinear_arith)
            requires
                -0x4_0000 <= y <= 0x4_0000,
        ;
        assert(f(i as int) == x * x + y * y);
        m += (x * x) as u64 + (y * y) as u64;
    }
    m
}

/// The smallest and the largest sample of a row.
fn row_range(b: &Block, r: usize) -> (s: (u32, u32))
    requires
        b.wf(),
        r < b.rows,
    ensures
        s.0 == -peak(b.cols as int, |c: int| -b.at(r as int, c)),
        s.1 == peak(b.cols as int, |c: int| b.at(r as int, c)),
{
    let ghost f = |c: int| b.at(r as int, c);
    let ghost g = |c: int| -b.at(r as int, c);
    let first: u32 = b.get(r, 0);
    let (mut low, mut high): (u32, u32) = (first, first);
    assert(f(0) == first && g(0) == -(first as int));
    for c in 1..b.cols
        invariant
            b.wf(),
            r < b.rows,
            f == (|c: int| b.at(r as int, c)),
            g == (|c: int| -b.at(r as int, c)),
            low == -peak(c as int, g),
            high == peak(c as int, f),
    {
        let x: u32 = b.get(r, c);
        assert(f(c as int) == x && g(c as int) == -(x as int));
        if x < low {
            low = x;
        }
        if x > high {
            high = x;
        }
    }
    (low, high)
}

/// The smallest and the largest sample of a square block.
fn block_range(b: &Block) -> (s: (u32, u32))
    requires
        b.wf(),
        b.cols == b.rows,
    ensures
        s.0 == -peak(b.rows as int, |r: int| peak(b.rows as int, |c: int| -b.at(r, c))),
        s.1 == peak(b.rows as int, |r: int| peak(b.rows as int, |c: int| b.at(r, c))),
{
    let ghost n = b.rows as int;
    let ghost f = |r: int| peak(n, |c: int| b.at(r, c));
    let ghost g = |r: int| peak(n, |c: int| -b.at(r, c));
    let (mut low, mut high): (u32, u32) = row_range(b, 0);
    assert(f(0) == high && g(0) == -(low as int));
    for r in 1..b.rows
        invariant
            b.wf(),
            b.cols == b.rows,
            n == b.rows,
            f == (|r: int| peak(n, |c: int| b.at(r, c))),
            g == (|r: int| peak(n, |c: int| -b.at(r, c))),
            low == -peak(r as int, g),
            high == peak(r as int, f),
    {
        let (l, h): (u32, u32) = row_range(b, r);
        assert(f(r as int) == h && g(r as int) == -(l as int));
        if l < low {
            low = l;
        }
        if h > high {
            high = h;
        }
    }
    (low, high)
}

/// Measures a square block.
pub fn split_stats(b: &Block) -> (s: SplitStats)
    requires
        b.wf(),
        b.cols == b.rows,
        b.rows >= 2,
        b.rows % 2 == 0,
    ensures
        s.of(*b),
{
    let h: usize = b.rows / 2;
    let quarters: [Cell; 4] = [
        b.measure_cell(0, 0, h, h),
        b.measure_cell(0, h, h, h),
        b.measure_cell(h, 0, h, h),
        b.measure_cell(h, h, h, h),
    ];
    let (lowest, highest): (u32, u32) = block_range(b);
    let (steps, slope_x, slope_y): (u64, i64, i64) = block_steps(b);
    let midline: u64 = midline_of(b);
    let s: SplitStats = SplitStats { quarters, lowest, highest, steps, slope_x, slope_y, midline };
    assert(s.quarters@ =~= seq![
        b.cell(0, 0, h as int, h as int),
        b.cell(0, h as int, h as int, h as int),
        b.cell(h as int, 0, h as int, h as int),
        b.cell(h as int, h as int, h as int, h as int),
    ]);
    s
}

/// Difference of sample `(r, c)` of a plane and of its reconstruction. The last row
/// and column of the plane go on past it.
pub open spec fn lost(
    src: Seq<u16>,
    w: int,
    h: int,
    rec: Seq<u16>,
    stride: int,
    r: int,
    c: int,
) -> int {
    planes::clamped(src, w, h, r, c) - rec[r * stride + c]
}

/// The squared differences of a rectangle of a plane and of its reconstruction.
pub open spec fn plane_loss(
    src: Seq<u16>,
    w: int,
    h: int,
    rec: Seq<u16>,
    stride: int,
    row: int,
    col: int,
    rows: int,
    cols: int,
) -> int {
    activity::grid(
        rows,
        cols,
        |r: int, c: int| square(lost(src, w, h, rec, stride, row + r, col + c)),
    )
}

/// The squared differences of the luma samples of a unit, and of the chroma samples
/// beneath it.
pub open spec fn region_loss(f: Frame, src: Yuv, pic: Picture, row: int, col: int, size: int) -> int {
    let (sw, sh) = (f.chroma.spec_sub_w(), f.chroma.spec_sub_h());
    let chroma = |s: Seq<u16>, rec: Seq<u16>|
        plane_loss(
            s,
            f.src_cw as int,
            f.src_ch as int,
            rec,
            f.cw as int,
            row / sh,
            col / sw,
            size / sh,
            size / sw,
        );
    plane_loss(
        src.y@,
        f.src_w as int,
        f.src_h as int,
        pic.y@,
        f.w as int,
        row,
        col,
        size,
        size,
    ) + if f.chroma is Monochrome {
        0
    } else {
        chroma(src.cb@, pic.cb@) + chroma(src.cr@, pic.cr@)
    }
}

fn row_sse(
    src: &[u16],
    w: usize,
    h: usize,
    rec: &[u16],
    stride: usize,
    row: usize,
    col: usize,
    cols: usize,
) -> (s: u64)
    requires
        1 <= w,
        1 <= h,
        src@.len() >= w * h,
        cols <= 64,
        col + cols <= stride,
        (row + 1) * stride <= rec@.len(),
    ensures
        s == arith::sum(
            cols as int,
            |c: int|
                square(
                    lost(src@, w as int, h as int, rec@, stride as int, row as int, col + c),
                ),
        ),
        s <= 0x40_0000_0000,
{
    let ghost f = |c: int|
        square(lost(src@, w as int, h as int, rec@, stride as int, row as int, col + c));
    let len: usize = rec.len();
    assert((row + 1) * stride == row * stride + stride && 0 <= row * stride) by (nonlinear_arith)
        requires
            0 <= row,
            0 <= stride,
    ;
    let mut s: u64 = 0;
    for c in 0..cols
        invariant
            1 <= w,
            1 <= h,
            src@.len() >= w * h,
            cols <= 64,
            col + cols <= stride,
            0 <= row * stride,
            row * stride + stride <= len,
            len == rec@.len(),
            f == (|c: int|
                square(lost(src@, w as int, h as int, rec@, stride as int, row as int, col + c))),
            s == arith::sum(c as int, f),
            s <= c * 0x1_0000_0000,
    {
        let d: i64 = clamped_at(src, w, h, row, col + c) as i64 - rec[row * stride + col + c] as i64;
        assert(0 <= d * d <= 0x1_0000_0000) by (nonlinear_arith)
            requires
                -0x1_0000 <= d <= 0x1_0000,
        ;
        assert(f(c as int) == d * d);
        s += (d * d) as u64;
    }
    s
}

fn plane_sse(
    src: &[u16],
    w: usize,
    h: usize,
    rec: &[u16],
    stride: usize,
    row: usize,
    col: usize,
    rows: usize,
    cols: usize,
) -> (s: u64)
    requires
        1 <= w,
        1 <= h,
        src@.len() >= w * h,
        rows <= 64,
        cols <= 64,
        row + rows <= usize::MAX,
        col + cols <= stride,
        (row + rows) * stride <= rec@.len(),
    ensures
        s == plane_loss(
            src@,
            w as int,
            h as int,
            rec@,
            stride as int,
            row as int,
            col as int,
            rows as int,
            cols as int,
        ),
        s <= 0x1000_0000_0000,
{
    let ghost g = |r: int, c: int|
        square(lost(src@, w as int, h as int, rec@, stride as int, row + r, col + c));
    let mut s: u64 = 0;
    for r in 0..rows
        invariant
            1 <= w,
            1 <= h,
            src@.len() >= w * h,
            rows <= 64,
            cols <= 64,
            row + rows <= usize::MAX,
            col + cols <= stride,
            (row + rows) * stride <= rec@.len(),
            g == (|r: int, c: int|
                square(lost(src@, w as int, h as int, rec@, stride as int, row + r, col + c))),
            s == activity::grid(r as int, cols as int, g),
            s <= r * 0x40_0000_0000,
    {
        assert((row + r + 1) * stride <= (row + rows) * stride) by (nonlinear_arith)
            requires
                r < rows,
                0 <= stride,
        ;
        let line: u64 = row_sse(src, w, h, rec, stride, row + r, col, cols);
        proof {
            activity::lemma_grid_step(rows as int, cols as int, g, r as int);
            arith::lemma_sum_ext(
                cols as int,
                |c: int| g(r as int, c),
                |c: int|
                    square(
                        lost(src@, w as int, h as int, rec@, stride as int, row + r, col + c),
                    ),
            );
        }
        s += line;
    }
    s
}

proof fn lemma_part_fits(at: int, size: int, side: int, by: int)
    requires
        by == 1 || by == 2,
        at % 2 == 0,
        size % 2 == 0,
        at + size <= side,
    ensures
        by == 1 ==> at / by + size / by <= side,
        by == 2 ==> 2 * (at / by + size / by) <= side,
{
    if by == 1 {
        assert(at / 1 == at && size / 1 == size);
    } else {
        assert(at / 2 + size / 2 == (at + size) / 2);
    }
}

/// What the reconstruction of a unit has lost: the squared differences of its
/// samples.
pub fn cu_region_sse(
    f: &Frame,
    src: &Yuv,
    pic: &Picture,
    row: usize,
    col: usize,
    size: usize,
) -> (s: u64)
    requires
        f.wf(),
        f.source_ok(*src),
        f.picture_ok(*pic),
        size == 8 || size == 16 || size == 32 || size == 64,
        row % 2 == 0,
        col % 2 == 0,
        row + size <= f.h,
        col + size <= f.w,
    ensures
        s == region_loss(*f, *src, *pic, row as int, col as int, size as int),
{
    proof {
        assert((row + size) * f.w <= f.w * f.h) by (nonlinear_arith)
            requires
                row + size <= f.h,
                0 <= f.w,
        ;
    }
    let luma: u64 = plane_sse(
        &src.y,
        f.src_w,
        f.src_h,
        &pic.y,
        f.w,
        row,
        col,
        size,
        size,
    );
    if f.chroma.is_monochrome() {
        return luma;
    }
    let (sw, sh): (usize, usize) = (f.chroma.sub_w(), f.chroma.sub_h());
    let (r, c, rows, cols): (usize, usize, usize, usize) = (
        row / sh,
        col / sw,
        size / sh,
        size / sw,
    );
    proof {
        assert(sw == 1 || sw == 2);
        assert(sh == 1 || sh == 2);
        assert((sh == 1 ==> f.ch == f.h) && (sh == 2 ==> f.ch * 2 == f.h)) by (nonlinear_arith)
            requires
                f.ch * sh == f.h,
        ;
        assert((sw == 1 ==> f.cw == f.w) && (sw == 2 ==> f.cw * 2 == f.w)) by (nonlinear_arith)
            requires
                f.cw * sw == f.w,
        ;
        lemma_part_fits(row as int, size as int, f.h as int, sh as int);
        lemma_part_fits(col as int, size as int, f.w as int, sw as int);
        assert(r + rows <= f.ch);
        assert(c + cols <= f.cw);
        assert((r + rows) * f.cw <= f.cw * f.ch) by (nonlinear_arith)
            requires
                r + rows <= f.ch,
                0 <= f.cw,
        ;
    }
    let cb: u64 = plane_sse(&src.cb, f.src_cw, f.src_ch, &pic.cb, f.cw, r, c, rows, cols);
    let cr: u64 = plane_sse(&src.cr, f.src_cw, f.src_ch, &pic.cr, f.cw, r, c, rows, cols);
    luma + cb + cr
}

/// A unit whose samples are those of the source has lost nothing.
pub proof fn law_an_exact_unit_has_lost_nothing(
    src: Seq<u16>,
    w: int,
    h: int,
    rec: Seq<u16>,
    stride: int,
    row: int,
    col: int,
    rows: int,
    cols: int,
)
    requires
        0 <= rows,
        0 <= cols,
        forall|r: int, c: int|
            row <= r < row + rows && col <= c < col + cols ==> #[trigger] rec[r * stride + c]
                == planes::clamped(src, w, h, r, c),
    ensures
        plane_loss(src, w, h, rec, stride, row, col, rows, cols) == 0,
    decreases rows,
{
    let g = |r: int, c: int| square(lost(src, w, h, rec, stride, row + r, col + c));
    if rows > 0 {
        law_an_exact_unit_has_lost_nothing(src, w, h, rec, stride, row, col, rows - 1, cols);
        activity::lemma_grid_step(rows, cols, g, rows - 1);
        let f = |c: int| g(rows - 1, c);
        assert forall|c: int| 0 <= c < cols implies -0 <= #[trigger] f(c) <= 0 by {
            let (a, b) = (row + rows - 1, col + c);
            assert(rec[a * stride + b] == planes::clamped(src, w, h, a, b));
        }
        arith::lemma_sum_bound(cols, f, 0);
    }
}

} // verus!
