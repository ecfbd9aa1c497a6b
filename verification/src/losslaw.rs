//! What the loss of a unit says: it is nothing exactly where every sample of all three planes
//! is that of the source, and each sample weighs the square of its difference.
use crate::fmt::ChromaFormat;
use crate::frame::{Frame, Picture};
use crate::gridsum;
use crate::planes;
use crate::planes::Yuv;
use crate::refs;
use crate::split;
use vstd::prelude::*;

verus! {

/// Sample `(r, c)` of a plane whose last row and column go on past it.
pub open spec fn source_sample(src: Seq<u16>, w: int, h: int, r: int, c: int) -> int {
    let y = if r < h {
        r
    } else {
        h - 1
    };
    let x = if c < w {
        c
    } else {
        w - 1
    };
    src[y * w + x] as int
}

/// A window shows the samples of the source from its corner on, the last row and column going on
/// past the source.
pub proof fn law_windows_show_the_source(
    src: Seq<u16>,
    w: int,
    h: int,
    x0: int,
    y0: int,
    tw: int,
    th: int,
    r: int,
    c: int,
)
    requires
        0 <= r < th,
        0 <= c < tw,
    ensures
        planes::window(src, w, h, x0, y0, tw, th).len() == tw * th,
        planes::window(src, w, h, x0, y0, tw, th)[r * tw + c] == source_sample(
            src,
            w,
            h,
            y0 + r,
            x0 + c,
        ),
{
    let x = r * tw + c;
    refs::lemma_inside(r, c, tw, th);
    assert(th * tw == tw * th) by (nonlinear_arith);
    vstd::arithmetic::div_mod::lemma_fundamental_div_mod_converse(x, tw, r, c);
}

/// Places of a plane are told apart by their index.
proof fn lemma_apart(stride: int, a: int, b: int, r: int, c: int)
    requires
        0 <= b < stride,
        0 <= c < stride,
        a * stride + b == r * stride + c,
    ensures
        a == r,
        b == c,
{
    assert(a == r && b == c) by (nonlinear_arith)
        requires
            0 <= b < stride,
            0 <= c < stride,
            a * stride + b == r * stride + c,
    ;
}

/// One sample of a plane changes.
proof fn lemma_plane_change(
    src: Seq<u16>,
    w: int,
    h: int,
    rec: Seq<u16>,
    stride: int,
    height: int,
    row: int,
    col: int,
    rows: int,
    cols: int,
    r: int,
    c: int,
    v: u16,
)
    requires
        rec.len() == stride * height,
        0 <= row,
        0 <= col,
        0 <= rows,
        0 <= cols,
        row + rows <= height,
        col + cols <= stride,
        0 <= r < height,
        0 <= c < stride,
    ensures
        ({
            let other = rec.update(r * stride + c, v);
            let s = source_sample(src, w, h, r, c);
            let old = rec[r * stride + c] as int;
            split::plane_loss(src, w, h, other, stride, row, col, rows, cols) - split::plane_loss(
                src,
                w,
                h,
                rec,
                stride,
                row,
                col,
                rows,
                cols,
            ) == (if row <= r < row + rows && col <= c < col + cols {
                (v - s) * (v - s) - (old - s) * (old - s)
            } else {
                0
            })
        }),
{
    let at = r * stride + c;
    refs::lemma_inside(r, c, stride, height);
    let other = rec.update(at, v);
    let f = |i: int, j: int|
        split::square(split::lost(src, w, h, rec, stride, row + i, col + j));
    let g = |i: int, j: int|
        split::square(split::lost(src, w, h, other, stride, row + i, col + j));
    assert forall|i: int, j: int|
        0 <= i < rows && 0 <= j < cols && (row + i != r || col + j != c) implies #[trigger] f(i, j)
        == g(i, j) by {
        refs::lemma_inside(row + i, col + j, stride, height);
        if (row + i) * stride + (col + j) == at {
            lemma_apart(stride, row + i, col + j, r, c);
        }
    }
    if row <= r < row + rows && col <= c < col + cols {
        assert forall|i: int, j: int|
            0 <= i < rows && 0 <= j < cols && (i != r - row || j != c - col) implies #[trigger] f(
            i,
            j,
        ) == g(i, j) by {
            assert(row + i != r || col + j != c);
        }
        gridsum::lemma_grid_change(rows, cols, f, g, r - row, c - col);
        let s = source_sample(src, w, h, r, c);
        let old = rec[at] as int;
        assert(g(r - row, c - col) == (s - v) * (s - v));
        assert(f(r - row, c - col) == (s - old) * (s - old));
        assert((s - v) * (s - v) == (v - s) * (v - s)) by (nonlinear_arith);
        assert((s - old) * (s - old) == (old - s) * (old - s)) by (nonlinear_arith);
    } else {
        gridsum::lemma_grid_same(rows, cols, f, g);
    }
}

/// The samples of a rectangle of a plane are those of the source.
pub open spec fn equal_there(
    src: Seq<u16>,
    w: int,
    h: int,
    rec: Seq<u16>,
    stride: int,
    row: int,
    col: int,
    rows: int,
    cols: int,
) -> bool {
    forall|r: int, c: int|
        row <= r < row + rows && col <= c < col + cols ==> #[trigger] rec[r * stride + c]
            == source_sample(src, w, h, r, c)
}

proof fn lemma_plane_none(
    src: Seq<u16>,
    w: int,
    h: int,
    rec: Seq<u16>,
    stride: int,
    row: int,
    col: int,
    rows: int,
    cols: int,
)
    ensures
        split::plane_loss(src, w, h, rec, stride, row, col, rows, cols) >= 0,
        split::plane_loss(src, w, h, rec, stride, row, col, rows, cols) == 0 <==> equal_there(
            src,
            w,
            h,
            rec,
            stride,
            row,
            col,
            rows,
            cols,
        ),
{
    let f = |i: int, j: int|
        split::square(split::lost(src, w, h, rec, stride, row + i, col + j));
    assert forall|i: int, j: int| 0 <= i < rows && 0 <= j < cols implies #[trigger] f(i, j) >= 0
        && (f(i, j) == 0 <==> rec[(row + i) * stride + (col + j)] == source_sample(
        src,
        w,
        h,
        row + i,
        col + j,
    )) by {
        let d = split::lost(src, w, h, rec, stride, row + i, col + j);
        assert(d * d >= 0 && (d * d == 0 <==> d == 0)) by (nonlinear_arith);
    }
    gridsum::lemma_grid_none(rows, cols, f);
    if split::plane_loss(src, w, h, rec, stride, row, col, rows, cols) == 0 {
        assert forall|r: int, c: int|
            row <= r < row + rows && col <= c < col + cols implies #[trigger] rec[r * stride + c]
            == source_sample(src, w, h, r, c) by {
            assert(f(r - row, c - col) == 0);
        }
    }
    if equal_there(src, w, h, rec, stride, row, col, rows, cols) {
        assert forall|i: int, j: int| 0 <= i < rows && 0 <= j < cols implies #[trigger] f(i, j)
            == 0 by {
            assert(rec[(row + i) * stride + (col + j)] == source_sample(
                src,
                w,
                h,
                row + i,
                col + j,
            ));
        }
    }
}

/// How many luma samples lie above a chroma sample, across and down.
pub open spec fn steps_of(chroma: ChromaFormat) -> (int, int) {
    match chroma {
        ChromaFormat::Yuv420 => (2, 2),
        ChromaFormat::Yuv422 => (2, 1),
        _ => (1, 1),
    }
}

proof fn lemma_steps(chroma: ChromaFormat, row: int, col: int, size: int)
    ensures
        ({
            let (sw, sh) = (chroma.spec_sub_w(), chroma.spec_sub_h());
            let (across, down) = steps_of(chroma);
            &&& row / sh == row / down
            &&& col / sw == col / across
            &&& size / sh == size / down
            &&& size / sw == size / across
        }),
{
}

/// A unit has lost nothing exactly where every luma sample of it, and every sample of both
/// chroma planes beneath it, is that of the source.
pub proof fn law_nothing_lost_means_all_samples_equal(
    f: Frame,
    src: Yuv,
    pic: Picture,
    row: int,
    col: int,
    size: int,
)
    ensures
        ({
            let (across, down) = steps_of(f.chroma);
            let (r, c) = (row / down, col / across);
            let (rows, cols) = (size / down, size / across);
            let (w, h, cw, ch) = (
                f.src_w as int,
                f.src_h as int,
                f.src_cw as int,
                f.src_ch as int,
            );
            let (lw, lc) = (f.w as int, f.cw as int);
            &&& split::region_loss(f, src, pic, row, col, size) >= 0
            &&& split::region_loss(f, src, pic, row, col, size) == 0 <==> {
                &&& equal_there(src.y@, w, h, pic.y@, lw, row, col, size, size)
                &&& !(f.chroma is Monochrome) ==> {
                    &&& equal_there(src.cb@, cw, ch, pic.cb@, lc, r, c, rows, cols)
                    &&& equal_there(src.cr@, cw, ch, pic.cr@, lc, r, c, rows, cols)
                }
            }
        }),
{
    let (across, down) = steps_of(f.chroma);
    let (r, c) = (row / down, col / across);
    let (rows, cols) = (size / down, size / across);
    let (cw, ch, lc) = (f.src_cw as int, f.src_ch as int, f.cw as int);
    lemma_steps(f.chroma, row, col, size);
    lemma_plane_none(
        src.y@,
        f.src_w as int,
        f.src_h as int,
        pic.y@,
        f.w as int,
        row,
        col,
        size,
        size,
    );
    lemma_plane_none(src.cb@, cw, ch, pic.cb@, lc, r, c, rows, cols);
    lemma_plane_none(src.cr@, cw, ch, pic.cr@, lc, r, c, rows, cols);
}

/// Exchanging the chroma planes of the source and of the reconstruction leaves the loss
/// unchanged.
pub proof fn law_chroma_planes_weigh_alike(
    f: Frame,
    src: Yuv,
    pic: Picture,
    turned_src: Yuv,
    turned: Picture,
    row: int,
    col: int,
    size: int,
)
    requires
        turned_src.y@ == src.y@,
        turned_src.cb@ == src.cr@,
        turned_src.cr@ == src.cb@,
        turned.y@ == pic.y@,
        turned.cb@ == pic.cr@,
        turned.cr@ == pic.cb@,
    ensures
        split::region_loss(f, turned_src, turned, row, col, size) == split::region_loss(
            f,
            src,
            pic,
            row,
            col,
            size,
        ),
{
}

/// Where one luma sample is reconstructed as another value, the loss of a unit changes by
/// what the square of its difference changes by, or not at all outside the unit.
pub proof fn law_a_luma_sample_weighs_its_square(
    f: Frame,
    src: Yuv,
    pic: Picture,
    other: Picture,
    row: int,
    col: int,
    size: int,
    r: int,
    c: int,
    v: u16,
)
    requires
        f.picture_ok(pic),
        0 <= row,
        0 <= col,
        0 <= size,
        row + size <= f.h,
        col + size <= f.w,
        0 <= r < f.h,
        0 <= c < f.w,
        other.y@ == pic.y@.update(r * f.w + c, v),
        other.cb@ == pic.cb@,
        other.cr@ == pic.cr@,
    ensures
        ({
            let s = source_sample(src.y@, f.src_w as int, f.src_h as int, r, c);
            let old = pic.y@[r * f.w + c] as int;
            split::region_loss(f, src, other, row, col, size) - split::region_loss(
                f,
                src,
                pic,
                row,
                col,
                size,
            ) == (if row <= r < row + size && col <= c < col + size {
                (v - s) * (v - s) - (old - s) * (old - s)
            } else {
                0
            })
        }),
{
    lemma_plane_change(
        src.y@,
        f.src_w as int,
        f.src_h as int,
        pic.y@,
        f.w as int,
        f.h as int,
        row,
        col,
        size,
        size,
        r,
        c,
        v,
    );
}

/// Where one chroma sample is reconstructed as another value, the loss of a unit changes by
/// what the square of its difference changes by, or not at all where the sample does not
/// lie beneath the unit. `first` tells the plane.
pub proof fn law_a_chroma_sample_weighs_its_square(
    f: Frame,
    src: Yuv,
    pic: Picture,
    other: Picture,
    first: bool,
    row: int,
    col: int,
    size: int,
    r: int,
    c: int,
    v: u16,
)
    requires
        f.wf(),
        f.picture_ok(pic),
        !(f.chroma is Monochrome),
        0 <= row,
        0 <= col,
        0 <= size,
        row % 2 == 0,
        col % 2 == 0,
        size % 2 == 0,
        row + size <= f.h,
        col + size <= f.w,
        0 <= r < f.ch,
        0 <= c < f.cw,
        other.y@ == pic.y@,
        first ==> other.cb@ == pic.cb@.update(r * f.cw + c, v) && other.cr@ == pic.cr@,
        !first ==> other.cr@ == pic.cr@.update(r * f.cw + c, v) && other.cb@ == pic.cb@,
    ensures
        ({
            let (across, down) = steps_of(f.chroma);
            let (plane, rec) = if first {
                (src.cb@, pic.cb@)
            } else {
                (src.cr@, pic.cr@)
            };
            let s = source_sample(plane, f.src_cw as int, f.src_ch as int, r, c);
            let old = rec[r * f.cw + c] as int;
            let (y, x) = (
                if down == 2 {
                    2 * r
                } else {
                    r
                },
                if across == 2 {
                    2 * c
                } else {
                    c
                },
            );
            split::region_loss(f, src, other, row, col, size) - split::region_loss(
                f,
                src,
                pic,
                row,
                col,
                size,
            ) == (if row <= y < row + size && col <= x < col + size {
                (v - s) * (v - s) - (old - s) * (old - s)
            } else {
                0
            })
        }),
{
    let (across, down) = steps_of(f.chroma);
    lemma_steps(f.chroma, row, col, size);
    f.lemma_chroma_dims();
    assert(across == 2 ==> 2 * f.cw == f.w) by (nonlinear_arith)
        requires
            f.cw * f.chroma.spec_sub_w() == f.w,
            across == f.chroma.spec_sub_w(),
    ;
    assert(across == 1 ==> f.cw == f.w) by (nonlinear_arith)
        requires
            f.cw * f.chroma.spec_sub_w() == f.w,
            across == f.chroma.spec_sub_w(),
    ;
    let (plane, rec) = if first {
        (src.cb@, pic.cb@)
    } else {
        (src.cr@, pic.cr@)
    };
    lemma_plane_change(
        plane,
        f.src_cw as int,
        f.src_ch as int,
        rec,
        f.cw as int,
        f.ch as int,
        row / down,
        col / across,
        size / down,
        size / across,
        r,
        c,
        v,
    );
}

/// The squares of the differences of two blocks are the same either way, and nothing exactly
/// where the blocks are equal.
pub proof fn law_squares_tell_blocks_apart(a: Seq<u16>, b: Seq<u16>, k: int)
    requires
        0 <= k,
    ensures
        planes::sse(a, b, k) == planes::sse(b, a, k),
        planes::sse(a, b, k) >= 0,
        planes::sse(a, b, k) == 0 <==> forall|i: int| 0 <= i < k ==> #[trigger] a[i] == b[i],
    decreases k,
{
    if k > 0 {
        law_squares_tell_blocks_apart(a, b, k - 1);
        let d = a[k - 1] - b[k - 1];
        let e = b[k - 1] - a[k - 1];
        assert(d * d == e * e && d * d >= 0 && (d * d == 0 <==> d == 0)) by (nonlinear_arith)
            requires
                e == -d,
        ;
        if planes::sse(a, b, k) == 0 {
            assert forall|i: int| 0 <= i < k implies #[trigger] a[i] == b[i] by {
                if i < k - 1 {
                    assert(a[i] == b[i]);
                }
            }
        }
    }
}

/// A sample that is another changes the squares by what its own square changes by.
pub proof fn law_a_sample_of_a_block_weighs_its_square(
    a: Seq<u16>,
    b: Seq<u16>,
    k: int,
    i: int,
    v: u16,
)
    requires
        0 <= i < b.len(),
        0 <= k <= b.len(),
    ensures
        planes::sse(a, b.update(i, v), k) - planes::sse(a, b, k) == (if i < k {
            (v - a[i]) * (v - a[i]) - (b[i] - a[i]) * (b[i] - a[i])
        } else {
            0
        }),
    decreases k,
{
    if k > 0 {
        law_a_sample_of_a_block_weighs_its_square(a, b, k - 1, i, v);
        if i == k - 1 {
            let (x, y, z) = (a[i] as int, b[i] as int, v as int);
            assert((x - z) * (x - z) == (z - x) * (z - x) && (x - y) * (x - y) == (y - x) * (y
                - x)) by (nonlinear_arith);
        }
    }
}

} // verus!
