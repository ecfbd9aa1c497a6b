//! Tiles: how a picture is cut into independent rectangles and put together.
use crate::planes;
use crate::planes::{extract_plane, Yuv};
use vstd::prelude::*;

verus! {

/// Coding tree units that a tile has along each side at least.
pub const MIN_CTB: usize = 4;

/// How many tiles a side can be cut into.
pub open spec fn max_tiles(ctus: int) -> int {
    if ctus / 4 < 1 {
        1
    } else {
        ctus / 4
    }
}

/// The grid of `cols` by `rows` tiles is considered for `par` workers.
pub open spec fn grid_allowed(
    ctus_x: int,
    ctus_y: int,
    par: int,
    cols: int,
    rows: int,
) -> bool {
    &&& 1 <= cols <= max_tiles(ctus_x)
    &&& 1 <= rows <= max_tiles(ctus_y)
    &&& cols * rows <= par
}

/// How far a grid is from one tile for each worker, and its tiles from squares.
pub open spec fn grid_score(ctus_x: int, ctus_y: int, par: int, cols: int, rows: int) -> int {
    let d = ctus_x / cols - ctus_y / rows;
    (par - cols * rows) * 1000 + if d < 0 {
        -d
    } else {
        d
    }
}

/// The grid is the best one, and the first of the best row by row.
pub open spec fn grid_best(
    ctus_x: int,
    ctus_y: int,
    par: int,
    cols: int,
    rows: int,
) -> bool {
    &&& grid_allowed(ctus_x, ctus_y, par, cols, rows)
    &&& forall|c: int, r: int| #[trigger]
        grid_allowed(ctus_x, ctus_y, par, c, r) ==> {
            let (mine, other) = (
                grid_score(ctus_x, ctus_y, par, cols, rows),
                grid_score(ctus_x, ctus_y, par, c, r),
            );
            if r < rows || (r == rows && c < cols) {
                mine < other
            } else {
                mine <= other
            }
        }
}

fn max_tiles_of(ctus: usize) -> (r: usize)
    ensures
        r == max_tiles(ctus as int),
{
    if ctus / MIN_CTB < 1 {
        1
    } else {
        ctus / MIN_CTB
    }
}

fn score_of(ctus_x: usize, ctus_y: usize, par: usize, cols: usize, rows: usize) -> (r: i64)
    requires
        1000 * par + ctus_x + ctus_y <= i64::MAX,
        1 <= cols,
        1 <= rows,
        cols * rows <= par,
    ensures
        r == grid_score(ctus_x as int, ctus_y as int, par as int, cols as int, rows as int),
        0 <= r,
{
    proof {
        assert(1 <= cols * rows) by (nonlinear_arith)
            requires
                1 <= cols,
                1 <= rows,
        ;
        assert(0 <= ctus_x as int / cols as int <= ctus_x) by (nonlinear_arith)
            requires
                1 <= cols,
                0 <= ctus_x,
        ;
        assert(0 <= ctus_y as int / rows as int <= ctus_y) by (nonlinear_arith)
            requires
                1 <= rows,
                0 <= ctus_y,
        ;
    }
    let d: i64 = (ctus_x / cols) as i64 - (ctus_y / rows) as i64;
    let gap: i64 = par as i64 - (cols * rows) as i64;
    gap * 1000 + if d < 0 {
        -d
    } else {
        d
    }
}

/// The grid already seen that is best so far.
spec fn seen_best(
    ctus_x: int,
    ctus_y: int,
    par: int,
    best: (int, int),
    score: int,
    rows: int,
    cols: int,
) -> bool {
    &&& grid_allowed(ctus_x, ctus_y, par, best.0, best.1)
    &&& best.1 < rows || (best.1 == rows && best.0 < cols)
    &&& score == grid_score(ctus_x, ctus_y, par, best.0, best.1)
    &&& forall|c: int, r: int| #[trigger]
        grid_allowed(ctus_x, ctus_y, par, c, r) && (r < rows || (r == rows && c < cols)) ==> {
            let other = grid_score(ctus_x, ctus_y, par, c, r);
            if r < best.1 || (r == best.1 && c < best.0) {
                score < other
            } else {
                score <= other
            }
        }
}

/// The number of tile columns and rows for `par` workers: as many tiles as
/// workers, as square as can be, each at least four coding tree units wide and
/// high; one tile where there is nothing to share out.
pub fn choose_tile_grid(ctus_x: usize, ctus_y: usize, par: usize) -> (r: (usize, usize))
    requires
        1000 * par + ctus_x + ctus_y <= i64::MAX,
    ensures
        par <= 1 ==> r == (1usize, 1usize),
        par > 1 ==> grid_best(
            ctus_x as int,
            ctus_y as int,
            par as int,
            r.0 as int,
            r.1 as int,
        ),
{
    if par <= 1 {
        return (1, 1);
    }
    let max_cols: usize = max_tiles_of(ctus_x);
    let max_rows: usize = max_tiles_of(ctus_y);
    let ghost (gx, gy, gp) = (ctus_x as int, ctus_y as int, par as int);
    let mut best: (usize, usize) = (1, 1);
    let mut best_score: i64 = score_of(ctus_x, ctus_y, par, 1, 1);
    let mut rows: usize = 1;
    while rows <= max_rows
        invariant
            1000 * par + ctus_x + ctus_y <= i64::MAX,
            1 < par,
            (gx, gy, gp) == (ctus_x as int, ctus_y as int, par as int),
            max_cols == max_tiles(gx),
            max_rows == max_tiles(gy),
            1 <= rows <= max_rows + 1,
            rows == 1 ==> best == (1usize, 1usize) && best_score == grid_score(gx, gy, gp, 1, 1),
            rows > 1 ==> seen_best(
                gx,
                gy,
                gp,
                (best.0 as int, best.1 as int),
                best_score as int,
                rows as int,
                1,
            ),
        decreases max_rows + 1 - rows,
    {
        let mut cols: usize = 1;
        if rows == 1 {
            cols = 2;
        }
        let ghost start = cols;
        proof {
            if rows == 1 {
                assert forall|c: int, r: int| #[trigger]
                    grid_allowed(gx, gy, gp, c, r) && (r < 1 || (r == 1 && c < 2)) implies c == 1
                    && r == 1 by {}
            }
        }
        let mut stop: bool = false;
        while cols <= max_cols && !stop
            invariant
                1000 * par + ctus_x + ctus_y <= i64::MAX,
                1 < par,
                (gx, gy, gp) == (ctus_x as int, ctus_y as int, par as int),
                max_cols == max_tiles(gx),
                max_rows == max_tiles(gy),
                1 <= rows <= max_rows,
                1 <= cols <= max_cols + 2,
                stop ==> (cols - 1) * rows > par && 2 <= cols,
                seen_best(
                    gx,
                    gy,
                    gp,
                    (best.0 as int, best.1 as int),
                    best_score as int,
                    rows as int,
                    cols as int,
                ),
            decreases max_cols + 2 - cols,
        {
            proof {
                assert(0 <= cols * rows <= u64::MAX * u64::MAX) by (nonlinear_arith)
                    requires
                        0 <= cols <= u64::MAX,
                        0 <= rows <= u64::MAX,
                ;
            }
            if (cols as u128) * (rows as u128) > par as u128 {
                stop = true;
            } else {
                let score: i64 = score_of(ctus_x, ctus_y, par, cols, rows);
                if score < best_score {
                    best_score = score;
                    best = (cols, rows);
                }
            }
            cols += 1;
        }
        proof {
            if stop {
                assert forall|c: int, r: int| #[trigger]
                    grid_allowed(gx, gy, gp, c, r) && r == rows implies c < cols by {
                    if c >= cols {
                        assert(c * r >= (cols - 1) * rows) by (nonlinear_arith)
                            requires
                                c >= cols - 1,
                                r == rows,
                                rows >= 1,
                        ;
                    }
                }
            }
        }
        rows += 1;
    }
    best
}

/// In a picture of at most a thousand coding tree units a side, no grid for as many workers
/// has more tiles than the best one, and none with as many has tiles that are closer to
/// squares.
pub proof fn law_the_best_grid_is_full_and_square(
    ctus_x: int,
    ctus_y: int,
    par: int,
    cols: int,
    rows: int,
    c: int,
    r: int,
)
    requires
        1 <= ctus_x <= 1000,
        1 <= ctus_y <= 1000,
        grid_best(ctus_x, ctus_y, par, cols, rows),
        grid_allowed(ctus_x, ctus_y, par, c, r),
    ensures
        c * r <= cols * rows,
        c * r == cols * rows ==> {
            let (mine, other) = (ctus_x / cols - ctus_y / rows, ctus_x / c - ctus_y / r);
            (if mine < 0 {
                -mine
            } else {
                mine
            }) <= (if other < 0 {
                -other
            } else {
                other
            })
        },
{
    lemma_share(ctus_x, cols);
    lemma_share(ctus_y, rows);
    lemma_share(ctus_x, c);
    lemma_share(ctus_y, r);
}

/// A share of a side is not empty and no longer than the side.
proof fn lemma_share(ctus: int, n: int)
    requires
        1 <= ctus,
        1 <= n <= max_tiles(ctus),
    ensures
        1 <= ctus / n <= ctus,
{
    assert(1 <= ctus / n <= ctus) by (nonlinear_arith)
        requires
            1 <= n <= ctus,
    ;
}

/// The least number whose square is at least `n`.
pub open spec fn is_ceil_sqrt(n: int, k: int) -> bool {
    &&& 0 <= k
    &&& k * k >= n
    &&& k > 0 ==> (k - 1) * (k - 1) < n
}

fn square(k: usize) -> (r: u64)
    requires
        k <= 0x400_0000,
    ensures
        r == k * k,
{
    assert(0 <= k * k <= 0x10_0000_0000_0000) by (nonlinear_arith)
        requires
            0 <= k <= 0x400_0000,
    ;
    (k as u64) * (k as u64)
}

/// The square root of a number of workers, rounded up. A root in double precision is the
/// same as far as two to the power of 52.
pub fn ceil_sqrt(n: usize) -> (k: usize)
    requires
        n <= 0x10_0000_0000_0000,
    ensures
        is_ceil_sqrt(n as int, k as int),
        k <= n,
        k <= 0x400_0000,
{
    let mut k: usize = 0;
    while square(k) < n as u64
        invariant
            n <= 0x10_0000_0000_0000,
            0 <= k <= n,
            k <= 0x400_0000,
            k > 0 ==> (k - 1) * (k - 1) < n,
        decreases 0x400_0000 - k,
    {
        assert(k < 0x400_0000) by {
            if k == 0x400_0000 {
                assert(k * k == 0x10_0000_0000_0000) by (nonlinear_arith)
                    requires
                        k == 0x400_0000,
                ;
            }
        }
        assert(k < n) by (nonlinear_arith)
            requires
                k * k < n,
                0 <= k,
                0 <= n,
        ;
        k += 1;
    }
    assert(0 * 0 == 0);
    k
}

/// First coding tree unit of tile column (or row) `i` of `n`.
pub open spec fn boundary(ctus: int, n: int, i: int) -> int {
    i * ctus / n
}

/// Every coding tree unit of a side belongs to one tile, and to no other.
pub proof fn law_tiles_share_out_the_side(ctus: int, n: int, x: int)
    requires
        1 <= n,
        0 <= x < ctus,
    ensures
        exists|i: int|
            0 <= i < n && boundary(ctus, n, i) <= x < #[trigger] boundary(ctus, n, i + 1),
        forall|i: int, j: int|
            0 <= i < j < n ==> !(#[trigger] boundary(ctus, n, i) <= x < boundary(ctus, n, i + 1)
                && #[trigger] boundary(ctus, n, j) <= x < boundary(ctus, n, j + 1)),
{
    lemma_boundary_ends(ctus, n);
    lemma_find_tile(ctus, n, x, n);
    assert forall|i: int, j: int| 0 <= i < j < n implies !(#[trigger] boundary(ctus, n, i) <= x
        < boundary(ctus, n, i + 1) && #[trigger] boundary(ctus, n, j) <= x < boundary(
        ctus,
        n,
        j + 1,
    )) by {
        lemma_boundary_grows(ctus, n, i + 1, j);
    }
}

/// Boundaries start at the first unit and end after the last one.
pub proof fn lemma_boundary_ends(ctus: int, n: int)
    requires
        1 <= n,
        0 <= ctus,
    ensures
        boundary(ctus, n, 0) == 0,
        boundary(ctus, n, n) == ctus,
{
    assert(0 * ctus / n == 0) by (nonlinear_arith)
        requires
            1 <= n,
    ;
    assert(n * ctus / n == ctus) by (nonlinear_arith)
        requires
            1 <= n,
    ;
}

/// Boundaries do not go back.
pub proof fn lemma_boundary_grows(ctus: int, n: int, i: int, j: int)
    requires
        1 <= n,
        0 <= ctus,
        0 <= i <= j,
    ensures
        0 <= boundary(ctus, n, i) <= boundary(ctus, n, j),
{
    assert(0 <= i * ctus <= j * ctus) by (nonlinear_arith)
        requires
            0 <= i <= j,
            0 <= ctus,
    ;
    vstd::arithmetic::div_mod::lemma_div_is_ordered(i * ctus, j * ctus, n);
    vstd::arithmetic::div_mod::lemma_div_is_ordered(0, i * ctus, n);
    assert(0int / n == 0) by (nonlinear_arith)
        requires
            1 <= n,
    ;
}

/// Tiles are not empty where there are no more of them than units.
pub proof fn lemma_tile_side(ctus: int, n: int, i: int)
    requires
        1 <= n <= ctus,
        0 <= i < n,
    ensures
        boundary(ctus, n, i) + 1 <= boundary(ctus, n, i + 1) <= ctus,
{
    lemma_boundary_ends(ctus, n);
    lemma_boundary_grows(ctus, n, i + 1, n);
    assert((i + 1) * ctus == i * ctus + ctus) by (nonlinear_arith);
    vstd::arithmetic::div_mod::lemma_div_is_ordered(i * ctus + n, (i + 1) * ctus, n);
    assert((i * ctus + n) / n == i * ctus / n + 1) by (nonlinear_arith)
        requires
            1 <= n,
    ;
}

proof fn lemma_find_tile(ctus: int, n: int, x: int, k: int)
    requires
        1 <= n,
        0 <= x < ctus,
        0 <= k <= n,
        x < boundary(ctus, n, k),
    ensures
        exists|i: int|
            0 <= i < n && boundary(ctus, n, i) <= x < #[trigger] boundary(ctus, n, i + 1),
    decreases k,
{
    lemma_boundary_ends(ctus, n);
    if k > 0 {
        if x < boundary(ctus, n, k - 1) {
            lemma_find_tile(ctus, n, x, k - 1);
        } else {
            assert(boundary(ctus, n, (k - 1) + 1) == boundary(ctus, n, k));
        }
    }
}

/// A tile in samples.
#[derive(Clone, Copy)]
pub struct TileRect {
    pub x0: usize,
    pub y0: usize,
    pub w: usize,
    pub h: usize,
}

/// Tile number `k` of a grid, row by row.
pub open spec fn tile_at(ctus_x: int, ctus_y: int, cols: int, rows: int, k: int) -> (
    int,
    int,
    int,
    int,
) {
    let (ti, tj) = (k % cols, k / cols);
    (
        boundary(ctus_x, cols, ti) * 64,
        boundary(ctus_y, rows, tj) * 64,
        (boundary(ctus_x, cols, ti + 1) - boundary(ctus_x, cols, ti)) * 64,
        (boundary(ctus_y, rows, tj + 1) - boundary(ctus_y, rows, tj)) * 64,
    )
}

fn boundary_of(ctus: usize, n: usize, i: usize) -> (r: usize)
    requires
        1 <= n,
        i <= n,
        n * ctus <= usize::MAX,
    ensures
        r == boundary(ctus as int, n as int, i as int),
        r <= ctus,
{
    proof {
        assert(0 <= i * ctus <= n * ctus) by (nonlinear_arith)
            requires
                0 <= i <= n,
                0 <= ctus,
        ;
        lemma_boundary_ends(ctus as int, n as int);
        lemma_boundary_grows(ctus as int, n as int, i as int, n as int);
    }
    i * ctus / n
}

/// The rectangles of a grid of tiles, row by row.
pub fn tile_rects(ctus_x: usize, ctus_y: usize, cols: usize, rows: usize) -> (r: Vec<TileRect>)
    requires
        1 <= cols,
        1 <= rows,
        cols * rows <= usize::MAX,
        cols * ctus_x <= usize::MAX,
        rows * ctus_y <= usize::MAX,
        64 * ctus_x <= usize::MAX,
        64 * ctus_y <= usize::MAX,
    ensures
        r@.len() == cols * rows,
        forall|k: int|
            0 <= k < r@.len() ==> (
                (#[trigger] r@[k]).x0 as int,
                r@[k].y0 as int,
                r@[k].w as int,
                r@[k].h as int,
            ) == tile_at(ctus_x as int, ctus_y as int, cols as int, rows as int, k),
{
    let count: usize = cols * rows;
    let mut out: Vec<TileRect> = Vec::new();
    for k in 0..count
        invariant
            1 <= cols,
            1 <= rows,
            cols * ctus_x <= usize::MAX,
            rows * ctus_y <= usize::MAX,
            64 * ctus_x <= usize::MAX,
            64 * ctus_y <= usize::MAX,
            count == cols * rows,
            out@.len() == k,
            forall|i: int|
                0 <= i < k ==> (
                    (#[trigger] out@[i]).x0 as int,
                    out@[i].y0 as int,
                    out@[i].w as int,
                    out@[i].h as int,
                ) == tile_at(ctus_x as int, ctus_y as int, cols as int, rows as int, i),
    {
        let (ti, tj): (usize, usize) = (k % cols, k / cols);
        assert(tj < rows) by (nonlinear_arith)
            requires
                tj == k / cols,
                k < cols * rows,
                1 <= cols,
        ;
        proof {
            lemma_boundary_grows(ctus_x as int, cols as int, ti as int, ti + 1);
            lemma_boundary_grows(ctus_y as int, rows as int, tj as int, tj + 1);
        }
        let (x0, x1): (usize, usize) = (
            boundary_of(ctus_x, cols, ti),
            boundary_of(ctus_x, cols, ti + 1),
        );
        let (y0, y1): (usize, usize) = (
            boundary_of(ctus_y, rows, tj),
            boundary_of(ctus_y, rows, tj + 1),
        );
        out.push(TileRect { x0: x0 * 64, y0: y0 * 64, w: (x1 - x0) * 64, h: (y1 - y0) * 64 });
    }
    out
}

fn ceil_div_of(a: usize, b: usize) -> (r: usize)
    requires
        1 <= b <= 2,
        a <= 0x3fff_ffff,
    ensures
        r == planes::ceil_div(a as int, b as int),
        a >= 1 ==> r >= 1,
        r <= a,
{
    if b == 1 {
        a
    } else {
        (a + 1) / 2
    }
}

/// One tile of a picture as a picture of its own.
pub fn extract_tile_yuv(yuv: &Yuv, x0: usize, y0: usize, tw: usize, th: usize) -> (r: Yuv)
    requires
        yuv.wf(),
        1 <= tw <= 0x3fff_ffff,
        1 <= th <= 0x3fff_ffff,
        tw * th <= usize::MAX,
        x0 <= 0x3fff_ffff,
        y0 <= 0x3fff_ffff,
        tw % 2 == 0,
        th % 2 == 0,
    ensures
        r.wf(),
        r.width == tw,
        r.height == th,
        r.display_w == tw,
        r.display_h == th,
        r.chroma == yuv.chroma,
        r.bit_depth == yuv.bit_depth,
        r.y@ == planes::window(
            yuv.y@,
            yuv.width as int,
            yuv.height as int,
            x0 as int,
            y0 as int,
            tw as int,
            th as int,
        ),
        yuv.chroma is Monochrome ==> r.cb@.len() == 0 && r.cr@.len() == 0,
        !(yuv.chroma is Monochrome) ==> {
            let (sw, sh) = (yuv.chroma.spec_sub_w(), yuv.chroma.spec_sub_h());
            &&& r.cb@ == planes::window(
                yuv.cb@,
                yuv.chroma_w(),
                yuv.chroma_h(),
                x0 as int / sw,
                y0 as int / sh,
                tw as int / sw,
                th as int / sh,
            )
            &&& r.cr@ == planes::window(
                yuv.cr@,
                yuv.chroma_w(),
                yuv.chroma_h(),
                x0 as int / sw,
                y0 as int / sh,
                tw as int / sw,
                th as int / sh,
            )
        },
{
    let (sw, sh): (usize, usize) = (yuv.width as usize, yuv.height as usize);
    let y: Vec<u16> = extract_plane(&yuv.y, sw, sh, x0, y0, tw, th);
    let mut cb: Vec<u16> = Vec::new();
    let mut cr: Vec<u16> = Vec::new();
    if !yuv.chroma.is_monochrome() {
        let (subw, subh): (usize, usize) = (yuv.chroma.sub_w(), yuv.chroma.sub_h());
        let (scw, sch): (usize, usize) = (ceil_div_of(sw, subw), ceil_div_of(sh, subh));
        let (cx, cy): (usize, usize) = (x0 / subw, y0 / subh);
        let (ctw, cth): (usize, usize) = (tw / subw, th / subh);
        assert(ctw * cth <= tw * th) by (nonlinear_arith)
            requires
                0 <= ctw <= tw,
                0 <= cth <= th,
        ;
        cb = extract_plane(&yuv.cb, scw, sch, cx, cy, ctw, cth);
        cr = extract_plane(&yuv.cr, scw, sch, cx, cy, ctw, cth);
    }
    Yuv {
        y,
        cb,
        cr,
        width: tw as u32,
        height: th as u32,
        display_w: tw as u32,
        display_h: th as u32,
        chroma: yuv.chroma,
        bit_depth: yuv.bit_depth,
    }
}

} // verus!
