//! Intra prediction of square blocks from the samples above and to the left.
use crate::arith;
use crate::arith::shr_i32;
use crate::transform;
use vstd::prelude::*;

verus! {

/// Smooth surface between the edges.
pub const PLANAR: u8 = 0;

/// Mean of the edges.
pub const DC: u8 = 1;

/// Displacement, in 32nds of a sample per row or column, of each mode.
pub const INTRA_PRED_ANGLE: [i32; 35] = [
    0, 0, 32, 26, 21, 17, 13, 9, 5, 2, 0, -2, -5, -9, -13, -17, -21, -26, -32, -26, -21, -17, -13,
    -9, -5, -2, 0, 2, 5, 9, 13, 17, 21, 26, 32,
];

/// Inverse displacement of the modes that project the other edge.
pub const INV_ANGLE: [i32; 35] = [
    0, 0, 0, 0, 0, 0, 0, 0, 0, 0, 0, -4096, -1638, -910, -630, -482, -390, -315, -256, -315, -390,
    -482, -630, -910, -1638, -4096, 0, 0, 0, 0, 0, 0, 0, 0, 0,
];

/// Planar prediction at `(row, col)`: the mean of a horizontal and a vertical
/// interpolation towards the corners beyond the edges.
pub open spec fn planar_at(above: Seq<u16>, left: Seq<u16>, n: int, row: int, col: int) -> int {
    ((n - 1 - col) * left[row] + (col + 1) * above[n] + (n - 1 - row) * above[col] + (row + 1)
        * left[n] + n) / (2 * n)
}

/// Planar prediction of an `n` by `n` block, row by row.
pub fn predict_planar(above: &[u16], left: &[u16], n: usize) -> (r: Vec<u16>)
    requires
        transform::is_size(n as int),
        above@.len() > n,
        left@.len() > n,
    ensures
        r@.len() == n * n,
        forall|x: int|
            0 <= x < n * n ==> #[trigger] r@[x] == planar_at(
                above@,
                left@,
                n as int,
                x / n as int,
                x % n as int,
            ),
{
    let mut r: Vec<u16> = Vec::new();
    let top_right: i32 = above[n] as i32;
    let bottom_left: i32 = left[n] as i32;
    let m: i32 = n as i32;
    assert(0 * n == 0);
    for row in 0..n
        invariant
            transform::is_size(n as int),
            above@.len() > n,
            left@.len() > n,
            top_right == above@[n as int],
            bottom_left == left@[n as int],
            m == n,
            r@.len() == row * n,
            forall|x: int|
                0 <= x < row * n ==> #[trigger] r@[x] == planar_at(
                    above@,
                    left@,
                    n as int,
                    x / n as int,
                    x % n as int,
                ),
    {
        proof {
            transform::lemma_row_fits(row as int, n as int);
        }
        for col in 0..n
            invariant
                transform::is_size(n as int),
                above@.len() > n,
                left@.len() > n,
                top_right == above@[n as int],
                bottom_left == left@[n as int],
                m == n,
                row < n,
                0 <= row * n,
                row * n + n <= n * n,
                r@.len() == row * n + col,
                forall|x: int|
                    0 <= x < row * n + col ==> #[trigger] r@[x] == planar_at(
                        above@,
                        left@,
                        n as int,
                        x / n as int,
                        x % n as int,
                    ),
        {
            proof {
                transform::lemma_at(row as int, col as int, n as int);
                let a = left@[row as int] as int;
                let b = above@[col as int] as int;
                let c = above@[n as int] as int;
                let d = left@[n as int] as int;
                let s = (n - 1 - col) * a + (col + 1) * c + (n - 1 - row) * b + (row + 1) * d + n;
                assert(0 <= (n - 1 - col) * a <= 31 * 65535 && 0 <= (col + 1) * c <= 32 * 65535
                    && 0 <= (n - 1 - row) * b <= 31 * 65535 && 0 <= (row + 1) * d <= 32 * 65535)
                    by (nonlinear_arith)
                    requires
                        0 <= col < n,
                        0 <= row < n,
                        n <= 32,
                        0 <= a <= 65535,
                        0 <= b <= 65535,
                        0 <= c <= 65535,
                        0 <= d <= 65535,
                ;
                assert(0 <= s / (2 * n) <= 65535) by (nonlinear_arith)
                    requires
                        s == (n - 1 - col) * a + (col + 1) * c + (n - 1 - row) * b + (row + 1) * d
                            + n,
                        0 <= col < n,
                        0 <= row < n,
                        0 <= a <= 65535,
                        0 <= b <= 65535,
                        0 <= c <= 65535,
                        0 <= d <= 65535,
                ;
            }
            let h: i32 = (m - 1 - col as i32) * left[row] as i32 + (col as i32 + 1) * top_right;
            let v: i32 = (m - 1 - row as i32) * above[col] as i32 + (row as i32 + 1) * bottom_left;
            r.push(((h + v + m) / (2 * m)) as u16);
        }
    }
    r
}

/// Whether the edges of an `n` by `n` luma block are smoothed for a mode: the
/// farther the mode is from straight, and the larger the block, the sooner.
pub open spec fn smooths(mode: int, n: int) -> bool {
    let d = if mode == 0 {
        10
    } else {
        let v = if mode < 26 {
            26 - mode
        } else {
            mode - 26
        };
        let h = if mode < 10 {
            10 - mode
        } else {
            mode - 10
        };
        if v < h {
            v
        } else {
            h
        }
    };
    &&& mode != 1
    &&& n != 4
    &&& d > (if n == 8 {
        7int
    } else if n == 16 {
        1
    } else {
        0
    })
}

/// Whether a mode smooths its reference line.
pub fn should_filter_refs(mode: u8, n: usize) -> (r: bool)
    ensures
        r == smooths(mode as int, n as int),
{
    if mode == DC || n == 4 {
        return false;
    }
    let v: u8 = if mode < 26 {
        26 - mode
    } else {
        mode - 26
    };
    let h: u8 = if mode < 10 {
        10 - mode
    } else {
        mode - 10
    };
    let dist: u8 = if mode == PLANAR {
        10
    } else if v < h {
        v
    } else {
        h
    };
    let thresh: u8 = if n == 8 {
        7
    } else if n == 16 {
        1
    } else {
        0
    };
    dist > thresh
}

/// Mean of the edges of an `n` by `n` block.
pub open spec fn dc_of(above: Seq<u16>, left: Seq<u16>, n: int) -> int {
    (arith::sum(n, |i: int| above[i] + left[i]) + n) / (2 * n)
}

/// Mean prediction at `(row, col)`; with `edge` the first row and column lean
/// towards the samples beside them.
pub open spec fn dc_at(
    above: Seq<u16>,
    left: Seq<u16>,
    n: int,
    edge: bool,
    row: int,
    col: int,
) -> int {
    let dc = dc_of(above, left, n);
    if !edge || n >= 32 || (row > 0 && col > 0) {
        dc
    } else if row == 0 && col == 0 {
        (left[0] + 2 * dc + above[0] + 2) / 4
    } else if row == 0 {
        (above[col] + 3 * dc + 2) / 4
    } else {
        (left[row] + 3 * dc + 2) / 4
    }
}

/// Mean prediction of an `n` by `n` block, row by row.
pub fn predict_dc(above: &[u16], left: &[u16], n: usize, filter_boundary: bool) -> (r: Vec<u16>)
    requires
        transform::is_size(n as int),
        above@.len() >= n,
        left@.len() >= n,
    ensures
        r@.len() == n * n,
        forall|x: int|
            0 <= x < n * n ==> #[trigger] r@[x] == dc_at(
                above@,
                left@,
                n as int,
                filter_boundary,
                x / n as int,
                x % n as int,
            ),
{
    let ghost f = |i: int| above@[i] + left@[i];
    let mut sum: i32 = 0;
    for i in 0..n
        invariant
            n <= 32,
            above@.len() >= n,
            left@.len() >= n,
            f == (|i: int| above@[i] + left@[i]),
            sum == arith::sum(i as int, f),
            0 <= sum <= 131070 * i,
    {
        sum = sum + (above[i] as i32 + left[i] as i32);
    }
    let m: i32 = n as i32;
    let dc: i32 = (sum + m) / (2 * m);
    assert(dc == dc_of(above@, left@, n as int));
    assert(0 <= dc <= 65535) by (nonlinear_arith)
        requires
            0 <= sum <= 131070 * m,
            1 <= m,
            dc == (sum + m) / (2 * m),
    ;
    let mut r: Vec<u16> = Vec::new();
    assert(0 * n == 0);
    for row in 0..n
        invariant
            transform::is_size(n as int),
            above@.len() >= n,
            left@.len() >= n,
            0 <= dc <= 65535,
            dc == dc_of(above@, left@, n as int),
            r@.len() == row * n,
            forall|x: int|
                0 <= x < row * n ==> #[trigger] r@[x] == dc_at(
                    above@,
                    left@,
                    n as int,
                    filter_boundary,
                    x / n as int,
                    x % n as int,
                ),
    {
        proof {
            transform::lemma_row_fits(row as int, n as int);
        }
        for col in 0..n
            invariant
                transform::is_size(n as int),
                above@.len() >= n,
                left@.len() >= n,
                0 <= dc <= 65535,
                dc == dc_of(above@, left@, n as int),
                row < n,
                0 <= row * n,
                r@.len() == row * n + col,
                forall|x: int|
                    0 <= x < row * n + col ==> #[trigger] r@[x] == dc_at(
                        above@,
                        left@,
                        n as int,
                        filter_boundary,
                        x / n as int,
                        x % n as int,
                    ),
        {
            proof {
                transform::lemma_at(row as int, col as int, n as int);
            }
            let v: i32 = if !filter_boundary || n >= 32 || (row > 0 && col > 0) {
                dc
            } else if row == 0 && col == 0 {
                (left[0] as i32 + 2 * dc + above[0] as i32 + 2) / 4
            } else if row == 0 {
                (above[col] as i32 + 3 * dc + 2) / 4
            } else {
                (left[row] as i32 + 3 * dc + 2) / 4
            };
            r.push(v as u16);
        }
    }
    r
}

/// What an angular prediction reads: the corner, the edge that the mode points
/// at, and the other edge.
pub struct Edges {
    pub corner: u16,
    pub main: Seq<u16>,
    pub side: Seq<u16>,
    pub mode: int,
}

impl Edges {
    pub open spec fn angle(self) -> int {
        INTRA_PRED_ANGLE@[self.mode] as int
    }

    /// Sample `i` of the reference line: the corner at 0, the main edge above, and
    /// the projection of the other edge below.
    pub open spec fn line(self, i: int) -> int {
        if i > 0 {
            self.main[i - 1] as int
        } else if i == 0 {
            self.corner as int
        } else {
            let k = (i * INV_ANGLE@[self.mode] + 128) / 256;
            if k <= 0 {
                self.corner as int
            } else {
                self.side[k - 1] as int
            }
        }
    }

    /// Prediction `p` samples away from the main edge, at place `q` along it: an
    /// interpolation between two samples of the line.
    pub open spec fn at(self, p: int, q: int) -> int {
        let pos = (p + 1) * self.angle();
        let i = q + pos / 32 + 1;
        let f = pos % 32;
        if f == 0 {
            self.line(i)
        } else {
            ((32 - f) * self.line(i) + f * self.line(i + 1) + 16) / 32
        }
    }
}

/// The edges in the roles that a mode gives them.
pub open spec fn edges(corner: u16, above: Seq<u16>, left: Seq<u16>, mode: int) -> Edges {
    if mode >= 18 {
        Edges { corner, main: above, side: left, mode }
    } else {
        Edges { corner, main: left, side: above, mode }
    }
}

/// Angular prediction at `(row, col)`. With `edge`, the straight modes follow the
/// gradient of the other edge in the row or column beside it.
pub open spec fn angular_at(
    corner: u16,
    above: Seq<u16>,
    left: Seq<u16>,
    n: int,
    mode: int,
    edge: bool,
    max_val: int,
    row: int,
    col: int,
) -> int {
    let e = edges(corner, above, left, mode);
    if edge && n < 32 && mode == 26 && col == 0 {
        arith::clip(0, max_val, above[0] + (left[row] - corner) / 2)
    } else if edge && n < 32 && mode == 10 && row == 0 {
        arith::clip(0, max_val, left[0] + (above[col] - corner) / 2)
    } else if mode >= 18 {
        e.at(row, col)
    } else {
        e.at(col, row)
    }
}

/// A mode and its mirror image have the same displacement.
proof fn lemma_mirror(mode: int)
    requires
        2 <= mode <= 34,
    ensures
        INTRA_PRED_ANGLE@[mode] == INTRA_PRED_ANGLE@[36 - mode],
        INV_ANGLE@[mode] == INV_ANGLE@[36 - mode],
{
    assert(forall|m: int|
        2 <= m <= 34 ==> #[trigger] INTRA_PRED_ANGLE@[m] == INTRA_PRED_ANGLE@[36 - m]);
    assert(forall|m: int| 2 <= m <= 34 ==> #[trigger] INV_ANGLE@[m] == INV_ANGLE@[36 - m]);
}

/// The middle mode follows the diagonal.
proof fn lemma_diagonal(e: Edges, p: int, q: int)
    requires
        e.mode == 18,
    ensures
        e.at(p, q) == (if q > p {
            e.main[q - p - 1] as int
        } else if q == p {
            e.corner as int
        } else {
            e.side[p - q - 1] as int
        }),
{
    assert(e.angle() == -32 && INV_ANGLE@[e.mode] == -256);
    let pos = (p + 1) * e.angle();
    assert(pos == -32 * (p + 1)) by (nonlinear_arith)
        requires
            pos == (p + 1) * e.angle(),
            e.angle() == -32,
    ;
    assert(pos / 32 == -(p + 1) && pos % 32 == 0);
    let i = q + pos / 32 + 1;
    let inv = INV_ANGLE@[e.mode] as int;
    assert(i * inv == -256 * i) by (nonlinear_arith)
        requires
            inv == -256,
    ;
    assert((-256 * i + 128) / 256 == -i);
}

/// Swapping the edges and mirroring the mode transposes the block.
pub proof fn law_swapped_edges_transpose_the_block(
    corner: u16,
    above: Seq<u16>,
    left: Seq<u16>,
    n: int,
    mode: int,
    edge: bool,
    max_val: int,
    row: int,
    col: int,
)
    requires
        2 <= mode <= 34,
    ensures
        angular_at(corner, above, left, n, mode, edge, max_val, row, col) == angular_at(
            corner,
            left,
            above,
            n,
            36 - mode,
            edge,
            max_val,
            col,
            row,
        ),
{
    let (e, m) = (edges(corner, above, left, mode), edges(corner, left, above, 36 - mode));
    if mode == 18 {
        lemma_diagonal(e, row, col);
        lemma_diagonal(m, col, row);
    } else {
        lemma_mirror(mode);
        assert(e.main == m.main && e.side == m.side && e.angle() == m.angle());
        let (p, q) = if mode >= 18 {
            (row, col)
        } else {
            (col, row)
        };
        let i = q + (p + 1) * e.angle() / 32 + 1;
        assert(e.line(i) == m.line(i) && e.line(i + 1) == m.line(i + 1));
        assert(e.at(p, q) == m.at(p, q));
    }
}

/// The line is read between `-n + 1` and `2n`, and the projection stays inside
/// the other edge.
pub proof fn lemma_line_reach(mode: int, n: int, p: int, q: int)
    requires
        2 <= mode <= 34,
        transform::is_size(n),
        0 <= p < n,
        0 <= q < n,
    ensures
        ({
            let angle = INTRA_PRED_ANGLE@[mode] as int;
            let pos = (p + 1) * angle;
            let i = q + pos / 32 + 1;
            &&& -32 <= angle <= 32
            &&& -1024 <= pos <= 1024
            &&& n * angle <= 32 * (i - 1) + 31 || angle >= 0
            &&& i >= 1 || angle < 0
            &&& i <= 2 * n
            &&& pos % 32 != 0 ==> i + 1 <= 2 * n
        }),
{
    let angle = INTRA_PRED_ANGLE@[mode] as int;
    let pos = (p + 1) * angle;
    assert(-32 <= angle <= 32);
    assert(angle >= 0 ==> 0 <= pos <= n * 32) by (nonlinear_arith)
        requires
            0 <= p < n,
            -32 <= angle <= 32,
            pos == (p + 1) * angle,
    ;
    assert(angle <= 0 ==> n * angle <= pos <= 0 && pos >= -32 * n) by (nonlinear_arith)
        requires
            0 <= p < n,
            -32 <= angle <= 32,
            pos == (p + 1) * angle,
    ;
}

/// Below zero the line projects a sample of the other edge at most `n` away.
pub proof fn lemma_projection(mode: int, n: int, i: int)
    requires
        2 <= mode <= 34,
        transform::is_size(n),
        i < 0,
        n * INTRA_PRED_ANGLE@[mode] <= 32 * (i - 1) + 31,
    ensures
        (i * INV_ANGLE@[mode] + 128) / 256 <= n,
        -n < i,
        -4096 <= INV_ANGLE@[mode] <= 0,
{
    let angle = INTRA_PRED_ANGLE@[mode] as int;
    let inv = INV_ANGLE@[mode] as int;
    assert(angle == -2 && inv == -4096 || angle == -5 && inv == -1638 || angle == -9 && inv == -910
        || angle == -13 && inv == -630 || angle == -17 && inv == -482 || angle == -21 && inv == -390
        || angle == -26 && inv == -315 || angle == -32 && inv == -256 || angle >= 0) by {
        assert(INTRA_PRED_ANGLE@[mode] < 0 ==> 11 <= mode <= 25);
    }
    if angle >= 0 {
        assert(n * angle >= 0) by (nonlinear_arith)
            requires
                n >= 0,
                angle >= 0,
        ;
    } else if angle == -2 {
        lemma_products(n, i, angle, inv, -2, -4096);
    } else if angle == -5 {
        lemma_products(n, i, angle, inv, -5, -1638);
    } else if angle == -9 {
        lemma_products(n, i, angle, inv, -9, -910);
    } else if angle == -13 {
        lemma_products(n, i, angle, inv, -13, -630);
    } else if angle == -17 {
        lemma_products(n, i, angle, inv, -17, -482);
    } else if angle == -21 {
        lemma_products(n, i, angle, inv, -21, -390);
    } else if angle == -26 {
        lemma_products(n, i, angle, inv, -26, -315);
    } else if angle == -32 {
        lemma_products(n, i, angle, inv, -32, -256);
    }
}

/// Products with known factors.
proof fn lemma_products(n: int, i: int, angle: int, inv: int, a: int, b: int)
    requires
        angle == a,
        inv == b,
    ensures
        n * angle == a * n,
        i * inv == b * i,
{
    assert(n * angle == a * n && i * inv == b * i) by (nonlinear_arith)
        requires
            angle == a,
            inv == b,
    ;
}

/// Reads sample `i` of the reference line.
fn line_at(
    corner: u16,
    main: &[u16],
    side: &[u16],
    n: usize,
    mode: u8,
    i: i32,
    Ghost(e): Ghost<Edges>,
) -> (r: i32)
    requires
        2 <= mode <= 34,
        transform::is_size(n as int),
        main@.len() >= 2 * n,
        side@.len() >= 2 * n,
        e == (Edges { corner, main: main@, side: side@, mode: mode as int }),
        i <= 2 * n,
        i < 0 ==> n * INTRA_PRED_ANGLE@[mode as int] <= 32 * (i - 1) + 31,
    ensures
        r == e.line(i as int),
        0 <= r <= 65535,
{
    if i > 0 {
        main[(i - 1) as usize] as i32
    } else if i == 0 {
        corner as i32
    } else {
        proof {
            lemma_projection(mode as int, n as int, i as int);
            vstd::arithmetic::power2::lemma2_to64();
        }
        let inv: i32 = INV_ANGLE[mode as usize];
        assert(0 <= i * inv <= 32 * 4096) by (nonlinear_arith)
            requires
                -32 <= i <= 0,
                -4096 <= inv <= 0,
        ;
        let k: i32 = (i * inv + 128) / 256;
        if k <= 0 {
            corner as i32
        } else {
            side[(k - 1) as usize] as i32
        }
    }
}

/// Interpolates between two samples of the reference line.
fn angular_sample(
    corner: u16,
    main: &[u16],
    side: &[u16],
    n: usize,
    mode: u8,
    p: usize,
    q: usize,
    Ghost(e): Ghost<Edges>,
) -> (r: u16)
    requires
        2 <= mode <= 34,
        transform::is_size(n as int),
        main@.len() >= 2 * n,
        side@.len() >= 2 * n,
        e == (Edges { corner, main: main@, side: side@, mode: mode as int }),
        p < n,
        q < n,
    ensures
        r == e.at(p as int, q as int),
{
    proof {
        lemma_line_reach(mode as int, n as int, p as int, q as int);
        vstd::arithmetic::power2::lemma2_to64();
    }
    let angle: i32 = INTRA_PRED_ANGLE[mode as usize];
    let pos: i32 = (p as i32 + 1) * angle;
    let whole: i32 = shr_i32(pos, 5);
    let i: i32 = q as i32 + whole + 1;
    let f: i32 = pos - 32 * whole;
    assert(f == pos as int % 32);
    let a: i32 = line_at(corner, main, side, n, mode, i, Ghost(e));
    if f == 0 {
        a as u16
    } else {
        let b: i32 = line_at(corner, main, side, n, mode, i + 1, Ghost(e));
        assert(0 <= (32 - f) * a + f * b <= 32 * 65535) by (nonlinear_arith)
            requires
                0 <= f <= 31,
                0 <= a <= 65535,
                0 <= b <= 65535,
        ;
        assert(0 <= (32 - f) * a <= 32 * 65535 && 0 <= f * b <= 32 * 65535) by (nonlinear_arith)
            requires
                0 <= f <= 31,
                0 <= a <= 65535,
                0 <= b <= 65535,
        ;
        (((32 - f) * a + f * b + 16) / 32) as u16
    }
}

/// Angular prediction of an `n` by `n` block, row by row.
pub fn predict_angular(
    corner: u16,
    above: &[u16],
    left: &[u16],
    n: usize,
    mode: u8,
    filter_boundary: bool,
    max_val: i32,
) -> (r: Vec<u16>)
    requires
        transform::is_size(n as int),
        2 <= mode <= 34,
        above@.len() >= 2 * n,
        left@.len() >= 2 * n,
        0 <= max_val <= 65535,
    ensures
        r@.len() == n * n,
        forall|x: int|
            0 <= x < n * n ==> #[trigger] r@[x] == angular_at(
                corner,
                above@,
                left@,
                n as int,
                mode as int,
                filter_boundary,
                max_val as int,
                x / n as int,
                x % n as int,
            ),
{
    let ghost e = edges(corner, above@, left@, mode as int);
    let edge: bool = filter_boundary && n < 32;
    let mut r: Vec<u16> = Vec::new();
    assert(0 * n == 0);
    for row in 0..n
        invariant
            transform::is_size(n as int),
            2 <= mode <= 34,
            above@.len() >= 2 * n,
            left@.len() >= 2 * n,
            0 <= max_val <= 65535,
            edge == (filter_boundary && n < 32),
            e == edges(corner, above@, left@, mode as int),
            r@.len() == row * n,
            forall|x: int|
                0 <= x < row * n ==> #[trigger] r@[x] == angular_at(
                    corner,
                    above@,
                    left@,
                    n as int,
                    mode as int,
                    filter_boundary,
                    max_val as int,
                    x / n as int,
                    x % n as int,
                ),
    {
        proof {
            transform::lemma_row_fits(row as int, n as int);
        }
        for col in 0..n
            invariant
                transform::is_size(n as int),
                2 <= mode <= 34,
                above@.len() >= 2 * n,
                left@.len() >= 2 * n,
                0 <= max_val <= 65535,
                edge == (filter_boundary && n < 32),
                e == edges(corner, above@, left@, mode as int),
                row < n,
                0 <= row * n,
                r@.len() == row * n + col,
                forall|x: int|
                    0 <= x < row * n + col ==> #[trigger] r@[x] == angular_at(
                        corner,
                        above@,
                        left@,
                        n as int,
                        mode as int,
                        filter_boundary,
                        max_val as int,
                        x / n as int,
                        x % n as int,
                    ),
        {
            proof {
                transform::lemma_at(row as int, col as int, n as int);
                vstd::arithmetic::power2::lemma2_to64();
            }
            let v: u16 = if edge && mode == 26 && col == 0 {
                let s: i32 = above[0] as i32 + shr_i32(left[row] as i32 - corner as i32, 1);
                arith::clip3(0, max_val, s) as u16
            } else if edge && mode == 10 && row == 0 {
                let s: i32 = left[0] as i32 + shr_i32(above[col] as i32 - corner as i32, 1);
                arith::clip3(0, max_val, s) as u16
            } else if mode >= 18 {
                angular_sample(corner, above, left, n, mode, row, col, Ghost(e))
            } else {
                angular_sample(corner, left, above, n, mode, col, row, Ghost(e))
            };
            r.push(v);
        }
    }
    r
}

/// Prediction at `(row, col)` by any mode.
pub open spec fn pred_at(
    mode: int,
    corner: u16,
    above: Seq<u16>,
    left: Seq<u16>,
    n: int,
    edge: bool,
    max_val: int,
    row: int,
    col: int,
) -> int {
    if mode == 0 {
        planar_at(above, left, n, row, col)
    } else if mode == 1 {
        dc_at(above, left, n, edge, row, col)
    } else {
        angular_at(corner, above, left, n, mode, edge, max_val, row, col)
    }
}

/// Prediction of an `n` by `n` block by any mode, row by row.
pub fn predict(
    mode: u8,
    corner: u16,
    above: &[u16],
    left: &[u16],
    n: usize,
    filter_boundary: bool,
    max_val: i32,
) -> (r: Vec<u16>)
    requires
        transform::is_size(n as int),
        mode <= 34,
        above@.len() >= 2 * n,
        left@.len() >= 2 * n,
        0 <= max_val <= 65535,
    ensures
        r@.len() == n * n,
        forall|x: int|
            0 <= x < n * n ==> #[trigger] r@[x] == pred_at(
                mode as int,
                corner,
                above@,
                left@,
                n as int,
                filter_boundary,
                max_val as int,
                x / n as int,
                x % n as int,
            ),
{
    if mode == PLANAR {
        predict_planar(above, left, n)
    } else if mode == DC {
        predict_dc(above, left, n, filter_boundary)
    } else {
        predict_angular(corner, above, left, n, mode, filter_boundary, max_val)
    }
}

/// Prediction of a chroma block, which never leans towards its edges.
pub fn predict_chroma_tb(
    mode: u8,
    corner: u16,
    above: &[u16],
    left: &[u16],
    n: usize,
    max_val: i32,
) -> (r: Vec<u16>)
    requires
        transform::is_size(n as int),
        mode <= 34,
        above@.len() >= 2 * n,
        left@.len() >= 2 * n,
        0 <= max_val <= 65535,
    ensures
        r@.len() == n * n,
        forall|x: int|
            0 <= x < n * n ==> #[trigger] r@[x] == pred_at(
                mode as int,
                corner,
                above@,
                left@,
                n as int,
                false,
                max_val as int,
                x / n as int,
                x % n as int,
            ),
{
    predict(mode, corner, above, left, n, false, max_val)
}

/// No sample of an edge is larger than `max`.
pub open spec fn edge_le(edge: Seq<u16>, max: int) -> bool {
    forall|i: int| 0 <= i < edge.len() ==> #[trigger] edge[i] <= max
}

proof fn lemma_planar_le(above: Seq<u16>, left: Seq<u16>, n: int, max: int, row: int, col: int)
    requires
        transform::is_size(n),
        above.len() > n,
        left.len() > n,
        edge_le(above, max),
        edge_le(left, max),
        0 <= row < n,
        0 <= col < n,
    ensures
        0 <= planar_at(above, left, n, row, col) <= max,
{
    let (a, b, c, d) = (left[row] as int, above[n] as int, above[col] as int, left[n] as int);
    assert(a <= max && b <= max && c <= max && d <= max);
    let s = (n - 1 - col) * a + (col + 1) * b + (n - 1 - row) * c + (row + 1) * d;
    assert(0 <= s <= (2 * n) * max) by (nonlinear_arith)
        requires
            0 <= row < n,
            0 <= col < n,
            0 <= a <= max,
            0 <= b <= max,
            0 <= c <= max,
            0 <= d <= max,
            s == (n - 1 - col) * a + (col + 1) * b + (n - 1 - row) * c + (row + 1) * d,
    ;
    assert(0 <= (s + n) / (2 * n) <= max) by (nonlinear_arith)
        requires
            0 <= s <= (2 * n) * max,
            0 < n,
    ;
}

proof fn lemma_dc_le(above: Seq<u16>, left: Seq<u16>, n: int, max: int)
    requires
        transform::is_size(n),
        above.len() >= n,
        left.len() >= n,
        edge_le(above, max),
        edge_le(left, max),
    ensures
        0 <= dc_of(above, left, n) <= max,
{
    let f = |i: int| above[i] + left[i];
    lemma_edge_sum(n, f, 2 * max);
    let s = arith::sum(n, f);
    assert(s <= (2 * n) * max) by (nonlinear_arith)
        requires
            s <= n * (2 * max),
    ;
    assert(0 <= (s + n) / (2 * n) <= max) by (nonlinear_arith)
        requires
            0 <= s <= (2 * n) * max,
            0 < n,
    ;
}

proof fn lemma_edge_sum(n: int, f: spec_fn(int) -> int, bound: int)
    requires
        0 <= n,
        forall|k: int| 0 <= k < n ==> 0 <= #[trigger] f(k) <= bound,
    ensures
        0 <= arith::sum(n, f) <= n * bound,
    decreases n,
{
    assert(0 * bound == 0);
    if n > 0 {
        lemma_edge_sum(n - 1, f, bound);
        assert(0 <= f(n - 1) <= bound);
        assert((n - 1) * bound + bound == n * bound) by (nonlinear_arith);
    }
}

/// A sample of the reference line that prediction reads is not larger than `max`.
proof fn lemma_line_le(e: Edges, n: int, max: int, p: int, q: int)
    requires
        2 <= e.mode <= 34,
        transform::is_size(n),
        e.main.len() >= 2 * n,
        e.side.len() >= 2 * n,
        edge_le(e.main, max),
        edge_le(e.side, max),
        e.corner <= max,
        0 <= p < n,
        0 <= q < n,
    ensures
        0 <= e.at(p, q) <= max,
{
    lemma_line_reach(e.mode, n, p, q);
    let pos = (p + 1) * e.angle();
    let i = q + pos / 32 + 1;
    let f = pos % 32;
    if i < 0 {
        lemma_projection(e.mode, n, i);
    }
    if i + 1 < 0 {
        lemma_projection(e.mode, n, i + 1);
    }
    let a = e.line(i);
    let b = e.line(i + 1);
    assert(0 <= a <= max);
    if f != 0 {
        assert(0 <= b <= max);
        assert(0 <= (32 - f) * a + f * b + 16 <= 32 * max + 16) by (nonlinear_arith)
            requires
                0 <= f < 32,
                0 <= a <= max,
                0 <= b <= max,
        ;
    }
}

/// Prediction from samples up to `max` gives samples up to `max`.
pub proof fn lemma_pred_le(
    mode: int,
    corner: u16,
    above: Seq<u16>,
    left: Seq<u16>,
    n: int,
    edge: bool,
    max: int,
    row: int,
    col: int,
)
    requires
        transform::is_size(n),
        0 <= mode <= 34,
        above.len() > 2 * n,
        left.len() > 2 * n,
        edge_le(above, max),
        edge_le(left, max),
        corner <= max,
        0 <= row < n,
        0 <= col < n,
    ensures
        0 <= pred_at(mode, corner, above, left, n, edge, max, row, col) <= max,
{
    if mode == 0 {
        lemma_planar_le(above, left, n, max, row, col);
    } else if mode == 1 {
        lemma_dc_le(above, left, n, max);
        assert(above[col] <= max && left[row] <= max && above[0] <= max && left[0] <= max);
    } else {
        let e = edges(corner, above, left, mode);
        if mode >= 18 {
            lemma_line_le(e, n, max, row, col);
        } else {
            lemma_line_le(e, n, max, col, row);
        }
    }
}

} // verus!
