//! Gathering the reference samples of intra prediction from what is already
//! reconstructed.
use crate::arith;
use crate::transform;
use vstd::prelude::*;

verus! {

/// Sample `x` of an edge smoothed by weights 1, 2, 1; the two farthest samples
/// stay as they are.
pub open spec fn smoothed(corner: u16, edge: Seq<u16>, n: int, x: int) -> int {
    if x == 0 {
        (corner + 2 * edge[0] + edge[1] + 2) / 4
    } else if x < 2 * n - 1 {
        (edge[x - 1] + 2 * edge[x] + edge[x + 1] + 2) / 4
    } else {
        edge[x] as int
    }
}

/// The corner smoothed by the same weights.
pub open spec fn smoothed_corner(corner: u16, above: Seq<u16>, left: Seq<u16>) -> int {
    (above[0] + 2 * corner + left[0] + 2) / 4
}

/// One edge of `2n + 1` samples, smoothed.
fn smooth_edge(corner: u16, edge: &[u16], n: usize) -> (r: Vec<u16>)
    requires
        transform::is_size(n as int),
        edge@.len() > 2 * n,
    ensures
        r@.len() == 2 * n + 1,
        forall|x: int|
            0 <= x <= 2 * n ==> #[trigger] r@[x] == smoothed(corner, edge@, n as int, x),
{
    let mut r: Vec<u16> = Vec::new();
    for x in 0..2 * n + 1
        invariant
            transform::is_size(n as int),
            edge@.len() > 2 * n,
            r@.len() == x,
            forall|i: int|
                0 <= i < x ==> #[trigger] r@[i] == smoothed(corner, edge@, n as int, i),
    {
        let v: u32 = if x == 0 {
            (corner as u32 + 2 * edge[0] as u32 + edge[1] as u32 + 2) / 4
        } else if x < 2 * n - 1 {
            (edge[x - 1] as u32 + 2 * edge[x] as u32 + edge[x + 1] as u32 + 2) / 4
        } else {
            edge[x] as u32
        };
        r.push(v as u16);
    }
    r
}

/// Both edges of an `n` by `n` block, smoothed.
pub fn filter_references(corner: u16, above: &[u16], left: &[u16], n: usize) -> (r: (
    Vec<u16>,
    Vec<u16>,
))
    requires
        transform::is_size(n as int),
        above@.len() > 2 * n,
        left@.len() > 2 * n,
    ensures
        r.0@.len() == 2 * n + 1,
        r.1@.len() == 2 * n + 1,
        forall|x: int|
            0 <= x <= 2 * n ==> #[trigger] r.0@[x] == smoothed(corner, above@, n as int, x),
        forall|x: int|
            0 <= x <= 2 * n ==> #[trigger] r.1@[x] == smoothed(corner, left@, n as int, x),
{
    (smooth_edge(corner, above, n), smooth_edge(corner, left, n))
}

/// The corner, smoothed.
pub fn filter_corner(corner: u16, above: &[u16], left: &[u16]) -> (r: u16)
    requires
        above@.len() > 0,
        left@.len() > 0,
    ensures
        r == smoothed_corner(corner, above@, left@),
{
    ((above[0] as u32 + 2 * corner as u32 + left[0] as u32 + 2) / 4) as u16
}

/// Number of a cell of a `grid` by `grid` square in nested Z order.
pub open spec fn z_order(row: int, col: int, grid: int) -> int
    decreases grid,
{
    if grid <= 1 {
        0
    } else {
        (col % 2) + 2 * (row % 2) + 4 * z_order(row / 2, col / 2, grid / 2)
    }
}

/// Coding order of the block of side `blk` that holds sample `(r, c)`: coding
/// tree units of side `ctu` row by row, and nested Z order inside each.
pub open spec fn order_of(r: int, c: int, blk: int, ctu: int, ctus_x: int) -> int {
    let grid = ctu / blk;
    ((r / ctu) * ctus_x + c / ctu) * (grid * grid) + z_order((r % ctu) / blk, (c % ctu) / blk, grid)
}

/// The dimensions of a picture that coding order has room for.
pub open spec fn order_ok(blk: int, ctu: int, ctus_x: int) -> bool {
    &&& 4 <= blk <= ctu <= 64
    &&& 0 <= ctus_x <= 0x400_0000
}

proof fn lemma_z_order(row: int, col: int, grid: int)
    requires
        0 <= row,
        0 <= col,
        grid <= 64,
    ensures
        0 <= z_order(row, col, grid),
        grid >= 1 ==> z_order(row, col, grid) < grid * grid,
        z_order(row, col, grid) <= 4095,
    decreases grid,
{
    if grid > 1 {
        lemma_z_order(row / 2, col / 2, grid / 2);
        let h = grid / 2;
        assert(4 * (h * h) <= grid * grid) by (nonlinear_arith)
            requires
                h == grid / 2,
                grid > 1,
        ;
        assert(grid * grid <= 4096) by (nonlinear_arith)
            requires
                1 < grid <= 64,
        ;
    }
    if grid == 1 {
        assert(grid * grid == 1) by (nonlinear_arith)
            requires
                grid == 1,
        ;
    }
}

/// Coding order of the block that holds sample `(r, c)`.
pub fn decode_order(r: usize, c: usize, blk: usize, ctu: usize, ctus_x: usize) -> (o: i64)
    requires
        order_ok(blk as int, ctu as int, ctus_x as int),
        r as int / ctu as int <= 0x400_0000,
        c as int / ctu as int <= 0x400_0000,
    ensures
        o == order_of(r as int, c as int, blk as int, ctu as int, ctus_x as int),
{
    let grid: usize = ctu / blk;
    let ghost row0 = (r as int % ctu as int) / blk as int;
    let ghost col0 = (c as int % ctu as int) / blk as int;
    let mut row: usize = (r % ctu) / blk;
    let mut col: usize = (c % ctu) / blk;
    proof {
        let g = ctu as int / blk as int;
        let x = ctu as int;
        let y = blk as int;
        assert(1 <= g <= 16) by (nonlinear_arith)
            requires
                4 <= y <= x <= 64,
                g == x / y,
        ;
        let a = r as int % ctu as int;
        let b = c as int % ctu as int;
        assert(0 <= a / y <= 64) by (nonlinear_arith)
            requires
                0 <= a < 64,
                1 <= y,
        ;
        assert(0 <= b / y <= 64) by (nonlinear_arith)
            requires
                0 <= b < 64,
                1 <= y,
        ;
    }
    assert(grid * grid <= 4096) by (nonlinear_arith)
        requires
            grid <= 16,
    ;
    let mut g: usize = grid;
    let mut z: i64 = 0;
    let mut scale: i64 = 1;
    while g > 1
        invariant
            row <= 64,
            col <= 64,
            g <= 64,
            grid <= 16,
            1 <= scale,
            0 <= z < scale,
            scale * (g * g) <= 4096 || g <= 1,
            scale <= 4096,
            z + scale * z_order(row as int, col as int, g as int) == z_order(
                row0,
                col0,
                grid as int,
            ),
        decreases g,
    {
        let d: i64 = (col % 2) as i64 + 2 * (row % 2) as i64;
        proof {
            let zn = z_order(row as int / 2, col as int / 2, g as int / 2);
            assert(z + scale * (d + 4 * zn) == (z + d * scale) + (scale * 4) * zn)
                by (nonlinear_arith);
            let h = g as int / 2;
            assert(scale * (g * g) >= scale * 4 && scale * 4 <= 4096) by (nonlinear_arith)
                requires
                    g >= 2,
                    scale >= 1,
                    scale * (g * g) <= 4096,
            ;
            assert((scale * 4) * (h * h) <= scale * (g * g)) by (nonlinear_arith)
                requires
                    h == g / 2,
                    g >= 2,
                    scale >= 1,
            ;
            assert(0 <= d * scale <= 3 * scale) by (nonlinear_arith)
                requires
                    0 <= d <= 3,
                    scale >= 1,
            ;
        }
        z = z + d * scale;
        scale = scale * 4;
        row = row / 2;
        col = col / 2;
        g = g / 2;
    }
    proof {
        assert(scale * 0 == 0);
        lemma_z_order(row0, col0, grid as int);
        assert(z_order(row as int, col as int, g as int) == 0);
        let p = r as int / ctu as int;
        assert(0 <= p * ctus_x <= 0x400_0000 * 0x400_0000) by (nonlinear_arith)
            requires
                0 <= p <= 0x400_0000,
                0 <= ctus_x <= 0x400_0000,
        ;
        assert(0 <= grid * grid <= 256) by (nonlinear_arith)
            requires
                0 <= grid <= 16,
        ;
    }
    let unit: i64 = (r / ctu) as i64 * ctus_x as i64 + (c / ctu) as i64;
    assert(0 <= unit * (grid * grid) <= 0x10_0000_0400_0000 * 256) by (nonlinear_arith)
        requires
            0 <= unit <= 0x10_0000_0400_0000,
            0 <= grid * grid <= 256,
    ;
    unit * (grid as i64 * grid as i64) + z
}

/// Row and column of reference position `k` of the `n` by `n` block at
/// `(row, col)`: up the left edge, through the corner, along the upper edge.
pub open spec fn ref_pos(row: int, col: int, n: int, k: int) -> (int, int) {
    if k <= 2 * n {
        (row + 2 * n - k, col - 1)
    } else if k == 2 * n + 1 {
        (row - 1, col - 1)
    } else {
        (row - 1, col + k - 2 * n - 2)
    }
}

/// Number of reference positions.
pub open spec fn ref_count(n: int) -> int {
    4 * n + 3
}

/// First sample that is there, from `k` on.
pub open spec fn first_there(line: Seq<Option<u16>>, k: int) -> u16
    decreases line.len() - k,
{
    if k >= line.len() {
        0
    } else {
        match line[k] {
            Some(v) => v,
            None => first_there(line, k + 1),
        }
    }
}

/// Sample `k`, or the nearest one before it that is there, or else the first one
/// that is there.
pub open spec fn nearest(line: Seq<Option<u16>>, k: int) -> u16
    decreases k,
{
    match line[k] {
        Some(v) => v,
        None => if k <= 0 {
            first_there(line, 0)
        } else {
            nearest(line, k - 1)
        },
    }
}

/// No sample is there.
pub open spec fn none_there(line: Seq<Option<u16>>) -> bool {
    forall|i: int| 0 <= i < line.len() ==> #[trigger] line[i] is None
}

/// Reference sample `k` with what is missing filled in.
pub open spec fn substituted(line: Seq<Option<u16>>, neutral: u16, k: int) -> u16 {
    if none_there(line) {
        neutral
    } else {
        nearest(line, k)
    }
}

/// No sample of the line is larger than `max`.
pub open spec fn line_le(line: Seq<Option<u16>>, max: int) -> bool {
    forall|i: int| 0 <= i < line.len() ==> (#[trigger] line[i] matches Some(v) ==> v <= max)
}

proof fn lemma_first_le(line: Seq<Option<u16>>, k: int, max: int)
    requires
        line_le(line, max),
        0 <= k,
        0 <= max,
    ensures
        first_there(line, k) <= max,
    decreases line.len() - k,
{
    if k < line.len() {
        assert(line[k] matches Some(v) ==> v <= max);
        lemma_first_le(line, k + 1, max);
    }
}

/// What is filled in is not larger than what is there.
pub proof fn lemma_substituted_le(line: Seq<Option<u16>>, neutral: u16, k: int, max: int)
    requires
        line_le(line, max),
        0 <= k < line.len(),
        neutral <= max,
    ensures
        substituted(line, neutral, k) <= max,
{
    lemma_nearest_le(line, k, max);
}

proof fn lemma_nearest_le(line: Seq<Option<u16>>, k: int, max: int)
    requires
        line_le(line, max),
        0 <= k < line.len(),
        0 <= max,
    ensures
        nearest(line, k) <= max,
    decreases k,
{
    assert(line[k] matches Some(v) ==> v <= max);
    if k > 0 {
        lemma_nearest_le(line, k - 1, max);
    }
    lemma_first_le(line, 0, max);
}

/// The samples of a plane at the reference positions that are available.
pub open spec fn ref_line(
    plane: Seq<u16>,
    stride: int,
    row: int,
    col: int,
    n: int,
    avail: spec_fn(int, int) -> bool,
) -> Seq<Option<u16>> {
    Seq::new(
        ref_count(n) as nat,
        |k: int|
            {
                let p = ref_pos(row, col, n, k);
                if avail(p.0, p.1) {
                    Some(plane[p.0 * stride + p.1])
                } else {
                    None
                }
            },
    )
}

/// The corner and the two edges that a line of reference samples makes up.
pub open spec fn refs_are(
    r: (u16, Seq<u16>, Seq<u16>),
    line: Seq<Option<u16>>,
    neutral: u16,
    n: int,
) -> bool {
    &&& r.0 == substituted(line, neutral, 2 * n + 1)
    &&& r.1.len() == 2 * n + 1
    &&& r.2.len() == 2 * n + 1
    &&& forall|i: int|
        0 <= i <= 2 * n ==> #[trigger] r.1[i] == substituted(line, neutral, 2 * n + 2 + i)
    &&& forall|i: int| 0 <= i <= 2 * n ==> #[trigger] r.2[i] == substituted(line, neutral, 2 * n - i)
}

proof fn lemma_first_there(line: Seq<Option<u16>>, k: int, f: int)
    requires
        0 <= k <= f < line.len(),
        line[f] is Some,
        forall|i: int| k <= i < f ==> #[trigger] line[i] is None,
    ensures
        first_there(line, k) == line[f]->0,
    decreases f - k,
{
    if k < f {
        lemma_first_there(line, k + 1, f);
    }
}

/// Fills in the missing reference samples.
fn substitute_refs(line: &Vec<Option<u16>>, neutral: u16) -> (r: Vec<u16>)
    requires
        line@.len() > 0,
    ensures
        r@.len() == line@.len(),
        forall|k: int|
            0 <= k < line@.len() ==> #[trigger] r@[k] == substituted(line@, neutral, k),
{
    let total: usize = line.len();
    let mut first: usize = 0;
    while first < total && line[first].is_none()
        invariant
            total == line@.len(),
            first <= total,
            forall|i: int| 0 <= i < first ==> #[trigger] line@[i] is None,
        decreases total - first,
    {
        first = first + 1;
    }
    let mut last: u16 = neutral;
    if first < total {
        if let Some(v) = line[first] {
            last = v;
        }
        proof {
            lemma_first_there(line@, 0, first as int);
        }
    }
    let mut r: Vec<u16> = Vec::new();
    for k in 0..total
        invariant
            total == line@.len(),
            first <= total,
            first == total ==> none_there(line@) && last == neutral,
            first < total ==> line@[first as int] is Some,
            first < total && k == 0 ==> last == first_there(line@, 0),
            first < total && k > 0 ==> last == nearest(line@, k - 1),
            r@.len() == k,
            forall|i: int| 0 <= i < k ==> #[trigger] r@[i] == substituted(line@, neutral, i),
    {
        assert(first < total ==> !none_there(line@));
        if let Some(v) = line[k] {
            last = v;
        }
        assert(first < total ==> last == nearest(line@, k as int));
        r.push(last);
    }
    r
}

/// Reads the available reference samples of one plane and fills in the rest.
fn gather(
    plane: &[u16],
    stride: usize,
    row: usize,
    col: usize,
    n: usize,
    avail: &Vec<bool>,
    neutral: u16,
    Ghost(there): Ghost<spec_fn(int, int) -> bool>,
) -> (r: (u16, Vec<u16>, Vec<u16>))
    requires
        transform::is_size(n as int),
        row <= 0x7fff_ffff,
        col <= 0x7fff_ffff,
        avail@.len() == ref_count(n as int),
        forall|k: int|
            0 <= k < avail@.len() ==> #[trigger] avail@[k] == there(
                ref_pos(row as int, col as int, n as int, k).0,
                ref_pos(row as int, col as int, n as int, k).1,
            ),
        forall|y: int, x: int| #[trigger]
            there(y, x) ==> 0 <= y && 0 <= x < stride && y * stride + x < plane@.len(),
    ensures
        refs_are(
            (r.0, r.1@, r.2@),
            ref_line(plane@, stride as int, row as int, col as int, n as int, there),
            neutral,
            n as int,
        ),
{
    let ghost line = ref_line(plane@, stride as int, row as int, col as int, n as int, there);
    let total: usize = 4 * n + 3;
    let len: usize = plane.len();
    let mut samples: Vec<Option<u16>> = Vec::new();
    for k in 0..total
        invariant
            transform::is_size(n as int),
            row <= 0x7fff_ffff,
            col <= 0x7fff_ffff,
            total == ref_count(n as int),
            len == plane@.len(),
            avail@.len() == total,
            line == ref_line(plane@, stride as int, row as int, col as int, n as int, there),
            forall|k: int|
                0 <= k < avail@.len() ==> #[trigger] avail@[k] == there(
                    ref_pos(row as int, col as int, n as int, k).0,
                    ref_pos(row as int, col as int, n as int, k).1,
                ),
            forall|y: int, x: int| #[trigger]
                there(y, x) ==> 0 <= y && 0 <= x < stride && y * stride + x < plane@.len(),
            samples@.len() == k,
            forall|i: int| 0 <= i < k ==> #[trigger] samples@[i] == line[i],
    {
        if avail[k] {
            let ghost p = ref_pos(row as int, col as int, n as int, k as int);
            assert(there(p.0, p.1));
            let y: usize = if k <= 2 * n {
                row + (2 * n - k)
            } else {
                row - 1
            };
            let x: usize = if k <= 2 * n + 1 {
                col - 1
            } else {
                col + (k - 2 * n - 2)
            };
            assert(y == p.0 && x == p.1);
            assert(0 <= y * stride) by (nonlinear_arith)
                requires
                    0 <= y,
                    0 <= stride,
            ;
            samples.push(Some(plane[y * stride + x]));
        } else {
            samples.push(None);
        }
    }
    assert(samples@ =~= line);
    let vals = substitute_refs(&samples, neutral);
    let mut above: Vec<u16> = Vec::new();
    let mut left: Vec<u16> = Vec::new();
    for i in 0..2 * n + 1
        invariant
            transform::is_size(n as int),
            vals@.len() == 4 * n + 3,
            line.len() == 4 * n + 3,
            forall|k: int|
                0 <= k < line.len() ==> #[trigger] vals@[k] == substituted(line, neutral, k),
            above@.len() == i,
            left@.len() == i,
            forall|j: int|
                0 <= j < i ==> #[trigger] above@[j] == substituted(line, neutral, 2 * n + 2 + j),
            forall|j: int|
                0 <= j < i ==> #[trigger] left@[j] == substituted(line, neutral, 2 * n - j),
    {
        above.push(vals[2 * n + 2 + i]);
        left.push(vals[2 * n - i]);
    }
    (vals[2 * n + 1], above, left)
}

/// Where a luma block lies: its plane, its place, and the coding order around it.
#[derive(Clone, Copy)]
pub struct LumaRefGeometry {
    pub stride: usize,
    pub block_row: usize,
    pub block_col: usize,
    pub height: usize,
    pub n: usize,
    pub ctu: usize,
    pub ctus_x: usize,
    /// Side of the blocks by which coding order is counted.
    pub min_pu: usize,
    /// Sample where nothing is there.
    pub neutral: u16,
}

impl LumaRefGeometry {
    pub open spec fn wf(self) -> bool {
        &&& transform::is_size(self.n as int)
        &&& order_ok(self.min_pu as int, self.ctu as int, self.ctus_x as int)
        &&& self.block_row < self.height <= 0x7fff_ffff
        &&& self.block_col < self.stride <= 0x7fff_ffff
        &&& self.height <= self.ctu * 0x400_0000
        &&& self.stride <= self.ctu * 0x400_0000
    }

    pub open spec fn order(self, r: int, c: int) -> int {
        order_of(r, c, self.min_pu as int, self.ctu as int, self.ctus_x as int)
    }

    /// Sample `(r, c)` is inside the plane and comes before the block.
    pub open spec fn available(self, r: int, c: int) -> bool {
        &&& 0 <= r < self.height
        &&& 0 <= c < self.stride
        &&& self.order(r, c) < self.order(self.block_row as int, self.block_col as int)
    }

    /// The block's line of reference samples in a plane.
    pub open spec fn line(self, plane: Seq<u16>) -> Seq<Option<u16>> {
        ref_line(
            plane,
            self.stride as int,
            self.block_row as int,
            self.block_col as int,
            self.n as int,
            |r: int, c: int| self.available(r, c),
        )
    }
}

/// A row or column inside a picture of so many coding tree units.
proof fn lemma_units(r: int, limit: int, ctu: int)
    requires
        0 <= r < limit,
        1 <= ctu,
        limit <= ctu * 0x400_0000,
    ensures
        r / ctu <= 0x400_0000,
{
    assert(r / ctu <= 0x400_0000) by (nonlinear_arith)
        requires
            0 <= r < limit,
            1 <= ctu,
            limit <= ctu * 0x400_0000,
    ;
}

/// A sample inside a plane of `height` rows.
pub proof fn lemma_inside(r: int, c: int, stride: int, height: int)
    requires
        0 <= r < height,
        0 <= c < stride,
    ensures
        0 <= r * stride + c < height * stride,
        0 <= r * stride,
{
    assert(0 <= r * stride && r * stride + stride <= height * stride) by (nonlinear_arith)
        requires
            0 <= r < height,
            0 <= stride,
    ;
}

/// Whether a neighbour at `(r, c)` is available, where `None` is outside.
fn is_available(geo: &LumaRefGeometry, r: Option<usize>, c: Option<usize>) -> (a: bool)
    requires
        geo.wf(),
    ensures
        a == (r is Some && c is Some && geo.available(r->0 as int, c->0 as int)),
{
    match (r, c) {
        (Some(r), Some(c)) => {
            if r >= geo.height || c >= geo.stride {
                return false;
            }
            proof {
                lemma_units(r as int, geo.height as int, geo.ctu as int);
                lemma_units(c as int, geo.stride as int, geo.ctu as int);
                lemma_units(geo.block_row as int, geo.height as int, geo.ctu as int);
                lemma_units(geo.block_col as int, geo.stride as int, geo.ctu as int);
            }
            let cur: i64 = decode_order(
                geo.block_row,
                geo.block_col,
                geo.min_pu,
                geo.ctu,
                geo.ctus_x,
            );
            let nb: i64 = decode_order(r, c, geo.min_pu, geo.ctu, geo.ctus_x);
            nb < cur
        },
        _ => false,
    }
}

/// Reference position `k` as row and column, where `None` is before the first.
fn ref_pos_of(row: usize, col: usize, n: usize, k: usize) -> (r: (Option<usize>, Option<usize>))
    requires
        transform::is_size(n as int),
        row <= 0x7fff_ffff,
        col <= 0x7fff_ffff,
        k < ref_count(n as int),
    ensures
        ({
            let p = ref_pos(row as int, col as int, n as int, k as int);
            &&& (r.0 is None) == (p.0 < 0)
            &&& (r.1 is None) == (p.1 < 0)
            &&& r.0 is Some ==> r.0->0 == p.0
            &&& r.1 is Some ==> r.1->0 == p.1
        }),
{
    let y: Option<usize> = if k <= 2 * n {
        Some(row + (2 * n - k))
    } else if row > 0 {
        Some(row - 1)
    } else {
        None
    };
    let x: Option<usize> = if k > 2 * n + 1 {
        Some(col + (k - 2 * n - 2))
    } else if col > 0 {
        Some(col - 1)
    } else {
        None
    };
    (y, x)
}

/// The reference samples of a luma block: the corner, the upper edge and the left
/// edge of `2n + 1` samples each.
pub fn get_reference_samples(plane: &[u16], geo: LumaRefGeometry) -> (r: (u16, Vec<u16>, Vec<u16>))
    requires
        geo.wf(),
        plane@.len() >= geo.height * geo.stride,
    ensures
        refs_are((r.0, r.1@, r.2@), geo.line(plane@), geo.neutral, geo.n as int),
{
    let ghost there = |r: int, c: int| geo.available(r, c);
    let total: usize = 4 * geo.n + 3;
    let mut avail: Vec<bool> = Vec::new();
    for k in 0..total
        invariant
            geo.wf(),
            total == ref_count(geo.n as int),
            there == (|r: int, c: int| geo.available(r, c)),
            avail@.len() == k,
            forall|i: int|
                0 <= i < k ==> #[trigger] avail@[i] == there(
                    ref_pos(geo.block_row as int, geo.block_col as int, geo.n as int, i).0,
                    ref_pos(geo.block_row as int, geo.block_col as int, geo.n as int, i).1,
                ),
    {
        let (y, x) = ref_pos_of(geo.block_row, geo.block_col, geo.n, k);
        avail.push(is_available(&geo, y, x));
    }
    proof {
        assert forall|y: int, x: int| #[trigger] there(y, x) implies 0 <= y && 0 <= x < geo.stride && y
            * geo.stride + x < plane@.len() by {
            lemma_inside(y, x, geo.stride as int, geo.height as int);
        }
    }
    gather(
        plane,
        geo.stride,
        geo.block_row,
        geo.block_col,
        geo.n,
        &avail,
        geo.neutral,
        Ghost(there),
    )
}

/// Where a chroma block lies: its planes, its place, and the luma block that
/// stands for it in coding order.
#[derive(Clone, Copy)]
pub struct ChromaRefGeometry {
    pub stride: usize,
    pub block_row: usize,
    pub block_col: usize,
    pub chroma_h: usize,
    pub n: usize,
    pub sub_w: usize,
    pub sub_h: usize,
    pub luma_w: usize,
    pub luma_h: usize,
    pub luma_ctus_x: usize,
    /// Side of the luma blocks by which coding order is counted.
    pub min_luma_pu: usize,
    pub cur_luma_row: usize,
    pub cur_luma_col: usize,
    /// Sample where nothing is there.
    pub neutral: u16,
}

impl ChromaRefGeometry {
    pub open spec fn wf(self) -> bool {
        &&& transform::is_size(self.n as int)
        &&& order_ok(self.min_luma_pu as int, 64, self.luma_ctus_x as int)
        &&& 1 <= self.sub_w <= 2
        &&& 1 <= self.sub_h <= 2
        &&& self.block_row < self.chroma_h <= 0x3fff_ffff
        &&& self.block_col < self.stride <= 0x3fff_ffff
        &&& self.cur_luma_row < self.luma_h <= 0x7fff_ffff
        &&& self.cur_luma_col < self.luma_w <= 0x7fff_ffff
    }

    pub open spec fn order(self, r: int, c: int) -> int {
        order_of(r, c, self.min_luma_pu as int, 64, self.luma_ctus_x as int)
    }

    /// Sample `(r, c)` is inside the plane and its luma block comes before the
    /// current one, or it lies above the block in the same luma block.
    pub open spec fn available(self, r: int, c: int) -> bool {
        let here = self.order(self.cur_luma_row as int, self.cur_luma_col as int);
        let there = self.order(r * self.sub_h, c * self.sub_w);
        &&& 0 <= r < self.chroma_h
        &&& 0 <= c < self.stride
        &&& r * self.sub_h < self.luma_h
        &&& c * self.sub_w < self.luma_w
        &&& there < here || (there == here && r < self.block_row)
    }

    /// The block's line of reference samples in a plane.
    pub open spec fn line(self, plane: Seq<u16>) -> Seq<Option<u16>> {
        ref_line(
            plane,
            self.stride as int,
            self.block_row as int,
            self.block_col as int,
            self.n as int,
            |r: int, c: int| self.available(r, c),
        )
    }
}

/// Coding order of the 8x8 luma block that holds sample `(r, c)`.
pub fn luma_decode_order(r: usize, c: usize, ctus_x: usize) -> (o: i64)
    requires
        ctus_x <= 0x400_0000,
        r <= 0xffff_ffff,
        c <= 0xffff_ffff,
    ensures
        o == order_of(r as int, c as int, 8, 64, ctus_x as int),
{
    decode_order(r, c, 8, 64, ctus_x)
}

fn is_chroma_available(geo: &ChromaRefGeometry, r: Option<usize>, c: Option<usize>) -> (a: bool)
    requires
        geo.wf(),
    ensures
        a == (r is Some && c is Some && geo.available(r->0 as int, c->0 as int)),
{
    match (r, c) {
        (Some(r), Some(c)) => {
            if r >= geo.chroma_h || c >= geo.stride {
                return false;
            }
            let lr: usize = if geo.sub_h == 2 {
                2 * r
            } else {
                r
            };
            let lc: usize = if geo.sub_w == 2 {
                2 * c
            } else {
                c
            };
            assert(lr == r * geo.sub_h && lc == c * geo.sub_w) by (nonlinear_arith)
                requires
                    lr == if geo.sub_h == 2 {
                        2 * r
                    } else {
                        r as int
                    },
                    lc == if geo.sub_w == 2 {
                        2 * c
                    } else {
                        c as int
                    },
                    1 <= geo.sub_w <= 2,
                    1 <= geo.sub_h <= 2,
            ;
            if lr >= geo.luma_h || lc >= geo.luma_w {
                return false;
            }
            let here: i64 = decode_order(
                geo.cur_luma_row,
                geo.cur_luma_col,
                geo.min_luma_pu,
                64,
                geo.luma_ctus_x,
            );
            let there: i64 = decode_order(lr, lc, geo.min_luma_pu, 64, geo.luma_ctus_x);
            there < here || (there == here && r < geo.block_row)
        },
        _ => false,
    }
}

/// The reference samples of a chroma block in both planes; which of them are
/// available is found out once.
pub fn get_reference_samples_chroma_pair(
    plane_cb: &[u16],
    plane_cr: &[u16],
    geo: ChromaRefGeometry,
) -> (r: ((u16, Vec<u16>, Vec<u16>), (u16, Vec<u16>, Vec<u16>)))
    requires
        geo.wf(),
        plane_cb@.len() >= geo.chroma_h * geo.stride,
        plane_cr@.len() >= geo.chroma_h * geo.stride,
    ensures
        refs_are((r.0.0, r.0.1@, r.0.2@), geo.line(plane_cb@), geo.neutral, geo.n as int),
        refs_are((r.1.0, r.1.1@, r.1.2@), geo.line(plane_cr@), geo.neutral, geo.n as int),
{
    let ghost there = |r: int, c: int| geo.available(r, c);
    let total: usize = 4 * geo.n + 3;
    let mut avail: Vec<bool> = Vec::new();
    for k in 0..total
        invariant
            geo.wf(),
            total == ref_count(geo.n as int),
            there == (|r: int, c: int| geo.available(r, c)),
            avail@.len() == k,
            forall|i: int|
                0 <= i < k ==> #[trigger] avail@[i] == there(
                    ref_pos(geo.block_row as int, geo.block_col as int, geo.n as int, i).0,
                    ref_pos(geo.block_row as int, geo.block_col as int, geo.n as int, i).1,
                ),
    {
        let (y, x) = ref_pos_of(geo.block_row, geo.block_col, geo.n, k);
        avail.push(is_chroma_available(&geo, y, x));
    }
    proof {
        assert forall|y: int, x: int| #[trigger] there(y, x) implies 0 <= y && 0 <= x < geo.stride && y
            * geo.stride + x < plane_cb@.len() && y * geo.stride + x < plane_cr@.len() by {
            lemma_inside(y, x, geo.stride as int, geo.chroma_h as int);
        }
    }
    let cb = gather(
        plane_cb,
        geo.stride,
        geo.block_row,
        geo.block_col,
        geo.n,
        &avail,
        geo.neutral,
        Ghost(there),
    );
    let cr = gather(
        plane_cr,
        geo.stride,
        geo.block_row,
        geo.block_col,
        geo.n,
        &avail,
        geo.neutral,
        Ghost(there),
    );
    (cb, cr)
}

/// What prediction leaves of an `n` by `n` block.
pub fn compute_residual_i32(orig: &[u16], pred: &[u16], n: usize) -> (r: Vec<i32>)
    requires
        transform::is_size(n as int),
        orig@.len() >= n * n,
        pred@.len() >= n * n,
    ensures
        r@.len() == n * n,
        forall|x: int| 0 <= x < n * n ==> #[trigger] r@[x] == orig@[x] - pred@[x],
{
    proof {
        transform::lemma_area(n as int);
    }
    let area: usize = n * n;
    let mut r: Vec<i32> = Vec::new();
    for x in 0..area
        invariant
            area == n * n,
            orig@.len() >= area,
            pred@.len() >= area,
            r@.len() == x,
            forall|i: int| 0 <= i < x ==> #[trigger] r@[i] == orig@[i] - pred@[i],
    {
        r.push(orig[x] as i32 - pred[x] as i32);
    }
    r
}

/// The samples of an `n` by `n` block: prediction plus residual, clipped.
pub fn reconstruct(pred: &[u16], residual: &[i32], n: usize, max_val: u16) -> (r: Vec<u16>)
    requires
        transform::is_size(n as int),
        pred@.len() >= n * n,
        residual@.len() >= n * n,
    ensures
        r@.len() == n * n,
        forall|x: int|
            0 <= x < n * n ==> #[trigger] r@[x] == arith::clip(
                0,
                max_val as int,
                pred@[x] + residual@[x],
            ),
{
    proof {
        transform::lemma_area(n as int);
    }
    let area: usize = n * n;
    let mut r: Vec<u16> = Vec::new();
    for x in 0..area
        invariant
            area == n * n,
            pred@.len() >= area,
            residual@.len() >= area,
            r@.len() == x,
            forall|i: int|
                0 <= i < x ==> #[trigger] r@[i] == arith::clip(
                    0,
                    max_val as int,
                    pred@[i] + residual@[i],
                ),
    {
        let v: i64 = pred[x] as i64 + residual[x] as i64;
        r.push(
            if v < 0 {
                0
            } else if v > max_val as i64 {
                max_val
            } else {
                v as u16
            },
        );
    }
    r
}

} // verus!
