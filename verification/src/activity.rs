//! How busy a block of samples is, in whole numbers.
use crate::arith;
use crate::cost;
use crate::planes;
use crate::planes::{clamped_at, min_of};
use crate::refs;
use vstd::prelude::*;

verus! {

/// A sum over a grid.
pub open spec fn grid(rows: int, cols: int, g: spec_fn(int, int) -> int) -> int {
    arith::sum(rows, |r: int| arith::sum(cols, |c: int| g(r, c)))
}

/// A sum over a row at a time.
pub proof fn lemma_grid_step(rows: int, cols: int, g: spec_fn(int, int) -> int, r: int)
    requires
        0 <= r,
    ensures
        grid(r + 1, cols, g) == grid(r, cols, g) + arith::sum(cols, |c: int| g(r, c)),
{
}

/// A rectangle of samples.
pub struct Block {
    pub rows: usize,
    pub cols: usize,
    pub v: Vec<u32>,
}

impl Block {
    pub open spec fn wf(self) -> bool {
        &&& 1 <= self.rows <= 64
        &&& 1 <= self.cols <= 64
        &&& self.v@.len() == self.rows * self.cols
        &&& forall|i: int| 0 <= i < self.v@.len() ==> #[trigger] self.v@[i] <= 0x3_ffff
    }

    /// The sample at row `r` and column `c`.
    pub open spec fn at(self, r: int, c: int) -> int {
        self.v@[r * self.cols + c] as int
    }

    /// The sample at row `r` and column `c`.
    pub fn get(&self, r: usize, c: usize) -> (s: u32)
        requires
            self.wf(),
            r < self.rows,
            c < self.cols,
        ensures
            s == self.at(r as int, c as int),
            s <= 0x3_ffff,
    {
        proof {
            refs::lemma_inside(r as int, c as int, self.cols as int, self.rows as int);
        }
        let len: usize = self.v.len();
        assert(r * self.cols + c < len);
        let i: usize = r * self.cols + c;
        assert(self.v@[i as int] <= 0x3_ffff);
        self.v[i]
    }
}

/// The samples of the `rows` by `cols` block of a plane at `(row, col)`, without
/// their lowest `shift` bits. The last row and column of the plane go on past it.
pub fn samples_of(
    src: &[u16],
    w: usize,
    h: usize,
    row: usize,
    col: usize,
    rows: usize,
    cols: usize,
    shift: u32,
) -> (b: Block)
    requires
        1 <= w,
        1 <= h,
        src@.len() >= w * h,
        1 <= rows <= 64,
        1 <= cols <= 64,
        row + rows <= usize::MAX,
        col + cols <= usize::MAX,
        shift <= 8,
    ensures
        b.wf(),
        b.rows == rows,
        b.cols == cols,
        forall|r: int, c: int|
            0 <= r < rows && 0 <= c < cols ==> #[trigger] b.at(r, c) == planes::clamped(
                src@,
                w as int,
                h as int,
                row + r,
                col + c,
            ) as int / vstd::arithmetic::power2::pow2(shift as nat) as int,
{
    let mut v: Vec<u32> = Vec::new();
    assert(rows * cols <= 4096) by (nonlinear_arith)
        requires
            rows <= 64,
            cols <= 64,
    ;
    let ghost g = |i: int|
        planes::clamped(src@, w as int, h as int, row + i / (cols as int), col + i % (cols as int))
            as int / vstd::arithmetic::power2::pow2(shift as nat) as int;
    for i in 0..rows * cols
        invariant
            1 <= w,
            1 <= h,
            src@.len() >= w * h,
            1 <= rows <= 64,
            1 <= cols <= 64,
            rows * cols <= 4096,
            row + rows <= usize::MAX,
            col + cols <= usize::MAX,
            shift <= 8,
            g == (|i: int|
                planes::clamped(
                    src@,
                    w as int,
                    h as int,
                    row + i / (cols as int),
                    col + i % (cols as int),
                ) as int / vstd::arithmetic::power2::pow2(shift as nat) as int),
            v@.len() == i,
            forall|k: int| 0 <= k < i ==> #[trigger] v@[k] == g(k) && v@[k] <= 0x3_ffff,
    {
        let (r, c): (usize, usize) = (i / cols, i % cols);
        assert(r < rows) by (nonlinear_arith)
            requires
                r == i / cols,
                i < rows * cols,
                0 < cols,
        ;
        let s: u16 = clamped_at(src, w, h, row + r, col + c);
        let x: i32 = arith::shr_i32(s as i32, shift);
        proof {
            vstd::arithmetic::power2::lemma_pow2_pos(shift as nat);
            let p = vstd::arithmetic::power2::pow2(shift as nat) as int;
            vstd::arithmetic::div_mod::lemma_div_pos_is_pos(s as int, p);
            vstd::arithmetic::div_mod::lemma_div_is_ordered_by_denominator(s as int, 1, p);
            assert(g(i as int) == x);
        }
        v.push(x as u32);
    }
    let b: Block = Block { rows, cols, v };
    proof {
        assert forall|r: int, c: int| 0 <= r < rows && 0 <= c < cols implies #[trigger] b.at(r, c)
            == planes::clamped(src@, w as int, h as int, row + r, col + c) as int
            / vstd::arithmetic::power2::pow2(shift as nat) as int by {
            refs::lemma_inside(r, c, cols as int, rows as int);
            let i = r * cols + c;
            vstd::arithmetic::div_mod::lemma_fundamental_div_mod_converse(i, cols as int, r, c);
            assert(v@[i] == g(i));
        }
    }
    b
}

/// Sums over the samples of a cell.
#[derive(Clone, Copy)]
pub struct Cell {
    pub sum: u64,
    pub squares: u64,
    pub count: u64,
}

impl Block {
    /// The sums over the `rows` by `cols` cell at `(r0, c0)`.
    pub open spec fn cell(self, r0: int, c0: int, rows: int, cols: int) -> Cell {
        Cell {
            sum: grid(rows, cols, |r: int, c: int| self.at(r0 + r, c0 + c)) as u64,
            squares: grid(
                rows,
                cols,
                |r: int, c: int| self.at(r0 + r, c0 + c) * self.at(r0 + r, c0 + c),
            ) as u64,
            count: (rows * cols) as u64,
        }
    }

    /// The sums over a cell.
    pub fn measure_cell(&self, r0: usize, c0: usize, rows: usize, cols: usize) -> (r: Cell)
        requires
            self.wf(),
            r0 + rows <= self.rows,
            c0 + cols <= self.cols,
        ensures
            r == self.cell(r0 as int, c0 as int, rows as int, cols as int),
    {
        let ghost g = |r: int, c: int| self.at(r0 + r, c0 + c);
        let ghost q = |r: int, c: int| self.at(r0 + r, c0 + c) * self.at(r0 + r, c0 + c);
        let (mut sum, mut squares): (u64, u64) = (0, 0);
        for r in 0..rows
            invariant
                self.wf(),
                r0 + rows <= self.rows,
                c0 + cols <= self.cols,
                g == (|r: int, c: int| self.at(r0 + r, c0 + c)),
                q == (|r: int, c: int| self.at(r0 + r, c0 + c) * self.at(r0 + r, c0 + c)),
                sum == grid(r as int, cols as int, g),
                squares == grid(r as int, cols as int, q),
                sum <= r * 0x100_0000,
                squares <= r * 0x400_0000_0000,
        {
            let ghost gr = |c: int| g(r as int, c);
            let ghost qr = |c: int| q(r as int, c);
            let (mut line, mut line2): (u64, u64) = (0, 0);
            for c in 0..cols
                invariant
                    self.wf(),
                    r0 + rows <= self.rows,
                    c0 + cols <= self.cols,
                    r < rows,
                    g == (|r: int, c: int| self.at(r0 + r, c0 + c)),
                    q == (|r: int, c: int| self.at(r0 + r, c0 + c) * self.at(r0 + r, c0 + c)),
                    gr == (|c: int| g(r as int, c)),
                    qr == (|c: int| q(r as int, c)),
                    line == arith::sum(c as int, gr),
                    line2 == arith::sum(c as int, qr),
                    line <= c * 0x4_0000,
                    line2 <= c * 0x10_0000_0000,
            {
                let s: u64 = self.get(r0 + r, c0 + c) as u64;
                assert(0 <= s * s <= 0x10_0000_0000) by (nonlinear_arith)
                    requires
                        s <= 0x4_0000,
                ;
                assert(gr(c as int) == s);
                assert(qr(c as int) == s * s);
                line += s;
                line2 += s * s;
            }
            proof {
                lemma_grid_step(rows as int, cols as int, g, r as int);
                lemma_grid_step(rows as int, cols as int, q, r as int);
            }
            sum += line;
            squares += line2;
        }
        assert(rows * cols <= 4096) by (nonlinear_arith)
            requires
                rows <= 64,
                cols <= 64,
        ;
        Cell { sum, squares, count: rows as u64 * cols as u64 }
    }

    /// Cells of eight samples a side, in raster order; those at the far edges are
    /// as large as fits.
    pub open spec fn cells(self) -> Seq<Cell> {
        let across = planes::ceil_div(self.cols as int, 8);
        Seq::new(
            (planes::ceil_div(self.rows as int, 8) * across) as nat,
            |i: int|
                self.cell(
                    8 * (i / across),
                    8 * (i % across),
                    planes::min(8, self.rows - 8 * (i / across)),
                    planes::min(8, self.cols - 8 * (i % across)),
                ),
        )
    }

    /// The sums over the cells.
    pub fn measure_cells(&self) -> (r: Vec<Cell>)
        requires
            self.wf(),
        ensures
            r@ == self.cells(),
    {
        let (down, across): (usize, usize) = ((self.rows + 7) / 8, (self.cols + 7) / 8);
        assert(down * across <= 64) by (nonlinear_arith)
            requires
                down <= 8,
                across <= 8,
        ;
        let mut out: Vec<Cell> = Vec::new();
        for i in 0..down * across
            invariant
                self.wf(),
                down == planes::ceil_div(self.rows as int, 8),
                across == planes::ceil_div(self.cols as int, 8),
                1 <= across <= 8,
                1 <= down <= 8,
                down * across <= 64,
                out@.len() == i,
                forall|k: int| 0 <= k < i ==> #[trigger] out@[k] == self.cells()[k],
        {
            let (r, c): (usize, usize) = (i / across, i % across);
            assert(r < down) by (nonlinear_arith)
                requires
                    r == i / across,
                    i < down * across,
                    0 < across,
            ;
            let cell: Cell = self.measure_cell(
                8 * r,
                8 * c,
                min_of(8, self.rows - 8 * r),
                min_of(8, self.cols - 8 * c),
            );
            out.push(cell);
        }
        assert(out@ =~= self.cells());
        out
    }
}

impl Block {
    /// Four times the sample inside the edges at `(r + 1, c + 1)`, less its four
    /// neighbours.
    pub open spec fn bend(self, r: int, c: int) -> int {
        4 * self.at(r + 1, c + 1) - self.at(r + 1, c) - self.at(r + 1, c + 2) - self.at(r, c + 1)
            - self.at(r + 2, c + 1)
    }

    /// How many samples have all four neighbours.
    pub open spec fn inner(self) -> int {
        if self.rows < 3 || self.cols < 3 {
            0
        } else {
            (self.rows - 2) * (self.cols - 2)
        }
    }

    /// The magnitudes of the bends of a block.
    pub open spec fn bends(self) -> int {
        if self.rows < 3 || self.cols < 3 {
            0
        } else {
            grid(self.rows - 2, self.cols - 2, |r: int, c: int| cost::abs(self.bend(r, c)))
        }
    }

    fn bend_at(&self, r: usize, c: usize) -> (b: u64)
        requires
            self.wf(),
            r + 2 < self.rows,
            c + 2 < self.cols,
        ensures
            b == cost::abs(self.bend(r as int, c as int)),
            b <= 0x10_0000,
    {
        let x: i64 = 4 * self.get(r + 1, c + 1) as i64 - self.get(r + 1, c) as i64 - self.get(
            r + 1,
            c + 2,
        ) as i64 - self.get(r, c + 1) as i64 - self.get(r + 2, c + 1) as i64;
        if x < 0 {
            (-x) as u64
        } else {
            x as u64
        }
    }

    /// The magnitudes of the bends, and how many there are.
    pub fn laplacian_energy(&self) -> (r: (u64, u64))
        requires
            self.wf(),
        ensures
            r.0 == self.bends(),
            r.1 == self.inner(),
    {
        if self.rows < 3 || self.cols < 3 {
            return (0, 0);
        }
        let (rows, cols): (usize, usize) = (self.rows - 2, self.cols - 2);
        let ghost g = |r: int, c: int| cost::abs(self.bend(r, c));
        let mut energy: u64 = 0;
        for r in 0..rows
            invariant
                self.wf(),
                rows + 2 == self.rows,
                cols + 2 == self.cols,
                g == (|r: int, c: int| cost::abs(self.bend(r, c))),
                energy == grid(r as int, cols as int, g),
                energy <= r * 0x1000_0000,
        {
            let ghost gr = |c: int| g(r as int, c);
            let mut line: u64 = 0;
            for c in 0..cols
                invariant
                    self.wf(),
                    rows + 2 == self.rows,
                    cols + 2 == self.cols,
                    r < rows,
                    g == (|r: int, c: int| cost::abs(self.bend(r, c))),
                    gr == (|c: int| g(r as int, c)),
                    line == arith::sum(c as int, gr),
                    line <= c * 0x10_0000,
            {
                let b: u64 = self.bend_at(r, c);
                assert(gr(c as int) == b);
                line += b;
            }
            proof {
                lemma_grid_step(rows as int, cols as int, g, r as int);
            }
            energy += line;
        }
        assert(rows * cols <= 4096) by (nonlinear_arith)
            requires
                rows <= 64,
                cols <= 64,
        ;
        (energy, rows as u64 * cols as u64)
    }

    /// The four samples at `(2 r, 2 c)` together; past an edge the last sample
    /// stands for the missing one.
    pub open spec fn four(self, r: int, c: int) -> int {
        let (r1, c1) = (
            planes::min(2 * r + 1, self.rows - 1),
            planes::min(2 * c + 1, self.cols - 1),
        );
        self.at(2 * r, 2 * c) + self.at(2 * r, c1) + self.at(r1, 2 * c) + self.at(r1, c1)
    }

    /// The block at half the size: four times the means of its samples by fours.
    pub fn coarse(&self) -> (b: Block)
        requires
            self.wf(),
            forall|i: int| 0 <= i < self.v@.len() ==> #[trigger] self.v@[i] <= 0xffff,
        ensures
            b.wf(),
            b.rows == planes::ceil_div(self.rows as int, 2),
            b.cols == planes::ceil_div(self.cols as int, 2),
            forall|r: int, c: int|
                0 <= r < b.rows && 0 <= c < b.cols ==> #[trigger] b.at(r, c) == self.four(r, c),
    {
        let (rows, cols): (usize, usize) = ((self.rows + 1) / 2, (self.cols + 1) / 2);
        assert(rows * cols <= 1024) by (nonlinear_arith)
            requires
                rows <= 32,
                cols <= 32,
        ;
        let mut v: Vec<u32> = Vec::new();
        for i in 0..rows * cols
            invariant
                self.wf(),
                forall|i: int| 0 <= i < self.v@.len() ==> #[trigger] self.v@[i] <= 0xffff,
                rows == (self.rows + 1) / 2,
                cols == (self.cols + 1) / 2,
                rows * cols <= 1024,
                v@.len() == i,
                forall|k: int|
                    0 <= k < i ==> #[trigger] v@[k] == self.four(k / (cols as int), k % (cols as int))
                        && v@[k] <= 0x3_ffff,
        {
            let (r, c): (usize, usize) = (i / cols, i % cols);
            assert(r < rows) by (nonlinear_arith)
                requires
                    r == i / cols,
                    i < rows * cols,
                    0 < cols,
            ;
            let (r1, c1): (usize, usize) = (
                min_of(2 * r + 1, self.rows - 1),
                min_of(2 * c + 1, self.cols - 1),
            );
            v.push(
                self.low(2 * r, 2 * c) + self.low(2 * r, c1) + self.low(r1, 2 * c) + self.low(
                    r1,
                    c1,
                ),
            );
        }
        let b: Block = Block { rows, cols, v };
        proof {
            assert forall|r: int, c: int|
                0 <= r < b.rows && 0 <= c < b.cols implies #[trigger] b.at(r, c) == self.four(
                r,
                c,
            ) by {
                refs::lemma_inside(r, c, cols as int, rows as int);
                let i = r * cols + c;
                vstd::arithmetic::div_mod::lemma_fundamental_div_mod_converse(i, cols as int, r, c);
                assert(v@[i] == self.four(i / (cols as int), i % (cols as int)));
            }
        }
        b
    }

    fn low(&self, r: usize, c: usize) -> (s: u32)
        requires
            self.wf(),
            forall|i: int| 0 <= i < self.v@.len() ==> #[trigger] self.v@[i] <= 0xffff,
            r < self.rows,
            c < self.cols,
        ensures
            s == self.at(r as int, c as int),
            s <= 0xffff,
    {
        proof {
            refs::lemma_inside(r as int, c as int, self.cols as int, self.rows as int);
        }
        let len: usize = self.v.len();
        assert(r * self.cols + c < len);
        let i: usize = r * self.cols + c;
        assert(self.v@[i as int] <= 0xffff);
        self.v[i]
    }
}

/// The place of the `n`-th eighth among `blocks` values in order.
pub open spec fn rank(blocks: int, n: int) -> int {
    let last = planes::ceil_div(blocks * n, 8) - 1;
    if last < 0 {
        0
    } else {
        last
    }
}

/// The places of an eighth and of the two next to it among `blocks` values in
/// order.
pub fn octile_ranks(blocks: usize, octile: u8) -> (r: (usize, usize, usize))
    requires
        1 <= blocks <= 64,
        octile <= 8,
    ensures
        r.0 == rank(
            blocks as int,
            if octile <= 2 {
                1
            } else {
                octile - 1
            },
        ),
        r.1 == rank(blocks as int, octile as int),
        r.2 == rank(blocks as int, planes::min(octile + 1, 8)),
        r.0 < blocks,
        r.1 < blocks,
        r.2 < blocks,
{
    let before: usize = if octile <= 2 {
        1
    } else {
        octile as usize - 1
    };
    let after: usize = min_of(octile as usize + 1, 8);
    (rank_of(blocks, before), rank_of(blocks, octile as usize), rank_of(blocks, after))
}

fn rank_of(blocks: usize, n: usize) -> (r: usize)
    requires
        1 <= blocks <= 64,
        n <= 8,
    ensures
        r == rank(blocks as int, n as int),
        r < blocks,
{
    assert(0 <= blocks * n <= blocks * 8) by (nonlinear_arith)
        requires
            n <= 8,
            blocks <= 64,
    ;
    let up: usize = (blocks * n + 7) / 8;
    if up == 0 {
        0
    } else {
        up - 1
    }
}

/// A mean, rounded to the nearest, halves away from zero.
pub open spec fn rounded_mean(sum: int, n: int) -> int {
    if sum >= 0 {
        (2 * sum + n) / (2 * n)
    } else {
        -((n - 2 * sum) / (2 * n))
    }
}

/// A step of the quantiser that an offset may take.
pub open spec fn limited(x: int) -> i8 {
    (if x < -3 {
        -3
    } else if x > 3 {
        3
    } else {
        x
    }) as i8
}

/// The sum of the offsets.
pub open spec fn offset_sum(offsets: Seq<i8>) -> int {
    arith::sum(offsets.len() as int, |i: int| offsets[i] as int)
}

/// The offsets without what they have in common.
pub open spec fn levelled(offsets: Seq<i8>) -> Seq<i8> {
    Seq::new(
        offsets.len(),
        |i: int| limited(offsets[i] - rounded_mean(offset_sum(offsets), offsets.len() as int)),
    )
}

fn mean_of(sum: i64, n: i64) -> (r: i8)
    requires
        0 < n <= 0x1000_0000_0000,
        -3 * n <= sum <= 3 * n,
    ensures
        r == rounded_mean(sum as int, n as int),
        -4 <= r <= 4,
{
    proof {
        let up = if sum >= 0 {
            2 * sum + n
        } else {
            n - 2 * sum
        };
        assert(0 <= up / (2 * n) <= 3) by (nonlinear_arith)
            requires
                0 <= up <= 7 * n,
                0 < n,
        ;
    }
    if sum >= 0 {
        ((2 * sum + n) / (2 * n)) as i8
    } else {
        -(((n - 2 * sum) / (2 * n)) as i8)
    }
}

/// Takes off the offsets what they have in common, so that they move bits from
/// one unit to another and change no total.
pub fn level_offsets(offsets: &mut Vec<i8>)
    requires
        old(offsets)@.len() <= 0x1000_0000_0000,
        forall|i: int| 0 <= i < old(offsets)@.len() ==> -3 <= #[trigger] old(offsets)@[i] <= 3,
    ensures
        final(offsets)@ == levelled(old(offsets)@),
{
    let n: usize = offsets.len();
    if n == 0 {
        assert(offsets@ =~= levelled(old(offsets)@));
        return;
    }
    let ghost before = offsets@;
    let ghost f = |i: int| before[i] as int;
    let mut sum: i64 = 0;
    for i in 0..n
        invariant
            n == offsets@.len(),
            n <= 0x1000_0000_0000,
            offsets@ == before,
            f == (|i: int| before[i] as int),
            forall|i: int| 0 <= i < before.len() ==> -3 <= #[trigger] before[i] <= 3,
            sum == arith::sum(i as int, f),
            -3 * i <= sum <= 3 * i,
    {
        assert(-3 <= before[i as int] <= 3);
        assert(f(i as int) == before[i as int]);
        sum += offsets[i] as i64;
    }
    let mean: i8 = mean_of(sum, n as i64);
    for i in 0..n
        invariant
            n == offsets@.len(),
            n == before.len(),
            forall|i: int| 0 <= i < before.len() ==> -3 <= #[trigger] before[i] <= 3,
            -4 <= mean <= 4,
            mean == rounded_mean(offset_sum(before), n as int),
            forall|k: int| 0 <= k < i ==> #[trigger] offsets@[k] == levelled(before)[k],
            forall|k: int| i <= k < n ==> #[trigger] offsets@[k] == before[k],
    {
        assert(-3 <= before[i as int] <= 3);
        let d: i8 = offsets[i] - mean;
        let x: i8 = if d < -3 {
            -3
        } else if d > 3 {
            3
        } else {
            d
        };
        offsets.set(i, x);
    }
    assert(offsets@ =~= levelled(before));
}

/// An offset that all units share is taken off.
pub proof fn law_a_common_offset_is_taken_off(offsets: Seq<i8>, k: i8)
    requires
        forall|i: int| 0 <= i < offsets.len() ==> #[trigger] offsets[i] == k,
    ensures
        forall|i: int| 0 <= i < offsets.len() ==> #[trigger] levelled(offsets)[i] == 0,
{
    let n = offsets.len() as int;
    if n > 0 {
        arith::lemma_sum_constant(n, |i: int| offsets[i] as int, k as int);
        let s = offset_sum(offsets);
        let m = rounded_mean(s, n);
        let up = if s >= 0 {
            2 * s + n
        } else {
            n - 2 * s
        };
        let q = cost::abs(k as int);
        assert(up == q * (2 * n) + n && (k < 0 ==> s < 0) && (k >= 0 ==> s >= 0)) by (nonlinear_arith)
            requires
                s == k * n,
                0 < n,
                q == if k < 0 { -k } else { k as int },
                up == if s >= 0 { 2 * s + n } else { n - 2 * s },
        ;
        vstd::arithmetic::div_mod::lemma_fundamental_div_mod_converse(up, 2 * n, q, n);
        assert(m == k);
    }
}

} // verus!
