//! What the measures of activity say of a block: how one sample counts, and what leaves them
//! as they are.
use crate::activity;
use crate::activity::Block;
use crate::arith;
use crate::cost;
use crate::gridsum;
use crate::planes;
use crate::refs;
use vstd::prelude::*;

verus! {

/// A sum of terms of a range stays in as many times the range.
proof fn lemma_grid_range(rows: int, cols: int, g: spec_fn(int, int) -> int, top: int)
    requires
        0 <= rows <= 64,
        0 <= cols <= 64,
        0 <= top,
        forall|r: int, c: int| 0 <= r < rows && 0 <= c < cols ==> 0 <= #[trigger] g(r, c) <= top,
    ensures
        0 <= activity::grid(rows, cols, g) <= 4096 * top,
{
    let p = |r: int| arith::sum(cols, |c: int| g(r, c));
    gridsum::lemma_grid_none(rows, cols, g);
    assert forall|r: int| 0 <= r < rows implies -(top * 64) <= #[trigger] p(r) <= top * 64 by {
        let f = |c: int| g(r, c);
        assert forall|c: int| 0 <= c < cols implies -top <= #[trigger] f(c) <= top by {
            assert(0 <= g(r, c) <= top);
        }
        arith::lemma_sum_bound(cols, f, top);
        assert(top * cols <= top * 64 && -top * cols >= -(top * 64)) by (nonlinear_arith)
            requires
                0 <= cols <= 64,
                0 <= top,
        ;
    }
    arith::lemma_sum_bound(rows, p, top * 64);
    assert((top * 64) * rows <= 4096 * top) by (nonlinear_arith)
        requires
            0 <= rows <= 64,
            0 <= top,
    ;
}

/// A sample is that of a plane of `u32` at its place.
proof fn lemma_sample(b: Block, r: int, c: int)
    requires
        b.wf(),
        0 <= r < b.rows,
        0 <= c < b.cols,
    ensures
        0 <= r * b.cols + c < b.v@.len(),
        0 <= b.at(r, c) <= 0x3_ffff,
        0 <= b.at(r, c) * b.at(r, c) <= 0x10_0000_0000,
{
    refs::lemma_inside(r, c, b.cols as int, b.rows as int);
    assert(b.rows * b.cols == b.cols * b.rows) by (nonlinear_arith);
    let x = b.at(r, c);
    assert(b.v@[r * b.cols + c] <= 0x3_ffff);
    assert(0 <= x * x <= 0x10_0000_0000) by (nonlinear_arith)
        requires
            0 <= x <= 0x3_ffff,
    ;
}

/// One sample of a block is another.
pub open spec fn differs_at(b: Block, t: Block, r: int, c: int) -> bool {
    &&& t.rows == b.rows
    &&& t.cols == b.cols
    &&& 0 <= r < b.rows
    &&& 0 <= c < b.cols
    &&& forall|i: int, j: int|
        0 <= i < b.rows && 0 <= j < b.cols && (i != r || j != c) ==> #[trigger] t.at(i, j) == b.at(
            i,
            j,
        )
}

/// A cell counts a sample that lies in it, once by its value and once by its square, and no
/// other.
pub proof fn law_a_cell_counts_its_samples(
    b: Block,
    t: Block,
    r: int,
    c: int,
    r0: int,
    c0: int,
    rows: int,
    cols: int,
)
    requires
        b.wf(),
        t.wf(),
        differs_at(b, t, r, c),
        0 <= r0,
        0 <= c0,
        0 <= rows,
        0 <= cols,
        r0 + rows <= b.rows,
        c0 + cols <= b.cols,
    ensures
        ({
            let (was, is) = (b.cell(r0, c0, rows, cols), t.cell(r0, c0, rows, cols));
            let (old, new) = (b.at(r, c), t.at(r, c));
            &&& is.count == was.count == rows * cols
            &&& if r0 <= r < r0 + rows && c0 <= c < c0 + cols {
                &&& is.sum - was.sum == new - old
                &&& is.squares - was.squares == new * new - old * old
            } else {
                is == was
            }
        }),
{
    let f = |i: int, j: int| b.at(r0 + i, c0 + j);
    let g = |i: int, j: int| t.at(r0 + i, c0 + j);
    let f2 = |i: int, j: int| b.at(r0 + i, c0 + j) * b.at(r0 + i, c0 + j);
    let g2 = |i: int, j: int| t.at(r0 + i, c0 + j) * t.at(r0 + i, c0 + j);
    assert forall|i: int, j: int| 0 <= i < rows && 0 <= j < cols implies 0 <= #[trigger] f(i, j)
        <= 0x3_ffff && 0 <= g(i, j) <= 0x3_ffff && 0 <= f2(i, j) <= 0x10_0000_0000 && 0 <= g2(i, j)
        <= 0x10_0000_0000 by {
        lemma_sample(b, r0 + i, c0 + j);
        lemma_sample(t, r0 + i, c0 + j);
    }
    assert forall|i: int, j: int| 0 <= i < rows && 0 <= j < cols implies 0 <= #[trigger] g(i, j)
        <= 0x3_ffff by {
        assert(0 <= f(i, j));
    }
    assert forall|i: int, j: int| 0 <= i < rows && 0 <= j < cols implies 0 <= #[trigger] f2(i, j)
        <= 0x10_0000_0000 by {
        assert(0 <= f(i, j));
    }
    assert forall|i: int, j: int| 0 <= i < rows && 0 <= j < cols implies 0 <= #[trigger] g2(i, j)
        <= 0x10_0000_0000 by {
        assert(0 <= f(i, j));
    }
    lemma_grid_range(rows, cols, f, 0x3_ffff);
    lemma_grid_range(rows, cols, g, 0x3_ffff);
    lemma_grid_range(rows, cols, f2, 0x10_0000_0000);
    lemma_grid_range(rows, cols, g2, 0x10_0000_0000);
    assert(0 <= rows * cols <= 4096) by (nonlinear_arith)
        requires
            0 <= rows <= 64,
            0 <= cols <= 64,
    ;
    let (y, x) = (r - r0, c - c0);
    assert forall|i: int, j: int|
        0 <= i < rows && 0 <= j < cols && (i != y || j != x) implies #[trigger] f(i, j) == g(
        i,
        j,
    ) by {
        assert(t.at(r0 + i, c0 + j) == b.at(r0 + i, c0 + j));
    }
    assert forall|i: int, j: int|
        0 <= i < rows && 0 <= j < cols && (i != y || j != x) implies #[trigger] f2(i, j) == g2(
        i,
        j,
    ) by {
        assert(t.at(r0 + i, c0 + j) == b.at(r0 + i, c0 + j));
    }
    if r0 <= r < r0 + rows && c0 <= c < c0 + cols {
        gridsum::lemma_grid_change(rows, cols, f, g, y, x);
        gridsum::lemma_grid_change(rows, cols, f2, g2, y, x);
    } else {
        gridsum::lemma_grid_same(rows, cols, f, g);
        gridsum::lemma_grid_same(rows, cols, f2, g2);
    }
}

/// A block of zeros has cells of nothing.
pub proof fn law_an_empty_cell_sums_to_nothing(b: Block, r0: int, c0: int, rows: int, cols: int)
    requires
        b.wf(),
        0 <= r0,
        0 <= c0,
        0 <= rows,
        0 <= cols,
        r0 + rows <= b.rows,
        c0 + cols <= b.cols,
        forall|r: int, c: int| 0 <= r < b.rows && 0 <= c < b.cols ==> #[trigger] b.at(r, c) == 0,
    ensures
        b.cell(r0, c0, rows, cols).sum == 0,
        b.cell(r0, c0, rows, cols).squares == 0,
{
    let f = |i: int, j: int| b.at(r0 + i, c0 + j);
    let f2 = |i: int, j: int| b.at(r0 + i, c0 + j) * b.at(r0 + i, c0 + j);
    assert forall|i: int, j: int| 0 <= i < rows && 0 <= j < cols implies #[trigger] f2(i, j)
        == 0 by {
        assert(b.at(r0 + i, c0 + j) == 0);
    }
    gridsum::lemma_grid_none(rows, cols, f);
    gridsum::lemma_grid_none(rows, cols, f2);
}

/// The cells of a block are numbered by rows of cells, eight samples to each: a sample counts
/// in the cell that holds it and in no other.
pub proof fn law_every_sample_counts_in_one_cell(b: Block, t: Block, r: int, c: int, k: int)
    requires
        b.wf(),
        t.wf(),
        differs_at(b, t, r, c),
        0 <= k < b.cells().len(),
    ensures
        ({
            let across = (b.cols + 7) / 8;
            let (was, is) = (b.cells()[k], t.cells()[k]);
            let (old, new) = (b.at(r, c), t.at(r, c));
            &&& b.cells().len() == ((b.rows + 7) / 8) * across
            &&& if k == (r / 8) * across + c / 8 {
                &&& is.sum - was.sum == new - old
                &&& is.squares - was.squares == new * new - old * old
            } else {
                is == was
            }
        }),
{
    let across = (b.cols + 7) / 8;
    let down = (b.rows + 7) / 8;
    let (i, j) = (k / across, k % across);
    assert(0 <= i < down && 0 <= j < across && k == i * across + j) by (nonlinear_arith)
        requires
            i == k / across,
            j == k % across,
            0 <= k < down * across,
            0 < across,
    ;
    let rows = planes::min(8, b.rows - 8 * i);
    let cols = planes::min(8, b.cols - 8 * j);
    law_a_cell_counts_its_samples(b, t, r, c, 8 * i, 8 * j, rows, cols);
    let (y, x) = (r / 8, c / 8);
    if k == y * across + x {
        lemma_place(across, i, j, y, x);
    } else {
        assert(i != y || j != x);
    }
}

proof fn lemma_place(across: int, i: int, j: int, y: int, x: int)
    requires
        0 <= j < across,
        0 <= x < across,
        i * across + j == y * across + x,
    ensures
        i == y,
        j == x,
{
    assert(i == y && j == x) by (nonlinear_arith)
        requires
            0 <= j < across,
            0 <= x < across,
            i * across + j == y * across + x,
    ;
}

/// A slope added to a block leaves its bends as they are.
pub proof fn law_slopes_do_not_bend(b: Block, t: Block, rise: int, down: int, across: int)
    requires
        t.rows == b.rows,
        t.cols == b.cols,
        forall|r: int, c: int|
            0 <= r < b.rows && 0 <= c < b.cols ==> #[trigger] t.at(r, c) == b.at(r, c) + rise + down
                * r + across * c,
    ensures
        t.bends() == b.bends(),
{
    if b.rows >= 3 && b.cols >= 3 {
        let f = |r: int, c: int| cost::abs(b.bend(r, c));
        let g = |r: int, c: int| cost::abs(t.bend(r, c));
        assert forall|r: int, c: int| 0 <= r < b.rows - 2 && 0 <= c < b.cols - 2 implies #[trigger] f(
            r,
            c,
        ) == g(r, c) by {
            assert(t.at(r + 1, c + 1) == b.at(r + 1, c + 1) + rise + down * (r + 1) + across * (c
                + 1));
            assert(t.at(r + 1, c) == b.at(r + 1, c) + rise + down * (r + 1) + across * c);
            assert(t.at(r + 1, c + 2) == b.at(r + 1, c + 2) + rise + down * (r + 1) + across * (c
                + 2));
            assert(t.at(r, c + 1) == b.at(r, c + 1) + rise + down * r + across * (c + 1));
            assert(t.at(r + 2, c + 1) == b.at(r + 2, c + 1) + rise + down * (r + 2) + across * (c
                + 1));
            assert(down * (r + 1) == down * r + down && down * (r + 2) == down * r + 2 * down
                && across * (c + 1) == across * c + across && across * (c + 2) == across * c + 2
                * across) by (nonlinear_arith);
        }
        gridsum::lemma_grid_same(b.rows - 2, b.cols - 2, f, g);
    }
}

/// A block turned at its diagonal bends as much.
pub proof fn law_turning_keeps_the_bends(b: Block, t: Block)
    requires
        t.rows == b.cols,
        t.cols == b.rows,
        forall|r: int, c: int|
            0 <= r < b.cols && 0 <= c < b.rows ==> #[trigger] t.at(r, c) == b.at(c, r),
    ensures
        t.bends() == b.bends(),
        t.inner() == b.inner(),
{
    if b.rows >= 3 && b.cols >= 3 {
        let (rows, cols) = (b.rows - 2, b.cols - 2);
        let f = |r: int, c: int| cost::abs(b.bend(r, c));
        let g = |r: int, c: int| cost::abs(t.bend(r, c));
        let h = |r: int, c: int| f(c, r);
        assert forall|r: int, c: int| 0 <= r < cols && 0 <= c < rows implies #[trigger] h(r, c)
            == g(r, c) by {
            assert(t.at(r + 1, c + 1) == b.at(c + 1, r + 1));
            assert(t.at(r + 1, c) == b.at(c, r + 1));
            assert(t.at(r + 1, c + 2) == b.at(c + 2, r + 1));
            assert(t.at(r, c + 1) == b.at(c + 1, r));
            assert(t.at(r + 2, c + 1) == b.at(c + 1, r + 2));
        }
        gridsum::lemma_grid_turned(rows, cols, f);
        gridsum::lemma_grid_same(cols, rows, h, g);
        assert(rows * cols == cols * rows) by (nonlinear_arith);
    }
}

/// A block does not bend exactly where each inner sample is the mean of its four neighbours.
pub proof fn law_means_of_neighbours_do_not_bend(b: Block)
    requires
        b.rows >= 3,
        b.cols >= 3,
    ensures
        b.bends() >= 0,
        b.bends() == 0 <==> forall|r: int, c: int|
            1 <= r < b.rows - 1 && 1 <= c < b.cols - 1 ==> 4 * #[trigger] b.at(r, c) == b.at(r - 1, c)
                + b.at(r + 1, c) + b.at(r, c - 1) + b.at(r, c + 1),
{
    let f = |r: int, c: int| cost::abs(b.bend(r, c));
    let (rows, cols) = (b.rows - 2, b.cols - 2);
    gridsum::lemma_grid_none(rows, cols, f);
    if b.bends() == 0 {
        assert forall|r: int, c: int| 1 <= r < b.rows - 1 && 1 <= c < b.cols - 1 implies 4
            * #[trigger] b.at(r, c) == b.at(r - 1, c) + b.at(r + 1, c) + b.at(r, c - 1) + b.at(
            r,
            c + 1,
        ) by {
            assert(f(r - 1, c - 1) == 0);
        }
    }
    if forall|r: int, c: int|
        1 <= r < b.rows - 1 && 1 <= c < b.cols - 1 ==> 4 * #[trigger] b.at(r, c) == b.at(r - 1, c)
            + b.at(r + 1, c) + b.at(r, c - 1) + b.at(r, c + 1) {
        assert forall|r: int, c: int| 0 <= r < rows && 0 <= c < cols implies #[trigger] f(r, c)
            == 0 by {
            assert(4 * b.at(r + 1, c + 1) == b.at(r, c + 1) + b.at(r + 2, c + 1) + b.at(r + 1, c)
                + b.at(r + 1, c + 2));
        }
    }
}

/// Of three by three samples the one in the middle bends by how far four times it is from the
/// sum of its neighbours.
pub proof fn law_the_middle_of_nine_bends(b: Block)
    requires
        b.rows == 3,
        b.cols == 3,
    ensures
        b.inner() == 1,
        b.bends() == cost::abs(
            4 * b.at(1, 1) - (b.at(0, 1) + b.at(1, 0) + b.at(1, 2) + b.at(2, 1)),
        ),
{
    reveal_with_fuel(arith::sum, 2);
    let f = |r: int, c: int| cost::abs(b.bend(r, c));
    let rows = |r: int| arith::sum(1, |c: int| f(r, c));
    assert(arith::sum(1, rows) == rows(0));
    assert(rows(0) == f(0, 0));
}

/// The four samples that one coarse sample stands for count once each: of a block of an even
/// number of rows and columns nothing is lost.
pub proof fn law_a_coarse_block_sums_to_the_same(b: Block, h: Block)
    requires
        b.rows == 2 * h.rows,
        b.cols == 2 * h.cols,
        forall|r: int, c: int|
            0 <= r < h.rows && 0 <= c < h.cols ==> #[trigger] h.at(r, c) == b.four(r, c),
    ensures
        activity::grid(h.rows as int, h.cols as int, |r: int, c: int| h.at(r, c))
            == activity::grid(b.rows as int, b.cols as int, |r: int, c: int| b.at(r, c)),
{
    let (m, n) = (h.rows as int, h.cols as int);
    let f = |r: int, c: int| b.at(r, c);
    let p = |r: int| arith::sum(2 * n, |c: int| f(r, c));
    let g = |r: int, c: int| h.at(r, c);
    let q = |r: int| arith::sum(n, |c: int| g(r, c));
    arith::lemma_sum_even_odd(m, p);
    let (even, odd) = (|r: int| p(2 * r), |r: int| p(2 * r + 1));
    gridsum::lemma_sum_add(m, even, odd);
    let both = |r: int| even(r) + odd(r);
    assert forall|r: int| 0 <= r < m implies #[trigger] q(r) == both(r) by {
        let (x, y) = (|c: int| f(2 * r, c), |c: int| f(2 * r + 1, c));
        arith::lemma_sum_even_odd(n, x);
        arith::lemma_sum_even_odd(n, y);
        let (x0, x1) = (|c: int| x(2 * c), |c: int| x(2 * c + 1));
        let (y0, y1) = (|c: int| y(2 * c), |c: int| y(2 * c + 1));
        gridsum::lemma_sum_add(n, x0, x1);
        gridsum::lemma_sum_add(n, y0, y1);
        let (xs, ys) = (|c: int| x0(c) + x1(c), |c: int| y0(c) + y1(c));
        gridsum::lemma_sum_add(n, xs, ys);
        let all = |c: int| xs(c) + ys(c);
        let row = |c: int| g(r, c);
        assert forall|c: int| 0 <= c < n implies #[trigger] row(c) == all(c) by {
            assert(h.at(r, c) == b.four(r, c));
        }
        arith::lemma_sum_ext(n, row, all);
    }
    arith::lemma_sum_ext(m, q, both);
}

/// The rank of `n` eighths of the blocks is the first with that share of them at or before it.
pub proof fn law_a_rank_is_the_first_of_its_share(blocks: int, n: int)
    requires
        1 <= blocks,
        1 <= n <= 8,
    ensures
        0 <= activity::rank(blocks, n) < blocks,
        8 * (activity::rank(blocks, n) + 1) >= n * blocks,
        8 * activity::rank(blocks, n) < n * blocks,
{
    assert(blocks * n == n * blocks) by (nonlinear_arith);
    assert(1 <= n * blocks <= 8 * blocks) by (nonlinear_arith)
        requires
            1 <= blocks,
            1 <= n <= 8,
    ;
}

/// The mean that is taken off is the integer nearest to the mean, halves going away from
/// zero, and what is left is at most three either way.
pub proof fn law_levelling_takes_the_nearest_mean(offsets: Seq<i8>, i: int)
    requires
        0 <= i < offsets.len(),
        offsets.len() <= 0x100_0000,
    ensures
        ({
            let n = offsets.len() as int;
            let sum = activity::offset_sum(offsets);
            let mean = activity::rounded_mean(sum, n);
            let left = activity::levelled(offsets)[i];
            &&& -n <= 2 * (n * mean - sum) <= n
            &&& sum > 0 ==> 2 * (n * mean - sum) > -n
            &&& sum < 0 ==> 2 * (n * mean - sum) < n
            &&& -3 <= left <= 3
            &&& -3 <= offsets[i] - mean <= 3 ==> left == offsets[i] - mean
            &&& offsets[i] - mean > 3 ==> left == 3
            &&& offsets[i] - mean < -3 ==> left == -3
        }),
{
    let n = offsets.len() as int;
    let sum = activity::offset_sum(offsets);
    let mean = activity::rounded_mean(sum, n);
    if sum >= 0 {
        let q = (2 * sum + n) / (2 * n);
        assert(2 * n * q <= 2 * sum + n < 2 * n * q + 2 * n) by (nonlinear_arith)
            requires
                q == (2 * sum + n) / (2 * n),
                n > 0,
        ;
        assert(2 * n * q == 2 * (n * q)) by (nonlinear_arith);
    } else {
        let q = (n - 2 * sum) / (2 * n);
        assert(2 * n * q <= n - 2 * sum < 2 * n * q + 2 * n) by (nonlinear_arith)
            requires
                q == (n - 2 * sum) / (2 * n),
                n > 0,
        ;
        assert(2 * n * q == 2 * (n * q) && n * (-q) == -(n * q)) by (nonlinear_arith);
    }
}

} // verus!
