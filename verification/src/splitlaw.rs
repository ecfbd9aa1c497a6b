//! What the measures of a square of samples say of it.
use crate::activity::Block;
use crate::activitylaw;
use crate::arith;
use crate::cost;
use crate::gridsum;
use crate::split;
use crate::split::SplitStats;
use vstd::prelude::*;

verus! {

/// A peak is reached, and none is higher.
proof fn lemma_peak(n: int, f: spec_fn(int) -> int)
    requires
        1 <= n,
    ensures
        forall|i: int| 0 <= i < n ==> #[trigger] f(i) <= split::peak(n, f),
        exists|i: int| 0 <= i < n && #[trigger] f(i) == split::peak(n, f),
    decreases n,
{
    if n == 1 {
        assert(f(0) == split::peak(n, f));
    } else {
        lemma_peak(n - 1, f);
        let k = choose|i: int| 0 <= i < n - 1 && #[trigger] f(i) == split::peak(n - 1, f);
        if f(n - 1) > split::peak(n - 1, f) {
            assert(f(n - 1) == split::peak(n, f));
        } else {
            assert(f(k) == split::peak(n, f));
        }
        assert forall|i: int| 0 <= i < n implies #[trigger] f(i) <= split::peak(n, f) by {
            if i < n - 1 {
                assert(f(i) <= split::peak(n - 1, f));
            }
        }
    }
}

proof fn lemma_peaks(n: int, g: spec_fn(int, int) -> int)
    requires
        1 <= n,
    ensures
        ({
            let p = split::peak(n, |r: int| split::peak(n, |c: int| g(r, c)));
            &&& forall|r: int, c: int| 0 <= r < n && 0 <= c < n ==> #[trigger] g(r, c) <= p
            &&& exists|r: int, c: int| 0 <= r < n && 0 <= c < n && #[trigger] g(r, c) == p
        }),
{
    let f = |r: int| split::peak(n, |c: int| g(r, c));
    let p = split::peak(n, f);
    lemma_peak(n, f);
    assert forall|r: int, c: int| 0 <= r < n && 0 <= c < n implies #[trigger] g(r, c) <= p by {
        let h = |c: int| g(r, c);
        lemma_peak(n, h);
        assert(h(c) <= split::peak(n, h));
        assert(f(r) <= p);
    }
    let k = choose|i: int| 0 <= i < n && #[trigger] f(i) == p;
    let h = |c: int| g(k, c);
    lemma_peak(n, h);
    let j = choose|i: int| 0 <= i < n && #[trigger] h(i) == split::peak(n, h);
    assert(g(k, j) == p);
}

/// No sample is below the lowest or above the highest, and both occur.
pub proof fn law_extremes_bound_the_samples(s: SplitStats, b: Block)
    requires
        s.of(b),
        b.rows >= 1,
    ensures
        forall|r: int, c: int|
            0 <= r < b.rows && 0 <= c < b.rows ==> s.lowest <= #[trigger] b.at(r, c) <= s.highest,
        exists|r: int, c: int|
            0 <= r < b.rows && 0 <= c < b.rows && #[trigger] b.at(r, c) == s.lowest,
        exists|r: int, c: int|
            0 <= r < b.rows && 0 <= c < b.rows && #[trigger] b.at(r, c) == s.highest,
{
    let n = b.rows as int;
    let up = |r: int, c: int| b.at(r, c);
    let down = |r: int, c: int| -b.at(r, c);
    lemma_peaks(n, up);
    lemma_peaks(n, down);
    let tops = |r: int| split::peak(n, |c: int| up(r, c));
    let lows = |r: int| split::peak(n, |c: int| down(r, c));
    assert(tops =~= (|r: int| split::peak(n, |c: int| b.at(r, c)))) by {
        assert forall|r: int| #[trigger] tops(r) == split::peak(n, |c: int| b.at(r, c)) by {
            assert((|c: int| up(r, c)) =~= (|c: int| b.at(r, c)));
        }
    }
    assert(lows =~= (|r: int| split::peak(n, |c: int| -b.at(r, c)))) by {
        assert forall|r: int| #[trigger] lows(r) == split::peak(n, |c: int| -b.at(r, c)) by {
            assert((|c: int| down(r, c)) =~= (|c: int| -b.at(r, c)));
        }
    }
    let (r1, c1) = choose|r: int, c: int|
        0 <= r < n && 0 <= c < n && #[trigger] up(r, c) == s.highest;
    assert(b.at(r1, c1) == s.highest);
    let (r2, c2) = choose|r: int, c: int|
        0 <= r < n && 0 <= c < n && #[trigger] down(r, c) == -(s.lowest as int);
    assert(b.at(r2, c2) == s.lowest);
    assert forall|r: int, c: int| 0 <= r < n && 0 <= c < n implies s.lowest <= #[trigger] b.at(r, c)
        <= s.highest by {
        assert(up(r, c) <= s.highest);
        assert(down(r, c) <= -(s.lowest as int));
    }
}

/// The horizontal steps add up to the differences of the last and the first column, the
/// vertical ones to those of the last and the first row.
pub proof fn law_slopes_are_the_differences_of_the_ends(s: SplitStats, b: Block)
    requires
        s.of(b),
        b.rows >= 1,
    ensures
        ({
            let n = b.rows as int;
            &&& s.slope_x == arith::sum(n, |i: int| b.at(i, n - 1) - b.at(i, 0))
            &&& s.slope_y == arith::sum(n, |i: int| b.at(n - 1, i) - b.at(0, i))
        }),
{
    let n = b.rows as int;
    let dx = |r: int, c: int| b.dx(r, c);
    let dy = |r: int, c: int| b.dy(r, c);
    let rows = |r: int| arith::sum(n, |c: int| dx(r, c));
    let ends = |i: int| b.at(i, n - 1) - b.at(i, 0);
    assert forall|r: int| 0 <= r < n implies #[trigger] rows(r) == ends(r) by {
        let f = |c: int| b.at(r, c);
        gridsum::lemma_sum_steps(n, f);
        arith::lemma_sum_ext(
            n,
            |c: int| dx(r, c),
            |i: int|
                if i == 0 {
                    0
                } else {
                    f(i) - f(i - 1)
                },
        );
    }
    arith::lemma_sum_ext(n, rows, ends);
    gridsum::lemma_grid_turned(n, n, dy);
    let turned = |r: int, c: int| dy(c, r);
    let columns = |r: int| arith::sum(n, |c: int| turned(r, c));
    let others = |i: int| b.at(n - 1, i) - b.at(0, i);
    assert forall|r: int| 0 <= r < n implies #[trigger] columns(r) == others(r) by {
        let f = |c: int| b.at(c, r);
        gridsum::lemma_sum_steps(n, f);
        arith::lemma_sum_ext(
            n,
            |c: int| turned(r, c),
            |i: int|
                if i == 0 {
                    0
                } else {
                    f(i) - f(i - 1)
                },
        );
    }
    arith::lemma_sum_ext(n, columns, others);
}

/// Two squares are each other's mirror image at the diagonal.
pub open spec fn turned(b: Block, t: Block) -> bool {
    &&& t.rows == b.rows
    &&& forall|r: int, c: int|
        0 <= r < b.rows && 0 <= c < b.rows ==> #[trigger] t.at(r, c) == b.at(c, r)
}

/// A square that is turned at its diagonal has as many steps, the slopes exchanged, and the
/// same steps across the middle.
pub proof fn law_turning_exchanges_the_slopes(s: SplitStats, b: Block, u: SplitStats, t: Block)
    requires
        s.of(b),
        u.of(t),
        turned(b, t),
        b.rows >= 2,
    ensures
        u.steps == s.steps,
        u.slope_x == s.slope_y,
        u.slope_y == s.slope_x,
        u.midline == s.midline,
{
    let n = b.rows as int;
    let h = n / 2;
    assert forall|r: int, c: int| 0 <= r < n && 0 <= c < n implies #[trigger] t.dx(r, c) == b.dy(
        c,
        r,
    ) && t.dy(r, c) == b.dx(c, r) by {
        assert(t.at(r, c) == b.at(c, r));
        if c > 0 {
            assert(t.at(r, c - 1) == b.at(c - 1, r));
        }
        if r > 0 {
            assert(t.at(r - 1, c) == b.at(c, r - 1));
        }
    }
    let steps = |r: int, c: int| cost::abs(b.dx(r, c)) + cost::abs(b.dy(r, c));
    gridsum::lemma_grid_turned(n, n, steps);
    let t_steps = |r: int, c: int| cost::abs(t.dx(r, c)) + cost::abs(t.dy(r, c));
    assert forall|r: int, c: int| 0 <= r < n && 0 <= c < n implies #[trigger] t_steps(r, c)
        == (|r: int, c: int| steps(c, r))(r, c) by {
        assert(t.dx(r, c) == b.dy(c, r));
    }
    gridsum::lemma_grid_same(n, n, t_steps, |r: int, c: int| steps(c, r));
    let (bx, bv) = (|r: int, c: int| b.dx(r, c), |r: int, c: int| b.dy(r, c));
    let (tx, ty) = (|r: int, c: int| t.dx(r, c), |r: int, c: int| t.dy(r, c));
    gridsum::lemma_grid_turned(n, n, bx);
    gridsum::lemma_grid_turned(n, n, bv);
    assert forall|r: int, c: int| 0 <= r < n && 0 <= c < n implies #[trigger] tx(r, c) == (|
        r: int,
        c: int,
    | bv(c, r))(r, c) by {
        assert(t.dx(r, c) == b.dy(c, r));
    }
    gridsum::lemma_grid_same(n, n, tx, |r: int, c: int| bv(c, r));
    assert forall|r: int, c: int| 0 <= r < n && 0 <= c < n implies #[trigger] ty(r, c) == (|
        r: int,
        c: int,
    | bx(c, r))(r, c) by {
        assert(t.dx(r, c) == b.dy(c, r));
    }
    gridsum::lemma_grid_same(n, n, ty, |r: int, c: int| bx(c, r));
    let m = |i: int| split::square(b.dx(i, h)) + split::square(b.dy(h, i));
    let w = |i: int| split::square(t.dx(i, h)) + split::square(t.dy(h, i));
    assert forall|i: int| 0 <= i < n implies #[trigger] m(i) == w(i) by {
        assert(t.dx(i, h) == b.dy(h, i));
        assert(t.dx(h, i) == b.dy(i, h) && t.dy(h, i) == b.dx(i, h));
    }
    arith::lemma_sum_ext(n, m, w);
}

/// Samples raised by the same amount have the same steps.
pub proof fn law_raising_keeps_the_steps(s: SplitStats, b: Block, u: SplitStats, t: Block, rise: int)
    requires
        s.of(b),
        u.of(t),
        b.rows >= 2,
        t.rows == b.rows,
        forall|r: int, c: int|
            0 <= r < b.rows && 0 <= c < b.rows ==> #[trigger] t.at(r, c) == b.at(r, c) + rise,
    ensures
        u.steps == s.steps,
        u.slope_x == s.slope_x,
        u.slope_y == s.slope_y,
        u.midline == s.midline,
{
    let n = b.rows as int;
    let h = n / 2;
    assert forall|r: int, c: int| 0 <= r < n && 0 <= c < n implies #[trigger] t.dx(r, c) == b.dx(
        r,
        c,
    ) && t.dy(r, c) == b.dy(r, c) by {
        assert(t.at(r, c) == b.at(r, c) + rise);
        if c > 0 {
            assert(t.at(r, c - 1) == b.at(r, c - 1) + rise);
        }
        if r > 0 {
            assert(t.at(r - 1, c) == b.at(r - 1, c) + rise);
        }
    }
    let steps = |r: int, c: int| cost::abs(b.dx(r, c)) + cost::abs(b.dy(r, c));
    let t_steps = |r: int, c: int| cost::abs(t.dx(r, c)) + cost::abs(t.dy(r, c));
    assert forall|r: int, c: int| 0 <= r < n && 0 <= c < n implies #[trigger] steps(r, c)
        == t_steps(r, c) by {
        assert(t.dx(r, c) == b.dx(r, c));
    }
    gridsum::lemma_grid_same(n, n, steps, t_steps);
    let (bx, bv) = (|r: int, c: int| b.dx(r, c), |r: int, c: int| b.dy(r, c));
    let (tx, ty) = (|r: int, c: int| t.dx(r, c), |r: int, c: int| t.dy(r, c));
    gridsum::lemma_grid_same(n, n, tx, bx);
    assert forall|r: int, c: int| 0 <= r < n && 0 <= c < n implies #[trigger] ty(r, c) == bv(
        r,
        c,
    ) by {
        assert(t.dx(r, c) == b.dx(r, c));
    }
    gridsum::lemma_grid_same(n, n, ty, bv);
    let m = |i: int| split::square(b.dx(i, h)) + split::square(b.dy(h, i));
    let w = |i: int| split::square(t.dx(i, h)) + split::square(t.dy(h, i));
    assert forall|i: int| 0 <= i < n implies #[trigger] m(i) == w(i) by {
        assert(t.dx(i, h) == b.dx(i, h));
        assert(t.dx(h, i) == b.dx(h, i) && t.dy(h, i) == b.dy(h, i));
    }
    arith::lemma_sum_ext(n, m, w);
}

/// The steps across the middle are nothing exactly where the samples on both sides of both
/// lines are equal.
pub proof fn law_an_unbroken_middle_has_no_steps(s: SplitStats, b: Block)
    requires
        s.of(b),
        b.rows >= 2,
    ensures
        ({
            let (n, h) = (b.rows as int, b.rows as int / 2);
            s.midline == 0 <==> forall|i: int|
                0 <= i < n ==> #[trigger] b.at(i, h) == b.at(i, h - 1) && b.at(h, i) == b.at(
                    h - 1,
                    i,
                )
        }),
{
    let (n, h) = (b.rows as int, b.rows as int / 2);
    let m = |i: int| split::square(b.dx(i, h)) + split::square(b.dy(h, i));
    assert forall|i: int| 0 <= i < n implies #[trigger] m(i) >= 0 && (m(i) == 0 <==> b.at(i, h)
        == b.at(i, h - 1) && b.at(h, i) == b.at(h - 1, i)) by {
        let (x, y) = (b.dx(i, h), b.dy(h, i));
        assert(x * x >= 0 && y * y >= 0 && (x * x == 0 <==> x == 0) && (y * y == 0 <==> y == 0))
            by (nonlinear_arith);
    }
    gridsum::lemma_sum_none(n, m);
    if s.midline == 0 {
        assert forall|i: int| 0 <= i < n implies #[trigger] b.at(i, h) == b.at(i, h - 1) && b.at(
            h,
            i,
        ) == b.at(h - 1, i) by {
            assert(m(i) == 0);
        }
    }
    if forall|i: int|
        0 <= i < n ==> #[trigger] b.at(i, h) == b.at(i, h - 1) && b.at(h, i) == b.at(h - 1, i) {
        assert forall|i: int| 0 <= i < n implies #[trigger] m(i) == 0 by {
            assert(b.at(i, h) == b.at(i, h - 1));
        }
    }
}

/// There are no steps exactly where all samples are equal.
pub proof fn law_only_flat_squares_have_no_steps(s: SplitStats, b: Block)
    requires
        s.of(b),
        b.rows >= 1,
    ensures
        s.steps == 0 <==> s.lowest == s.highest,
{
    let n = b.rows as int;
    law_extremes_bound_the_samples(s, b);
    let f = |r: int, c: int| cost::abs(b.dx(r, c)) + cost::abs(b.dy(r, c));
    gridsum::lemma_grid_none(n, n, f);
    if s.steps == 0 {
        assert forall|r: int, c: int| 0 <= r < n && 0 <= c < n implies #[trigger] b.at(r, c)
            == b.at(0, 0) by {
            lemma_no_steps(b, n, f, r, c);
        }
    }
    if s.lowest == s.highest {
        assert forall|r: int, c: int| 0 <= r < n && 0 <= c < n implies #[trigger] f(r, c) == 0 by {
            assert(b.at(r, c) == s.lowest);
            if c > 0 {
                assert(b.at(r, c - 1) == s.lowest);
            }
            if r > 0 {
                assert(b.at(r - 1, c) == s.lowest);
            }
        }
    }
}

proof fn lemma_no_steps(b: Block, n: int, f: spec_fn(int, int) -> int, r: int, c: int)
    requires
        f == (|r: int, c: int| cost::abs(b.dx(r, c)) + cost::abs(b.dy(r, c))),
        forall|r: int, c: int| 0 <= r < n && 0 <= c < n ==> #[trigger] f(r, c) == 0,
        0 <= r < n,
        0 <= c < n,
    ensures
        b.at(r, c) == b.at(0, 0),
    decreases r + c,
{
    assert(f(r, c) == 0);
    if c > 0 {
        lemma_no_steps(b, n, f, r, c - 1);
    } else if r > 0 {
        lemma_no_steps(b, n, f, r - 1, c);
    }
}

/// Samples multiplied by a factor have as many times the steps, and its square as many times
/// the squares across the middle.
pub proof fn law_steps_grow_with_the_samples(
    s: SplitStats,
    b: Block,
    u: SplitStats,
    t: Block,
    factor: int,
)
    requires
        s.of(b),
        u.of(t),
        b.rows >= 2,
        t.rows == b.rows,
        factor >= 0,
        forall|r: int, c: int|
            0 <= r < b.rows && 0 <= c < b.rows ==> #[trigger] t.at(r, c) == b.at(r, c) * factor,
    ensures
        u.steps == s.steps * factor,
        u.midline == s.midline * (factor * factor),
{
    let n = b.rows as int;
    let h = n / 2;
    assert forall|r: int, c: int| 0 <= r < n && 0 <= c < n implies #[trigger] t.dx(r, c) == b.dx(
        r,
        c,
    ) * factor && t.dy(r, c) == b.dy(r, c) * factor by {
        assert(t.at(r, c) == b.at(r, c) * factor);
        if c > 0 {
            assert(t.at(r, c - 1) == b.at(r, c - 1) * factor);
            lemma_apart(b.at(r, c), b.at(r, c - 1), factor);
        } else {
            assert(0 * factor == 0);
        }
        if r > 0 {
            assert(t.at(r - 1, c) == b.at(r - 1, c) * factor);
            lemma_apart(b.at(r, c), b.at(r - 1, c), factor);
        } else {
            assert(0 * factor == 0);
        }
    }
    let steps = |r: int, c: int| cost::abs(b.dx(r, c)) + cost::abs(b.dy(r, c));
    let t_steps = |r: int, c: int| cost::abs(t.dx(r, c)) + cost::abs(t.dy(r, c));
    assert forall|r: int, c: int| 0 <= r < n && 0 <= c < n implies #[trigger] t_steps(r, c)
        == steps(r, c) * factor by {
        assert(t.dx(r, c) == b.dx(r, c) * factor);
        let (x, y) = (b.dx(r, c), b.dy(r, c));
        lemma_abs_times(x, factor);
        lemma_abs_times(y, factor);
        assert((cost::abs(x) + cost::abs(y)) * factor == cost::abs(x) * factor + cost::abs(y) * factor)
            by (nonlinear_arith);
    }
    gridsum::lemma_grid_times(n, n, steps, t_steps, factor);
    let m = |i: int| split::square(b.dx(i, h)) + split::square(b.dy(h, i));
    let w = |i: int| split::square(t.dx(i, h)) + split::square(t.dy(h, i));
    assert forall|i: int| 0 <= i < n implies #[trigger] w(i) == m(i) * (factor * factor) by {
        assert(t.dx(i, h) == b.dx(i, h) * factor);
        assert(t.dx(h, i) == b.dx(h, i) * factor && t.dy(h, i) == b.dy(h, i) * factor);
        let (x, y) = (b.dx(i, h), b.dy(h, i));
        assert((x * factor) * (x * factor) + (y * factor) * (y * factor) == (x * x + y * y) * (factor * factor))
            by (nonlinear_arith);
    }
    gridsum::lemma_sum_times(n, m, w, factor * factor);
}

proof fn lemma_apart(a: int, b: int, factor: int)
    ensures
        a * factor - b * factor == (a - b) * factor,
{
    assert(a * factor - b * factor == (a - b) * factor) by (nonlinear_arith);
}

proof fn lemma_abs_times(x: int, factor: int)
    requires
        factor >= 0,
    ensures
        cost::abs(x * factor) == cost::abs(x) * factor,
{
    assert(x >= 0 ==> x * factor >= 0) by (nonlinear_arith)
        requires
            factor >= 0,
    ;
    assert(x <= 0 ==> x * factor <= 0) by (nonlinear_arith)
        requires
            factor >= 0,
    ;
    assert((-x) * factor == -(x * factor)) by (nonlinear_arith);
}

/// Of two by two samples the steps are the magnitudes of the four differences of neighbours,
/// and the middle is broken by their squares.
pub proof fn law_four_samples_have_four_steps(s: SplitStats, b: Block)
    requires
        s.of(b),
        b.rows == 2,
    ensures
        ({
            let (across, below) = (b.at(0, 1) - b.at(0, 0), b.at(1, 1) - b.at(1, 0));
            let (left, right) = (b.at(1, 0) - b.at(0, 0), b.at(1, 1) - b.at(0, 1));
            &&& s.steps == cost::abs(across) + cost::abs(below) + cost::abs(left) + cost::abs(right)
            &&& s.midline == across * across + below * below + left * left + right * right
        }),
{
    reveal_with_fuel(arith::sum, 4);
    let f = |r: int, c: int| cost::abs(b.dx(r, c)) + cost::abs(b.dy(r, c));
    let rows = |r: int| arith::sum(2, |c: int| f(r, c));
    assert(rows(0) == f(0, 0) + f(0, 1));
    assert(rows(1) == f(1, 0) + f(1, 1));
    assert(arith::sum(2, rows) == rows(0) + rows(1));
    let m = |i: int| split::square(b.dx(i, 1)) + split::square(b.dy(1, i));
    assert(arith::sum(2, m) == m(0) + m(1));
}

/// A sample counts in the quarter that holds it and in no other; the quarters go from left to
/// right, the upper two first.
pub proof fn law_every_sample_counts_in_one_quarter(
    s: SplitStats,
    b: Block,
    u: SplitStats,
    t: Block,
    r: int,
    c: int,
    k: int,
)
    requires
        b.wf(),
        t.wf(),
        b.cols == b.rows,
        b.rows % 2 == 0,
        s.of(b),
        u.of(t),
        activitylaw::differs_at(b, t, r, c),
        0 <= k < 4,
    ensures
        ({
            let h = b.rows as int / 2;
            let (was, is) = (s.quarters@[k], u.quarters@[k]);
            let (old, new) = (b.at(r, c), t.at(r, c));
            let (lower, right) = (k >= 2, k % 2 == 1);
            &&& is.count == was.count == h * h
            &&& if (r >= h) == lower && (c >= h) == right {
                &&& is.sum - was.sum == new - old
                &&& is.squares - was.squares == new * new - old * old
            } else {
                is == was
            }
        }),
{
    let h = b.rows as int / 2;
    let (r0, c0) = (
        if k >= 2 {
            h
        } else {
            0
        },
        if k % 2 == 1 {
            h
        } else {
            0
        },
    );
    activitylaw::law_a_cell_counts_its_samples(b, t, r, c, r0, c0, h, h);
    assert(k == 0 || k == 1 || k == 2 || k == 3);
}

} // verus!
