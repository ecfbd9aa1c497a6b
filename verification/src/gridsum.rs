//! Sums and sums over grids: what changes them, when they are nothing, and in which order
//! their terms come.
use crate::activity;
use crate::arith;
use vstd::prelude::*;

verus! {

/// A sum of terms of which one changes.
pub proof fn lemma_sum_change(n: int, f: spec_fn(int) -> int, g: spec_fn(int) -> int, k: int)
    requires
        0 <= k < n,
        forall|i: int| 0 <= i < n && i != k ==> #[trigger] f(i) == g(i),
    ensures
        arith::sum(n, g) - arith::sum(n, f) == g(k) - f(k),
    decreases n,
{
    if n - 1 == k {
        arith::lemma_sum_ext(n - 1, f, g);
    } else {
        lemma_sum_change(n - 1, f, g, k);
        assert(f(n - 1) == g(n - 1));
    }
}

/// A sum over a grid of which one term changes.
pub proof fn lemma_grid_change(
    rows: int,
    cols: int,
    f: spec_fn(int, int) -> int,
    g: spec_fn(int, int) -> int,
    r: int,
    c: int,
)
    requires
        0 <= r < rows,
        0 <= c < cols,
        forall|i: int, j: int|
            0 <= i < rows && 0 <= j < cols && (i != r || j != c) ==> #[trigger] f(i, j) == g(i, j),
    ensures
        activity::grid(rows, cols, g) - activity::grid(rows, cols, f) == g(r, c) - f(r, c),
{
    let p = |i: int| arith::sum(cols, |j: int| f(i, j));
    let q = |i: int| arith::sum(cols, |j: int| g(i, j));
    assert forall|i: int| 0 <= i < rows && i != r implies #[trigger] p(i) == q(i) by {
        arith::lemma_sum_ext(cols, |j: int| f(i, j), |j: int| g(i, j));
    }
    lemma_sum_change(rows, p, q, r);
    lemma_sum_change(cols, |j: int| f(r, j), |j: int| g(r, j), c);
}

/// A sum over a grid none of whose terms changes.
pub proof fn lemma_grid_same(
    rows: int,
    cols: int,
    f: spec_fn(int, int) -> int,
    g: spec_fn(int, int) -> int,
)
    requires
        forall|i: int, j: int| 0 <= i < rows && 0 <= j < cols ==> #[trigger] f(i, j) == g(i, j),
    ensures
        activity::grid(rows, cols, g) == activity::grid(rows, cols, f),
{
    let p = |i: int| arith::sum(cols, |j: int| f(i, j));
    let q = |i: int| arith::sum(cols, |j: int| g(i, j));
    assert forall|i: int| 0 <= i < rows implies #[trigger] p(i) == q(i) by {
        arith::lemma_sum_ext(cols, |j: int| f(i, j), |j: int| g(i, j));
    }
    arith::lemma_sum_ext(rows, p, q);
}

/// A sum of terms that are not negative is not negative, and nothing only where all are.
pub proof fn lemma_sum_none(n: int, f: spec_fn(int) -> int)
    requires
        forall|i: int| 0 <= i < n ==> #[trigger] f(i) >= 0,
    ensures
        arith::sum(n, f) >= 0,
        arith::sum(n, f) == 0 <==> forall|i: int| 0 <= i < n ==> #[trigger] f(i) == 0,
    decreases n,
{
    if n > 0 {
        lemma_sum_none(n - 1, f);
        assert(f(n - 1) >= 0);
        if arith::sum(n, f) == 0 {
            assert forall|i: int| 0 <= i < n implies #[trigger] f(i) == 0 by {
                if i < n - 1 {
                    assert(f(i) == 0);
                }
            }
        }
    }
}

/// The same over a grid.
pub proof fn lemma_grid_none(rows: int, cols: int, f: spec_fn(int, int) -> int)
    requires
        forall|i: int, j: int| 0 <= i < rows && 0 <= j < cols ==> #[trigger] f(i, j) >= 0,
    ensures
        activity::grid(rows, cols, f) >= 0,
        activity::grid(rows, cols, f) == 0 <==> forall|i: int, j: int|
            0 <= i < rows && 0 <= j < cols ==> #[trigger] f(i, j) == 0,
{
    let p = |i: int| arith::sum(cols, |j: int| f(i, j));
    assert forall|i: int| 0 <= i < rows implies #[trigger] p(i) >= 0 && (p(i) == 0 <==> forall|
        j: int,
    |
        0 <= j < cols ==> #[trigger] f(i, j) == 0) by {
        let q = |j: int| f(i, j);
        lemma_sum_none(cols, q);
        if p(i) == 0 {
            assert forall|j: int| 0 <= j < cols implies #[trigger] f(i, j) == 0 by {
                assert(q(j) == 0);
            }
        }
        if forall|j: int| 0 <= j < cols ==> #[trigger] f(i, j) == 0 {
            assert forall|j: int| 0 <= j < cols implies #[trigger] q(j) == 0 by {
                assert(f(i, j) == 0);
            }
        }
    }
    lemma_sum_none(rows, p);
    if activity::grid(rows, cols, f) == 0 {
        assert forall|i: int, j: int| 0 <= i < rows && 0 <= j < cols implies #[trigger] f(i, j)
            == 0 by {
            assert(p(i) == 0);
        }
    }
    if forall|i: int, j: int| 0 <= i < rows && 0 <= j < cols ==> #[trigger] f(i, j) == 0 {
        assert forall|i: int| 0 <= i < rows implies #[trigger] p(i) == 0 by {
            assert forall|j: int| 0 <= j < cols implies #[trigger] f(i, j) == 0 by {}
        }
    }
}

/// A sum of sums, term by term.
pub proof fn lemma_sum_add(n: int, f: spec_fn(int) -> int, g: spec_fn(int) -> int)
    ensures
        arith::sum(n, |i: int| f(i) + g(i)) == arith::sum(n, f) + arith::sum(n, g),
    decreases n,
{
    if n > 0 {
        lemma_sum_add(n - 1, f, g);
    }
}

/// A sum of differences of neighbours is that of the ends.
pub proof fn lemma_sum_steps(n: int, f: spec_fn(int) -> int)
    requires
        0 < n,
    ensures
        arith::sum(
            n,
            |i: int|
                if i == 0 {
                    0
                } else {
                    f(i) - f(i - 1)
                },
        ) == f(n - 1) - f(0),
    decreases n,
{
    reveal_with_fuel(arith::sum, 2);
    if n > 1 {
        lemma_sum_steps(n - 1, f);
    }
}

/// A grid sums to the same by rows and by columns.
pub proof fn lemma_grid_turned(rows: int, cols: int, g: spec_fn(int, int) -> int)
    ensures
        activity::grid(rows, cols, g) == activity::grid(cols, rows, |r: int, c: int| g(c, r)),
    decreases rows,
{
    let t = |r: int, c: int| g(c, r);
    let by_column = |r: int| arith::sum(rows, |c: int| t(r, c));
    if rows <= 0 {
        if cols > 0 {
            arith::lemma_sum_constant(cols, by_column, 0);
            assert(0 * cols == 0);
        }
    } else {
        lemma_grid_turned(rows - 1, cols, g);
        let shorter = |r: int| arith::sum(rows - 1, |c: int| t(r, c));
        let last = |r: int| g(rows - 1, r);
        lemma_sum_add(cols, shorter, last);
        let both = |i: int| shorter(i) + last(i);
        assert forall|i: int| 0 <= i < cols implies #[trigger] by_column(i) == both(i) by {
            let row = |c: int| t(i, c);
            assert(arith::sum(rows, row) == arith::sum(rows - 1, row) + row(rows - 1));
        }
        arith::lemma_sum_ext(cols, by_column, both);
        arith::lemma_sum_ext(cols, last, |c: int| g(rows - 1, c));
    }
}

/// A sum whose terms are all multiplied by one factor.
pub proof fn lemma_sum_times(n: int, f: spec_fn(int) -> int, g: spec_fn(int) -> int, factor: int)
    requires
        forall|i: int| 0 <= i < n ==> #[trigger] g(i) == f(i) * factor,
    ensures
        arith::sum(n, g) == arith::sum(n, f) * factor,
    decreases n,
{
    if n > 0 {
        lemma_sum_times(n - 1, f, g, factor);
        let (a, b) = (arith::sum(n - 1, f), f(n - 1));
        assert(g(n - 1) == b * factor);
        assert((a + b) * factor == a * factor + b * factor) by (nonlinear_arith);
    } else {
        assert(0 * factor == 0);
    }
}

/// The same over a grid.
pub proof fn lemma_grid_times(
    rows: int,
    cols: int,
    f: spec_fn(int, int) -> int,
    g: spec_fn(int, int) -> int,
    factor: int,
)
    requires
        forall|i: int, j: int|
            0 <= i < rows && 0 <= j < cols ==> #[trigger] g(i, j) == f(i, j) * factor,
    ensures
        activity::grid(rows, cols, g) == activity::grid(rows, cols, f) * factor,
{
    let p = |i: int| arith::sum(cols, |j: int| f(i, j));
    let q = |i: int| arith::sum(cols, |j: int| g(i, j));
    assert forall|i: int| 0 <= i < rows implies #[trigger] q(i) == p(i) * factor by {
        lemma_sum_times(cols, |j: int| f(i, j), |j: int| g(i, j), factor);
    }
    lemma_sum_times(rows, p, q, factor);
}

} // verus!
