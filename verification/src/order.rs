//! Coding order by blocks of four samples a side.
use crate::refs;
use vstd::prelude::*;

verus! {

/// The place in coding order of the 4x4 block that holds luma sample `(r, c)` of a
/// picture that is `cx` coding tree units wide.
pub open spec fn time(r: int, c: int, cx: int) -> int {
    refs::order_of(r, c, 4, 64, cx)
}

/// `k` times the number of 4x4 blocks in a square of side `n`.
pub open spec fn areas(k: int, n: int) -> int {
    if n == 4 {
        k
    } else if n == 8 {
        4 * k
    } else if n == 16 {
        16 * k
    } else if n == 32 {
        64 * k
    } else {
        256 * k
    }
}

/// How many 4x4 blocks a square of side `n` has.
pub open spec fn area(n: int) -> int {
    areas(1, n)
}

/// A side that coding order is counted by.
pub open spec fn is_side(n: int) -> bool {
    n == 4 || n == 8 || n == 16 || n == 32 || n == 64
}

/// Division by a side, with the side written out.
pub proof fn lemma_by(a: int, n: int)
    requires
        is_side(n),
    ensures
        n == 4 ==> a / n == a / 4 && a % n == a % 4,
        n == 8 ==> a / n == a / 8 && a % n == a % 8,
        n == 16 ==> a / n == a / 16 && a % n == a % 16,
        n == 32 ==> a / n == a / 32 && a % n == a % 32,
        n == 64 ==> a / n == a / 64 && a % n == a % 64,
{
}

/// What is aligned to a side is aligned to a smaller one, and so is the place one
/// such side on.
pub proof fn lemma_finer(x: int, big: int, small: int)
    requires
        is_side(big),
        is_side(small),
        small <= big,
        x % big == 0,
    ensures
        x % small == 0,
        (x + small) % small == 0,
{
    lemma_by(x, big);
    lemma_by(x, small);
    lemma_by(x + small, small);
    if small == 4 {
        assert(x % 4 == 0);
    } else if small == 8 {
        assert(x % 8 == 0);
    } else if small == 16 {
        assert(x % 16 == 0);
    } else if small == 32 {
        assert(x % 32 == 0);
    }
}

/// Where a sample lies in its coding tree unit, by squares.
proof fn lemma_axis(r: int)
    requires
        0 <= r,
    ensures
        r / 64 == (r / 4) / 16 && (r % 64) / 4 == (r / 4) % 16,
        r / 64 == (r / 8) / 8 && (r % 64) / 8 == (r / 8) % 8,
        r / 64 == (r / 16) / 4 && (r % 64) / 16 == (r / 16) % 4,
        r / 64 == (r / 32) / 2 && (r % 64) / 32 == (r / 32) % 2,
        (r % 64) / 64 == 0,
{
}

/// The order by squares of a side that is written out.
proof fn lemma_order_by(r: int, c: int, n: int, cx: int)
    requires
        is_side(n),
    ensures
        ({
            let o = refs::order_of(r, c, n, 64, cx);
            let u = (r / 64) * cx + c / 64;
            let (a, b) = (r % 64, c % 64);
            &&& n == 4 ==> o == u * 256 + refs::z_order(a / 4, b / 4, 16)
            &&& n == 8 ==> o == u * 64 + refs::z_order(a / 8, b / 8, 8)
            &&& n == 16 ==> o == u * 16 + refs::z_order(a / 16, b / 16, 4)
            &&& n == 32 ==> o == u * 4 + refs::z_order(a / 32, b / 32, 2)
            &&& n == 64 ==> o == u + refs::z_order(a / 64, b / 64, 1)
        }),
{
    lemma_by(r % 64, n);
    lemma_by(c % 64, n);
    lemma_by(64, n);
    let u = (r / 64) * cx + c / 64;
    let g: int = 64int / n;
    assert((g == 16 ==> u * (g * g) == u * 256) && (g == 8 ==> u * (g * g) == u * 64) && (g == 4
        ==> u * (g * g) == u * 16) && (g == 2 ==> u * (g * g) == u * 4) && (g == 1 ==> u * (g * g)
        == u)) by (nonlinear_arith);
}

/// Counted by blocks of twice the side, the order is a quarter.
proof fn lemma_coarser(r: int, c: int, n: int, cx: int)
    requires
        0 <= r,
        0 <= c,
        n == 4 || n == 8 || n == 16 || n == 32,
    ensures
        refs::order_of(r, c, n, 64, cx) == 4 * refs::order_of(r, c, 2 * n, 64, cx) + ((c % 64) / n)
            % 2 + 2 * (((r % 64) / n) % 2),
{
    let (a, b) = (r % 64, c % 64);
    lemma_order_by(r, c, n, cx);
    lemma_order_by(r, c, 2 * n, cx);
    lemma_by(a, n);
    lemma_by(b, n);
    if n == 4 {
        assert((a / 4) / 2 == a / 8 && (b / 4) / 2 == b / 8);
    } else if n == 8 {
        assert((a / 8) / 2 == a / 16 && (b / 8) / 2 == b / 16);
    } else if n == 16 {
        assert((a / 16) / 2 == a / 32 && (b / 16) / 2 == b / 32);
    } else {
        assert((a / 32) / 2 == a / 64 && (b / 32) / 2 == b / 64);
    }
}

/// The order by squares of side `n`, and the place inside the square.
pub proof fn lemma_parts(r: int, c: int, n: int, cx: int)
    requires
        0 <= r,
        0 <= c,
        is_side(n),
    ensures
        ({
            let o = refs::order_of(r, c, n, 64, cx);
            &&& areas(o, n) <= time(r, c, cx) < areas(o, n) + area(n)
            &&& r % n == 0 && c % n == 0 ==> time(r, c, cx) == areas(o, n)
        }),
{
    lemma_coarser(r, c, 4, cx);
    lemma_coarser(r, c, 8, cx);
    lemma_coarser(r, c, 16, cx);
    lemma_coarser(r, c, 32, cx);
    lemma_by(r, n);
    lemma_by(c, n);
}

/// What comes before a block by one count comes before it by the finest.
pub proof fn lemma_before(r: int, c: int, row: int, col: int, n: int, cx: int)
    requires
        0 <= r,
        0 <= c,
        0 <= row,
        0 <= col,
        is_side(n),
        refs::order_of(r, c, n, 64, cx) < refs::order_of(row, col, n, 64, cx),
    ensures
        time(r, c, cx) < time(row, col, cx),
{
    lemma_parts(r, c, n, cx);
    lemma_parts(row, col, n, cx);
}

/// Samples of one square of side `n` have the same order by squares of that side.
proof fn lemma_inside_square(r: int, c: int, row: int, col: int, n: int, cx: int)
    requires
        0 <= row <= r < row + n,
        0 <= col <= c < col + n,
        is_side(n),
        row % n == 0,
        col % n == 0,
    ensures
        refs::order_of(r, c, n, 64, cx) == refs::order_of(row, col, n, 64, cx),
{
    lemma_order_by(r, c, n, cx);
    lemma_order_by(row, col, n, cx);
    lemma_axis(r);
    lemma_axis(c);
    lemma_axis(row);
    lemma_axis(col);
    lemma_cell(r, row, n);
    lemma_cell(c, col, n);
}

/// Samples from an aligned place on are in the same square.
proof fn lemma_cell(r: int, row: int, n: int)
    requires
        0 <= row <= r < row + n,
        is_side(n),
        row % n == 0,
    ensures
        n == 4 ==> r / 4 == row / 4,
        n == 8 ==> r / 8 == row / 8,
        n == 16 ==> r / 16 == row / 16,
        n == 32 ==> r / 32 == row / 32,
        n == 64 ==> r / 64 == row / 64,
{
    lemma_by(row, n);
}

/// Half a square on, the square of half the side is odd.
proof fn lemma_half(row: int, h: int, d: int)
    requires
        0 <= row,
        h == 4 || h == 8 || h == 16 || h == 32,
        row % (2 * h) == 0,
        d == 0 || d == 1,
    ensures
        ({
            let r = row + (if d == 1 {
                h
            } else {
                0
            });
            &&& ((r % 64) / h) % 2 == d
            &&& r % h == 0
            &&& row <= r < row + 2 * h
        }),
{
    let r = row + (if d == 1 {
        h
    } else {
        0
    });
    lemma_by(row, 2 * h);
    lemma_by(r, h);
    lemma_by(r % 64, h);
    lemma_axis(r);
    if h == 4 {
        assert(r / 4 == 2 * (row / 8) + d);
    } else if h == 8 {
        assert(r / 8 == 2 * (row / 16) + d);
    } else if h == 16 {
        assert(r / 16 == 2 * (row / 32) + d);
    } else {
        assert(r / 32 == 2 * (row / 64) + d);
    }
}

/// The quarters of a square come one after another.
pub proof fn lemma_quarter(row: int, col: int, h: int, dy: int, dx: int, cx: int)
    requires
        0 <= row,
        0 <= col,
        h == 4 || h == 8 || h == 16 || h == 32,
        row % (2 * h) == 0,
        col % (2 * h) == 0,
        dy == 0 || dy == 1,
        dx == 0 || dx == 1,
    ensures
        time(
            row + (if dy == 1 {
                h
            } else {
                0
            }),
            col + (if dx == 1 {
                h
            } else {
                0
            }),
            cx,
        ) == time(row, col, cx) + areas(2 * dy + dx, h),
{
    let r = row + (if dy == 1 {
        h
    } else {
        0
    });
    let c = col + (if dx == 1 {
        h
    } else {
        0
    });
    lemma_half(row, h, dy);
    lemma_half(col, h, dx);
    lemma_half(row, h, 0);
    lemma_half(col, h, 0);
    lemma_inside_square(r, c, row, col, 2 * h, cx);
    lemma_coarser(r, c, h, cx);
    lemma_coarser(row, col, h, cx);
    lemma_parts(r, c, h, cx);
    lemma_parts(row, col, h, cx);
}

/// Nested Z order tells squares apart.
proof fn lemma_z_injective(a: int, b: int, c: int, d: int, grid: int)
    requires
        grid == 1 || grid == 2 || grid == 4 || grid == 8 || grid == 16,
        0 <= a < grid,
        0 <= b < grid,
        0 <= c < grid,
        0 <= d < grid,
        refs::z_order(a, b, grid) == refs::z_order(c, d, grid),
    ensures
        a == c,
        b == d,
    decreases grid,
{
    if grid > 1 {
        lemma_z_injective(a / 2, b / 2, c / 2, d / 2, grid / 2);
    }
}

proof fn lemma_z_range(a: int, b: int, grid: int)
    requires
        grid == 1 || grid == 2 || grid == 4 || grid == 8 || grid == 16,
        0 <= a,
        0 <= b,
    ensures
        0 <= refs::z_order(a, b, grid),
        grid == 16 ==> refs::z_order(a, b, grid) < 256,
        grid == 8 ==> refs::z_order(a, b, grid) < 64,
        grid == 4 ==> refs::z_order(a, b, grid) < 16,
        grid == 2 ==> refs::z_order(a, b, grid) < 4,
        grid == 1 ==> refs::z_order(a, b, grid) < 1,
    decreases grid,
{
    if grid > 1 {
        lemma_z_range(a / 2, b / 2, grid / 2);
    }
}

/// Squares of one side that have the same order are the same.
pub proof fn lemma_same_square(r: int, c: int, row: int, col: int, n: int, cx: int)
    requires
        0 <= r,
        0 <= c < 64 * cx,
        0 <= row,
        0 <= col < 64 * cx,
        is_side(n),
        refs::order_of(r, c, n, 64, cx) == refs::order_of(row, col, n, 64, cx),
    ensures
        r / n == row / n,
        c / n == col / n,
{
    let (u, v) = ((r / 64) * cx + c / 64, (row / 64) * cx + col / 64);
    let (a, b, p, q) = (r % 64, c % 64, row % 64, col % 64);
    lemma_order_by(r, c, n, cx);
    lemma_order_by(row, col, n, cx);
    if n == 4 {
        lemma_apart(u, a / 4, b / 4, v, p / 4, q / 4, 16);
    } else if n == 8 {
        lemma_apart(u, a / 8, b / 8, v, p / 8, q / 8, 8);
    } else if n == 16 {
        lemma_apart(u, a / 16, b / 16, v, p / 16, q / 16, 4);
    } else if n == 32 {
        lemma_apart(u, a / 32, b / 32, v, p / 32, q / 32, 2);
    } else {
        lemma_apart(u, a / 64, b / 64, v, p / 64, q / 64, 1);
    }
    vstd::arithmetic::div_mod::lemma_fundamental_div_mod_converse(u, cx, r / 64, c / 64);
    vstd::arithmetic::div_mod::lemma_fundamental_div_mod_converse(v, cx, row / 64, col / 64);
    assert(r / 64 == row / 64 && c / 64 == col / 64);
    lemma_joined(r, row, n);
    lemma_joined(c, col, n);
}

/// Orders that are equal have equal parts.
proof fn lemma_apart(u: int, a: int, b: int, v: int, p: int, q: int, g: int)
    requires
        g == 1 || g == 2 || g == 4 || g == 8 || g == 16,
        0 <= a < g,
        0 <= b < g,
        0 <= p < g,
        0 <= q < g,
        ({
            let (z, y) = (refs::z_order(a, b, g), refs::z_order(p, q, g));
            &&& g == 16 ==> u * 256 + z == v * 256 + y
            &&& g == 8 ==> u * 64 + z == v * 64 + y
            &&& g == 4 ==> u * 16 + z == v * 16 + y
            &&& g == 2 ==> u * 4 + z == v * 4 + y
            &&& g == 1 ==> u + z == v + y
        }),
    ensures
        u == v,
        a == p,
        b == q,
{
    lemma_z_range(a, b, g);
    lemma_z_range(p, q, g);
    assert(refs::z_order(a, b, g) == refs::z_order(p, q, g));
    lemma_z_injective(a, b, p, q, g);
}

/// The unit and the place in it give the square.
proof fn lemma_joined(r: int, row: int, n: int)
    requires
        0 <= r,
        0 <= row,
        is_side(n),
        r / 64 == row / 64,
        n == 4 ==> (r % 64) / 4 == (row % 64) / 4,
        n == 8 ==> (r % 64) / 8 == (row % 64) / 8,
        n == 16 ==> (r % 64) / 16 == (row % 64) / 16,
        n == 32 ==> (r % 64) / 32 == (row % 64) / 32,
    ensures
        r / n == row / n,
{
    lemma_by(r, n);
    lemma_by(row, n);
    lemma_axis(r);
    lemma_axis(row);
}

/// The samples of a square are those whose time falls into its stretch.
pub proof fn lemma_square(r: int, c: int, row: int, col: int, n: int, cx: int)
    requires
        0 <= r,
        0 <= c < 64 * cx,
        0 <= row,
        0 <= col < 64 * cx,
        is_side(n),
        row % n == 0,
        col % n == 0,
    ensures
        (time(row, col, cx) <= time(r, c, cx) < time(row, col, cx) + area(n)) == (row <= r < row + n
            && col <= c < col + n),
{
    lemma_parts(r, c, n, cx);
    lemma_parts(row, col, n, cx);
    lemma_by(r, n);
    lemma_by(c, n);
    lemma_by(row, n);
    lemma_by(col, n);
    if row <= r < row + n && col <= c < col + n {
        lemma_inside_square(r, c, row, col, n, cx);
    }
    if time(row, col, cx) <= time(r, c, cx) < time(row, col, cx) + area(n) {
        lemma_same_square(r, c, row, col, n, cx);
    }
}

/// All times of a picture of `h` rows lie in its stretch.
pub proof fn lemma_time_range(r: int, c: int, cx: int, h: int)
    requires
        0 <= r < h,
        h % 64 == 0,
        0 <= c < 64 * cx,
    ensures
        0 <= time(r, c, cx) < 256 * (cx * (h / 64)),
{
    lemma_order_by(r, c, 4, cx);
    lemma_z_range((r % 64) / 4, (c % 64) / 4, 16);
    let (a, b, g) = (r / 64, c / 64, h / 64);
    assert(0 <= a * cx + b && a * cx + b + 1 <= cx * g) by (nonlinear_arith)
        requires
            0 <= a < g,
            0 <= b < cx,
    ;
}

/// The time of coding tree unit `k`.
pub proof fn lemma_unit_time(k: int, cx: int)
    requires
        0 <= k,
        0 < cx,
    ensures
        time((k / cx) * 64, (k % cx) * 64, cx) == 256 * k,
{
    let (r, c) = ((k / cx) * 64, (k % cx) * 64);
    lemma_order_by(r, c, 4, cx);
    assert(0 <= k % cx && (k / cx) * cx + k % cx == k) by (nonlinear_arith)
        requires
            0 <= k,
            0 < cx,
    ;
    assert(r / 64 == k / cx && c / 64 == k % cx && r % 64 == 0 && c % 64 == 0);
    lemma_z_zero();
}

proof fn lemma_z_zero()
    ensures
        refs::z_order(0, 0, 16) == 0,
{
    reveal_with_fuel(refs::z_order, 6);
}

} // verus!
