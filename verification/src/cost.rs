//! The sum of absolute transformed differences of two blocks.
use crate::arith;
use crate::refs;
use vstd::prelude::*;

verus! {

/// Term `u` of the four-point Hadamard transform.
pub open spec fn hadamard(u: int, f: spec_fn(int) -> int) -> int {
    if u == 0 {
        f(0) + f(1) + f(2) + f(3)
    } else if u == 1 {
        f(0) - f(1) + f(2) - f(3)
    } else if u == 2 {
        f(0) + f(1) - f(2) - f(3)
    } else {
        f(0) - f(1) - f(2) + f(3)
    }
}

/// Magnitude.
pub open spec fn abs(x: int) -> int {
    if x < 0 {
        -x
    } else {
        x
    }
}

/// Difference of the blocks at row `i` and column `j` of the 4x4 block at
/// `(by, bx)`.
pub open spec fn diff_at(
    orig: Seq<u16>,
    pred: Seq<u16>,
    n: int,
    by: int,
    bx: int,
    i: int,
    j: int,
) -> int {
    orig[(by + i) * n + (bx + j)] - pred[(by + i) * n + (bx + j)]
}

/// Term `v` of the transform of row `i` of a 4x4 block.
pub open spec fn row_term(
    orig: Seq<u16>,
    pred: Seq<u16>,
    n: int,
    by: int,
    bx: int,
    i: int,
    v: int,
) -> int {
    hadamard(v, |j: int| diff_at(orig, pred, n, by, bx, i, j))
}

/// Term `(u, v)` of the two-dimensional transform of a 4x4 block.
pub open spec fn term(
    orig: Seq<u16>,
    pred: Seq<u16>,
    n: int,
    by: int,
    bx: int,
    u: int,
    v: int,
) -> int {
    hadamard(u, |i: int| row_term(orig, pred, n, by, bx, i, v))
}

/// Half the magnitudes of the sixteen terms of a 4x4 block, rounded up.
pub open spec fn satd4(orig: Seq<u16>, pred: Seq<u16>, n: int, by: int, bx: int) -> int {
    (arith::sum(
        4,
        |v: int|
            abs(term(orig, pred, n, by, bx, 0, v)) + abs(term(orig, pred, n, by, bx, 1, v)) + abs(
                term(orig, pred, n, by, bx, 2, v),
            ) + abs(term(orig, pred, n, by, bx, 3, v)),
    ) + 1) / 2
}

/// Cost of the 4x4 block number `b` in raster order.
pub open spec fn satd_block(orig: Seq<u16>, pred: Seq<u16>, n: int, b: int) -> int {
    satd4(orig, pred, n, (b / (n / 4)) * 4, (b % (n / 4)) * 4)
}

/// The cost of an `n` by `n` block.
pub open spec fn satd_of(orig: Seq<u16>, pred: Seq<u16>, n: int) -> int {
    arith::sum((n / 4) * (n / 4), |b: int| satd_block(orig, pred, n, b))
}

fn hadamard4(a: i32, b: i32, c: i32, d: i32) -> (r: (i32, i32, i32, i32))
    requires
        -0x100_0000 <= a <= 0x100_0000,
        -0x100_0000 <= b <= 0x100_0000,
        -0x100_0000 <= c <= 0x100_0000,
        -0x100_0000 <= d <= 0x100_0000,
    ensures
        r.0 == a + b + c + d,
        r.1 == a - b + c - d,
        r.2 == a + b - c - d,
        r.3 == a - b - c + d,
{
    let a0: i32 = a + c;
    let a1: i32 = b + d;
    let a2: i32 = a - c;
    let a3: i32 = b - d;
    (a0 + a1, a0 - a1, a2 + a3, a2 - a3)
}

fn magnitude(x: i32) -> (r: u32)
    requires
        x > i32::MIN,
    ensures
        r == abs(x as int),
{
    if x < 0 {
        (-x) as u32
    } else {
        x as u32
    }
}

/// The four terms of row `i` of a 4x4 block.
fn row_terms(
    orig: &[u16],
    pred: &[u16],
    n: usize,
    by: usize,
    bx: usize,
    i: usize,
) -> (r: (i32, i32, i32, i32))
    requires
        4 <= n <= 32,
        by + 4 <= n,
        bx + 4 <= n,
        i < 4,
        orig@.len() >= n * n,
        pred@.len() >= n * n,
    ensures
        r.0 == row_term(orig@, pred@, n as int, by as int, bx as int, i as int, 0),
        r.1 == row_term(orig@, pred@, n as int, by as int, bx as int, i as int, 1),
        r.2 == row_term(orig@, pred@, n as int, by as int, bx as int, i as int, 2),
        r.3 == row_term(orig@, pred@, n as int, by as int, bx as int, i as int, 3),
        -262140 <= r.0 <= 262140,
        -262140 <= r.1 <= 262140,
        -262140 <= r.2 <= 262140,
        -262140 <= r.3 <= 262140,
{
    proof {
        refs::lemma_inside(by + i, bx as int, n as int, n as int);
        refs::lemma_inside(by + i, bx + 3, n as int, n as int);
        assert(n * n <= 1024) by (nonlinear_arith)
            requires
                n <= 32,
        ;
    }
    let p: usize = (by + i) * n + bx;
    hadamard4(
        orig[p] as i32 - pred[p] as i32,
        orig[p + 1] as i32 - pred[p + 1] as i32,
        orig[p + 2] as i32 - pred[p + 2] as i32,
        orig[p + 3] as i32 - pred[p + 3] as i32,
    )
}

/// The cost of the 4x4 block at `(by, bx)`.
fn satd_4x4(orig: &[u16], pred: &[u16], n: usize, by: usize, bx: usize) -> (r: u32)
    requires
        4 <= n <= 32,
        by + 4 <= n,
        bx + 4 <= n,
        orig@.len() >= n * n,
        pred@.len() >= n * n,
    ensures
        r == satd4(orig@, pred@, n as int, by as int, bx as int),
        0 <= r <= 8388480,
{
    let r0: (i32, i32, i32, i32) = row_terms(orig, pred, n, by, bx, 0);
    let r1: (i32, i32, i32, i32) = row_terms(orig, pred, n, by, bx, 1);
    let r2: (i32, i32, i32, i32) = row_terms(orig, pred, n, by, bx, 2);
    let r3: (i32, i32, i32, i32) = row_terms(orig, pred, n, by, bx, 3);
    let c0: u32 = column_cost(r0.0, r1.0, r2.0, r3.0);
    let c1: u32 = column_cost(r0.1, r1.1, r2.1, r3.1);
    let c2: u32 = column_cost(r0.2, r1.2, r2.2, r3.2);
    let c3: u32 = column_cost(r0.3, r1.3, r2.3, r3.3);
    proof {
        let f = |v: int|
            abs(term(orig@, pred@, n as int, by as int, bx as int, 0, v)) + abs(
                term(orig@, pred@, n as int, by as int, bx as int, 1, v),
            ) + abs(term(orig@, pred@, n as int, by as int, bx as int, 2, v)) + abs(
                term(orig@, pred@, n as int, by as int, bx as int, 3, v),
            );
        reveal_with_fuel(arith::sum, 5);
        assert(f(0) == c0 && f(1) == c1 && f(2) == c2 && f(3) == c3);
        assert(arith::sum(4, f) == c0 + c1 + c2 + c3);
    }
    (c0 + c1 + c2 + c3 + 1) / 2
}

/// Magnitudes of the four terms of a column.
fn column_cost(a: i32, b: i32, c: i32, d: i32) -> (r: u32)
    requires
        -262140 <= a <= 262140,
        -262140 <= b <= 262140,
        -262140 <= c <= 262140,
        -262140 <= d <= 262140,
    ensures
        r == abs(a + b + c + d) + abs(a - b + c - d) + abs(a + b - c - d) + abs(a - b - c + d),
        0 <= r <= 4194240,
{
    let (h0, h1, h2, h3): (i32, i32, i32, i32) = hadamard4(a, b, c, d);
    magnitude(h0) + magnitude(h1) + magnitude(h2) + magnitude(h3)
}

/// The cost of an `n` by `n` block of samples against its prediction.
pub fn satd_scalar(orig: &[u16], pred: &[u16], n: usize) -> (r: u32)
    requires
        n == 4 || n == 8 || n == 16 || n == 32,
        orig@.len() >= n * n,
        pred@.len() >= n * n,
    ensures
        r == satd_of(orig@, pred@, n as int),
{
    let nb: usize = n / 4;
    assert(nb * nb <= 64) by (nonlinear_arith)
        requires
            0 <= nb <= 8,
    ;
    let count: usize = nb * nb;
    let ghost f = |b: int| satd_block(orig@, pred@, n as int, b);
    let mut total: u32 = 0;
    for b in 0..count
        invariant
            n == 4 || n == 8 || n == 16 || n == 32,
            nb == n / 4,
            count == nb * nb,
            count <= 64,
            orig@.len() >= n * n,
            pred@.len() >= n * n,
            f == (|b: int| satd_block(orig@, pred@, n as int, b)),
            total == arith::sum(b as int, f),
            0 <= total <= 8388480 * b,
    {
        let (row, col): (usize, usize) = (b / nb, b % nb);
        assert(row < nb) by (nonlinear_arith)
            requires
                row == b / nb,
                b < nb * nb,
                0 < nb,
        ;
        let c: u32 = satd_4x4(orig, pred, n, row * 4, col * 4);
        assert(f(b as int) == c);
        total += c;
    }
    total
}

/// Equal blocks cost nothing.
pub proof fn law_equal_blocks_cost_nothing(orig: Seq<u16>, n: int)
    ensures
        satd_of(orig, orig, n) == 0,
{
    let f = |b: int| satd_block(orig, orig, n, b);
    assert forall|b: int| #[trigger] f(b) == 0 by {
        let (by, bx) = ((b / (n / 4)) * 4, (b % (n / 4)) * 4);
        let g = |v: int|
            abs(term(orig, orig, n, by, bx, 0, v)) + abs(term(orig, orig, n, by, bx, 1, v)) + abs(
                term(orig, orig, n, by, bx, 2, v),
            ) + abs(term(orig, orig, n, by, bx, 3, v));
        reveal_with_fuel(arith::sum, 5);
        assert(arith::sum(4, g) == 0);
    }
    lemma_zero_sum((n / 4) * (n / 4), f);
}

proof fn lemma_zero_sum(n: int, f: spec_fn(int) -> int)
    requires
        forall|k: int| #[trigger] f(k) == 0,
    ensures
        arith::sum(n, f) == 0,
    decreases n,
{
    if n > 0 {
        lemma_zero_sum(n - 1, f);
    }
}

/// The cost of a 4x4 block depends on the differences alone.
proof fn lemma_same_block(
    a: Seq<u16>,
    b: Seq<u16>,
    c: Seq<u16>,
    d: Seq<u16>,
    n: int,
    by: int,
    bx: int,
)
    requires
        forall|i: int, j: int|
            0 <= i < 4 && 0 <= j < 4 ==> #[trigger] diff_at(a, b, n, by, bx, i, j) == diff_at(
                c,
                d,
                n,
                by,
                bx,
                i,
                j,
            ),
    ensures
        satd4(a, b, n, by, bx) == satd4(c, d, n, by, bx),
{
    assert forall|i: int, v: int| 0 <= i < 4 implies #[trigger] row_term(a, b, n, by, bx, i, v)
        == row_term(c, d, n, by, bx, i, v) by {
        assert(diff_at(a, b, n, by, bx, i, 0) == diff_at(c, d, n, by, bx, i, 0));
        assert(diff_at(a, b, n, by, bx, i, 1) == diff_at(c, d, n, by, bx, i, 1));
        assert(diff_at(a, b, n, by, bx, i, 2) == diff_at(c, d, n, by, bx, i, 2));
        assert(diff_at(a, b, n, by, bx, i, 3) == diff_at(c, d, n, by, bx, i, 3));
    }
    assert forall|u: int, v: int| #[trigger] term(a, b, n, by, bx, u, v) == term(
        c,
        d,
        n,
        by,
        bx,
        u,
        v,
    ) by {
        assert(row_term(a, b, n, by, bx, 0, v) == row_term(c, d, n, by, bx, 0, v));
        assert(row_term(a, b, n, by, bx, 1, v) == row_term(c, d, n, by, bx, 1, v));
        assert(row_term(a, b, n, by, bx, 2, v) == row_term(c, d, n, by, bx, 2, v));
        assert(row_term(a, b, n, by, bx, 3, v) == row_term(c, d, n, by, bx, 3, v));
    }
    arith::lemma_sum_ext(
        4,
        |v: int|
            abs(term(a, b, n, by, bx, 0, v)) + abs(term(a, b, n, by, bx, 1, v)) + abs(
                term(a, b, n, by, bx, 2, v),
            ) + abs(term(a, b, n, by, bx, 3, v)),
        |v: int|
            abs(term(c, d, n, by, bx, 0, v)) + abs(term(c, d, n, by, bx, 1, v)) + abs(
                term(c, d, n, by, bx, 2, v),
            ) + abs(term(c, d, n, by, bx, 3, v)),
    );
}

/// Swapping the blocks turns the differences round and leaves their magnitudes.
proof fn lemma_swapped_block(a: Seq<u16>, b: Seq<u16>, n: int, by: int, bx: int)
    ensures
        satd4(a, b, n, by, bx) == satd4(b, a, n, by, bx),
{
    assert forall|i: int, v: int| #[trigger] row_term(a, b, n, by, bx, i, v) == -row_term(
        b,
        a,
        n,
        by,
        bx,
        i,
        v,
    ) by {}
    assert forall|u: int, v: int| #[trigger] term(a, b, n, by, bx, u, v) == -term(
        b,
        a,
        n,
        by,
        bx,
        u,
        v,
    ) by {
        assert(row_term(a, b, n, by, bx, 0, v) == -row_term(b, a, n, by, bx, 0, v));
        assert(row_term(a, b, n, by, bx, 1, v) == -row_term(b, a, n, by, bx, 1, v));
        assert(row_term(a, b, n, by, bx, 2, v) == -row_term(b, a, n, by, bx, 2, v));
        assert(row_term(a, b, n, by, bx, 3, v) == -row_term(b, a, n, by, bx, 3, v));
    }
    arith::lemma_sum_ext(
        4,
        |v: int|
            abs(term(a, b, n, by, bx, 0, v)) + abs(term(a, b, n, by, bx, 1, v)) + abs(
                term(a, b, n, by, bx, 2, v),
            ) + abs(term(a, b, n, by, bx, 3, v)),
        |v: int|
            abs(term(b, a, n, by, bx, 0, v)) + abs(term(b, a, n, by, bx, 1, v)) + abs(
                term(b, a, n, by, bx, 2, v),
            ) + abs(term(b, a, n, by, bx, 3, v)),
    );
}

/// Two blocks cost the same either way round.
pub proof fn law_cost_is_symmetric(a: Seq<u16>, b: Seq<u16>, n: int)
    ensures
        satd_of(a, b, n) == satd_of(b, a, n),
{
    let (f, g) = (|k: int| satd_block(a, b, n, k), |k: int| satd_block(b, a, n, k));
    assert forall|k: int| #[trigger] f(k) == g(k) by {
        lemma_swapped_block(a, b, n, (k / (n / 4)) * 4, (k % (n / 4)) * 4);
    }
    arith::lemma_sum_ext((n / 4) * (n / 4), f, g);
}

/// A 4x4 block costs something, or has no differences.
proof fn lemma_free_block(a: Seq<u16>, b: Seq<u16>, n: int, by: int, bx: int, i: int, j: int)
    requires
        satd4(a, b, n, by, bx) == 0,
        0 <= i < 4,
        0 <= j < 4,
    ensures
        diff_at(a, b, n, by, bx, i, j) == 0,
{
    let g = |v: int|
        abs(term(a, b, n, by, bx, 0, v)) + abs(term(a, b, n, by, bx, 1, v)) + abs(
            term(a, b, n, by, bx, 2, v),
        ) + abs(term(a, b, n, by, bx, 3, v));
    reveal_with_fuel(arith::sum, 5);
    assert(arith::sum(4, g) == g(0) + g(1) + g(2) + g(3));
    assert(g(0) >= 0 && g(1) >= 0 && g(2) >= 0 && g(3) >= 0);
    assert(g(0) == 0 && g(1) == 0 && g(2) == 0 && g(3) == 0);
    assert forall|v: int| 0 <= v < 4 implies #[trigger] row_term(a, b, n, by, bx, i, v) == 0 by {
        assert(g(v) == 0);
        assert(term(a, b, n, by, bx, 0, v) == 0);
        assert(term(a, b, n, by, bx, 1, v) == 0);
        assert(term(a, b, n, by, bx, 2, v) == 0);
        assert(term(a, b, n, by, bx, 3, v) == 0);
    }
    assert(row_term(a, b, n, by, bx, i, 0) == 0);
    assert(row_term(a, b, n, by, bx, i, 1) == 0);
    assert(row_term(a, b, n, by, bx, i, 2) == 0);
    assert(row_term(a, b, n, by, bx, i, 3) == 0);
}

/// Where a place of an `n` by `n` block lies among its 4x4 blocks.
proof fn lemma_block_of(n: int, x: int)
    requires
        n == 4 || n == 8 || n == 16 || n == 32,
        0 <= x < n * n,
    ensures
        ({
            let m = n / 4;
            let (r, c) = (x / n, x % n);
            let k = (r / 4) * m + c / 4;
            &&& 0 <= k < m * m
            &&& k / m == r / 4
            &&& k % m == c / 4
            &&& x == ((r / 4) * 4 + r % 4) * n + ((c / 4) * 4 + c % 4)
        }),
{
    let m = n / 4;
    let (r, c) = (x / n, x % n);
    assert(0 <= r < n && 0 <= c < n && x == r * n + c) by (nonlinear_arith)
        requires
            0 < n,
            0 <= x < n * n,
            r == x / n,
            c == x % n,
    ;
    let (q, p) = (r / 4, c / 4);
    assert(0 <= q < m && 0 <= p < m);
    let k = q * m + p;
    vstd::arithmetic::div_mod::lemma_fundamental_div_mod_converse(k, m, q, p);
    assert(0 <= k < m * m) by (nonlinear_arith)
        requires
            0 <= q < m,
            0 <= p < m,
            k == q * m + p,
    ;
    assert((r / 4) * 4 + r % 4 == r && (c / 4) * 4 + c % 4 == c);
}

/// The places of a 4x4 block lie inside the block.
proof fn lemma_block_inside(n: int, k: int, i: int, j: int)
    requires
        n == 4 || n == 8 || n == 16 || n == 32,
        0 <= k < (n / 4) * (n / 4),
        0 <= i < 4,
        0 <= j < 4,
    ensures
        0 <= ((k / (n / 4)) * 4 + i) * n + ((k % (n / 4)) * 4 + j) < n * n,
{
    let m = n / 4;
    assert(0 <= k / m < m && 0 <= k % m < m) by (nonlinear_arith)
        requires
            0 < m,
            0 <= k < m * m,
    ;
    let (r, c) = ((k / m) * 4 + i, (k % m) * 4 + j);
    assert(0 <= r < n && 0 <= c < n);
    refs::lemma_inside(r, c, n, n);
}

/// A sum of numbers that are not negative is at least each of them.
proof fn lemma_sum_at_least(n: int, f: spec_fn(int) -> int, k: int)
    requires
        0 <= k < n,
        forall|i: int| 0 <= i < n ==> #[trigger] f(i) >= 0,
    ensures
        arith::sum(n, f) >= f(k),
    decreases n,
{
    if k < n - 1 {
        lemma_sum_at_least(n - 1, f, k);
    } else {
        lemma_sum_not_negative(n - 1, f);
    }
}

proof fn lemma_sum_not_negative(n: int, f: spec_fn(int) -> int)
    requires
        forall|i: int| 0 <= i < n ==> #[trigger] f(i) >= 0,
    ensures
        arith::sum(n, f) >= 0,
    decreases n,
{
    if n > 0 {
        lemma_sum_not_negative(n - 1, f);
    }
}

pub proof fn lemma_block_not_negative(a: Seq<u16>, b: Seq<u16>, n: int, by: int, bx: int)
    ensures
        satd4(a, b, n, by, bx) >= 0,
{
    lemma_sum_not_negative(
        4,
        |v: int|
            abs(term(a, b, n, by, bx, 0, v)) + abs(term(a, b, n, by, bx, 1, v)) + abs(
                term(a, b, n, by, bx, 2, v),
            ) + abs(term(a, b, n, by, bx, 3, v)),
    );
}

/// The cost depends on the first `n * n` samples alone.
pub proof fn law_cost_reads_the_block(
    a: Seq<u16>,
    b: Seq<u16>,
    c: Seq<u16>,
    d: Seq<u16>,
    n: int,
)
    requires
        n == 4 || n == 8 || n == 16 || n == 32,
        forall|x: int| 0 <= x < n * n ==> #[trigger] a[x] == c[x],
        forall|x: int| 0 <= x < n * n ==> #[trigger] b[x] == d[x],
    ensures
        satd_of(a, b, n) == satd_of(c, d, n),
{
    let (f, g) = (|k: int| satd_block(a, b, n, k), |k: int| satd_block(c, d, n, k));
    let m = n / 4;
    assert forall|k: int| 0 <= k < m * m implies #[trigger] f(k) == g(k) by {
        let (by, bx) = ((k / m) * 4, (k % m) * 4);
        assert forall|i: int, j: int| 0 <= i < 4 && 0 <= j < 4 implies #[trigger] diff_at(
            a,
            b,
            n,
            by,
            bx,
            i,
            j,
        ) == diff_at(c, d, n, by, bx, i, j) by {
            lemma_block_inside(n, k, i, j);
            let x = (by + i) * n + (bx + j);
            assert(a[x] == c[x] && b[x] == d[x]);
        }
        lemma_same_block(a, b, c, d, n, by, bx);
    }
    arith::lemma_sum_ext(m * m, f, g);
}

/// Blocks cost nothing exactly where they are equal.
pub proof fn law_only_equal_blocks_cost_nothing(a: Seq<u16>, b: Seq<u16>, n: int)
    requires
        n == 4 || n == 8 || n == 16 || n == 32,
    ensures
        satd_of(a, b, n) == 0 <==> forall|x: int| 0 <= x < n * n ==> #[trigger] a[x] == b[x],
{
    let m = n / 4;
    let f = |k: int| satd_block(a, b, n, k);
    if forall|x: int| 0 <= x < n * n ==> #[trigger] a[x] == b[x] {
        law_cost_reads_the_block(a, b, a, a, n);
        law_equal_blocks_cost_nothing(a, n);
    }
    if satd_of(a, b, n) == 0 {
        assert forall|x: int| 0 <= x < n * n implies #[trigger] a[x] == b[x] by {
            let (r, c) = (x / n, x % n);
            lemma_block_of(n, x);
            let k = (r / 4) * m + c / 4;
            assert forall|i: int| 0 <= i < m * m implies #[trigger] f(i) >= 0 by {
                lemma_block_not_negative(a, b, n, (i / m) * 4, (i % m) * 4);
            }
            lemma_sum_at_least(m * m, f, k);
            assert(f(k) == 0);
            lemma_free_block(a, b, n, (k / m) * 4, (k % m) * 4, r % 4, c % 4);
        }
    }
}

} // verus!
