//! Sums in single precision, on integers: a number has twenty-four significant bits,
//! and a sum is the number that is next to it, the even one of two.
use vstd::arithmetic::power2::*;
use vstd::prelude::*;

verus! {

/// Numbers are counted in steps of two to the power of -30.
pub const ONE: u64 = 0x4000_0000;

/// No sum of rates comes to more than this.
pub const MOST: u64 = 0x400_0000_0000_0000;

/// How far apart the numbers of twenty-four significant bits are at `x`.
pub open spec fn ulp(x: int) -> int
    decreases x,
{
    if x < 0x100_0000 {
        1
    } else {
        2 * ulp(x / 2)
    }
}

/// The number of twenty-four significant bits that is next to `x`; of two, the one
/// that is an even number of steps.
pub open spec fn rounded(x: int) -> int {
    let u = ulp(x);
    let (q, r) = (x / u, x % u);
    if 2 * r < u || (2 * r == u && q % 2 == 0) {
        q * u
    } else {
        (q + 1) * u
    }
}

/// The sum of two numbers.
pub open spec fn plus(a: int, b: int) -> int {
    rounded(a + b)
}

/// The sum of numbers, one after another.
pub open spec fn sum(terms: Seq<int>) -> int
    decreases terms.len(),
{
    if terms.len() == 0 {
        0
    } else {
        plus(sum(terms.drop_last()), terms.last())
    }
}

/// The sum of numbers where nothing is rounded.
pub open spec fn exact(terms: Seq<int>) -> int
    decreases terms.len(),
{
    if terms.len() == 0 {
        0
    } else {
        exact(terms.drop_last()) + terms.last()
    }
}

/// A sum goes on with one more number.
pub proof fn lemma_sum_push(terms: Seq<int>, x: int)
    ensures
        sum(terms.push(x)) == plus(sum(terms), x),
        exact(terms.push(x)) == exact(terms) + x,
{
    assert(terms.push(x).drop_last() =~= terms);
}

/// A number is less than two to the power of 24 steps, and at least half as many where
/// it is not the smallest step.
pub proof fn lemma_ulp(x: int)
    requires
        0 <= x,
    ensures
        1 <= ulp(x),
        x < 0x100_0000 * ulp(x),
        x < 0x100_0000 ==> ulp(x) == 1,
        x >= 0x100_0000 ==> 0x80_0000 * ulp(x) <= x,
    decreases x,
{
    if x >= 0x100_0000 {
        lemma_ulp(x / 2);
    }
}

/// Rounding moves a number by half a step at most.
pub proof fn lemma_rounded(x: int)
    requires
        0 <= x,
    ensures
        x - ulp(x) <= 2 * rounded(x) - x <= x + ulp(x),
        0 <= rounded(x),
        x < 0x100_0000 ==> rounded(x) == x,
        16 * rounded(x) <= 17 * x,
{
    let u = ulp(x);
    lemma_ulp(x);
    let (q, r) = (x / u, x % u);
    assert(x == q * u + r && 0 <= r < u && 0 <= q) by (nonlinear_arith)
        requires
            u >= 1,
            x >= 0,
            q == x / u,
            r == x % u,
    ;
    assert((q + 1) * u == q * u + u && 0 <= q * u) by (nonlinear_arith)
        requires
            u >= 1,
            0 <= q,
    ;
}

/// How far apart the numbers are from `MOST` on, for a while.
proof fn lemma_ulp_most(x: int)
    requires
        MOST <= x < 2 * MOST,
    ensures
        ulp(x) == 0x8_0000_0000,
{
    lemma2_to64();
    lemma2_to64_rest();
    lemma_ulp_from(x, 58);
}

/// How far apart the numbers are between two powers of two.
proof fn lemma_ulp_from(x: int, k: int)
    requires
        23 <= k <= 60,
        pow2(k as nat) <= x < 2 * pow2(k as nat),
    ensures
        ulp(x) == pow2((k - 23) as nat),
    decreases k,
{
    lemma2_to64();
    if k > 23 {
        lemma_pow2_unfold(k as nat);
        lemma_pow2_unfold((k - 23) as nat);
        lemma_ulp_grows(k);
        lemma_ulp_from(x / 2, k - 1);
    }
}

proof fn lemma_ulp_grows(k: int)
    requires
        24 <= k,
    ensures
        pow2(k as nat) >= 0x100_0000,
    decreases k,
{
    lemma2_to64();
    if k > 24 {
        lemma_ulp_grows(k - 1);
        lemma_pow2_unfold(k as nat);
    }
}

/// A sum that has come to `MOST` stays there: less than eight more is lost in rounding.
pub proof fn lemma_plus_most(a: int, b: int)
    requires
        0 <= a <= MOST,
        0 <= b <= 8 * ONE,
    ensures
        0 <= plus(a, b) <= MOST,
{
    let x = a + b;
    lemma_rounded(x);
    lemma_ulp(x);
    lemma2_to64();
    lemma2_to64_rest();
    if x >= MOST {
        lemma_ulp_most(x);
        let u = 0x8_0000_0000int;
        assert(x / u == 0x80_0000 && x % u == x - MOST);
    } else {
        lemma_below(x);
    }
}

/// What is below `MOST` is not rounded above it.
proof fn lemma_below(x: int)
    requires
        0 <= x < MOST,
    ensures
        rounded(x) <= MOST,
{
    let u = ulp(x);
    lemma_ulp(x);
    lemma_ulp_divides(x, MOST as int);
    let (q, k) = (x / u, MOST as int / u);
    assert((q + 1) * u <= MOST && q * u <= MOST) by (nonlinear_arith)
        requires
            q == x / u,
            MOST == k * u,
            0 <= x < MOST,
            u >= 1,
    ;
}

/// The steps at `x` go evenly into a larger power of two.
proof fn lemma_ulp_divides(x: int, top: int)
    requires
        0 <= x < top,
        top == MOST,
    ensures
        top == (top / ulp(x)) * ulp(x),
{
    lemma2_to64();
    lemma2_to64_rest();
    let u = ulp(x);
    lemma_ulp(x);
    if x < 0x100_0000 {
        assert(u == 1);
        assert(top == (top / 1) * 1);
        assert(top / u == top) by (nonlinear_arith)
            requires
                u == 1,
        ;
        assert(top * u == top) by (nonlinear_arith)
            requires
                u == 1,
        ;
    } else {
        let k = lemma_level(x, 58);
        lemma_ulp_from(x, k);
        let e = (k - 23) as nat;
        lemma_pow2_adds(e, (58 - e) as nat);
        let p = pow2((58 - e) as nat) as int;
        assert(top == u * p);
        assert(top / u == p) by (nonlinear_arith)
            requires
                top == u * p,
                u >= 1,
        ;
        assert(p * u == u * p) by (nonlinear_arith);
    }
}

/// Between which powers of two a number lies.
proof fn lemma_level(x: int, n: int) -> (k: int)
    requires
        0x100_0000 <= x < pow2(n as nat),
        24 <= n <= 60,
    ensures
        24 <= k < n,
        pow2(k as nat) <= x < 2 * pow2(k as nat),
    decreases n,
{
    lemma2_to64();
    lemma_pow2_unfold(n as nat);
    if n == 24 || pow2((n - 1) as nat) <= x {
        n - 1
    } else {
        lemma_level(x, n - 1)
    }
}

/// One is a number.
pub proof fn lemma_one()
    ensures
        plus(0, ONE as int) == ONE,
{
    lemma2_to64();
    lemma_ulp_from(ONE as int, 30);
}

/// The sum of two numbers.
pub fn add_single(a: u64, b: u64) -> (r: u64)
    requires
        a <= 16 * MOST,
        b <= 16 * MOST,
    ensures
        r == plus(a as int, b as int),
        16 * r <= 17 * (a + b),
{
    let x: u64 = a + b;
    let mut y: u64 = x;
    let mut u: u64 = 1;
    assert(x / 1 == x);
    while y >= 0x100_0000
        invariant
            x <= 32 * MOST,
            ulp(x as int) == u * ulp(y as int),
            u * y <= x,
            u >= 1,
        decreases y,
    {
        assert((2 * u) * (y as int / 2) <= u * y) by (nonlinear_arith)
            requires
                u >= 1,
                y >= 0,
        ;
        assert(u * (2 * ulp(y as int / 2)) == (2 * u) * ulp(y as int / 2)) by (nonlinear_arith);
        assert(2 * u <= x) by (nonlinear_arith)
            requires
                u * y <= x,
                y >= 2,
                u >= 1,
        ;
        y = y / 2;
        u = 2 * u;
    }
    proof {
        lemma_rounded(x as int);
        lemma_ulp(x as int);
        assert(u * 1 == u);
        lemma_step(x as int);
    }
    let (q, r): (u64, u64) = (x / u, x % u);
    if r < u - r || (r == u - r && q % 2 == 0) {
        q * u
    } else {
        (q + 1) * u
    }
}

/// Both neighbours of a number are as large as twice the number and a step at most.
proof fn lemma_step(x: int)
    requires
        0 <= x,
    ensures
        ({
            let u = ulp(x);
            &&& 0 <= x % u < u
            &&& 0 <= (x / u) * u <= x
            &&& 0 <= (x / u + 1) * u <= x + u
        }),
{
    let u = ulp(x);
    lemma_ulp(x);
    let (q, r) = (x / u, x % u);
    assert(0 <= r < u && 0 <= q * u <= x && 0 <= (q + 1) * u <= x + u) by (nonlinear_arith)
        requires
            u >= 1,
            x >= 0,
            q == x / u,
            r == x % u,
    ;
}

} // verus!
