//! Shifts, clipping and rounding as integer arithmetic.
use vstd::arithmetic::power2::*;
use vstd::prelude::*;

verus! {

/// Dividing twice is dividing by the product, also below zero.
pub proof fn lemma_div_div(x: int, a: int, b: int)
    requires
        0 < a,
        0 < b,
    ensures
        (x / a) / b == x / (a * b),
{
    let y = x / a;
    let q = y / b;
    let r = a * (y % b) + x % a;
    assert(x == q * (a * b) + r && 0 <= r < a * b && 0 < a * b) by (nonlinear_arith)
        requires
            0 < a,
            0 < b,
            y == x / a,
            q == y / b,
            r == a * (y % b) + x % a,
    ;
    vstd::arithmetic::div_mod::lemma_fundamental_div_mod_converse(x, a * b, q, r);
}

/// An arithmetic right shift is a floored division by a power of two.
pub proof fn lemma_shr_i32(x: i32, k: u32)
    requires
        k < 32,
    ensures
        (x >> k) as int == x as int / pow2(k as nat) as int,
    decreases k,
{
    lemma2_to64();
    if k == 0 {
        assert(x >> 0 == x) by (bit_vector);
    } else {
        let j: u32 = (k - 1) as u32;
        lemma_shr_i32(x, j);
        assert(x >> k == (x >> j) >> 1) by (bit_vector)
            requires
                0 < k < 32,
                j == k - 1,
        ;
        let y: i32 = x >> j;
        assert(y >> 1 == y as int / 2) by (bit_vector);
        lemma_pow2_unfold(k as nat);
        lemma_pow2_pos(j as nat);
        lemma_div_div(x as int, pow2(j as nat) as int, 2);
    }
}

/// `x / 2^k`, rounded down.
pub fn shr_i32(x: i32, k: u32) -> (r: i32)
    requires
        k < 32,
    ensures
        r as int == x as int / pow2(k as nat) as int,
{
    proof {
        lemma_shr_i32(x, k);
    }
    x >> k
}

/// An arithmetic right shift is a floored division by a power of two.
pub proof fn lemma_shr_i64(x: i64, k: u32)
    requires
        k < 64,
    ensures
        (x >> k) as int == x as int / pow2(k as nat) as int,
    decreases k,
{
    lemma2_to64();
    if k == 0 {
        assert(x >> 0 == x) by (bit_vector);
    } else {
        let j: u32 = (k - 1) as u32;
        lemma_shr_i64(x, j);
        assert(x >> k == (x >> j) >> 1) by (bit_vector)
            requires
                0 < k < 64,
                j == k - 1,
        ;
        let y: i64 = x >> j;
        assert(y >> 1 == y as int / 2) by (bit_vector);
        lemma_pow2_unfold(k as nat);
        lemma_pow2_pos(j as nat);
        lemma_div_div(x as int, pow2(j as nat) as int, 2);
    }
}

/// `x / 2^k`, rounded down.
pub fn shr_i64(x: i64, k: u32) -> (r: i64)
    requires
        k < 64,
    ensures
        r as int == x as int / pow2(k as nat) as int,
{
    proof {
        lemma_shr_i64(x, k);
    }
    x >> k
}

/// `2^k` for `k` up to 62.
pub fn pow2_i64(k: u32) -> (r: i64)
    requires
        k <= 62,
    ensures
        r == pow2(k as nat),
        1 <= r <= 0x4000_0000_0000_0000,
{
    proof {
        lemma2_to64();
        lemma2_to64_rest();
        lemma_pow2_pos(k as nat);
        if k < 62 {
            lemma_pow2_strictly_increases(k as nat, 62);
        }
        vstd::bits::lemma_u64_shl_is_mul(1, k as u64);
    }
    (1u64 << (k as u64)) as i64
}

/// `v` moved into `lo ..= hi`.
pub open spec fn clip(lo: int, hi: int, v: int) -> int {
    if v < lo {
        lo
    } else if v > hi {
        hi
    } else {
        v
    }
}

/// `v` moved into `lo ..= hi`.
pub fn clip3(lo: i32, hi: i32, v: i32) -> (r: i32)
    requires
        lo <= hi,
    ensures
        r == clip(lo as int, hi as int, v as int),
{
    if v < lo {
        lo
    } else if v > hi {
        hi
    } else {
        v
    }
}

/// `f(0) + .. + f(n - 1)`.
pub open spec fn sum(n: int, f: spec_fn(int) -> int) -> int
    decreases n,
{
    if n <= 0 {
        0
    } else {
        sum(n - 1, f) + f(n - 1)
    }
}

pub proof fn lemma_sum_ext(n: int, f: spec_fn(int) -> int, g: spec_fn(int) -> int)
    requires
        forall|k: int| 0 <= k < n ==> #[trigger] f(k) == g(k),
    ensures
        sum(n, f) == sum(n, g),
    decreases n,
{
    if n > 0 {
        lemma_sum_ext(n - 1, f, g);
    }
}

pub proof fn lemma_sum_bound(n: int, f: spec_fn(int) -> int, bound: int)
    requires
        0 <= n,
        forall|k: int| 0 <= k < n ==> -bound <= #[trigger] f(k) <= bound,
    ensures
        -bound * n <= sum(n, f) <= bound * n,
    decreases n,
{
    if n > 0 {
        lemma_sum_bound(n - 1, f, bound);
        assert(bound * n == bound * (n - 1) + bound) by (nonlinear_arith);
        assert(-bound * n == -bound * (n - 1) - bound) by (nonlinear_arith);
    } else {
        assert(-bound * 0 == 0 && bound * 0 == 0) by (nonlinear_arith);
    }
}

/// A sum of equal terms.
pub proof fn lemma_sum_constant(n: int, f: spec_fn(int) -> int, k: int)
    requires
        0 <= n,
        forall|i: int| 0 <= i < n ==> #[trigger] f(i) == k,
    ensures
        sum(n, f) == k * n,
    decreases n,
{
    if n > 0 {
        lemma_sum_constant(n - 1, f, k);
        assert(k * n == k * (n - 1) + k) by (nonlinear_arith);
    } else {
        assert(k * 0 == 0) by (nonlinear_arith);
    }
}

/// A sum over an even number of terms, by pairs of neighbours.
pub proof fn lemma_sum_even_odd(m: int, f: spec_fn(int) -> int)
    requires
        0 <= m,
    ensures
        sum(2 * m, f) == sum(m, |i: int| f(2 * i)) + sum(m, |i: int| f(2 * i + 1)),
    decreases m,
{
    if m > 0 {
        lemma_sum_even_odd(m - 1, f);
        reveal_with_fuel(sum, 3);
    }
}

/// The first term, and the rest.
pub proof fn lemma_sum_first(n: int, f: spec_fn(int) -> int)
    requires
        0 < n,
    ensures
        sum(n, f) == f(0) + sum(n - 1, |k: int| f(k + 1)),
    decreases n,
{
    if n > 1 {
        lemma_sum_first(n - 1, f);
    } else {
        reveal_with_fuel(sum, 2);
    }
}

/// A sum over an even number of terms, by pairs of opposite ends.
pub proof fn lemma_sum_mirror(m: int, f: spec_fn(int) -> int)
    requires
        0 <= m,
    ensures
        sum(2 * m, f) == sum(m, |k: int| f(k) + f(2 * m - 1 - k)),
    decreases m,
{
    let h = |k: int| f(k) + f(2 * m - 1 - k);
    if m > 0 {
        let g = |k: int| f(k + 1);
        lemma_sum_first(2 * m, f);
        reveal_with_fuel(sum, 2);
        assert(sum(2 * m - 1, g) == sum(2 * (m - 1), g) + f(2 * m - 1));
        lemma_sum_mirror(m - 1, g);
        lemma_sum_first(m, h);
        let h1 = |k: int| h(k + 1);
        let g1 = |k: int| g(k) + g(2 * (m - 1) - 1 - k);
        assert forall|k: int| 0 <= k < m - 1 implies #[trigger] h1(k) == g1(k) by {}
        lemma_sum_ext(m - 1, h1, g1);
    }
}

} // verus!
