//! How rates follow the probabilities, and how they add up.
use crate::bitseq;
use crate::cabac::bins::Bin;
use crate::cabac::engine::{CtxModel, TRANS_IDX_LPS, TRANS_IDX_MPS};
use crate::cabac::rate::{EST_BITS_LPS, EST_BITS_MPS};
use crate::cabac::{contexts, interval, levelrate, rate, residual, single};
use crate::scan;
use vstd::arithmetic::power2::*;
use vstd::prelude::*;

verus! {

proof fn lemma_neighbours(i: int)
    requires
        0 <= i < 63,
    ensures
        EST_BITS_MPS@[i + 1] < EST_BITS_MPS@[i],
        EST_BITS_LPS@[i] < EST_BITS_LPS@[i + 1],
{
    assert(forall|k: int|
        0 <= k < 63 ==> EST_BITS_MPS@[k + 1] < #[trigger] EST_BITS_MPS@[k]);
    assert(forall|k: int|
        0 <= k < 63 ==> #[trigger] EST_BITS_LPS@[k] < EST_BITS_LPS@[k + 1]);
}

/// The more a state is skewed, the less its more probable value takes and the more the other;
/// an equally probable bin takes one bit.
pub proof fn law_skewed_states_take_less(a: u8, b: u8, mps: bool)
    requires
        a < b < 64,
    ensures
        ({
            let (x, y) = (
                interval::Kind::Regular { state: a, mps },
                interval::Kind::Regular { state: b, mps },
            );
            let (p, q) = (
                rate::symbol_rate(interval::Symbol { kind: x, bin: mps }),
                rate::symbol_rate(interval::Symbol { kind: y, bin: mps }),
            );
            let (r, s) = (
                rate::symbol_rate(interval::Symbol { kind: x, bin: !mps }),
                rate::symbol_rate(interval::Symbol { kind: y, bin: !mps }),
            );
            0 < q < p < single::ONE < r < s <= 8 * single::ONE
        }),
        rate::symbol_rate(interval::Symbol { kind: interval::Kind::Bypass, bin: mps })
            == 0x4000_0000,
    decreases b,
{
    lemma_neighbours(b - 1);
    if a < b - 1 {
        law_skewed_states_take_less(a, (b - 1) as u8, mps);
    } else {
        lemma_ends(a as int);
        lemma_ends(b as int);
    }
    lemma_ends(b as int);
}

proof fn lemma_ends(i: int)
    requires
        0 <= i < 64,
    ensures
        0 < EST_BITS_MPS@[i] < single::ONE < EST_BITS_LPS@[i] <= 8 * single::ONE,
{
    assert(forall|k: int| 0 <= k < 64 ==> 0 < #[trigger] EST_BITS_MPS@[k] < single::ONE);
    assert(forall|k: int|
        0 <= k < 64 ==> single::ONE < #[trigger] EST_BITS_LPS@[k] <= 8 * single::ONE);
}

/// The more probable value makes a state one more skewed, up to the last that adapts; the other
/// makes it less so, and of two states never changes the order.
pub proof fn law_states_move_with_the_values(i: int, j: int)
    requires
        0 <= i <= j < 63,
    ensures
        TRANS_IDX_MPS@[i] == (if i < 62 {
            i + 1
        } else {
            62
        }),
        TRANS_IDX_LPS@[i] <= TRANS_IDX_LPS@[j] <= 38,
        i > 0 ==> TRANS_IDX_LPS@[i] < i,
        i == 0 ==> TRANS_IDX_LPS@[i] == 0,
    decreases j,
{
    assert(forall|k: int|
        0 <= k < 63 ==> #[trigger] TRANS_IDX_MPS@[k] == (if k < 62 {
            k + 1
        } else {
            62
        }));
    assert(forall|k: int| 0 < k < 63 ==> #[trigger] TRANS_IDX_LPS@[k] < k);
    assert(forall|k: int| 0 <= k < 63 ==> #[trigger] TRANS_IDX_LPS@[k] <= 38);
    assert(forall|k: int| 0 <= k < 62 ==> #[trigger] TRANS_IDX_LPS@[k] <= TRANS_IDX_LPS@[k + 1]);
    if i < j {
        law_states_move_with_the_values(i, j - 1);
        assert(TRANS_IDX_LPS@[j - 1] <= TRANS_IDX_LPS@[j - 1 + 1]);
    }
}

/// The steps at a number of twenty-four significant bits.
proof fn lemma_step(x: int, k: int)
    requires
        0 <= k,
        k == 0 ==> 0 <= x < 0x100_0000,
        k > 0 ==> 0x80_0000 * pow2(k as nat) <= x < 0x100_0000 * pow2(k as nat),
    ensures
        single::ulp(x) == pow2(k as nat),
    decreases k,
{
    lemma2_to64();
    if k > 0 {
        lemma_pow2_unfold(k as nat);
        let m = pow2((k - 1) as nat) as int;
        lemma_pow2_pos((k - 1) as nat);
        lemma_step(x / 2, k - 1);
    }
}

/// A sum is the number of twenty-four significant bits next to the true one, and of two the one
/// whose last bit is not set.
pub proof fn law_sums_are_the_nearest(a: int, b: int, k: int)
    requires
        0 <= k,
        k == 0 ==> 0 <= a + b < 0x100_0000,
        k > 0 ==> 0x80_0000 * pow2(k as nat) <= a + b < 0x100_0000 * pow2(k as nat),
    ensures
        ({
            let step = pow2(k as nat) as int;
            let s = single::plus(a, b);
            &&& -step <= 2 * (s - (a + b)) <= step
            &&& s % step == 0
            &&& 2 * (s - (a + b)) == step || 2 * (s - (a + b)) == -step ==> (s / step) % 2 == 0
            &&& k == 0 ==> s == a + b
        }),
{
    lemma_step(a + b, k);
    lemma2_to64();
    let u = pow2(k as nat) as int;
    lemma_pow2_pos(k as nat);
    let x = a + b;
    let (q, r) = (x / u, x % u);
    vstd::arithmetic::div_mod::lemma_fundamental_div_mod(x, u);
    vstd::arithmetic::div_mod::lemma_mod_bound(x, u);
    assert(u * q == q * u && (q + 1) * u == q * u + u) by (nonlinear_arith);
    vstd::arithmetic::div_mod::lemma_fundamental_div_mod_converse(q * u, u, q, 0);
    vstd::arithmetic::div_mod::lemma_fundamental_div_mod_converse((q + 1) * u, u, q + 1, 0);
}

/// A sum of numbers in single precision is within one part in two to the power of 20 for each
/// of them from what they come to exactly.
pub proof fn law_sums_stay_close(terms: Seq<int>)
    requires
        terms.len() <= 0x1_0000,
        forall|i: int| 0 <= i < terms.len() ==> 0 <= #[trigger] terms[i],
    ensures
        ({
            let (s, e, n) = (single::sum(terms), single::exact(terms), terms.len());
            &&& 0 <= e
            &&& 0 <= s
            &&& -(n * e) <= 0x10_0000 * (s - e) <= n * e
        }),
    decreases terms.len(),
{
    if terms.len() == 0 {
        assert(0 * 0 == 0int);
    } else {
        let front = terms.drop_last();
        assert forall|i: int| 0 <= i < front.len() implies 0 <= #[trigger] front[i] by {
            assert(0 <= terms[i]);
        }
        law_sums_stay_close(front);
        let (s, e, m) = (single::sum(front), single::exact(front), front.len() as int);
        let t = terms.last();
        assert(0 <= t);
        lemma_one_sum(s, e, t, m);
    }
}

/// One number more.
proof fn lemma_one_sum(s: int, e: int, t: int, m: int)
    requires
        0 <= e,
        0 <= s,
        0 <= t,
        0 <= m < 0x1_0000,
        -(m * e) <= 0x10_0000 * (s - e) <= m * e,
    ensures
        0 <= single::plus(s, t),
        -((m + 1) * (e + t)) <= 0x10_0000 * (single::plus(s, t) - (e + t)) <= (m + 1) * (e + t),
{
    let x = s + t;
    let r = single::plus(s, t);
    single::lemma_ulp(x);
    single::lemma_rounded(x);
    let u = single::ulp(x);
    assert(0x80_0000 * (2 * (r - x)) <= x && 0x80_0000 * (2 * (x - r)) <= x);
    assert(m * e <= 0x1_0000 * e) by (nonlinear_arith)
        requires
            0 <= m < 0x1_0000,
            0 <= e,
    ;
    assert((m + 1) * (e + t) == m * e + m * t + e + t && 0 <= m * t) by (nonlinear_arith)
        requires
            0 <= m,
            0 <= t,
    ;
}

/// Terms that are not rounded come to what their bins take.
proof fn lemma_exact_terms(bank: Seq<CtxModel>, b: Seq<Bin>)
    ensures
        single::exact(levelrate::terms(bank, b)) == levelrate::still_rate(bank, b),
    decreases b.len(),
{
    let t = levelrate::terms(bank, b);
    if b.len() > 0 {
        let front = b.drop_last();
        lemma_exact_terms(bank, front);
        assert(t.drop_last() =~= levelrate::terms(bank, front));
        levelrate::lemma_still_add(bank, front, seq![b.last()]);
        levelrate::lemma_still_one(bank, b.last());
        assert(front + seq![b.last()] =~= b);
    }
}

/// What a coordinate takes is close to what its bins do.
proof fn lemma_coordinate(bank: Seq<CtxModel>, is_x: bool, v: int, log2: int, is_luma: bool)
    requires
        2 <= log2 <= 5,
        0 <= v < scan::side(log2),
    ensures
        ({
            let first = if is_x {
                contexts::LAST_X_PREFIX as int
            } else {
                contexts::LAST_Y_PREFIX as int
            };
            let e = levelrate::still_rate(
                bank,
                residual::last_prefix_bins(first, v, log2, is_luma),
            ) + levelrate::still_rate(bank, residual::last_suffix_bins(v));
            let r = levelrate::coordinate_rate(bank, is_x, v, log2, is_luma);
            &&& 0 <= e
            &&& 0 <= r
            &&& -(11 * e) <= 0x10_0000 * (r - e) <= 11 * e
        }),
{
    let first = if is_x {
        contexts::LAST_X_PREFIX as int
    } else {
        contexts::LAST_Y_PREFIX as int
    };
    let p = residual::last_prefix_bins(first, v, log2, is_luma);
    let t = levelrate::terms(bank, p);
    let group = residual::GROUP_IDX@[v] as int;
    assert(group <= 9) by {
        assert(forall|k: int| 0 <= k < 32 ==> #[trigger] residual::GROUP_IDX@[k] <= 9);
    }
    assert(t.len() <= 10);
    lemma_exact_terms(bank, p);
    let w = single::ONE * residual::last_suffix_bins(v).len();
    if group > 3 {
        levelrate::lemma_still_plain(
            bank,
            bitseq::low_bits(v - residual::MIN_IN_GROUP@[group], (group - 2) / 2),
        );
        single::lemma_sum_push(t, w);
        let all = t.push(w);
        assert forall|i: int| 0 <= i < all.len() implies 0 <= #[trigger] all[i] by {
            if i < t.len() {
                assert(all[i] == t[i]);
            }
        }
        law_sums_stay_close(all);
        let (n, e) = (all.len() as int, single::exact(all));
        assert(n * e <= 11 * e) by (nonlinear_arith)
            requires
                n <= 11,
                0 <= e,
        ;
    } else {
        law_sums_stay_close(t);
        let (n, e) = (t.len() as int, single::exact(t));
        assert(n * e <= 11 * e) by (nonlinear_arith)
            requires
                n <= 11,
                0 <= e,
        ;
    }
}

/// What the position of the last level is said to take is what its bins take while the contexts
/// stay as they are, within twelve parts in two to the power of 20.
pub proof fn law_positions_weigh_what_they_take(
    bank: Seq<CtxModel>,
    x: int,
    y: int,
    log2: int,
    is_luma: bool,
)
    requires
        2 <= log2 <= 5,
        0 <= x < scan::side(log2),
        0 <= y < scan::side(log2),
    ensures
        ({
            let e = levelrate::still_rate(bank, residual::last_bins(x, y, log2, is_luma));
            let r = single::plus(
                levelrate::coordinate_rate(bank, true, x, log2, is_luma),
                levelrate::coordinate_rate(bank, false, y, log2, is_luma),
            );
            -(12 * e) <= 0x10_0000 * (r - e) <= 12 * e
        }),
{
    let (a, b) = (
        residual::last_prefix_bins(contexts::LAST_X_PREFIX as int, x, log2, is_luma),
        residual::last_prefix_bins(contexts::LAST_Y_PREFIX as int, y, log2, is_luma),
    );
    let (c, d) = (residual::last_suffix_bins(x), residual::last_suffix_bins(y));
    levelrate::lemma_still_add(bank, a, b);
    levelrate::lemma_still_add(bank, a + b, c);
    levelrate::lemma_still_add(bank, a + b + c, d);
    lemma_coordinate(bank, true, x, log2, is_luma);
    lemma_coordinate(bank, false, y, log2, is_luma);
    let (r, s) = (
        levelrate::coordinate_rate(bank, true, x, log2, is_luma),
        levelrate::coordinate_rate(bank, false, y, log2, is_luma),
    );
    let z = r + s;
    single::lemma_ulp(z);
    single::lemma_rounded(z);
}

/// What each symbol takes.
pub open spec fn rates(log: Seq<interval::Symbol>) -> Seq<int> {
    Seq::new(log.len(), |i: int| rate::symbol_rate(log[i]))
}

proof fn lemma_rate_is_a_sum(log: Seq<interval::Symbol>)
    ensures
        rate::rate(log) == single::sum(rates(log)),
    decreases log.len(),
{
    if log.len() > 0 {
        lemma_rate_is_a_sum(log.drop_last());
        assert(rates(log).drop_last() =~= rates(log.drop_last()));
    }
}

/// What symbols take together is what each of them takes added up, within one part in two to the
/// power of 20 for each of them.
pub proof fn law_symbols_take_their_sum(log: Seq<interval::Symbol>)
    requires
        log.len() <= 0x1_0000,
    ensures
        ({
            let (r, e, n) = (rate::rate(log), single::exact(rates(log)), log.len());
            -(n * e) <= 0x10_0000 * (r - e) <= n * e
        }),
{
    lemma_rate_is_a_sum(log);
    law_sums_stay_close(rates(log));
}

} // verus!
