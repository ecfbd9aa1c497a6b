//! Level selection: plain quantisation with sign hiding, and the integer parts of
//! rate-distortion optimised quantisation.
use crate::arith;
use crate::arith::{pow2_i64, shr_i64};
use crate::quant;
use crate::quant::{quantize_plain_into, Quantizer, DEQUANT_SCALE};
use crate::signhide;
use crate::signhide::sign_bit_hiding_hdq;
use crate::transform;
use crate::transform::log2_of;
use vstd::arithmetic::power2::*;
use vstd::prelude::*;

verus! {

/// Sum of the magnitudes of the first `n` levels.
pub open spec fn mag_sum(l: Seq<i16>, n: int) -> int {
    arith::sum(n, |x: int| quant::mag(l[x] as int))
}

/// The levels with signs hidden, where the magnitudes add up to at least two.
pub open spec fn maybe_hidden(h: signhide::Hider, l: Seq<i16>) -> Seq<i16> {
    if mag_sum(l, h.n * h.n) >= 2 {
        h.hidden(l, h.groups() - 1, false)
    } else {
        l
    }
}

/// The plainly quantised block in front of the rest of a buffer.
pub open spec fn plain_levels(
    coeff: Seq<i32>,
    n: int,
    qp: int,
    bit_depth: int,
    before: Seq<i16>,
) -> Seq<i16> {
    Seq::new(
        before.len(),
        |x: int|
            if x < n * n {
                quant::level_of(coeff[x] as int, n, qp, bit_depth) as i16
            } else {
                before[x]
            },
    )
}

/// The magnitudes of the first `n * n` levels add up to at least two.
fn sum_reaches_two(levels: &[i16], n: usize) -> (r: bool)
    requires
        transform::is_size(n as int),
        levels@.len() >= n * n,
    ensures
        r == (mag_sum(levels@, n * n) >= 2),
{
    proof {
        transform::lemma_area(n as int);
    }
    let area: usize = n * n;
    let ghost f = |x: int| quant::mag(levels@[x] as int);
    let mut sum: i64 = 0;
    for x in 0..area
        invariant
            area == n * n,
            area <= 1024,
            levels@.len() >= area,
            f == (|x: int| quant::mag(levels@[x] as int)),
            sum == arith::sum(x as int, f),
            0 <= sum <= 32768 * x,
    {
        assert(f(x as int) == quant::mag(levels@[x as int] as int));
        sum = sum + quant::magnitude(levels[x] as i32);
    }
    sum >= 2
}

/// Hides signs in levels that were already chosen, measuring errors from them.
pub fn apply_sign_hiding_to_levels(
    levels: &mut [i16],
    coeff: &[i32],
    n: usize,
    qp: u8,
    bit_depth: u8,
    scan: &[(usize, usize)],
)
    requires
        hider(coeff@, n as int, scan@, qp as int, bit_depth as int, false).wf(),
        old(levels)@.len() >= n * n,
    ensures
        final(levels)@ == maybe_hidden(
            hider(coeff@, n as int, scan@, qp as int, bit_depth as int, false),
            old(levels)@,
        ),
        final(levels)@.len() == old(levels)@.len(),
{
    if sum_reaches_two(levels, n) {
        sign_bit_hiding_hdq(levels, coeff, n, scan, qp, bit_depth, false);
    }
}

/// What sign hiding rests on.
pub open spec fn hider(
    coeff: Seq<i32>,
    n: int,
    scan: Seq<(usize, usize)>,
    qp: int,
    bit_depth: int,
    rounded: bool,
) -> signhide::Hider {
    signhide::Hider { coeff, n, scan, qp, bit_depth, rounded }
}

/// Quantises a block, and hides signs along the scan where one is given.
pub fn quantize_impl_into(
    coeff: &[i32],
    n: usize,
    qp: u8,
    bit_depth: u8,
    sign_hiding_scan: Option<&[(usize, usize)]>,
    out: &mut [i16],
)
    requires
        quant::quant_ok(n as int, qp as int, bit_depth as int),
        coeff@.len() >= n * n,
        old(out)@.len() >= n * n,
        sign_hiding_scan is Some ==> hider(
            coeff@,
            n as int,
            sign_hiding_scan->0@,
            qp as int,
            bit_depth as int,
            true,
        ).wf(),
    ensures
        final(out)@.len() == old(out)@.len(),
        ({
            let plain = plain_levels(coeff@, n as int, qp as int, bit_depth as int, old(out)@);
            final(out)@ == match sign_hiding_scan {
                Some(scan) => maybe_hidden(
                    hider(coeff@, n as int, scan@, qp as int, bit_depth as int, true),
                    plain,
                ),
                None => plain,
            }
        }),
{
    quantize_plain_into(coeff, n, qp, bit_depth, out);
    proof {
        transform::lemma_area(n as int);
        assert(out@ =~= plain_levels(coeff@, n as int, qp as int, bit_depth as int, old(out)@));
    }
    match sign_hiding_scan {
        Some(scan) => {
            if sum_reaches_two(out, n) {
                sign_bit_hiding_hdq(out, coeff, n, scan, qp, bit_depth, true);
            }
        },
        None => {},
    }
}

/// Quantises a block and hides signs along `scan`.
pub fn quantize_with_sign_hiding_into(
    coeff: &[i32],
    n: usize,
    qp: u8,
    bit_depth: u8,
    scan: &[(usize, usize)],
    out: &mut [i16],
)
    requires
        hider(coeff@, n as int, scan@, qp as int, bit_depth as int, true).wf(),
        old(out)@.len() >= n * n,
    ensures
        final(out)@.len() == old(out)@.len(),
        final(out)@ == maybe_hidden(
            hider(coeff@, n as int, scan@, qp as int, bit_depth as int, true),
            plain_levels(coeff@, n as int, qp as int, bit_depth as int, old(out)@),
        ),
{
    quantize_impl_into(coeff, n, qp, bit_depth, Some(scan), out);
}

/// Largest level that level selection tries for a coefficient.
pub open spec fn max_level(c: int, n: int, qp: int, bit_depth: int) -> int {
    let bits = quant::q_bits(n, qp, bit_depth);
    arith::clip(
        0,
        32767,
        (quant::scaled(c, qp) + pow2((bits - 1) as nat)) / pow2(bits as nat) as int,
    )
}

/// Largest level that level selection tries for a coefficient: the nearest one.
pub fn rdoq_max_level(c: i32, n: usize, qp: u8, bit_depth: u8) -> (r: u32)
    requires
        quant::quant_ok(n as int, qp as int, bit_depth as int),
    ensures
        r == max_level(c as int, n as int, qp as int, bit_depth as int),
{
    let q = Quantizer::new(n, qp, bit_depth);
    proof {
        quant::lemma_quant_bounds(n as int, qp as int, bit_depth as int);
        lemma2_to64_rest();
        if q.bits - 1 < 46 {
            lemma_pow2_strictly_increases((q.bits - 1) as nat, 46);
        }
    }
    let s: i64 = q.scale_of(c, Ghost(n as int), Ghost(qp as int), Ghost(bit_depth as int));
    let v: i64 = shr_i64(s + pow2_i64(q.bits - 1), q.bits);
    if v < 0 {
        0
    } else if v > 32767 {
        32767
    } else {
        v as u32
    }
}

/// The magnitude that a level stands for when errors are measured.
pub open spec fn level_value(level: int, n: int, qp: int, bit_depth: int) -> int {
    let shift = bit_depth + transform::log2_size(n) - 5;
    let factor = DEQUANT_SCALE@[qp % 6] * pow2((qp / 6) as nat) * 16;
    arith::clip(
        0,
        32767,
        (level * factor + pow2((shift - 1) as nat)) / pow2(shift as nat) as int,
    )
}

/// Square of the error that a level leaves of a coefficient of magnitude
/// `coeff_abs`.
pub fn coefficient_error(coeff_abs: i64, level: u32, n: usize, qp: u8, bit_depth: u8) -> (r: i64)
    requires
        quant::quant_ok(n as int, qp as int, bit_depth as int),
        0 <= coeff_abs <= 0x8000_0000,
        level <= 32767,
    ensures
        ({
            let e = coeff_abs - level_value(level as int, n as int, qp as int, bit_depth as int);
            r == e * e
        }),
{
    let shift: u32 = bit_depth as u32 + log2_of(n) - 5;
    proof {
        quant::lemma_quant_bounds(n as int, qp as int, bit_depth as int);
        lemma2_to64();
        if qp / 6 < 28 {
            lemma_pow2_strictly_increases((qp / 6) as nat, 28);
        }
        if shift - 1 < 15 {
            lemma_pow2_strictly_increases((shift - 1) as nat, 15);
        }
    }
    let add: i64 = pow2_i64(shift - 1);
    let per: i64 = pow2_i64(qp as u32 / 6);
    let scale: i64 = DEQUANT_SCALE[(qp % 6) as usize];
    assert(0 <= scale * per <= 72 * 0x1000_0000) by (nonlinear_arith)
        requires
            0 <= scale <= 72,
            0 <= per <= 0x1000_0000,
    ;
    let factor: i64 = scale * per * 16;
    let l: i64 = level as i64;
    assert(0 <= l * factor <= 0x8000 * (1152 * 0x1000_0000)) by (nonlinear_arith)
        requires
            0 <= l <= 0x8000,
            0 <= factor <= 1152 * 0x1000_0000,
    ;
    let v: i64 = shr_i64(l * factor + add, shift);
    let v: i64 = if v < 0 {
        0
    } else if v > 32767 {
        32767
    } else {
        v
    };
    let e: i64 = coeff_abs - v;
    assert(0 <= e * e <= 0x8000_0000 * 0x8000_0000) by (nonlinear_arith)
        requires
            -0x8000_0000 <= e <= 0x8000_0000,
    ;
    e * e
}

/// A sum of numbers that are not negative is at least any two of them.
proof fn lemma_two_of_a_sum(n: int, f: spec_fn(int) -> int, a: int, b: int)
    requires
        0 <= a < b < n,
        forall|i: int| 0 <= i < n ==> #[trigger] f(i) >= 0,
    ensures
        arith::sum(n, f) >= f(a) + f(b),
    decreases n,
{
    if b < n - 1 {
        lemma_two_of_a_sum(n - 1, f, a, b);
    } else {
        lemma_one_of_a_sum(n - 1, f, a);
    }
}

proof fn lemma_one_of_a_sum(n: int, f: spec_fn(int) -> int, a: int)
    requires
        0 <= a < n,
        forall|i: int| 0 <= i < n ==> #[trigger] f(i) >= 0,
    ensures
        arith::sum(n, f) >= f(a),
    decreases n,
{
    if a < n - 1 {
        lemma_one_of_a_sum(n - 1, f, a);
    } else {
        lemma_not_negative(n - 1, f);
    }
}

proof fn lemma_not_negative(n: int, f: spec_fn(int) -> int)
    requires
        forall|i: int| 0 <= i < n ==> #[trigger] f(i) >= 0,
    ensures
        arith::sum(n, f) >= 0,
    decreases n,
{
    if n > 0 {
        lemma_not_negative(n - 1, f);
    }
}

/// Where the magnitudes add up to less than two no group hides a sign.
proof fn lemma_too_few_to_hide(h: signhide::Hider, l: Seq<i16>, g: int)
    requires
        h.wf(),
        h.distinct(),
        l.len() >= h.n * h.n,
        mag_sum(l, h.n * h.n) < 2,
        0 <= g < h.groups(),
    ensures
        !h.hides(l, g),
{
    if h.hides(l, g) {
        transform::lemma_area(h.n);
        let (a, b) = (h.first(l, g, 0), h.last(l, g, 16));
        signhide::lemma_first(h, l, g, 0);
        signhide::lemma_last(h, l, g, 16);
        let (p, q) = (h.at(g, a), h.at(g, b));
        signhide::lemma_at(h, g, a);
        signhide::lemma_at(h, g, b);
        if p == q {
            signhide::lemma_at_injective(h, g, a, g, b);
        }
        let f = |x: int| quant::mag(l[x] as int);
        assert(f(p) >= 1 && f(q) >= 1);
        if p < q {
            lemma_two_of_a_sum(h.n * h.n, f, p, q);
        } else {
            lemma_two_of_a_sum(h.n * h.n, f, q, p);
        }
    }
}

/// Whatever levels are chosen, in the completed block the parity of every group that
/// hides a sign says what the sign of its first non-zero level is, and no level has the
/// sign opposite to its coefficient.
pub proof fn law_completed_levels_carry_the_sign(h: signhide::Hider, l: Seq<i16>)
    requires
        h.wf(),
        h.distinct(),
        l.len() >= h.n * h.n,
        h.signs_ok(l),
    ensures
        forall|g: int| 0 <= g < h.groups() ==> #[trigger] h.agrees(maybe_hidden(h, l), g),
        h.signs_ok(maybe_hidden(h, l)),
{
    if mag_sum(l, h.n * h.n) >= 2 {
        signhide::law_parity_carries_the_sign(h, l);
    } else {
        assert forall|g: int| 0 <= g < h.groups() implies #[trigger] h.agrees(
            maybe_hidden(h, l),
            g,
        ) by {
            lemma_too_few_to_hide(h, l, g);
        }
    }
}

/// Every place of a block comes in its scan.
proof fn lemma_scan_covers(h: signhide::Hider, p: int) -> (k: int)
    requires
        h.wf(),
        h.distinct(),
        0 <= p < h.n * h.n,
    ensures
        0 <= k < h.n * h.n,
        h.at(k / 16, k % 16) == p,
{
    transform::lemma_area(h.n);
    let n = h.n * h.n;
    let places = Seq::new(n as nat, |k: int| h.at(k / 16, k % 16));
    assert forall|i: int, j: int| 0 <= i < places.len() && 0 <= j < places.len() && i != j implies
        places[i] != places[j] by {
        if places[i] == places[j] {
            signhide::lemma_at_injective(h, i / 16, i % 16, j / 16, j % 16);
        }
    }
    places.unique_seq_to_set();
    let (set, range) = (places.to_set(), vstd::set_lib::set_int_range(0, n));
    vstd::set_lib::lemma_int_range(0, n);
    assert forall|x: int| set.contains(x) implies range.contains(x) by {
        let i = choose|i: int| 0 <= i < places.len() && places[i] == x;
        signhide::lemma_at(h, i / 16, i % 16);
    }
    vstd::set_lib::lemma_subset_equality(set, range);
    assert(set.contains(p));
    choose|k: int| 0 <= k < places.len() && places[k] == p
}

/// Magnitudes chosen by level selection, given signs and cut off at `last`: what
/// position `k` of the scan holds.
pub open spec fn signed_level(h: signhide::Hider, m: Seq<i16>, last: int, k: int) -> int {
    let p = h.at(k / 16, k % 16);
    if k >= last {
        0
    } else if h.coeff[p] < 0 {
        -m[p]
    } else {
        m[p] as int
    }
}

/// Completes level selection: drops every level from scan position `last` on,
/// gives the rest the signs of their coefficients, and hides signs.
pub fn finish_selected_levels(
    levels: &mut [i16],
    coeff: &[i32],
    n: usize,
    qp: u8,
    bit_depth: u8,
    scan: &[(usize, usize)],
    last: usize,
)
    requires
        hider(coeff@, n as int, scan@, qp as int, bit_depth as int, false).wf(),
        hider(coeff@, n as int, scan@, qp as int, bit_depth as int, false).distinct(),
        old(levels)@.len() >= n * n,
        forall|x: int| 0 <= x < n * n ==> #[trigger] old(levels)@[x] >= 0,
    ensures
        ({
            let h = hider(coeff@, n as int, scan@, qp as int, bit_depth as int, false);
            exists|s: Seq<i16>| #[trigger]
                maybe_hidden(h, s) == final(levels)@ && s.len() == old(levels)@.len() && (forall|
                    k: int,
                |
                    0 <= k < n * n ==> #[trigger] s[h.at(k / 16, k % 16)] == signed_level(
                        h,
                        old(levels)@,
                        last as int,
                        k,
                    )) && (forall|x: int|
                    n * n <= x < s.len() ==> #[trigger] s[x] == old(levels)@[x])
        }),
        final(levels)@.len() == old(levels)@.len(),
        ({
            let h = hider(coeff@, n as int, scan@, qp as int, bit_depth as int, false);
            &&& forall|g: int| 0 <= g < h.groups() ==> #[trigger] h.agrees(final(levels)@, g)
            &&& h.signs_ok(final(levels)@)
        }),
{
    let ghost h = hider(coeff@, n as int, scan@, qp as int, bit_depth as int, false);
    let ghost m = levels@;
    proof {
        transform::lemma_area(n as int);
    }
    let area: usize = n * n;
    for k in 0..area
        invariant
            area == n * n,
            area <= 1024,
            area == 16 * h.groups(),
            h.wf(),
            h.distinct(),
            h.n == n,
            h.scan == scan@,
            h.coeff == coeff@,
            levels@.len() == m.len(),
            m.len() >= area,
            forall|x: int| 0 <= x < area ==> #[trigger] m[x] >= 0,
            forall|j: int|
                0 <= j < k ==> #[trigger] levels@[h.at(j / 16, j % 16)] == signed_level(
                    h,
                    m,
                    last as int,
                    j,
                ),
            forall|j: int|
                k <= j < area ==> #[trigger] levels@[h.at(j / 16, j % 16)] == m[h.at(
                    j / 16,
                    j % 16,
                )],
            forall|x: int| area <= x < m.len() ==> #[trigger] levels@[x] == m[x],
    {
        let p: usize = signhide::place(scan, n, k / 16, k % 16, Ghost(h));
        let ghost before = levels@;
        assert(levels@[h.at(k as int / 16, k as int % 16)] == m[p as int]);
        assert(m[p as int] >= 0);
        if k >= last {
            levels[p] = 0;
        } else if coeff[p] < 0 {
            levels[p] = -levels[p];
        }
        proof {
            assert forall|j: int| 0 <= j < area && j != k implies #[trigger] levels@[h.at(
                j / 16,
                j % 16,
            )] == before[h.at(j / 16, j % 16)] by {
                signhide::lemma_at(h, j / 16, j % 16);
                if h.at(j / 16, j % 16) == p {
                    signhide::lemma_at_injective(h, j / 16, j % 16, k as int / 16, k as int % 16);
                }
            }
        }
    }
    let ghost s = levels@;
    proof {
        assert forall|p: int| 0 <= p < n * n && #[trigger] s[p] != 0 implies (s[p] < 0) == (
        h.coeff[p] < 0) by {
            let k = lemma_scan_covers(h, p);
            assert(s[h.at(k / 16, k % 16)] == signed_level(h, m, last as int, k));
            assert(m[p] >= 0);
        }
        law_completed_levels_carry_the_sign(h, s);
    }
    apply_sign_hiding_to_levels(levels, coeff, n, qp, bit_depth, scan);
    assert(maybe_hidden(h, s) == levels@);
}

} // verus!
