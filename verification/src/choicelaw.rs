//! What the choices of a block come to: when quarters pay, and how many candidates are tried.
use crate::activity;
use crate::arith;
use crate::candidates;
use crate::candidates::IntraModeCandidate;
use crate::cost;
use crate::gridsum;
use crate::nxn;
use crate::nxn::Quarter;
use crate::shortlist::COARSE_MODES;
use vstd::prelude::*;

verus! {

/// Sample `(r, c)` of quarter `q` of an eight by eight block, the upper quarters first.
pub open spec fn sample_of(block: Seq<u16>, q: int, r: int, c: int) -> int {
    let (down, right) = (
        if q >= 2 {
            4int
        } else {
            0
        },
        if q % 2 == 1 {
            4int
        } else {
            0
        },
    );
    block[8 * (down + r) + right + c] as int
}

proof fn lemma_place(q: int, k: int)
    requires
        0 <= q < 4,
        0 <= k < 16,
    ensures
        ({
            let (down, right) = (
                if q >= 2 {
                    4int
                } else {
                    0
                },
                if q % 2 == 1 {
                    4int
                } else {
                    0
                },
            );
            nxn::place(q, k) == 8 * (down + k / 4) + right + k % 4
        }),
{
    assert(q == 0 || q == 1 || q == 2 || q == 3);
}

proof fn lemma_quarter_sums(orig: Seq<u16>, pred: Seq<u16>, q: int)
    requires
        0 <= q < 4,
    ensures
        ({
            let m = nxn::quarter(orig, pred, q);
            let sum = arith::sum(16, |k: int| nxn::residual(orig, pred, q, k));
            &&& m.total == arith::sum(16, |k: int| cost::abs(nxn::residual(orig, pred, q, k)))
            &&& m.mean == nxn::sixteenth(sum)
            &&& m.centred == arith::sum(
                16,
                |k: int| cost::abs(nxn::residual(orig, pred, q, k) - m.mean),
            )
            &&& m.across == arith::sum(16, |k: int| nxn::step_x(orig, q, k))
            &&& m.down == arith::sum(16, |k: int| nxn::step_y(orig, q, k))
        }),
{
    let f = |k: int| nxn::residual(orig, pred, q, k);
    let a = |k: int| cost::abs(nxn::residual(orig, pred, q, k));
    let mean = nxn::sixteenth(arith::sum(16, f));
    let d = |k: int| cost::abs(nxn::residual(orig, pred, q, k) - mean);
    let x = |k: int| nxn::step_x(orig, q, k);
    let y = |k: int| nxn::step_y(orig, q, k);
    arith::lemma_sum_bound(16, f, 65535);
    arith::lemma_sum_bound(16, a, 65535);
    arith::lemma_sum_bound(16, d, 131071);
    arith::lemma_sum_bound(16, x, 65535);
    arith::lemma_sum_bound(16, y, 65535);
    gridsum::lemma_sum_none(16, a);
    gridsum::lemma_sum_none(16, d);
    gridsum::lemma_sum_none(16, x);
    gridsum::lemma_sum_none(16, y);
}

/// A sample is at its place.
proof fn lemma_sample(block: Seq<u16>, q: int, r: int, c: int)
    requires
        0 <= q < 4,
        0 <= r < 4,
        0 <= c < 4,
    ensures
        sample_of(block, q, r, c) == block[nxn::place(q, 4 * r + c)],
        (4 * r + c) / 4 == r,
        (4 * r + c) % 4 == c,
        nxn::place(q, 4 * r + c) - 1 == nxn::place(q, 4 * r + (c - 1)) || c == 0,
        nxn::place(q, 4 * r + c) - 8 == nxn::place(q, 4 * (r - 1) + c) || r == 0,
{
    lemma_place(q, 4 * r + c);
    if c > 0 {
        lemma_place(q, 4 * r + (c - 1));
    }
    if r > 0 {
        lemma_place(q, 4 * (r - 1) + c);
    }
}

/// A quarter has no residual exactly where its samples are predicted as they are; its mean is
/// within half of the sum's sixteenth; and nothing is left once the mean is taken off exactly
/// where every residual is the mean.
pub proof fn law_a_quarter_measures_its_residual(orig: Seq<u16>, pred: Seq<u16>, q: int)
    requires
        0 <= q < 4,
    ensures
        ({
            let m = nxn::quarter(orig, pred, q);
            let sum = arith::sum(16, |k: int| nxn::residual(orig, pred, q, k));
            &&& m.total == 0 <==> forall|r: int, c: int|
                0 <= r < 4 && 0 <= c < 4 ==> #[trigger] sample_of(orig, q, r, c) == sample_of(
                    pred,
                    q,
                    r,
                    c,
                )
            &&& -8 <= 16 * m.mean - sum <= 8
            &&& m.centred == 0 <==> forall|r: int, c: int|
                0 <= r < 4 && 0 <= c < 4 ==> #[trigger] sample_of(orig, q, r, c) - sample_of(
                    pred,
                    q,
                    r,
                    c,
                ) == m.mean
        }),
{
    let m = nxn::quarter(orig, pred, q);
    lemma_quarter_sums(orig, pred, q);
    let a = |k: int| cost::abs(nxn::residual(orig, pred, q, k));
    let d = |k: int| cost::abs(nxn::residual(orig, pred, q, k) - m.mean);
    gridsum::lemma_sum_none(16, a);
    gridsum::lemma_sum_none(16, d);
    lemma_all_samples(orig, pred, q, a, 0);
    lemma_all_samples(orig, pred, q, d, m.mean as int);
}

proof fn lemma_all_samples(
    orig: Seq<u16>,
    pred: Seq<u16>,
    q: int,
    a: spec_fn(int) -> int,
    mean: int,
)
    requires
        0 <= q < 4,
        forall|k: int|
            0 <= k < 16 ==> (#[trigger] a(k) == 0 <==> nxn::residual(orig, pred, q, k) == mean),
    ensures
        (forall|k: int| 0 <= k < 16 ==> #[trigger] a(k) == 0) <==> (forall|r: int, c: int|
            0 <= r < 4 && 0 <= c < 4 ==> #[trigger] sample_of(orig, q, r, c) - sample_of(
                pred,
                q,
                r,
                c,
            ) == mean),
{
    if forall|k: int| 0 <= k < 16 ==> #[trigger] a(k) == 0 {
        assert forall|r: int, c: int| 0 <= r < 4 && 0 <= c < 4 implies #[trigger] sample_of(
            orig,
            q,
            r,
            c,
        ) - sample_of(pred, q, r, c) == mean by {
            lemma_sample(orig, q, r, c);
            lemma_sample(pred, q, r, c);
            assert(a(4 * r + c) == 0);
        }
    }
    if forall|r: int, c: int|
        0 <= r < 4 && 0 <= c < 4 ==> #[trigger] sample_of(orig, q, r, c) - sample_of(pred, q, r, c)
            == mean {
        assert forall|k: int| 0 <= k < 16 implies #[trigger] a(k) == 0 by {
            let (r, c) = (k / 4, k % 4);
            lemma_sample(orig, q, r, c);
            lemma_sample(pred, q, r, c);
            assert(4 * r + c == k);
            assert(sample_of(orig, q, r, c) - sample_of(pred, q, r, c) == mean);
        }
    }
}

/// A quarter has no steps across exactly where its rows are even.
pub proof fn law_even_rows_have_no_steps_across(orig: Seq<u16>, pred: Seq<u16>, q: int)
    requires
        0 <= q < 4,
    ensures
        nxn::quarter(orig, pred, q).across == 0 <==> forall|r: int, c: int|
            0 <= r < 4 && 1 <= c < 4 ==> #[trigger] sample_of(orig, q, r, c) == sample_of(
                orig,
                q,
                r,
                c - 1,
            ),
{
    lemma_quarter_sums(orig, pred, q);
    let x = |k: int| nxn::step_x(orig, q, k);
    gridsum::lemma_sum_none(16, x);
    if nxn::quarter(orig, pred, q).across == 0 {
        assert forall|r: int, c: int| 0 <= r < 4 && 1 <= c < 4 implies #[trigger] sample_of(
            orig,
            q,
            r,
            c,
        ) == sample_of(orig, q, r, c - 1) by {
            assert(x(4 * r + c) == 0);
            lemma_sample(orig, q, r, c);
            lemma_sample(orig, q, r, c - 1);
        }
    }
    if forall|r: int, c: int|
        0 <= r < 4 && 1 <= c < 4 ==> #[trigger] sample_of(orig, q, r, c) == sample_of(
            orig,
            q,
            r,
            c - 1,
        ) {
        assert forall|k: int| 0 <= k < 16 implies #[trigger] x(k) == 0 by {
            let (r, c) = (k / 4, k % 4);
            if c != 0 {
                assert(sample_of(orig, q, r, c) == sample_of(orig, q, r, c - 1));
                lemma_sample(orig, q, r, c);
                lemma_sample(orig, q, r, c - 1);
                assert(4 * r + c == k);
            }
        }
    }
}

/// A quarter has no steps down exactly where its columns are even.
pub proof fn law_even_columns_have_no_steps_down(orig: Seq<u16>, pred: Seq<u16>, q: int)
    requires
        0 <= q < 4,
    ensures
        nxn::quarter(orig, pred, q).down == 0 <==> forall|r: int, c: int|
            1 <= r < 4 && 0 <= c < 4 ==> #[trigger] sample_of(orig, q, r, c) == sample_of(
                orig,
                q,
                r - 1,
                c,
            ),
{
    lemma_quarter_sums(orig, pred, q);
    let y = |k: int| nxn::step_y(orig, q, k);
    gridsum::lemma_sum_none(16, y);
    if nxn::quarter(orig, pred, q).down == 0 {
        assert forall|r: int, c: int| 1 <= r < 4 && 0 <= c < 4 implies #[trigger] sample_of(
            orig,
            q,
            r,
            c,
        ) == sample_of(orig, q, r - 1, c) by {
            assert(y(4 * r + c) == 0);
            lemma_sample(orig, q, r, c);
            lemma_sample(orig, q, r - 1, c);
        }
    }
    if forall|r: int, c: int|
        1 <= r < 4 && 0 <= c < 4 ==> #[trigger] sample_of(orig, q, r, c) == sample_of(
            orig,
            q,
            r - 1,
            c,
        ) {
        assert forall|k: int| 0 <= k < 16 implies #[trigger] y(k) == 0 by {
            let (r, c) = (k / 4, k % 4);
            if r != 0 {
                assert(sample_of(orig, q, r, c) == sample_of(orig, q, r - 1, c));
                lemma_sample(orig, q, r, c);
                lemma_sample(orig, q, r - 1, c);
                assert(4 * r + c == k);
            }
        }
    }
}

/// A sum over the samples of rows of four.
proof fn lemma_by_rows(rows: int, f: spec_fn(int) -> int, g: spec_fn(int, int) -> int)
    requires
        0 <= rows,
        forall|r: int, c: int| 0 <= r < rows && 0 <= c < 4 ==> #[trigger] g(r, c) == f(4 * r + c),
    ensures
        arith::sum(4 * rows, f) == activity::grid(rows, 4, g),
    decreases rows,
{
    reveal_with_fuel(arith::sum, 5);
    if rows > 0 {
        lemma_by_rows(rows - 1, f, g);
        let r = rows - 1;
        let row = |c: int| g(r, c);
        assert(arith::sum(4, row) == row(0) + row(1) + row(2) + row(3));
        assert(g(r, 0) == f(4 * r) && g(r, 1) == f(4 * r + 1) && g(r, 2) == f(4 * r + 2) && g(r, 3)
            == f(4 * r + 3));
    }
}

/// The measures of a quarter are the magnitudes, over its four rows of four samples, of what
/// each sample differs by from its prediction, from that and the mean, from the sample before
/// it and from the one above it.
pub proof fn law_a_quarter_adds_up_magnitudes(orig: Seq<u16>, pred: Seq<u16>, q: int)
    requires
        0 <= q < 4,
    ensures
        ({
            let m = nxn::quarter(orig, pred, q);
            let left = |r: int, c: int| sample_of(orig, q, r, c) - sample_of(pred, q, r, c);
            let before = |r: int, c: int|
                sample_of(orig, q, r, c) - sample_of(
                    orig,
                    q,
                    r,
                    if c == 0 {
                        0
                    } else {
                        c - 1
                    },
                );
            let above = |r: int, c: int|
                sample_of(orig, q, r, c) - sample_of(
                    orig,
                    q,
                    if r == 0 {
                        0
                    } else {
                        r - 1
                    },
                    c,
                );
            &&& m.total == activity::grid(4, 4, |r: int, c: int| cost::abs(left(r, c)))
            &&& m.centred == activity::grid(4, 4, |r: int, c: int| cost::abs(left(r, c) - m.mean))
            &&& m.across == activity::grid(4, 4, |r: int, c: int| cost::abs(before(r, c)))
            &&& m.down == activity::grid(4, 4, |r: int, c: int| cost::abs(above(r, c)))
            &&& -8 <= 16 * m.mean - activity::grid(4, 4, left) <= 8
        }),
{
    let m = nxn::quarter(orig, pred, q);
    lemma_quarter_sums(orig, pred, q);
    let left = |r: int, c: int| sample_of(orig, q, r, c) - sample_of(pred, q, r, c);
    let before = |r: int, c: int|
        sample_of(orig, q, r, c) - sample_of(
            orig,
            q,
            r,
            if c == 0 {
                0
            } else {
                c - 1
            },
        );
    let above = |r: int, c: int|
        sample_of(orig, q, r, c) - sample_of(
            orig,
            q,
            if r == 0 {
                0
            } else {
                r - 1
            },
            c,
        );
    let e = |k: int| nxn::residual(orig, pred, q, k);
    let a = |k: int| cost::abs(nxn::residual(orig, pred, q, k));
    let d = |k: int| cost::abs(nxn::residual(orig, pred, q, k) - m.mean);
    let x = |k: int| nxn::step_x(orig, q, k);
    let y = |k: int| nxn::step_y(orig, q, k);
    assert forall|r: int, c: int| 0 <= r < 4 && 0 <= c < 4 implies #[trigger] left(r, c) == e(
        4 * r + c,
    ) && cost::abs(before(r, c)) == x(4 * r + c) && cost::abs(above(r, c)) == y(4 * r + c) by {
        lemma_sample(orig, q, r, c);
        lemma_sample(pred, q, r, c);
        if c > 0 {
            lemma_sample(orig, q, r, c - 1);
        }
        if r > 0 {
            lemma_sample(orig, q, r - 1, c);
        }
    }
    lemma_by_rows(4, e, left);
    let la = |r: int, c: int| cost::abs(left(r, c));
    let ld = |r: int, c: int| cost::abs(left(r, c) - m.mean);
    let lx = |r: int, c: int| cost::abs(before(r, c));
    let ly = |r: int, c: int| cost::abs(above(r, c));
    assert forall|r: int, c: int| 0 <= r < 4 && 0 <= c < 4 implies #[trigger] lx(r, c) == x(
        4 * r + c,
    ) by {
        assert(left(r, c) == e(4 * r + c));
    }
    assert forall|r: int, c: int| 0 <= r < 4 && 0 <= c < 4 implies #[trigger] ly(r, c) == y(
        4 * r + c,
    ) by {
        assert(left(r, c) == e(4 * r + c));
    }
    lemma_by_rows(4, a, la);
    lemma_by_rows(4, d, ld);
    lemma_by_rows(4, x, lx);
    lemma_by_rows(4, y, ly);
}

/// Two quarters of a block whose direction is told by enough steps differ in it by more than
/// a third.
pub open spec fn directions_differ(a: Quarter, b: Quarter, scale: int) -> bool {
    let (s, t) = (a.across + a.down, b.across + b.down);
    &&& s >= 12 * scale
    &&& t >= 12 * scale
    &&& (256 * a.across + s / 2) / s >= (256 * b.across + t / 2) / t + 88
}

/// Quarters pay exactly where taking off the means saves more than the floor, more than eight
/// steps of the eight bit scale and at least fifteen parts in a hundred, and two means are
/// five steps apart, or there are steps enough and two directions.
pub proof fn law_quarters_pay_for_what_they_save(m: Seq<Quarter>, gain_floor: int, scale: int)
    requires
        m.len() == 4,
        scale >= 1,
        forall|i: int| 0 <= i < 4 ==> (#[trigger] m[i]).bounded(),
    ensures
        ({
            let total = m[0].total + m[1].total + m[2].total + m[3].total;
            let centred = m[0].centred + m[1].centred + m[2].centred + m[3].centred;
            let across = m[0].across + m[1].across + m[2].across + m[3].across;
            let down = m[0].down + m[1].down + m[2].down + m[3].down;
            nxn::pays(m, gain_floor, scale) <==> {
                &&& centred + gain_floor < total
                &&& centred + 8 * scale < total
                &&& 100 * centred <= 85 * total
                &&& {
                    ||| exists|i: int, j: int|
                        0 <= i < 4 && 0 <= j < 4 && (#[trigger] m[i]).mean >= (#[trigger] m[j]).mean
                            + 5 * scale
                    ||| across + down >= 64 * scale && exists|i: int, j: int|
                        0 <= i < 4 && 0 <= j < 4 && directions_differ(
                            #[trigger] m[i],
                            #[trigger] m[j],
                            scale,
                        )
                }
            }
        }),
{
    let w = |i: int| m[i].mean as int;
    let spread = nxn::spread(w(0), w(1), w(2), w(3));
    if spread >= 5 * scale {
        let top = nxn::highest(w(0), w(1), w(2), w(3));
        let low = nxn::highest(-w(0), -w(1), -w(2), -w(3));
        let i = if w(0) == top {
            0int
        } else if w(1) == top {
            1
        } else if w(2) == top {
            2
        } else {
            3
        };
        let j = if -w(0) == low {
            0int
        } else if -w(1) == low {
            1
        } else if -w(2) == low {
            2
        } else {
            3
        };
        assert(m[i].mean >= m[j].mean + 5 * scale);
    }
    assert forall|i: int, j: int| 0 <= i < 4 && 0 <= j < 4 implies spread >= (#[trigger] m[i]).mean
        - (#[trigger] m[j]).mean by {
        assert(i == 0 || i == 1 || i == 2 || i == 3);
        assert(j == 0 || j == 1 || j == 2 || j == 3);
    }
    assert forall|i: int, j: int| 0 <= i < 4 && 0 <= j < 4 implies (nxn::directed(
        #[trigger] m[i],
        scale,
    ) && nxn::directed(#[trigger] m[j], scale) && m[i].orientation() - m[j].orientation() >= 88)
        == directions_differ(m[i], m[j], scale) by {
        assert(m[i].across * 256 == 256 * m[i].across);
    }
    if nxn::mixed(m, scale) {
        let (i, j) = choose|i: int, j: int|
            0 <= i < 4 && 0 <= j < 4 && nxn::directed(#[trigger] m[i], scale) && nxn::directed(
                #[trigger] m[j],
                scale,
            ) && m[i].orientation() - m[j].orientation() >= 88;
        assert(directions_differ(m[i], m[j], scale));
    }
}

/// Of two modes or more two are tried in full, and of an eight by eight block a third exactly
/// where its cost is within the limit.
pub proof fn law_a_third_mode_is_tried_within_the_limit(
    s: Seq<IntraModeCandidate>,
    size: int,
    limit: u64,
)
    ensures
        ({
            let n = candidates::full_count(s, size, limit);
            &&& n <= s.len()
            &&& n <= 3
            &&& s.len() >= 2 ==> n >= 2
            &&& s.len() < 2 ==> n == s.len()
            &&& n == 3 <==> size == 8 && s.len() > 2 && s[2].cost <= limit
        }),
{
}

/// The modes that are measured at first are the two without a direction and every fourth
/// direction, so that each direction is at most two from a measured one.
pub proof fn law_coarse_modes_are_near_every_direction(mode: int)
    requires
        2 <= mode <= 34,
    ensures
        COARSE_MODES@[0] == 0,
        COARSE_MODES@[1] == 1,
        exists|i: int|
            2 <= i < 11 && -2 <= #[trigger] COARSE_MODES@[i] - mode <= 2,
        forall|i: int|
            2 <= i < 11 ==> 2 <= #[trigger] COARSE_MODES@[i] <= 34 && COARSE_MODES@[i] == 4 * i - 6,
{
    let k = (mode + 8) / 4;
    assert(k == 2 || k == 3 || k == 4 || k == 5 || k == 6 || k == 7 || k == 8 || k == 9 || k == 10);
    assert(-2 <= COARSE_MODES@[k] - mode <= 2);
}

} // verus!
