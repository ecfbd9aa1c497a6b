//! What hiding a sign costs: one level of a group moves by one, the one whose move costs the
//! least.
use crate::quant;
use crate::quant::QUANT_SCALE;
use crate::quantlaw;
use crate::signhide;
use crate::signhide::Hider;
use vstd::arithmetic::power2::*;
use vstd::prelude::*;

verus! {

/// The change that is made is one that may be made, and none that may be made costs less; there
/// is none exactly where no change may be made.
pub proof fn law_the_cheapest_change_is_made(h: Hider, l: Seq<i16>, g: int, i: int, top: int)
    ensures
        match h.best(l, g, i, top) {
            Some(b) => {
                &&& i <= b.pos <= top
                &&& h.candidate(l, g, b.pos) == Some(b)
                &&& forall|k: int|
                    i <= k <= top ==> (#[trigger] h.candidate(l, g, k) matches Some(c) ==> b.cost
                        <= c.cost)
            },
            None => forall|k: int| i <= k <= top ==> #[trigger] h.candidate(l, g, k) is None,
        },
    decreases top + 1 - i,
{
    if i <= top {
        law_the_cheapest_change_is_made(h, l, g, i + 1, top);
        assert(h.candidate(l, g, i) matches Some(c) ==> c.pos == i);
    }
}

/// A level moves towards its coefficient and is the cheaper to move the farther it is from it;
/// the first level of a group does not vanish, and none appears before it with the other sign.
pub proof fn law_a_change_goes_towards_the_coefficient(h: Hider, l: Seq<i16>, g: int, i: int)
    ensures
        h.candidate(l, g, i) matches Some(c) ==> {
            &&& c.pos == i
            &&& c.by == 1 || c.by == -1
            &&& c.by == 1 ==> c.cost == -h.delta(l, g, i)
            &&& c.by == -1 ==> c.cost == h.delta(l, g, i)
            &&& h.level(l, g, i) != 0 ==> (c.by == 1 <==> h.delta(l, g, i) > 0)
            &&& h.level(l, g, i) == 0 ==> c.by == 1
            &&& c.by == -1 ==> !(i == h.first(l, g, 0) && (h.level(l, g, i) == 1 || h.level(l, g, i)
                == -1))
            &&& h.level(l, g, i) == 0 && i < h.first(l, g, 0) ==> (h.coeff[h.at(g, i)] < 0)
                == h.sign(l, g)
        },
        h.candidate(l, g, i) is None ==> {
            ||| h.level(l, g, i) == 0 && i < h.first(l, g, 0)
            ||| i == h.first(l, g, 0) && (h.level(l, g, i) == 1 || h.level(l, g, i) == -1)
        },
{
}

/// How far a coefficient is from its level is measured in 256ths of a unit.
pub proof fn law_distances_are_in_parts_of_a_unit(h: Hider, l: Seq<i16>, g: int, i: int, log2: int)
    requires
        2 <= log2 <= 5,
        h.n == quantlaw::side_of(log2),
        0 <= h.qp <= 173,
        8 <= h.bit_depth <= 15,
    ensures
        ({
            let c = h.coeff[h.at(g, i)] as int;
            let unit = pow2((29 + h.qp / 6 - h.bit_depth - log2) as nat) as int;
            let size = (if c < 0 {
                -c
            } else {
                c
            }) * QUANT_SCALE@[h.qp % 6];
            let v = h.level(l, g, i);
            let m = if h.rounded {
                quant::raw_level(c, h.n, h.qp, h.bit_depth)
            } else if v < 0 {
                -v
            } else {
                v
            };
            let d = h.delta(l, g, i);
            unit * d <= 256 * (size - m * unit) < unit * d + unit
        }),
{
    quantlaw::lemma_side(log2);
    let bits = 29 + h.qp / 6 - h.bit_depth - log2;
    let part = pow2((bits - 8) as nat) as int;
    let unit = pow2(bits as nat) as int;
    lemma_pow2_adds((bits - 8) as nat, 8);
    lemma2_to64();
    lemma_pow2_pos((bits - 8) as nat);
    let c = h.coeff[h.at(g, i)] as int;
    let v = h.level(l, g, i);
    let m = if h.rounded {
        quant::raw_level(c, h.n, h.qp, h.bit_depth)
    } else {
        quant::mag(v)
    };
    let far = quant::scaled(c, h.qp) - m * unit;
    quantlaw::lemma_fits(far, part);
    let d = h.delta(l, g, i);
    assert(unit * d == 256 * (part * d)) by (nonlinear_arith)
        requires
            unit == part * 256,
    ;
}

/// At most one level of a group moves, by one.
pub proof fn law_one_level_moves_by_one(
    h: Hider,
    l: Seq<i16>,
    g: int,
    last_group: bool,
    p: int,
    q: int,
)
    requires
        h.wf(),
        0 <= g < h.groups(),
        h.n * h.n <= l.len(),
        0 <= p < l.len(),
        0 <= q < l.len(),
        p != q,
    ensures
        ({
            let m = h.group_hidden(l, g, last_group);
            h.best(
                l,
                g,
                0,
                if last_group {
                    h.last(l, g, 16)
                } else {
                    15
                },
            ) is Some ==> {
                &&& m.len() == l.len()
                &&& m[p] == l[p] || m[q] == l[q]
                &&& -1 <= m[p] - l[p] <= 1
            }
        }),
{
    let top = if last_group {
        h.last(l, g, 16)
    } else {
        15
    };
    law_the_cheapest_change_is_made(h, l, g, 0, top);
    let best = h.best(l, g, 0, top);
    if best is Some {
        let i = (best->0).pos;
        signhide::lemma_last(h, l, g, 16);
        signhide::lemma_at(h, g, i);
        law_a_change_goes_towards_the_coefficient(h, l, g, i);
    }
}

} // verus!
