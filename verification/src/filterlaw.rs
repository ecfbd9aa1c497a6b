//! What the edge filters keep to: how far they move samples, what they leave, and that both
//! sides of an edge are treated alike.
use crate::edgefilter;
use crate::edgefilter::{Choice, Line};
use vstd::prelude::*;

verus! {

/// The samples across an edge are in range.
pub open spec fn in_range(l: Line, max_val: int) -> bool {
    forall|j: int| -4 <= j < 4 ==> 0 <= #[trigger] l(j) <= max_val
}

/// A filtered sample stays in range and moves by at most twice the limit, by the limit next to
/// the edge or half of it one further for the normal filter; the outermost are left, and so is
/// all where nothing is chosen.
pub proof fn law_samples_move_within_the_limit(l: Line, c: Choice, tc: int, max_val: int, j: int)
    requires
        in_range(l, max_val),
        -4 <= j < 4,
        0 <= tc,
    ensures
        ({
            let moved = edgefilter::luma_out(l, c, tc, max_val, j) - l(j);
            &&& 0 <= edgefilter::luma_out(l, c, tc, max_val, j) <= max_val
            &&& match c {
                Choice::Off => moved == 0,
                Choice::Strong => {
                    &&& -(2 * tc) <= moved <= 2 * tc
                    &&& j == -4 || j == 3 ==> moved == 0
                },
                Choice::Normal { before, after } => {
                    &&& j == -1 || j == 0 ==> -tc <= moved <= tc
                    &&& j == -2 || j == 1 ==> -tc <= 2 * moved <= tc
                    &&& j < -2 || j > 1 ==> moved == 0
                    &&& j == -2 && !before ==> moved == 0
                    &&& j == 1 && !after ==> moved == 0
                },
            }
        }),
        ({
            let moved = edgefilter::chroma_out(l, tc, max_val, j) - l(j);
            &&& 0 <= edgefilter::chroma_out(l, tc, max_val, j) <= max_val
            &&& -tc <= moved <= tc
            &&& j != -1 && j != 0 ==> moved == 0
        }),
{
    assert(0 <= l(-4) <= max_val && 0 <= l(-3) <= max_val);
    assert(0 <= l(-2) <= max_val && 0 <= l(-1) <= max_val);
    assert(0 <= l(0) <= max_val && 0 <= l(1) <= max_val);
    assert(0 <= l(2) <= max_val && 0 <= l(3) <= max_val);
    assert(j == -4 || j == -3 || j == -2 || j == -1 || j == 0 || j == 1 || j == 2 || j == 3);
}

/// An even slope across an edge is left as it is by the normal filter, and by the strong one next
/// to the edge; a flat line is left by both.
pub proof fn law_slopes_are_left(l: Line, c: Choice, tc: int, max_val: int, j: int, a: int, b: int)
    requires
        in_range(l, max_val),
        forall|k: int| -4 <= k < 4 ==> #[trigger] l(k) == a + b * k,
        -4 <= j < 4,
        0 <= tc,
        c is Strong ==> b == 0 || j == -1 || j == 0,
    ensures
        edgefilter::luma_out(l, c, tc, max_val, j) == l(j),
{
    assert(l(-4) == a - 4 * b && l(-3) == a - 3 * b) by {
        assert(b * (-4) == -4 * b && b * (-3) == -3 * b) by (nonlinear_arith);
    }
    assert(l(-2) == a - 2 * b && l(-1) == a - b) by {
        assert(b * (-2) == -2 * b && b * (-1) == -b) by (nonlinear_arith);
    }
    assert(l(0) == a && l(1) == a + b) by {
        assert(b * 0 == 0 && b * 1 == b) by (nonlinear_arith);
    }
    assert(l(2) == a + 2 * b && l(3) == a + 3 * b) by {
        assert(b * 2 == 2 * b && b * 3 == 3 * b) by (nonlinear_arith);
    }
    assert(0 <= l(-4) <= max_val && 0 <= l(-3) <= max_val);
    assert(0 <= l(-2) <= max_val && 0 <= l(-1) <= max_val);
    assert(0 <= l(0) <= max_val && 0 <= l(1) <= max_val);
    assert(0 <= l(2) <= max_val && 0 <= l(3) <= max_val);
    assert(j == -4 || j == -3 || j == -2 || j == -1 || j == 0 || j == 1 || j == 2 || j == 3);
}

/// Two lines are each other's mirror image at the edge.
pub open spec fn mirrored(l: Line, m: Line) -> bool {
    forall|j: int| -4 <= j < 4 ==> #[trigger] m(j) == l(-1 - j)
}

/// The strong filter treats both sides of an edge alike, and what is chosen for an edge is
/// chosen for its mirror image, with the sides exchanged.
pub proof fn law_both_sides_are_treated_alike(
    l: Line,
    m: Line,
    l3: Line,
    m3: Line,
    beta: int,
    tc: int,
    max_val: int,
    j: int,
)
    requires
        mirrored(l, m),
        mirrored(l3, m3),
        -4 <= j < 4,
    ensures
        edgefilter::strong(m, tc, max_val, j) == edgefilter::strong(l, tc, max_val, -1 - j),
        edgefilter::choice(m, m3, beta, tc) == (match edgefilter::choice(l, l3, beta, tc) {
            Choice::Off => Choice::Off,
            Choice::Strong => Choice::Strong,
            Choice::Normal { before, after } => Choice::Normal { before: after, after: before },
        }),
{
    assert(m(-4) == l(3) && m(-3) == l(2) && m(-2) == l(1) && m(-1) == l(0));
    assert(m(0) == l(-1) && m(1) == l(-2) && m(2) == l(-3) && m(3) == l(-4));
    assert(m3(-4) == l3(3) && m3(-3) == l3(2) && m3(-2) == l3(1) && m3(-1) == l3(0));
    assert(m3(0) == l3(-1) && m3(1) == l3(-2) && m3(2) == l3(-3) && m3(3) == l3(-4));
    assert(j == -4 || j == -3 || j == -2 || j == -1 || j == 0 || j == 1 || j == 2 || j == 3);
}

} // verus!
