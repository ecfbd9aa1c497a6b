//! What the predictions make of their edges.
use crate::arith;
use crate::intra;
use crate::intra::{Edges, INTRA_PRED_ANGLE, INV_ANGLE};
use crate::transform;
use vstd::prelude::*;

verus! {

/// All samples of an edge of a block of side `n`, twice as long as it, are the same.
pub open spec fn all_are(edge: Seq<u16>, n: int, v: u16) -> bool {
    forall|i: int| 0 <= i <= 2 * n ==> #[trigger] edge[i] == v
}

/// Even edges predict an even block in every mode.
pub proof fn law_even_edges_predict_even_blocks(
    mode: int,
    v: u16,
    above: Seq<u16>,
    left: Seq<u16>,
    n: int,
    edge: bool,
    max_val: int,
    row: int,
    col: int,
)
    requires
        0 <= mode <= 34,
        transform::is_size(n),
        0 <= row < n,
        0 <= col < n,
        v <= max_val,
        all_are(above, n, v),
        all_are(left, n, v),
    ensures
        intra::pred_at(mode, v, above, left, n, edge, max_val, row, col) == v,
{
    let x = v as int;
    if mode == 0 {
        let (p, q) = (n - 1 - col, n - 1 - row);
        assert(p * x + (col + 1) * x + q * x + (row + 1) * x == 2 * n * x) by (nonlinear_arith)
            requires
                p == n - 1 - col,
                q == n - 1 - row,
        ;
        lemma_share(n, x);
    } else if mode == 1 {
        let f = |i: int| above[i] + left[i];
        assert forall|i: int| 0 <= i < n implies #[trigger] f(i) == 2 * x by {}
        arith::lemma_sum_constant(n, f, 2 * x);
        assert((2 * x) * n == 2 * n * x) by (nonlinear_arith);
        lemma_share(n, x);
    } else {
        let e = intra::edges(v, above, left, mode);
        let (p, q) = if mode >= 18 {
            (row, col)
        } else {
            (col, row)
        };
        let pos = (p + 1) * e.angle();
        let f = pos % 32;
        let i = q + pos / 32 + 1;
        intra::lemma_line_reach(mode, n, p, q);
        lemma_line(e, n, v, i);
        if f != 0 {
            lemma_line(e, n, v, i + 1);
        }
        assert((32 - f) * x + f * x == 32 * x) by (nonlinear_arith);
        assert(e.at(p, q) == x);
    }
}

/// Every sample of the line that a direction reads.
proof fn lemma_line(e: Edges, n: int, v: u16, i: int)
    requires
        2 <= e.mode <= 34,
        transform::is_size(n),
        e.corner == v,
        all_are(e.main, n, v),
        all_are(e.side, n, v),
        i <= 2 * n,
        i >= 0 || n * INTRA_PRED_ANGLE@[e.mode] <= 32 * (i - 1) + 31,
    ensures
        e.line(i) == v,
{
    if i < 0 {
        intra::lemma_projection(e.mode, n, i);
    }
}

proof fn lemma_share(n: int, x: int)
    requires
        1 <= n,
    ensures
        (2 * n * x + n) / (2 * n) == x,
{
    assert(2 * n * x == x * (2 * n)) by (nonlinear_arith);
    vstd::arithmetic::div_mod::lemma_fundamental_div_mod_converse(2 * n * x + n, 2 * n, x, n);
}

/// Exchanging the edges turns a planar block and a flat one at the diagonal.
pub proof fn law_exchanged_edges_turn_the_smooth_blocks(
    above: Seq<u16>,
    left: Seq<u16>,
    n: int,
    edge: bool,
    row: int,
    col: int,
)
    requires
        0 <= row < n,
        0 <= col < n,
    ensures
        intra::planar_at(above, left, n, row, col) == intra::planar_at(left, above, n, col, row),
        intra::dc_at(above, left, n, edge, row, col) == intra::dc_at(
            left,
            above,
            n,
            edge,
            col,
            row,
        ),
{
    let (f, g) = (|i: int| above[i] + left[i], |i: int| left[i] + above[i]);
    arith::lemma_sum_ext(n, f, g);
}

/// The straight directions copy their edge, and the diagonal ones shift it by one a row.
pub proof fn law_straight_directions_copy_the_edge(
    corner: u16,
    above: Seq<u16>,
    left: Seq<u16>,
    n: int,
    max_val: int,
    row: int,
    col: int,
)
    requires
        0 <= row < n,
        0 <= col < n,
    ensures
        intra::pred_at(26, corner, above, left, n, false, max_val, row, col) == above[col],
        intra::pred_at(10, corner, above, left, n, false, max_val, row, col) == left[row],
        intra::pred_at(34, corner, above, left, n, false, max_val, row, col) == above[row + col + 1],
        intra::pred_at(2, corner, above, left, n, false, max_val, row, col) == left[row + col + 1],
{
    assert(INTRA_PRED_ANGLE@[26] == 0 && INTRA_PRED_ANGLE@[10] == 0);
    assert(INTRA_PRED_ANGLE@[34] == 32 && INTRA_PRED_ANGLE@[2] == 32);
    assert((row + 1) * 0 == 0 && (col + 1) * 0 == 0);
    assert(((row + 1) * 32) % 32 == 0 && ((row + 1) * 32) / 32 == row + 1);
    assert(((col + 1) * 32) % 32 == 0 && ((col + 1) * 32) / 32 == col + 1);
}

/// Directions are mirrored at the diagonal, grow steeper the farther they are from the straight
/// ones, and the inverse of one is the integer nearest to what makes 8192 with it.
pub proof fn law_angles_and_their_inverses(mode: int)
    requires
        2 <= mode <= 34,
    ensures
        INTRA_PRED_ANGLE@[mode] == INTRA_PRED_ANGLE@[36 - mode],
        18 <= mode < 34 ==> INTRA_PRED_ANGLE@[mode] < INTRA_PRED_ANGLE@[mode + 1],
        11 <= mode <= 25 ==> ({
            let (a, i) = (INTRA_PRED_ANGLE@[mode] as int, INV_ANGLE@[mode] as int);
            &&& -32 <= a < 0
            &&& a <= 2 * (a * i - 8192) <= -a
        }),
{
    lemma_angle(mode);
    lemma_angle(36 - mode);
    if mode < 34 {
        lemma_angle(mode + 1);
    }
}

/// The angle of a mode by how far it is from the straight one.
pub open spec fn angle_by_distance(d: int) -> int {
    if d == 0 {
        0
    } else if d == 1 {
        2
    } else if d == 2 {
        5
    } else if d == 3 {
        9
    } else if d == 4 {
        13
    } else if d == 5 {
        17
    } else if d == 6 {
        21
    } else if d == 7 {
        26
    } else {
        32
    }
}

#[verifier::spinoff_prover]
proof fn lemma_angle(mode: int)
    requires
        2 <= mode <= 34,
    ensures
        18 <= mode <= 26 ==> INTRA_PRED_ANGLE@[mode] == -angle_by_distance(26 - mode),
        26 <= mode <= 34 ==> INTRA_PRED_ANGLE@[mode] == angle_by_distance(mode - 26),
        2 <= mode <= 10 ==> INTRA_PRED_ANGLE@[mode] == angle_by_distance(10 - mode),
        10 <= mode <= 18 ==> INTRA_PRED_ANGLE@[mode] == -angle_by_distance(mode - 10),
        11 <= mode <= 25 ==> {
            let (a, i) = (INTRA_PRED_ANGLE@[mode] as int, INV_ANGLE@[mode] as int);
            a <= 2 * (a * i - 8192) <= -a
        },
{
    if mode == 11 || mode == 25 {
        assert(-2 * -4096 == 8192);
    } else if mode == 12 || mode == 24 {
        assert(-5 * -1638 == 8190);
    } else if mode == 13 || mode == 23 {
        assert(-9 * -910 == 8190);
    } else if mode == 14 || mode == 22 {
        assert(-13 * -630 == 8190);
    } else if mode == 15 || mode == 21 {
        assert(-17 * -482 == 8194);
    } else if mode == 16 || mode == 20 {
        assert(-21 * -390 == 8190);
    } else if mode == 17 || mode == 19 {
        assert(-26 * -315 == 8190);
    } else if mode == 18 {
        assert(-32 * -256 == 8192);
    }
}

} // verus!
