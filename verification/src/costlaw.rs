//! What the cost of a prediction comes to: how a single sample and an even difference count,
//! and that both chroma planes do.
use crate::arith;
use crate::commit::ChromaBlock;
use crate::cost;
use crate::frame;
use crate::frame::{Frame, Picture};
use crate::gridsum;
use crate::planes::Yuv;
use crate::shortlist;
use crate::tb;
use vstd::prelude::*;

verus! {

/// The differences of a four by four block.
pub open spec fn difference(
    orig: Seq<u16>,
    pred: Seq<u16>,
    n: int,
    top: int,
    left: int,
    i: int,
    j: int,
) -> int {
    orig[(top + i) * n + (left + j)] - pred[(top + i) * n + (left + j)]
}

/// The terms of a row all of whose differences but one are nothing.
proof fn lemma_row_of_one(f: spec_fn(int) -> int, j: int, d: int)
    requires
        0 <= j < 4,
        f(j) == d,
        forall|k: int| 0 <= k < 4 && k != j ==> #[trigger] f(k) == 0,
    ensures
        cost::hadamard(0, f) == d,
        cost::abs(cost::hadamard(1, f)) == cost::abs(d),
        cost::abs(cost::hadamard(2, f)) == cost::abs(d),
        cost::abs(cost::hadamard(3, f)) == cost::abs(d),
{
    assert(j == 0 || j == 1 || j == 2 || j == 3);
    if j != 0 {
        assert(f(0) == 0);
    }
    if j != 1 {
        assert(f(1) == 0);
    }
    if j != 2 {
        assert(f(2) == 0);
    }
    if j != 3 {
        assert(f(3) == 0);
    }
}

proof fn lemma_row_of_none(f: spec_fn(int) -> int, v: int)
    requires
        forall|k: int| 0 <= k < 4 ==> #[trigger] f(k) == 0,
    ensures
        cost::hadamard(v, f) == 0,
{
    assert(f(0) == 0 && f(1) == 0 && f(2) == 0 && f(3) == 0);
}

/// Four terms of a column.
spec fn column(orig: Seq<u16>, pred: Seq<u16>, n: int, top: int, left: int, v: int) -> int {
    cost::abs(cost::term(orig, pred, n, top, left, 0, v)) + cost::abs(
        cost::term(orig, pred, n, top, left, 1, v),
    ) + cost::abs(cost::term(orig, pred, n, top, left, 2, v)) + cost::abs(
        cost::term(orig, pred, n, top, left, 3, v),
    )
}

proof fn lemma_columns(orig: Seq<u16>, pred: Seq<u16>, n: int, top: int, left: int)
    ensures
        cost::satd4(orig, pred, n, top, left) == (column(orig, pred, n, top, left, 0) + column(
            orig,
            pred,
            n,
            top,
            left,
            1,
        ) + column(orig, pred, n, top, left, 2) + column(orig, pred, n, top, left, 3) + 1) / 2,
{
    let f = |v: int|
        cost::abs(cost::term(orig, pred, n, top, left, 0, v)) + cost::abs(
            cost::term(orig, pred, n, top, left, 1, v),
        ) + cost::abs(cost::term(orig, pred, n, top, left, 2, v)) + cost::abs(
            cost::term(orig, pred, n, top, left, 3, v),
        );
    reveal_with_fuel(arith::sum, 5);
    assert(arith::sum(4, f) == f(0) + f(1) + f(2) + f(3));
}

proof fn lemma_column_of_one(
    orig: Seq<u16>,
    pred: Seq<u16>,
    n: int,
    top: int,
    left: int,
    r: int,
    c: int,
    v: int,
)
    requires
        0 <= r < 4,
        0 <= c < 4,
        0 <= v < 4,
        forall|i: int, j: int|
            0 <= i < 4 && 0 <= j < 4 && (i != r || j != c) ==> #[trigger] difference(
                orig,
                pred,
                n,
                top,
                left,
                i,
                j,
            ) == 0,
    ensures
        column(orig, pred, n, top, left, v) == 4 * cost::abs(
            difference(orig, pred, n, top, left, r, c),
        ),
{
    let d = difference(orig, pred, n, top, left, r, c);
    let rows = |i: int| cost::row_term(orig, pred, n, top, left, i, v);
    assert forall|i: int| 0 <= i < 4 && i != r implies #[trigger] rows(i) == 0 by {
        let f = |j: int| cost::diff_at(orig, pred, n, top, left, i, j);
        assert forall|j: int| 0 <= j < 4 implies #[trigger] f(j) == 0 by {
            assert(difference(orig, pred, n, top, left, i, j) == 0);
        }
        lemma_row_of_none(f, v);
    }
    let f = |j: int| cost::diff_at(orig, pred, n, top, left, r, j);
    assert forall|j: int| 0 <= j < 4 && j != c implies #[trigger] f(j) == 0 by {
        assert(difference(orig, pred, n, top, left, r, j) == 0);
    }
    assert(f(c) == d);
    lemma_row_of_one(f, c, d);
    assert(v == 0 || v == 1 || v == 2 || v == 3);
    let e = rows(r);
    assert(cost::abs(e) == cost::abs(d));
    lemma_row_of_one(rows, r, e);
}

/// A four by four block with a single difference costs eight times its magnitude.
pub proof fn law_one_difference_costs_eight_times_itself(
    orig: Seq<u16>,
    pred: Seq<u16>,
    n: int,
    top: int,
    left: int,
    r: int,
    c: int,
)
    requires
        0 <= r < 4,
        0 <= c < 4,
        forall|i: int, j: int|
            0 <= i < 4 && 0 <= j < 4 && (i != r || j != c) ==> #[trigger] difference(
                orig,
                pred,
                n,
                top,
                left,
                i,
                j,
            ) == 0,
    ensures
        cost::satd4(orig, pred, n, top, left) == 8 * cost::abs(
            difference(orig, pred, n, top, left, r, c),
        ),
{
    lemma_columns(orig, pred, n, top, left);
    lemma_column_of_one(orig, pred, n, top, left, r, c, 0);
    lemma_column_of_one(orig, pred, n, top, left, r, c, 1);
    lemma_column_of_one(orig, pred, n, top, left, r, c, 2);
    lemma_column_of_one(orig, pred, n, top, left, r, c, 3);
}

/// The terms of a row of equal differences.
proof fn lemma_row_of_equals(f: spec_fn(int) -> int, v: int, d: int)
    requires
        0 <= v < 4,
        forall|k: int| 0 <= k < 4 ==> #[trigger] f(k) == d,
    ensures
        cost::hadamard(v, f) == if v == 0 {
            4 * d
        } else {
            0
        },
{
    assert(f(0) == d && f(1) == d && f(2) == d && f(3) == d);
}

proof fn lemma_even_column(
    orig: Seq<u16>,
    pred: Seq<u16>,
    n: int,
    top: int,
    left: int,
    d: int,
    v: int,
)
    requires
        0 <= v < 4,
        forall|i: int, j: int|
            0 <= i < 4 && 0 <= j < 4 ==> #[trigger] difference(orig, pred, n, top, left, i, j) == d,
    ensures
        column(orig, pred, n, top, left, v) == if v == 0 {
            16 * cost::abs(d)
        } else {
            0
        },
{
    let e = if v == 0 {
        4 * d
    } else {
        0
    };
    let rows = |i: int| cost::row_term(orig, pred, n, top, left, i, v);
    assert forall|i: int| 0 <= i < 4 implies #[trigger] rows(i) == e by {
        let f = |j: int| cost::diff_at(orig, pred, n, top, left, i, j);
        assert forall|j: int| 0 <= j < 4 implies #[trigger] f(j) == d by {
            assert(difference(orig, pred, n, top, left, i, j) == d);
        }
        lemma_row_of_equals(f, v, d);
    }
    lemma_row_of_equals(rows, 0, e);
    lemma_row_of_equals(rows, 1, e);
    lemma_row_of_equals(rows, 2, e);
    lemma_row_of_equals(rows, 3, e);
}

proof fn lemma_even_block(orig: Seq<u16>, pred: Seq<u16>, n: int, top: int, left: int, d: int)
    requires
        forall|i: int, j: int|
            0 <= i < 4 && 0 <= j < 4 ==> #[trigger] difference(orig, pred, n, top, left, i, j) == d,
    ensures
        cost::satd4(orig, pred, n, top, left) == 8 * cost::abs(d),
{
    lemma_columns(orig, pred, n, top, left);
    lemma_even_column(orig, pred, n, top, left, d, 0);
    lemma_even_column(orig, pred, n, top, left, d, 1);
    lemma_even_column(orig, pred, n, top, left, d, 2);
    lemma_even_column(orig, pred, n, top, left, d, 3);
}

/// A prediction that is off by the same everywhere costs half of that for each sample.
pub proof fn law_an_even_difference_costs_half_of_it_each(
    orig: Seq<u16>,
    pred: Seq<u16>,
    n: int,
    d: int,
)
    requires
        n == 4 || n == 8 || n == 16 || n == 32,
        forall|x: int| 0 <= x < n * n ==> #[trigger] orig[x] - pred[x] == d,
    ensures
        2 * cost::satd_of(orig, pred, n) == n * n * cost::abs(d),
{
    let m = n / 4;
    let f = |k: int| cost::satd_block(orig, pred, n, k);
    assert forall|k: int| 0 <= k < m * m implies #[trigger] f(k) == 8 * cost::abs(d) by {
        let (top, left) = ((k / m) * 4, (k % m) * 4);
        assert forall|i: int, j: int| 0 <= i < 4 && 0 <= j < 4 implies #[trigger] difference(
            orig,
            pred,
            n,
            top,
            left,
            i,
            j,
        ) == d by {
            let x = (top + i) * n + (left + j);
            assert(0 <= k / m < m && 0 <= k % m < m) by (nonlinear_arith)
                requires
                    0 <= k < m * m,
                    0 < m,
            ;
            assert(0 <= x < n * n) by (nonlinear_arith)
                requires
                    x == (top + i) * n + (left + j),
                    0 <= top + i < n,
                    0 <= left + j < n,
            ;
            assert(orig[x] - pred[x] == d);
        }
        lemma_even_block(orig, pred, n, top, left, d);
    }
    arith::lemma_sum_constant(m * m, f, 8 * cost::abs(d));
    let a = cost::abs(d);
    assert(2 * ((8 * a) * (m * m)) == n * n * a) by (nonlinear_arith)
        requires
            n == 4 * m,
    ;
}

/// Every sample of a block is predicted as it is in the source.
pub open spec fn exactly_predicted(
    b: ChromaBlock,
    f: Frame,
    src: Seq<u16>,
    plane: Seq<u16>,
) -> bool {
    forall|x: int| 0 <= x < b.n * b.n ==> #[trigger] b.source(f, src)[x] == b.pred(f, plane)[x]
}

proof fn lemma_block(b: ChromaBlock, f: Frame, src: Seq<u16>, plane: Seq<u16>)
    requires
        b.n == 4 || b.n == 8 || b.n == 16 || b.n == 32,
    ensures
        shortlist::block_satd(f, src, plane, b) >= 0,
        shortlist::block_satd(f, src, plane, b) == 0 <==> exactly_predicted(b, f, src, plane),
{
    let (s, p, n) = (b.source(f, src), b.pred(f, plane), b.n as int);
    cost::law_only_equal_blocks_cost_nothing(s, p, n);
    lemma_not_negative(s, p, n);
}

/// The cost of a chroma choice is nothing exactly where both planes of all its blocks are
/// predicted as they are.
pub proof fn law_both_chroma_planes_are_weighed(
    f: Frame,
    src: Yuv,
    pic: Picture,
    bs: Seq<ChromaBlock>,
    k: int,
)
    requires
        0 <= k <= bs.len(),
        forall|i: int|
            0 <= i < bs.len() ==> (#[trigger] bs[i]).n == 4 || bs[i].n == 8 || bs[i].n == 16
                || bs[i].n == 32,
    ensures
        shortlist::chroma_satd(f, src, pic, bs, k) >= 0,
        shortlist::chroma_satd(f, src, pic, bs, k) == 0 <==> forall|i: int|
            0 <= i < k ==> exactly_predicted(#[trigger] bs[i], f, src.cb@, pic.cb@)
                && exactly_predicted(bs[i], f, src.cr@, pic.cr@),
    decreases k,
{
    if k > 0 {
        law_both_chroma_planes_are_weighed(f, src, pic, bs, k - 1);
        let b = bs[k - 1];
        lemma_block(b, f, src.cb@, pic.cb@);
        lemma_block(b, f, src.cr@, pic.cr@);
        lemma_one_more(
            |i: int|
                exactly_predicted(bs[i], f, src.cb@, pic.cb@) && exactly_predicted(
                    bs[i],
                    f,
                    src.cr@,
                    pic.cr@,
                ),
            k,
        );
    }
}

/// What holds of all before the last, and of the last, holds of all.
proof fn lemma_one_more(p: spec_fn(int) -> bool, k: int)
    requires
        0 < k,
    ensures
        (forall|i: int| 0 <= i < k ==> #[trigger] p(i)) <==> (forall|i: int|
            0 <= i < k - 1 ==> #[trigger] p(i)) && p(k - 1),
{
}

proof fn lemma_not_negative(a: Seq<u16>, b: Seq<u16>, n: int)
    ensures
        cost::satd_of(a, b, n) >= 0,
{
    let f = |k: int| cost::satd_block(a, b, n, k);
    assert forall|k: int| #[trigger] f(k) >= 0 by {
        cost::lemma_block_not_negative(a, b, n, (k / (n / 4)) * 4, (k % (n / 4)) * 4);
    }
    gridsum::lemma_sum_none((n / 4) * (n / 4), f);
}

/// The cost of a luma mode is nothing exactly where it predicts every sample of the block as
/// the source has it.
pub proof fn law_only_exact_modes_cost_nothing(
    f: Frame,
    src: Yuv,
    y: Seq<u16>,
    row: int,
    col: int,
    n: int,
    min_pu: int,
    mode: int,
)
    requires
        n == 4 || n == 8 || n == 16 || n == 32,
    ensures
        shortlist::luma_satd(f, src, y, row, col, n, min_pu, mode) >= 0,
        shortlist::luma_satd(f, src, y, row, col, n, min_pu, mode) == 0 <==> forall|x: int|
            0 <= x < n * n ==> #[trigger] frame::source_block(
                src.y@,
                f.src_w as int,
                f.src_h as int,
                row,
                col,
                n,
            )[x] == tb::luma_pred(y, f.luma_geo_of(row, col, n, min_pu), mode, f.max())[x],
{
    let s = frame::source_block(src.y@, f.src_w as int, f.src_h as int, row, col, n);
    let p = tb::luma_pred(y, f.luma_geo_of(row, col, n, min_pu), mode, f.max());
    cost::law_only_equal_blocks_cost_nothing(s, p, n);
    lemma_not_negative(s, p, n);
}

/// Exchanging the chroma planes of the source and of the picture leaves the cost unchanged.
pub proof fn law_chroma_planes_cost_alike(
    f: Frame,
    src: Yuv,
    pic: Picture,
    turned_src: Yuv,
    turned: Picture,
    bs: Seq<ChromaBlock>,
    k: int,
)
    requires
        turned_src.cb@ == src.cr@,
        turned_src.cr@ == src.cb@,
        turned.cb@ == pic.cr@,
        turned.cr@ == pic.cb@,
    ensures
        shortlist::chroma_satd(f, turned_src, turned, bs, k) == shortlist::chroma_satd(
            f,
            src,
            pic,
            bs,
            k,
        ),
    decreases k,
{
    if k > 0 {
        law_chroma_planes_cost_alike(f, src, pic, turned_src, turned, bs, k - 1);
    }
}

} // verus!
