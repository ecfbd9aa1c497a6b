//! Two decoders that start from different planes come to agree, block by block.
use crate::commit::{ChromaBlock, LumaBlock};
use crate::fmt::ChromaFormat;
use crate::frame::Frame;
use crate::order;
use crate::refs;
use crate::transform;
use vstd::prelude::*;

verus! {

/// Coding tree units in a row.
pub open spec fn across(f: Frame) -> int {
    f.w as int / 64
}

/// Two luma planes have the same samples in all that comes before `t`.
pub open spec fn luma_agrees(f: Frame, p: Seq<u16>, q: Seq<u16>, t: int) -> bool {
    &&& p.len() == f.w * f.h
    &&& q.len() == f.w * f.h
    &&& forall|r: int, c: int|
        0 <= r < f.h && 0 <= c < f.w && #[trigger] order::time(r, c, across(f)) < t ==> p[r * f.w
            + c] == q[r * f.w + c]
}

/// A luma block is predicted from samples that come before it.
proof fn lemma_luma_line(f: Frame, b: LumaBlock, p: Seq<u16>, q: Seq<u16>)
    requires
        f.wf(),
        order::is_side(b.min_pu as int),
        f.luma_fits(b.row as int, b.col as int, b.n as int),
        luma_agrees(f, p, q, order::time(b.row as int, b.col as int, across(f))),
    ensures
        b.pred(f, p) == b.pred(f, q),
{
    let g = f.luma_geo_of(b.row as int, b.col as int, b.n as int, b.min_pu as int);
    let (x, y) = (g.line(p), g.line(q));
    assert forall|k: int| 0 <= k < x.len() implies #[trigger] x[k] == y[k] by {
        let at = refs::ref_pos(b.row as int, b.col as int, b.n as int, k);
        if g.available(at.0, at.1) {
            order::lemma_before(
                at.0,
                at.1,
                b.row as int,
                b.col as int,
                b.min_pu as int,
                across(f),
            );
        }
    }
    assert(x =~= y);
}

/// After a luma block two decoders agree on it too.
pub proof fn lemma_luma_block(f: Frame, b: LumaBlock, levels: Seq<i16>, p: Seq<u16>, q: Seq<u16>)
    requires
        f.wf(),
        order::is_side(b.min_pu as int),
        b.n == 4 || b.n == 8 || b.n == 16 || b.n == 32,
        b.row as int % b.n as int == 0,
        b.col as int % b.n as int == 0,
        f.luma_fits(b.row as int, b.col as int, b.n as int),
        luma_agrees(f, p, q, order::time(b.row as int, b.col as int, across(f))),
    ensures
        luma_agrees(
            f,
            b.after(f, p, levels),
            b.after(f, q, levels),
            order::time(b.row as int, b.col as int, across(f)) + order::area(b.n as int),
        ),
{
    lemma_luma_line(f, b, p, q);
    let (w, n) = (f.w as int, b.n as int);
    let (row, col) = (b.row as int, b.col as int);
    let t = order::time(row, col, across(f));
    let (u, v) = (b.after(f, p, levels), b.after(f, q, levels));
    assert forall|r: int, c: int|
        0 <= r < f.h && 0 <= c < f.w && #[trigger] order::time(r, c, across(f)) < t + order::area(
            n,
        ) implies u[r * f.w + c] == v[r * f.w + c] by {
        transform::lemma_at(r, c, w);
        refs::lemma_inside(r, c, w, f.h as int);
        assert(f.h * f.w == f.w * f.h) by (nonlinear_arith);
        order::lemma_square(r, c, row, col, n, across(f));
    }
}

/// The time of the luma that a chroma sample lies beneath.
pub open spec fn chroma_time(f: Frame, r: int, c: int) -> int {
    let (sw, sh) = (f.chroma.spec_sub_w(), f.chroma.spec_sub_h());
    order::time(r * sh, c * sw, across(f))
}

/// Two chroma planes have the same samples in all that comes before `t`.
pub open spec fn chroma_agrees(f: Frame, p: Seq<u16>, q: Seq<u16>, t: int) -> bool {
    &&& p.len() == f.cw * f.ch
    &&& q.len() == f.cw * f.ch
    &&& forall|r: int, c: int|
        0 <= r < f.ch && 0 <= c < f.cw && #[trigger] chroma_time(f, r, c) < t ==> p[r * f.cw + c]
            == q[r * f.cw + c]
}

/// A chroma block lies beneath whole luma squares, and stands for them in coding
/// order.
pub open spec fn chroma_placed(f: Frame, b: ChromaBlock) -> bool {
    let (sw, sh) = (f.chroma.spec_sub_w(), f.chroma.spec_sub_h());
    let (n, p) = (b.n as int, b.min_pu as int);
    &&& !(f.chroma is Monochrome)
    &&& n == 4 || n == 8 || n == 16 || n == 32
    &&& f.chroma_fits(b.row as int, b.col as int, n)
    &&& b.lrow == b.row * sh
    &&& b.lcol == b.col * sw
    &&& order::is_side(p)
    &&& b.lcol as int % p == 0
    &&& b.lrow as int % p == 0 || (p >= 8 && b.lrow as int % p == p / 2)
    &&& match f.chroma {
        ChromaFormat::Yuv444 => b.lrow as int % n == 0 && b.lcol as int % n == 0,
        ChromaFormat::Yuv422 => n <= 16 && b.lrow as int % n == 0 && b.lcol as int % (2 * n) == 0,
        _ => n <= 16 && b.lrow as int % (2 * n) == 0 && b.lcol as int % (2 * n) == 0,
    }
}

/// How many 4x4 luma blocks lie above a chroma block.
pub open spec fn chroma_area(f: Frame, n: int) -> int {
    match f.chroma {
        ChromaFormat::Yuv444 => order::area(n),
        ChromaFormat::Yuv422 => order::areas(2, n),
        _ => order::area(2 * n),
    }
}

/// In the lower half of a square of side `p`, all of the upper half comes before.
proof fn lemma_upper_half(r: int, c: int, lrow: int, lcol: int, p: int, cx: int)
    requires
        0 <= r < lrow,
        0 <= c < 64 * cx,
        0 <= lcol < 64 * cx,
        p == 8 || p == 16 || p == 32 || p == 64,
        lcol % p == 0,
        lrow % p == p / 2,
        refs::order_of(r, c, p, 64, cx) == refs::order_of(lrow, lcol, p, 64, cx),
    ensures
        order::time(r, c, cx) < order::time(lrow, lcol, cx),
{
    let h = p / 2;
    let top = lrow - h;
    order::lemma_same_square(r, c, lrow, lcol, p, cx);
    lemma_halves(lrow, lcol, r, c, p);
    order::lemma_quarter(top, lcol, h, 1, 0, cx);
    order::lemma_quarter(top, lcol, h, 0, 1, cx);
    order::lemma_square(r, c, top, lcol, h, cx);
    if lcol + h < 64 * cx {
        order::lemma_square(r, c, top, lcol + h, h, cx);
    }
}

proof fn lemma_halves(lrow: int, lcol: int, r: int, c: int, p: int)
    requires
        0 <= r < lrow,
        0 <= c,
        0 <= lcol,
        p == 8 || p == 16 || p == 32 || p == 64,
        lcol % p == 0,
        lrow % p == p / 2,
        r / p == lrow / p,
        c / p == lcol / p,
    ensures
        ({
            let h = p / 2;
            &&& 0 <= lrow - h <= r < lrow
            &&& lcol <= c < lcol + p
            &&& (lrow - h) % p == 0
            &&& (lrow - h) % h == 0
            &&& lcol % h == 0
            &&& (lcol + h) % h == 0
            &&& h == 4 || h == 8 || h == 16 || h == 32
            &&& p == 2 * h
        }),
{
    if p == 8 {
        assert(lrow % 8 == 4 && r / 8 == lrow / 8 && c / 8 == lcol / 8 && lcol % 8 == 0);
    } else if p == 16 {
        assert(lrow % 16 == 8 && r / 16 == lrow / 16 && c / 16 == lcol / 16 && lcol % 16 == 0);
    } else if p == 32 {
        assert(lrow % 32 == 16 && r / 32 == lrow / 32 && c / 32 == lcol / 32 && lcol % 32 == 0);
    } else {
        assert(lrow % 64 == 32 && r / 64 == lrow / 64 && c / 64 == lcol / 64 && lcol % 64 == 0);
    }
}

/// What is available to a chroma block comes before it.
proof fn lemma_chroma_available(f: Frame, b: ChromaBlock, r: int, c: int)
    requires
        f.wf(),
        chroma_placed(f, b),
        f.chroma_geo_of(
            b.row as int,
            b.col as int,
            b.n as int,
            b.min_pu as int,
            b.lrow as int,
            b.lcol as int,
        ).available(r, c),
    ensures
        chroma_time(f, r, c) < chroma_time(f, b.row as int, b.col as int),
{
    let (sw, sh) = (f.chroma.spec_sub_w(), f.chroma.spec_sub_h());
    let p = b.min_pu as int;
    let (lr, lc) = (r * sh, c * sw);
    assert(sw == 1 || sw == 2);
    assert(sh == 1 || sh == 2);
    let here = refs::order_of(b.lrow as int, b.lcol as int, p, 64, across(f));
    let there = refs::order_of(lr, lc, p, 64, across(f));
    assert(f.w == 64 * across(f));
    assert(0 <= lr && 0 <= lc < f.w);
    lemma_luma_inside(f, b);
    if there < here {
        order::lemma_before(lr, lc, b.lrow as int, b.lcol as int, p, across(f));
    } else {
        assert(lr < b.lrow);
        if b.lrow as int % p == 0 {
            order::lemma_same_square(lr, lc, b.lrow as int, b.lcol as int, p, across(f));
            lemma_not_above(lr, b.lrow as int, p);
        } else {
            lemma_upper_half(lr, lc, b.lrow as int, b.lcol as int, p, across(f));
        }
    }
}

proof fn lemma_not_above(r: int, row: int, p: int)
    requires
        0 <= r,
        order::is_side(p),
        row % p == 0,
        r / p == row / p,
    ensures
        row <= r,
{
    order::lemma_by(r, p);
    order::lemma_by(row, p);
}

/// The luma that a chroma block stands for is inside the picture.
proof fn lemma_luma_inside(f: Frame, b: ChromaBlock)
    requires
        f.wf(),
        chroma_placed(f, b),
    ensures
        0 <= b.lrow < f.h,
        0 <= b.lcol < f.w,
        f.w == 64 * across(f),
{
    let (sw, sh) = (f.chroma.spec_sub_w(), f.chroma.spec_sub_h());
    assert(b.row * sh < f.ch * sh) by (nonlinear_arith)
        requires
            b.row < f.ch,
            0 < sh,
    ;
    assert(b.col * sw < f.cw * sw) by (nonlinear_arith)
        requires
            b.col < f.cw,
            0 < sw,
    ;
}

/// A chroma block is predicted from samples that come before it.
proof fn lemma_chroma_line(f: Frame, b: ChromaBlock, p: Seq<u16>, q: Seq<u16>)
    requires
        f.wf(),
        chroma_placed(f, b),
        chroma_agrees(f, p, q, chroma_time(f, b.row as int, b.col as int)),
    ensures
        b.pred(f, p) == b.pred(f, q),
{
    let g = f.chroma_geo_of(
        b.row as int,
        b.col as int,
        b.n as int,
        b.min_pu as int,
        b.lrow as int,
        b.lcol as int,
    );
    let (x, y) = (g.line(p), g.line(q));
    assert forall|k: int| 0 <= k < x.len() implies #[trigger] x[k] == y[k] by {
        let at = refs::ref_pos(b.row as int, b.col as int, b.n as int, k);
        if g.available(at.0, at.1) {
            lemma_chroma_available(f, b, at.0, at.1);
        }
    }
    assert(x =~= y);
}

/// The samples of a chroma block are those whose time falls into its stretch.
proof fn lemma_chroma_square(f: Frame, b: ChromaBlock, r: int, c: int)
    requires
        f.wf(),
        chroma_placed(f, b),
        0 <= r < f.ch,
        0 <= c < f.cw,
    ensures
        ({
            let t = chroma_time(f, b.row as int, b.col as int);
            (t <= chroma_time(f, r, c) < t + chroma_area(f, b.n as int)) == (b.row <= r < b.row
                + b.n && b.col <= c < b.col + b.n)
        }),
{
    let cx = across(f);
    let (sw, sh) = (f.chroma.spec_sub_w(), f.chroma.spec_sub_h());
    let (lrow, lcol, n) = (b.lrow as int, b.lcol as int, b.n as int);
    lemma_luma_inside(f, b);
    assert(c * sw < f.w) by (nonlinear_arith)
        requires
            c < f.cw,
            0 < sw,
            f.cw * sw == f.w,
    ;
    assert(0 <= r * sh && 0 <= c * sw) by (nonlinear_arith)
        requires
            0 <= r,
            0 <= c,
            0 < sh,
            0 < sw,
    ;
    match f.chroma {
        ChromaFormat::Yuv444 => {
            order::lemma_square(r, c, lrow, lcol, n, cx);
        },
        ChromaFormat::Yuv422 => {
            lemma_beside(lrow, lcol, n, cx);
            order::lemma_square(r, 2 * c, lrow, lcol, n, cx);
            assert(lcol + n < f.w) by {
                assert(b.col + n <= f.cw);
                assert(f.cw * 2 == f.w);
            }
            order::lemma_square(r, 2 * c, lrow, lcol + n, n, cx);
        },
        _ => {
            order::lemma_square(2 * r, 2 * c, lrow, lcol, 2 * n, cx);
        },
    }
}

/// An aligned place is aligned to twice the side, or lies one side behind such a
/// place.
proof fn lemma_even_or_odd(x: int, n: int)
    requires
        0 <= x,
        n == 4 || n == 8 || n == 16,
        x % n == 0,
    ensures
        x % (2 * n) == 0 || (n <= x && (x - n) % (2 * n) == 0),
{
    order::lemma_by(x, n);
    order::lemma_by(x, 2 * n);
    order::lemma_by(x - n, 2 * n);
}

/// The right one of two squares that make up half of a larger one comes next.
proof fn lemma_beside(lrow: int, lcol: int, n: int, cx: int)
    requires
        0 <= lrow,
        0 <= lcol,
        n == 4 || n == 8 || n == 16,
        lrow % n == 0,
        lcol % (2 * n) == 0,
    ensures
        order::time(lrow, lcol + n, cx) == order::time(lrow, lcol, cx) + order::area(n),
        lcol % n == 0,
        (lcol + n) % n == 0,
{
    lemma_even_or_odd(lrow, n);
    order::lemma_finer(lcol, 2 * n, n);
    if lrow % (2 * n) == 0 {
        order::lemma_quarter(lrow, lcol, n, 0, 1, cx);
    } else {
        order::lemma_quarter(lrow - n, lcol, n, 1, 0, cx);
        order::lemma_quarter(lrow - n, lcol, n, 1, 1, cx);
    }
}

/// After a chroma block two decoders agree on it too.
pub proof fn lemma_chroma_block(f: Frame, b: ChromaBlock, levels: Seq<i16>, p: Seq<u16>, q: Seq<u16>)
    requires
        f.wf(),
        chroma_placed(f, b),
        chroma_agrees(f, p, q, chroma_time(f, b.row as int, b.col as int)),
    ensures
        chroma_agrees(
            f,
            b.after(f, p, levels),
            b.after(f, q, levels),
            chroma_time(f, b.row as int, b.col as int) + chroma_area(f, b.n as int),
        ),
{
    lemma_chroma_line(f, b, p, q);
    let t = chroma_time(f, b.row as int, b.col as int);
    let (u, v) = (b.after(f, p, levels), b.after(f, q, levels));
    assert forall|r: int, c: int|
        0 <= r < f.ch && 0 <= c < f.cw && #[trigger] chroma_time(f, r, c) < t + chroma_area(
            f,
            b.n as int,
        ) implies u[r * f.cw + c] == v[r * f.cw + c] by {
        transform::lemma_at(r, c, f.cw as int);
        refs::lemma_inside(r, c, f.cw as int, f.ch as int);
        assert(f.ch * f.cw == f.cw * f.ch) by (nonlinear_arith);
        lemma_chroma_square(f, b, r, c);
    }
}

} // verus!
