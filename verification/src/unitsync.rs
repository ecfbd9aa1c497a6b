//! A decoder needs nothing but the levels: whatever its planes hold at first, it
//! comes to the planes that the encoder has reconstructed.
use crate::agreement;
use crate::commit::ChromaBlock;
use crate::cu::{Cu, CuTus};
use crate::cuplan::CuPlace;
use crate::fmt::ChromaFormat;
use crate::frame::Frame;
use crate::lossless;
use crate::lossless::{ChromaTree, LumaTree};
use crate::order;
use crate::runs;
use crate::tb::Tb;
use crate::tusyntax;
use vstd::prelude::*;

verus! {

/// A square of the picture, aligned to its side.
pub open spec fn square_ok(f: Frame, row: int, col: int, size: int) -> bool {
    &&& size == 4 || size == 8 || size == 16 || size == 32
    &&& row % size == 0
    &&& col % size == 0
    &&& f.luma_fits(row, col, size)
}

/// The quarters of a square are squares, one after another.
#[verifier::spinoff_prover]
#[verifier::rlimit(60)]
pub proof fn lemma_quarters(f: Frame, row: int, col: int, size: int)
    requires
        square_ok(f, row, col, size),
        size > 4,
    ensures
        ({
            let h = size / 2;
            let t = order::time(row, col, agreement::across(f));
            &&& square_ok(f, row, col, h)
            &&& square_ok(f, row, col + h, h)
            &&& square_ok(f, row + h, col, h)
            &&& square_ok(f, row + h, col + h, h)
            &&& order::time(row, col + h, agreement::across(f)) == t + order::area(h)
            &&& order::time(row + h, col, agreement::across(f)) == t + 2 * order::area(h)
            &&& order::time(row + h, col + h, agreement::across(f)) == t + 3 * order::area(h)
            &&& order::area(size) == 4 * order::area(h)
        }),
{
    let h = size / 2;
    let cx = agreement::across(f);
    if size == 8 {
        assert(row % 4 == 0 && col % 4 == 0 && (row + 4) % 4 == 0 && (col + 4) % 4 == 0);
    } else if size == 16 {
        assert(row % 8 == 0 && col % 8 == 0 && (row + 8) % 8 == 0 && (col + 8) % 8 == 0);
    } else {
        assert(row % 16 == 0 && col % 16 == 0 && (row + 16) % 16 == 0 && (col + 16) % 16 == 0);
    }
    order::lemma_quarter(row, col, h, 0, 1, cx);
    order::lemma_quarter(row, col, h, 1, 0, cx);
    order::lemma_quarter(row, col, h, 1, 1, cx);
}

/// After the luma of a unit without loss two decoders agree on it.
#[verifier::spinoff_prover]
#[verifier::rlimit(60)]
proof fn lemma_luma_tree(
    f: Frame,
    l: LumaTree,
    row: int,
    col: int,
    size: int,
    mode: u8,
    qp: u8,
    p: Seq<u16>,
    q: Seq<u16>,
)
    requires
        f.wf(),
        square_ok(f, row, col, size),
        l.wf(size),
        agreement::luma_agrees(f, p, q, order::time(row, col, agreement::across(f))),
    ensures
        agreement::luma_agrees(
            f,
            l.after(f, p, row, col, size, mode, qp),
            l.after(f, q, row, col, size, mode, qp),
            order::time(row, col, agreement::across(f)) + order::area(size),
        ),
    decreases l,
{
    let h = size / 2;
    match l {
        LumaTree::Leaf { tb } => {
            agreement::lemma_luma_block(
                f,
                lossless::luma_block(row, col, size, mode, qp),
                tb.levels@,
                p,
                q,
            );
        },
        LumaTree::Split { q0, q1, q2, q3 } => {
            lemma_quarters(f, row, col, size);
            let (p0, r0) = (
                q0.after(f, p, row, col, h, mode, qp),
                q0.after(f, q, row, col, h, mode, qp),
            );
            lemma_luma_tree(f, *q0, row, col, h, mode, qp, p, q);
            let (p1, r1) = (
                q1.after(f, p0, row, col + h, h, mode, qp),
                q1.after(f, r0, row, col + h, h, mode, qp),
            );
            lemma_luma_tree(f, *q1, row, col + h, h, mode, qp, p0, r0);
            let (p2, r2) = (
                q2.after(f, p1, row + h, col, h, mode, qp),
                q2.after(f, r1, row + h, col, h, mode, qp),
            );
            lemma_luma_tree(f, *q2, row + h, col, h, mode, qp, p1, r1);
            lemma_luma_tree(f, *q3, row + h, col + h, h, mode, qp, p2, r2);
        },
    }
}

/// After the luma of a unit two decoders agree on it.
#[verifier::spinoff_prover]
#[verifier::rlimit(60)]
pub proof fn lemma_cu_luma(f: Frame, cu: Cu, lossless: bool, p: Seq<u16>, q: Seq<u16>)
    requires
        f.wf(),
        cu.wf(f, lossless),
        agreement::luma_agrees(
            f,
            p,
            q,
            order::time(cu.place.row as int, cu.place.col as int, agreement::across(f)),
        ),
    ensures
        agreement::luma_agrees(
            f,
            cu.luma_after(f, p),
            cu.luma_after(f, q),
            order::time(cu.place.row as int, cu.place.col as int, agreement::across(f))
                + order::area(cu.place.size as int),
        ),
{
    let (row, col, size) = (cu.place.row as int, cu.place.col as int, cu.place.size as int);
    assert(square_ok(f, row, col, size));
    let bs = cu.place.luma_blocks(f, cu.choice);
    let ts = cu.tus.ys();
    match cu.tus {
        CuTus::Lossless { luma, .. } => {
            lemma_luma_tree(
                f,
                luma,
                row,
                col,
                size,
                cu.choice.luma_mode(0),
                cu.place.luma_qp(f) as u8,
                p,
                q,
            );
        },
        CuTus::Whole { .. } => {
            assert(ts.len() == 1);
            reveal_with_fuel(runs::luma_after, 2);
            agreement::lemma_luma_block(f, bs[0], ts[0].levels@, p, q);
        },
        CuTus::Quarters { .. } => {
            assert(ts.len() == 4);
            lemma_quarters(f, row, col, size);
            lemma_four_luma(f, cu, p, q, 0);
            lemma_four_luma(f, cu, p, q, 1);
            lemma_four_luma(f, cu, p, q, 2);
            lemma_four_luma(f, cu, p, q, 3);
        },
    }
}

/// The next luma block of a unit that is cut in four.
#[verifier::spinoff_prover]
#[verifier::rlimit(60)]
proof fn lemma_four_luma(f: Frame, cu: Cu, p: Seq<u16>, q: Seq<u16>, i: int)
    requires
        f.wf(),
        cu.place.ok(f),
        cu.choice.quartered(),
        0 <= i < 4,
        ({
            let bs = cu.place.luma_blocks(f, cu.choice);
            let t = order::time(cu.place.row as int, cu.place.col as int, agreement::across(f));
            agreement::luma_agrees(
                f,
                runs::luma_after(f, p, bs, cu.tus.ys(), i),
                runs::luma_after(f, q, bs, cu.tus.ys(), i),
                t + i * order::area(cu.place.size as int / 2),
            )
        }),
    ensures
        ({
            let bs = cu.place.luma_blocks(f, cu.choice);
            let t = order::time(cu.place.row as int, cu.place.col as int, agreement::across(f));
            agreement::luma_agrees(
                f,
                runs::luma_after(f, p, bs, cu.tus.ys(), i + 1),
                runs::luma_after(f, q, bs, cu.tus.ys(), i + 1),
                t + (i + 1) * order::area(cu.place.size as int / 2),
            )
        }),
{
    let (row, col, size) = (cu.place.row as int, cu.place.col as int, cu.place.size as int);
    let bs = cu.place.luma_blocks(f, cu.choice);
    let ts = cu.tus.ys();
    assert(square_ok(f, row, col, size));
    lemma_quarters(f, row, col, size);
    let h = size / 2;
    let a = order::area(h);
    assert(bs[i] == cu.place.luma_quarter(f, cu.choice.luma_mode(i), i));
    assert((i / 2) * h == (if i >= 2 {
        h
    } else {
        0
    }) && (i % 2) * h == (if i == 1 || i == 3 {
        h
    } else {
        0
    })) by (nonlinear_arith)
        requires
            0 <= i < 4,
    ;
    assert((i + 1) * a == i * a + a && (i == 0 ==> i * a == 0) && (i == 1 ==> i * a == a) && (i == 2
        ==> i * a == 2 * a) && (i == 3 ==> i * a == 3 * a)) by (nonlinear_arith);
    agreement::lemma_luma_block(
        f,
        bs[i],
        ts[i].levels@,
        runs::luma_after(f, p, bs, ts, i),
        runs::luma_after(f, q, bs, ts, i),
    );
}

/// Chroma block `t` beneath the luma square at `(row, col)`, counted downwards.
pub open spec fn beneath(f: Frame, row: int, col: int, size: int, t: int, b: ChromaBlock) -> bool {
    let (sw, sh) = (f.chroma.spec_sub_w(), f.chroma.spec_sub_h());
    &&& b.row == row / sh + t * (size / sw)
    &&& b.col == col / sw
    &&& b.n == size / sw
    &&& b.lrow == row + t * (size / sw) * sh
    &&& b.lcol == col
    &&& b.min_pu == 4 || (b.min_pu == 8 && size >= 8) || b.min_pu == size
}

/// Where the next chroma block starts.
pub open spec fn step(f: Frame, size: int) -> int {
    if f.chroma is Yuv422 {
        order::areas(2, size / 2)
    } else {
        order::area(size)
    }
}

/// The chroma blocks beneath a square come one after another.
#[verifier::spinoff_prover]
#[verifier::rlimit(60)]
proof fn lemma_beneath(f: Frame, row: int, col: int, size: int, t: int, b: ChromaBlock)
    requires
        f.wf(),
        !(f.chroma is Monochrome),
        square_ok(f, row, col, size),
        size >= 8 || f.chroma is Yuv444,
        0 <= t < tusyntax::stacked(f.chroma),
        beneath(f, row, col, size, t, b),
    ensures
        agreement::chroma_placed(f, b),
        agreement::chroma_time(f, b.row as int, b.col as int) == order::time(
            row,
            col,
            agreement::across(f),
        ) + t * step(f, size),
        agreement::chroma_area(f, b.n as int) == step(f, size),
        tusyntax::stacked(f.chroma) * step(f, size) == order::area(size),
{
    let cx = agreement::across(f);
    lemma_even(row, col, size, b.min_pu as int);
    match f.chroma {
        ChromaFormat::Yuv444 => {
            assert(t == 0 && f.chroma.spec_sub_w() == 1 && f.chroma.spec_sub_h() == 1);
            assert(row / 1 == row && col / 1 == col && size / 1 == size);
            assert(t * size == 0 && t * (size / 1) * 1 == 0 && t * step(f, size) == 0)
                by (nonlinear_arith)
                requires
                    t == 0,
            ;
            assert(b.row == row && b.col == col && b.n == size && b.lrow == row);
            assert(f.cw * 1 == f.w && f.ch * 1 == f.h);
        },
        ChromaFormat::Yuv422 => {
            lemma_even_half(row, size, b.min_pu as int);
            let h = size / 2;
            assert(f.chroma.spec_sub_w() == 2 && f.chroma.spec_sub_h() == 1);
            assert(row / 1 == row);
            let e = step(f, size);
            assert(t * h == (if t == 1 { h } else { 0 }) && t * h * 1 == t * h && t * e == (if t
                == 1 { e } else { 0 })) by (nonlinear_arith)
                requires
                    t == 0 || t == 1,
            ;
            assert(b.n == h && b.lrow == row + t * h && b.row == row + t * h && b.col * 2 == col);
            assert(f.cw * 2 == f.w && f.ch * 1 == f.h);
            order::lemma_quarter(row, col, h, 1, 0, cx);
        },
        _ => {
            assert(t == 0 && f.chroma.spec_sub_w() == 2 && f.chroma.spec_sub_h() == 2);
            let h = size / 2;
            assert(t * h == 0 && t * h * 2 == 0 && t * step(f, size) == 0) by (nonlinear_arith)
                requires
                    t == 0,
            ;
            assert(b.n == h && b.lrow == row && b.row * 2 == row && b.col * 2 == col);
            assert(f.cw * 2 == f.w && f.ch * 2 == f.h);
        },
    }
}

#[verifier::spinoff_prover]
#[verifier::rlimit(60)]
proof fn lemma_even(row: int, col: int, size: int, p: int)
    requires
        size == 4 || size == 8 || size == 16 || size == 32,
        row % size == 0,
        col % size == 0,
        p == 4 || (p == 8 && size >= 8) || p == size,
    ensures
        row % p == 0,
        col % p == 0,
        size >= 8 ==> (row / 2) * 2 == row && (col / 2) * 2 == col && 2 * (size / 2) == size && row
            % (size / 2) == 0,
{
    order::lemma_finer(row, size, p);
    order::lemma_finer(col, size, p);
    if size >= 8 {
        lemma_even_side(row, size);
        lemma_even_side(col, size);
        order::lemma_finer(row, size, size / 2);
    }
}

#[verifier::spinoff_prover]
#[verifier::rlimit(60)]
proof fn lemma_even_side(x: int, size: int)
    requires
        size == 8 || size == 16 || size == 32,
        x % size == 0,
    ensures
        (x / 2) * 2 == x,
        (size / 2) * 2 == size,
{
    if size == 8 {
        lemma_halves(x);
    } else if size == 16 {
        lemma_halves(x);
    } else {
        lemma_halves(x);
    }
}

#[verifier::spinoff_prover]
#[verifier::rlimit(60)]
proof fn lemma_halves(x: int)
    requires
        x % 8 == 0 || x % 16 == 0 || x % 32 == 0,
    ensures
        (x / 2) * 2 == x,
{
}

#[verifier::spinoff_prover]
#[verifier::rlimit(60)]
proof fn lemma_even_half(row: int, size: int, p: int)
    requires
        size == 8 || size == 16 || size == 32,
        row % size == 0,
        p == 4 || p == 8 || p == size,
    ensures
        ({
            let r = row + size / 2;
            &&& r % p == 0 || (p >= 8 && r % p == p / 2)
            &&& r % (size / 2) == 0
        }),
{
    let r = row + size / 2;
    order::lemma_finer(row, size, size / 2);
    order::lemma_by(row, size);
    order::lemma_by(r, p);
}

/// After the chroma of a square without loss two decoders agree on it.
#[verifier::spinoff_prover]
#[verifier::rlimit(60)]
proof fn lemma_stack(
    f: Frame,
    ts: Seq<Tb>,
    row: int,
    col: int,
    size: int,
    mode: u8,
    qp: u8,
    p: Seq<u16>,
    q: Seq<u16>,
    k: int,
)
    requires
        f.wf(),
        !(f.chroma is Monochrome),
        square_ok(f, row, col, size),
        size >= 8 || f.chroma is Yuv444,
        0 <= k <= tusyntax::stacked(f.chroma),
        agreement::chroma_agrees(f, p, q, order::time(row, col, agreement::across(f))),
    ensures
        agreement::chroma_agrees(
            f,
            lossless::stack_after(f, p, ts, row, col, size, mode, qp, k),
            lossless::stack_after(f, q, ts, row, col, size, mode, qp, k),
            order::time(row, col, agreement::across(f)) + k * step(f, size),
        ),
    decreases k,
{
    if k > 0 {
        lemma_stack(f, ts, row, col, size, mode, qp, p, q, k - 1);
        let b = lossless::chroma_block(row, col, size, k - 1, f.chroma, mode, qp);
        lemma_fields(f, row, col, size, k - 1);
        lemma_beneath(f, row, col, size, k - 1, b);
        agreement::lemma_chroma_block(
            f,
            b,
            ts[k - 1].levels@,
            lossless::stack_after(f, p, ts, row, col, size, mode, qp, k - 1),
            lossless::stack_after(f, q, ts, row, col, size, mode, qp, k - 1),
        );
        let s = step(f, size);
        assert((k - 1) * s + s == k * s) by (nonlinear_arith);
    } else {
        let s = step(f, size);
        assert(k * s == 0) by (nonlinear_arith)
            requires
                k == 0,
        ;
    }
}

/// The fields of a chroma block have room.
#[verifier::spinoff_prover]
#[verifier::rlimit(60)]
pub proof fn lemma_fields(f: Frame, row: int, col: int, size: int, t: int)
    requires
        f.wf(),
        !(f.chroma is Monochrome),
        square_ok(f, row, col, size),
        0 <= t < tusyntax::stacked(f.chroma),
    ensures
        ({
            let (sw, sh) = (f.chroma.spec_sub_w(), f.chroma.spec_sub_h());
            &&& 0 <= row / sh + t * (size / sw) <= 0x4000_0000
            &&& 0 <= col / sw <= 0x4000_0000
            &&& 0 <= size / sw <= 64
            &&& 0 <= row + t * (size / sw) * sh <= 0x4000_0000
        }),
{
    let (sw, sh) = (f.chroma.spec_sub_w(), f.chroma.spec_sub_h());
    assert(sw == 1 || sw == 2);
    assert(sh == 1 || sh == 2);
    let n = size / sw;
    assert(0 <= n <= 64 && 0 <= row / sh <= row && 0 <= col / sw <= col) by (nonlinear_arith)
        requires
            n == size / sw,
            sw == 1 || sw == 2,
            sh == 1 || sh == 2,
            0 <= size <= 32,
            0 <= row,
            0 <= col,
    ;
    assert(0 <= t * n <= 64 && 0 <= t * n * sh <= 128) by (nonlinear_arith)
        requires
            t == 0 || t == 1,
            0 <= n <= 64,
            sh == 1 || sh == 2,
    ;
}

/// After the chroma of a unit without loss two decoders agree on it.
#[verifier::spinoff_prover]
#[verifier::rlimit(60)]
proof fn lemma_chroma_tree(
    f: Frame,
    ch: ChromaTree,
    l: LumaTree,
    first: bool,
    row: int,
    col: int,
    size: int,
    mode: u8,
    qp: u8,
    p: Seq<u16>,
    q: Seq<u16>,
)
    requires
        f.wf(),
        !(f.chroma is Monochrome),
        square_ok(f, row, col, size),
        size >= 8 || f.chroma is Yuv444,
        l.wf(size),
        ch.wf(size, f.chroma),
        ch.follows(l, size, f.chroma),
        agreement::chroma_agrees(f, p, q, order::time(row, col, agreement::across(f))),
    ensures
        agreement::chroma_agrees(
            f,
            ch.after(first, f, p, row, col, size, mode, qp),
            ch.after(first, f, q, row, col, size, mode, qp),
            order::time(row, col, agreement::across(f)) + order::area(size),
        ),
    decreases ch,
{
    let h = size / 2;
    match ch {
        ChromaTree::Leaf { cb, cr } => {
            let ts = if first {
                cb@
            } else {
                cr@
            };
            let k = tusyntax::stacked(f.chroma);
            lemma_stack(f, ts, row, col, size, mode, qp, p, q, k);
            lemma_fields(f, row, col, size, 0);
            lemma_beneath(
                f,
                row,
                col,
                size,
                0,
                lossless::chroma_block(row, col, size, 0, f.chroma, mode, qp),
            );
        },
        ChromaTree::Split { q0, q1, q2, q3 } => {
            match l {
                LumaTree::Leaf { .. } => {},
                LumaTree::Split { q0: l0, q1: l1, q2: l2, q3: l3 } => {
                    lemma_quarters(f, row, col, size);
                    let p0 = q0.after(first, f, p, row, col, h, mode, qp);
                    let r0 = q0.after(first, f, q, row, col, h, mode, qp);
                    lemma_chroma_tree(f, *q0, *l0, first, row, col, h, mode, qp, p, q);
                    let p1 = q1.after(first, f, p0, row, col + h, h, mode, qp);
                    let r1 = q1.after(first, f, r0, row, col + h, h, mode, qp);
                    lemma_chroma_tree(f, *q1, *l1, first, row, col + h, h, mode, qp, p0, r0);
                    let p2 = q2.after(first, f, p1, row + h, col, h, mode, qp);
                    let r2 = q2.after(first, f, r1, row + h, col, h, mode, qp);
                    lemma_chroma_tree(f, *q2, *l2, first, row + h, col, h, mode, qp, p1, r1);
                    lemma_chroma_tree(f, *q3, *l3, first, row + h, col + h, h, mode, qp, p2, r2);
                },
            }
        },
    }
}

/// A chroma block comes at time `t` and takes `e`.
#[verifier::opaque]
spec fn in_turn(f: Frame, b: ChromaBlock, t: int, e: int) -> bool {
    &&& agreement::chroma_placed(f, b)
    &&& agreement::chroma_time(f, b.row as int, b.col as int) == t
    &&& agreement::chroma_area(f, b.n as int) == e
}

/// Two decoders agree on a block that comes next.
#[verifier::spinoff_prover]
#[verifier::rlimit(60)]
proof fn lemma_turn(f: Frame, b: ChromaBlock, levels: Seq<i16>, p: Seq<u16>, q: Seq<u16>, t: int, e: int)
    requires
        f.wf(),
        in_turn(f, b, t, e),
        agreement::chroma_agrees(f, p, q, t),
    ensures
        agreement::chroma_agrees(f, b.after(f, p, levels), b.after(f, q, levels), t + e),
{
    reveal(in_turn);
    agreement::lemma_chroma_block(f, b, levels, p, q);
}

/// After chroma blocks that come one after another two decoders agree on them.
#[verifier::spinoff_prover]
#[verifier::rlimit(60)]
proof fn lemma_chroma_run(
    f: Frame,
    bs: Seq<ChromaBlock>,
    ts: Seq<Tb>,
    p: Seq<u16>,
    q: Seq<u16>,
    t: int,
    e: int,
    k: int,
)
    requires
        f.wf(),
        0 <= k,
        forall|j: int| 0 <= j < k ==> in_turn(f, #[trigger] bs[j], t + j * e, e),
        agreement::chroma_agrees(f, p, q, t),
    ensures
        agreement::chroma_agrees(
            f,
            runs::chroma_after(f, p, bs, ts, k),
            runs::chroma_after(f, q, bs, ts, k),
            t + k * e,
        ),
    decreases k,
{
    if k > 0 {
        lemma_chroma_run(f, bs, ts, p, q, t, e, k - 1);
        let (u, v) = (
            runs::chroma_after(f, p, bs, ts, k - 1),
            runs::chroma_after(f, q, bs, ts, k - 1),
        );
        lemma_turn(f, bs[k - 1], ts[k - 1].levels@, u, v, t + (k - 1) * e, e);
        assert((k - 1) * e + e == k * e) by (nonlinear_arith);
    } else {
        assert(k * e == 0) by (nonlinear_arith)
            requires
                k == 0,
        ;
    }
}

/// A block of a unit whose chroma is not cut comes in its turn.
#[verifier::spinoff_prover]
#[verifier::rlimit(60)]
proof fn lemma_whole_turn(f: Frame, place: CuPlace, mode: u8, t: int)
    requires
        f.wf(),
        !(f.chroma is Monochrome),
        place.ok(f),
        0 <= t < tusyntax::stacked(f.chroma),
    ensures
        ({
            let e = step(f, place.size as int);
            &&& in_turn(
                f,
                place.chroma_whole(f, mode, t),
                order::time(place.row as int, place.col as int, agreement::across(f)) + t * e,
                e,
            )
            &&& tusyntax::stacked(f.chroma) * e == order::area(place.size as int)
        }),
{
    let (row, col, size) = (place.row as int, place.col as int, place.size as int);
    assert(square_ok(f, row, col, size));
    lemma_fields(f, row, col, size, t);
    let b = place.chroma_whole(f, mode, t);
    assert(beneath(f, row, col, size, t, b));
    lemma_beneath(f, row, col, size, t, b);
    reveal(in_turn);
}

/// Where quarter `i` of a square starts, and block `s` in it.
#[verifier::spinoff_prover]
#[verifier::rlimit(60)]
proof fn lemma_corner(i: int, side: int, s: int)
    requires
        0 <= i < 4,
        0 <= s < 2,
    ensures
        (i / 2) * side * 2 == (if i >= 2 {
            2 * side
        } else {
            0
        }),
        (i % 2) * side == (if i == 1 || i == 3 {
            side
        } else {
            0
        }),
        s * side == (if s == 1 {
            side
        } else {
            0
        }),
        s * side * 1 == s * side,
{
    if i == 0 {
    } else if i == 1 {
    } else if i == 2 {
        assert((i / 2) * side == side) by (nonlinear_arith)
            requires
                i == 2,
        ;
    } else {
        assert((i / 2) * side == side) by (nonlinear_arith)
            requires
                i == 3,
        ;
    }
    assert((i / 2 == 0 ==> (i / 2) * side * 2 == 0) && (i % 2 == 1 ==> (i % 2) * side == side) && (i
        % 2 == 0 ==> (i % 2) * side == 0)) by (nonlinear_arith);
    assert((s == 0 ==> s * side == 0) && (s == 1 ==> s * side == side)) by (nonlinear_arith);
}

/// What a factor of one does.
proof fn lemma_by_one(x: int, d: int)
    by (nonlinear_arith)
    requires
        d == 1,
    ensures
        x / d == x,
        x % d == 0,
        x * d == x,
{
}

/// What a factor of two does.
proof fn lemma_by_two(x: int, d: int)
    by (nonlinear_arith)
    requires
        d == 2,
    ensures
        x / d == x / 2,
        x % d == x % 2,
        x * d == 2 * x,
{
}

/// Where quarter `i` of a unit starts.
spec fn quarter_row(place: CuPlace, i: int) -> int {
    place.row + (if i >= 2 {
        place.size as int / 2
    } else {
        0
    })
}

spec fn quarter_col(place: CuPlace, i: int) -> int {
    place.col + (if i == 1 || i == 3 {
        place.size as int / 2
    } else {
        0
    })
}

/// The quarters of a unit come one after another.
#[verifier::spinoff_prover]
#[verifier::rlimit(60)]
proof fn lemma_quarter_square(f: Frame, place: CuPlace, i: int)
    requires
        f.wf(),
        place.ok(f),
        0 <= i < 4,
    ensures
        ({
            let h = place.size as int / 2;
            let (row, col) = (quarter_row(place, i), quarter_col(place, i));
            &&& square_ok(f, row, col, h)
            &&& order::time(row, col, agreement::across(f)) == order::time(
                place.row as int,
                place.col as int,
                agreement::across(f),
            ) + i * order::area(h)
        }),
{
    let (row0, col0, size) = (place.row as int, place.col as int, place.size as int);
    assert(square_ok(f, row0, col0, size));
    lemma_quarters(f, row0, col0, size);
    let a = order::area(size / 2);
    assert((i == 0 ==> i * a == 0) && (i == 1 ==> i * a == a) && (i == 2 ==> i * a == 2 * a) && (i
        == 3 ==> i * a == 3 * a)) by (nonlinear_arith);
}

/// A chroma block of a quarter lies beneath that quarter, in 4:2:2.
#[verifier::spinoff_prover]
#[verifier::rlimit(60)]
proof fn lemma_beneath_stacked(f: Frame, place: CuPlace, mode: u8, i: int, s: int)
    requires
        f.wf(),
        f.chroma is Yuv422,
        place.size == 16 || place.size == 32,
        0 <= i < 4,
        0 <= s < 2,
        square_ok(f, place.row as int, place.col as int, place.size as int),
        square_ok(f, quarter_row(place, i), quarter_col(place, i), place.size as int / 2),
    ensures
        beneath(
            f,
            quarter_row(place, i),
            quarter_col(place, i),
            place.size as int / 2,
            s,
            place.chroma_quarter(f, mode, 2 * i + s),
        ),
{
    let x = 2 * i + s;
    assert(x / 2 == i && x % 2 == s);
    let h = place.size as int / 2;
    let (row, col) = (quarter_row(place, i), quarter_col(place, i));
    let side = h / 2;
    lemma_fields(f, row, col, h, s);
    lemma_corner(i, side, s);
    lemma_even_side(place.col as int, place.size as int);
    lemma_even_side(col, h);
    assert(row / 1 == row && place.row as int / 1 == place.row);
    assert(place.size as int / 2 / 2 == side);
    let b = place.chroma_quarter(f, mode, x);
    let r = place.row as int / 1 + (i / 2) * side * 2 + s * side;
    assert(r == row + s * side);
    let c = place.col as int / 2 + (i % 2) * side;
    assert(c == col / 2);
    let (sw, sh) = (f.chroma.spec_sub_w(), f.chroma.spec_sub_h());
    let k = tusyntax::stacked(f.chroma);
    lemma_by_two(place.size as int, sw);
    lemma_by_one(place.row as int, sh);
    lemma_by_two(place.col as int, sw);
    lemma_by_two(x, k);
    lemma_by_two((i / 2) * side, k);
    lemma_by_one(r, sh);
    lemma_by_two(c, sw);
    assert(b.row == r && b.col == c && b.n == side && b.lrow == r && b.lcol == col);
}

/// A chroma block of a quarter lies beneath that quarter, in 4:4:4 and 4:2:0.
#[verifier::spinoff_prover]
#[verifier::rlimit(60)]
proof fn lemma_beneath_single(f: Frame, place: CuPlace, mode: u8, i: int)
    requires
        f.wf(),
        !(f.chroma is Monochrome),
        !(f.chroma is Yuv422),
        place.size == 8 || place.size == 16 || place.size == 32,
        place.size > 8 || f.chroma is Yuv444,
        0 <= i < 4,
        square_ok(f, place.row as int, place.col as int, place.size as int),
        square_ok(f, quarter_row(place, i), quarter_col(place, i), place.size as int / 2),
    ensures
        beneath(
            f,
            quarter_row(place, i),
            quarter_col(place, i),
            place.size as int / 2,
            0,
            place.chroma_quarter(f, mode, i),
        ),
{
    let h = place.size as int / 2;
    let (row, col) = (quarter_row(place, i), quarter_col(place, i));
    lemma_fields(f, row, col, h, 0);
    let b = place.chroma_quarter(f, mode, i);
    let (sw, sh) = (f.chroma.spec_sub_w(), f.chroma.spec_sub_h());
    let k = tusyntax::stacked(f.chroma);
    lemma_by_one(i, k);
    if f.chroma is Yuv444 {
        lemma_corner(i, h, 0);
        assert(place.size as int / 1 / 2 == h);
        assert((i / 2) * h == (if i >= 2 {
            h
        } else {
            0
        })) by (nonlinear_arith)
            requires
                0 <= i < 4,
        ;
        let r = place.row as int / 1 + (i / 2) * h * 1 + 0 * h;
        assert(r == row);
        lemma_by_one(place.size as int, sw);
        lemma_by_one(place.row as int, sh);
        lemma_by_one(place.col as int, sw);
        lemma_by_one((i / 2) * h, k);
        lemma_by_one(row, sh);
        lemma_by_one(col, sw);
        assert(b.row == row && b.col == col && b.n == h && b.lrow == row && b.lcol == col);
    } else {
        let side = h / 2;
        lemma_corner(i, side, 0);
        lemma_even_side(place.row as int, place.size as int);
        lemma_even_side(place.col as int, place.size as int);
        lemma_even_side(row, h);
        lemma_even_side(col, h);
        assert(place.size as int / 2 / 2 == side);
        assert((i / 2) * side == (if i >= 2 {
            side
        } else {
            0
        })) by (nonlinear_arith)
            requires
                0 <= i < 4,
        ;
        let r = place.row as int / 2 + (i / 2) * side * 1 + 0 * side;
        assert(r == row / 2);
        let c = place.col as int / 2 + (i % 2) * side;
        assert(c == col / 2);
        lemma_by_two(place.size as int, sw);
        lemma_by_two(place.row as int, sh);
        lemma_by_two(place.col as int, sw);
        lemma_by_one((i / 2) * side, k);
        lemma_by_two(r, sh);
        lemma_by_two(c, sw);
        assert(b.row == r && b.col == c && b.n == side && b.lrow == row && b.lcol == col);
    }
}

/// A block of a unit whose chroma is cut in four comes in its turn.
#[verifier::spinoff_prover]
#[verifier::rlimit(60)]
proof fn lemma_cut_turn(f: Frame, place: CuPlace, mode: u8, x: int)
    requires
        f.wf(),
        !(f.chroma is Monochrome),
        place.ok(f),
        !tusyntax::shares_chroma(place.size as int, f.chroma),
        0 <= x < 4 * tusyntax::stacked(f.chroma),
    ensures
        ({
            let e = step(f, place.size as int / 2);
            &&& in_turn(
                f,
                place.chroma_quarter(f, mode, x),
                order::time(place.row as int, place.col as int, agreement::across(f)) + x * e,
                e,
            )
            &&& tusyntax::stacked(f.chroma) * e == order::area(place.size as int / 2)
        }),
{
    let h = place.size as int / 2;
    let e = step(f, h);
    let k = tusyntax::stacked(f.chroma);
    assert(k == 1 || k == 2);
    let (i, s) = (x / k, x % k);
    if k == 1 {
        lemma_by_one(x, k);
        lemma_by_one(i, k);
    } else {
        lemma_by_two(x, k);
        lemma_by_two(i, k);
    }
    assert(0 <= i < 4 && 0 <= s < k && x == i * k + s);
    assert(square_ok(f, place.row as int, place.col as int, place.size as int));
    lemma_quarter_square(f, place, i);
    let b = place.chroma_quarter(f, mode, x);
    let (row, col) = (quarter_row(place, i), quarter_col(place, i));
    if f.chroma is Yuv422 {
        lemma_beneath_stacked(f, place, mode, i, s);
    } else {
        lemma_beneath_single(f, place, mode, i);
    }
    lemma_beneath(f, row, col, h, s, b);
    let a = order::area(h);
    assert(i * a + s * e == x * e) by (nonlinear_arith)
        requires
            k * e == a,
            x == i * k + s,
    ;
    reveal(in_turn);
}

/// After the chroma blocks of a unit with loss two decoders agree on them.
#[verifier::spinoff_prover]
#[verifier::rlimit(60)]
proof fn lemma_lossy_chroma(f: Frame, cu: Cu, ts: Seq<Tb>, p: Seq<u16>, q: Seq<u16>)
    requires
        f.wf(),
        !(f.chroma is Monochrome),
        cu.place.ok(f),
        agreement::chroma_agrees(
            f,
            p,
            q,
            order::time(cu.place.row as int, cu.place.col as int, agreement::across(f)),
        ),
    ensures
        ({
            let bs = cu.place.chroma_blocks(f, cu.choice);
            agreement::chroma_agrees(
                f,
                runs::chroma_after(f, p, bs, ts, bs.len() as int),
                runs::chroma_after(f, q, bs, ts, bs.len() as int),
                order::time(cu.place.row as int, cu.place.col as int, agreement::across(f))
                    + order::area(cu.place.size as int),
            )
        }),
{
    let (row, col, size) = (cu.place.row as int, cu.place.col as int, cu.place.size as int);
    let t = order::time(row, col, agreement::across(f));
    let k = tusyntax::stacked(f.chroma);
    let bs = cu.place.chroma_blocks(f, cu.choice);
    if cu.choice.chroma_quartered(size, f.chroma) {
        let e = step(f, size / 2);
        assert forall|j: int| 0 <= j < 4 * k implies in_turn(f, #[trigger] bs[j], t + j * e, e) by {
            lemma_cut_turn(f, cu.place, cu.choice.chroma_mode(f.chroma, j / k), j);
        }
        lemma_chroma_run(f, bs, ts, p, q, t, e, 4 * k);
        lemma_cut_turn(f, cu.place, 0, 0);
        assert(square_ok(f, row, col, size));
        lemma_quarters(f, row, col, size);
        assert(4 * k * e == 4 * (k * e)) by (nonlinear_arith);
    } else {
        let e = step(f, size);
        assert forall|j: int| 0 <= j < k implies in_turn(f, #[trigger] bs[j], t + j * e, e) by {
            lemma_whole_turn(f, cu.place, cu.choice.chroma_mode(f.chroma, 0), j);
        }
        lemma_chroma_run(f, bs, ts, p, q, t, e, k);
        lemma_whole_turn(f, cu.place, 0, 0);
    }
}

/// After the chroma of a unit two decoders agree on it.
#[verifier::spinoff_prover]
#[verifier::rlimit(60)]
pub proof fn lemma_cu_chroma(f: Frame, cu: Cu, lossless: bool, first: bool, p: Seq<u16>, q: Seq<u16>)
    requires
        f.wf(),
        !(f.chroma is Monochrome),
        cu.wf(f, lossless),
        agreement::chroma_agrees(
            f,
            p,
            q,
            order::time(cu.place.row as int, cu.place.col as int, agreement::across(f)),
        ),
    ensures
        agreement::chroma_agrees(
            f,
            cu.chroma_after(first, f, p),
            cu.chroma_after(first, f, q),
            order::time(cu.place.row as int, cu.place.col as int, agreement::across(f))
                + order::area(cu.place.size as int),
        ),
{
    let (row, col, size) = (cu.place.row as int, cu.place.col as int, cu.place.size as int);
    assert(square_ok(f, row, col, size));
    let ts = if first {
        cu.tus.cbs()
    } else {
        cu.tus.crs()
    };
    match cu.tus {
        CuTus::Lossless { luma, chroma } => {
            lemma_chroma_tree(
                f,
                chroma,
                luma,
                first,
                row,
                col,
                size,
                cu.choice.chroma_mode(f.chroma, 0),
                cu.place.chroma_qp(f) as u8,
                p,
                q,
            );
        },
        _ => {
            assert(ts.len() == cu.place.chroma_blocks(f, cu.choice).len());
            lemma_lossy_chroma(f, cu, ts, p, q);
        },
    }
}

} // verus!
