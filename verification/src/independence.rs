//! A decoder needs nothing but the units: whatever its planes hold at first, it
//! comes to the planes that the encoder has reconstructed.
use crate::agreement;
use crate::canvas::Scene;
use crate::ctu;
use crate::ctu::{Cu32Plan, CtuLog, CuChooser};
use crate::cu::Cu;
use crate::cuqp::AqCtuState;
use crate::frame::Frame;
use crate::order;
use crate::planes::Yuv;
use crate::region::RegionLog;
use crate::strip;
use crate::strip::Strip;
use crate::unitsync;
use vstd::prelude::*;

verus! {

/// The planes after a decoder put a unit into them.
pub open spec fn put_unit(f: Frame, p: (Seq<u16>, Seq<u16>, Seq<u16>), cu: Cu) -> (
    Seq<u16>,
    Seq<u16>,
    Seq<u16>,
) {
    (cu.luma_after(f, p.0), cu.chroma_after(true, f, p.1), cu.chroma_after(false, f, p.2))
}

/// The planes after a decoder put units into them, one after another.
pub open spec fn decoded(f: Frame, p: (Seq<u16>, Seq<u16>, Seq<u16>), cus: Seq<Cu>) -> (
    Seq<u16>,
    Seq<u16>,
    Seq<u16>,
)
    decreases cus.len(),
{
    if cus.len() == 0 {
        p
    } else {
        put_unit(f, decoded(f, p, cus.drop_last()), cus.last())
    }
}

proof fn lemma_decoded_add(
    f: Frame,
    p: (Seq<u16>, Seq<u16>, Seq<u16>),
    a: Seq<Cu>,
    b: Seq<Cu>,
)
    ensures
        decoded(f, p, a + b) == decoded(f, decoded(f, p, a), b),
    decreases b.len(),
{
    if b.len() == 0 {
        assert(a + b =~= a);
    } else {
        lemma_decoded_add(f, p, a, b.drop_last());
        assert((a + b).drop_last() =~= a + b.drop_last());
        assert((a + b).last() == b.last());
    }
}

/// Planes have the same samples in all that comes before `t`.
pub open spec fn agree(
    f: Frame,
    p: (Seq<u16>, Seq<u16>, Seq<u16>),
    q: (Seq<u16>, Seq<u16>, Seq<u16>),
    t: int,
) -> bool {
    &&& agreement::luma_agrees(f, p.0, q.0, t)
    &&& !(f.chroma is Monochrome) ==> {
        &&& agreement::chroma_agrees(f, p.1, q.1, t)
        &&& agreement::chroma_agrees(f, p.2, q.2, t)
    }
}

/// The planes have the sizes of the frame.
pub open spec fn sized(f: Frame, p: (Seq<u16>, Seq<u16>, Seq<u16>)) -> bool {
    &&& p.0.len() == f.w * f.h
    &&& !(f.chroma is Monochrome) ==> p.1.len() == f.cw * f.ch && p.2.len() == f.cw * f.ch
}

/// The 4x4 blocks of units.
pub open spec fn extent(spots: Seq<(int, int, int)>) -> int
    decreases spots.len(),
{
    if spots.len() == 0 {
        0
    } else {
        extent(spots.drop_last()) + order::area(spots.last().2)
    }
}

/// Units follow one another in coding order from the time `t` on.
pub open spec fn in_order(spots: Seq<(int, int, int)>, cx: int, t: int) -> bool
    decreases spots.len(),
{
    if spots.len() == 0 {
        true
    } else {
        let before = spots.drop_last();
        &&& in_order(before, cx, t)
        &&& order::time(spots.last().0, spots.last().1, cx) == t + extent(before)
    }
}

proof fn lemma_order_add(a: Seq<(int, int, int)>, b: Seq<(int, int, int)>, cx: int, t: int)
    requires
        in_order(a, cx, t),
        in_order(b, cx, t + extent(a)),
    ensures
        in_order(a + b, cx, t),
        extent(a + b) == extent(a) + extent(b),
    decreases b.len(),
{
    if b.len() == 0 {
        assert(a + b =~= a);
    } else {
        lemma_order_add(a, b.drop_last(), cx, t);
        assert((a + b).drop_last() =~= a + b.drop_last());
        assert((a + b).last() == b.last());
    }
}

proof fn lemma_one(row: int, col: int, size: int, cx: int)
    ensures
        in_order(seq![(row, col, size)], cx, order::time(row, col, cx)),
        extent(seq![(row, col, size)]) == order::area(size),
{
    let s = seq![(row, col, size)];
    assert(s.drop_last() =~= Seq::empty());
    assert(in_order(s.drop_last(), cx, order::time(row, col, cx)));
    assert(extent(s.drop_last()) == 0);
}

/// Where quarter `i` of a square starts.
proof fn lemma_corner(row: int, col: int, h: int, i: int, cx: int)
    requires
        0 <= row,
        0 <= col,
        h == 8 || h == 16 || h == 32,
        row % (2 * h) == 0,
        col % (2 * h) == 0,
        0 <= i < 4,
    ensures
        order::time(row + (i / 2) * h, col + (i % 2) * h, cx) == order::time(row, col, cx)
            + order::areas(i, h),
        0 <= row + (i / 2) * h,
        0 <= col + (i % 2) * h,
        (row + (i / 2) * h) % h == 0,
        (col + (i % 2) * h) % h == 0,
{
    order::lemma_finer(row, 2 * h, h);
    order::lemma_finer(col, 2 * h, h);
    if i == 0 {
        order::lemma_quarter(row, col, h, 0, 0, cx);
    } else if i == 1 {
        order::lemma_quarter(row, col, h, 0, 1, cx);
    } else if i == 2 {
        order::lemma_quarter(row, col, h, 1, 0, cx);
    } else {
        order::lemma_quarter(row, col, h, 1, 1, cx);
    }
    assert(((i / 2 == 0 ==> (i / 2) * h == 0) && (i / 2 == 1 ==> (i / 2) * h == h)) && ((i % 2 == 0
        ==> (i % 2) * h == 0) && (i % 2 == 1 ==> (i % 2) * h == h))) by (nonlinear_arith);
}

proof fn lemma_eights(row: int, col: int, k: int, cx: int)
    requires
        0 <= row,
        0 <= col,
        row % 16 == 0,
        col % 16 == 0,
        0 <= k <= 4,
    ensures
        in_order(ctu::eights_spots(row, col, k), cx, order::time(row, col, cx)),
        extent(ctu::eights_spots(row, col, k)) == 4 * k,
    decreases k,
{
    if k > 0 {
        lemma_eights(row, col, k - 1, cx);
        lemma_corner(row, col, 8, k - 1, cx);
        let (r, c) = (row + ((k - 1) / 2) * 8, col + ((k - 1) % 2) * 8);
        lemma_one(r, c, 8, cx);
        lemma_order_add(
            ctu::eights_spots(row, col, k - 1),
            seq![(r, c, 8int)],
            cx,
            order::time(row, col, cx),
        );
    }
}

proof fn lemma_quads(row: int, col: int, split: Seq<bool>, k: int, cx: int)
    requires
        0 <= row,
        0 <= col,
        row % 32 == 0,
        col % 32 == 0,
        0 <= k <= 4,
    ensures
        in_order(ctu::quads_spots(row, col, split, k), cx, order::time(row, col, cx)),
        extent(ctu::quads_spots(row, col, split, k)) == 16 * k,
    decreases k,
{
    if k > 0 {
        lemma_quads(row, col, split, k - 1, cx);
        lemma_corner(row, col, 16, k - 1, cx);
        let (r, c) = (row + ((k - 1) / 2) * 16, col + ((k - 1) % 2) * 16);
        if split[k - 1] {
            lemma_eights(r, c, 4, cx);
        } else {
            lemma_one(r, c, 16, cx);
        }
        lemma_order_add(
            ctu::quads_spots(row, col, split, k - 1),
            ctu::quad_spots(r, c, split[k - 1]),
            cx,
            order::time(row, col, cx),
        );
    }
}

/// The units of a coding tree unit follow one another.
proof fn lemma_tree_unit(row: int, col: int, plans: Seq<Cu32Plan>, k: int, cx: int)
    requires
        0 <= row,
        0 <= col,
        row % 64 == 0,
        col % 64 == 0,
        0 <= k <= 4,
    ensures
        in_order(ctu::ctu_spots(row, col, plans, k), cx, order::time(row, col, cx)),
        extent(ctu::ctu_spots(row, col, plans, k)) == 64 * k,
    decreases k,
{
    if k > 0 {
        lemma_tree_unit(row, col, plans, k - 1, cx);
        lemma_corner(row, col, 32, k - 1, cx);
        let (r, c) = (row + ((k - 1) / 2) * 32, col + ((k - 1) % 2) * 32);
        if plans[k - 1].split_32 {
            lemma_quads(r, c, plans[k - 1].split_16@, 4, cx);
        } else {
            lemma_one(r, c, 32, cx);
        }
        lemma_order_add(
            ctu::ctu_spots(row, col, plans, k - 1),
            ctu::plan_spots(r, c, plans[k - 1]),
            cx,
            order::time(row, col, cx),
        );
    }
}

/// Where units are.
pub open spec fn spots_of(cus: Seq<Cu>) -> Seq<(int, int, int)> {
    Seq::new(cus.len(), |i: int| ctu::spot(cus[i]))
}

/// After units in coding order two decoders agree on them.
proof fn lemma_agree(
    f: Frame,
    cus: Seq<Cu>,
    lossless: bool,
    p: (Seq<u16>, Seq<u16>, Seq<u16>),
    q: (Seq<u16>, Seq<u16>, Seq<u16>),
)
    requires
        f.wf(),
        sized(f, p),
        sized(f, q),
        forall|i: int| 0 <= i < cus.len() ==> (#[trigger] cus[i]).wf(f, lossless),
        in_order(spots_of(cus), agreement::across(f), 0),
    ensures
        agree(f, decoded(f, p, cus), decoded(f, q, cus), extent(spots_of(cus))),
    decreases cus.len(),
{
    if cus.len() == 0 {
        assert forall|r: int, c: int|
            0 <= r < f.h && 0 <= c < f.w implies #[trigger] order::time(r, c, agreement::across(f))
                >= 0 by {
            order::lemma_time_range(r, c, agreement::across(f), f.h as int);
        }
        assert forall|r: int, c: int|
            0 <= r < f.ch && 0 <= c < f.cw implies #[trigger] agreement::chroma_time(f, r, c)
                >= 0 by {
            lemma_beneath_inside(f, r, c);
        }
    } else {
        let before = cus.drop_last();
        let cu = cus.last();
        assert(spots_of(cus).drop_last() =~= spots_of(before));
        assert(spots_of(cus).last() == ctu::spot(cu));
        assert forall|i: int| 0 <= i < before.len() implies (#[trigger] before[i]).wf(
            f,
            lossless,
        ) by {
            assert(cus[i].wf(f, lossless));
        }
        assert(cus[cus.len() - 1].wf(f, lossless));
        lemma_agree(f, before, lossless, p, q);
        let (u, v) = (decoded(f, p, before), decoded(f, q, before));
        unitsync::lemma_cu_luma(f, cu, lossless, u.0, v.0);
        if !(f.chroma is Monochrome) {
            unitsync::lemma_cu_chroma(f, cu, lossless, true, u.1, v.1);
            unitsync::lemma_cu_chroma(f, cu, lossless, false, u.2, v.2);
        }
    }
}

/// A chroma sample lies beneath a luma sample of the picture.
proof fn lemma_beneath_inside(f: Frame, r: int, c: int)
    requires
        f.wf(),
        0 <= r < f.ch,
        0 <= c < f.cw,
    ensures
        0 <= agreement::chroma_time(f, r, c) < 256 * strip::ctu_count(f),
{
    let (sw, sh) = (f.chroma.spec_sub_w(), f.chroma.spec_sub_h());
    assert(0 <= r * sh < f.h && 0 <= c * sw < f.w) by (nonlinear_arith)
        requires
            0 <= r < f.ch,
            0 <= c < f.cw,
            0 < sw,
            0 < sh,
            f.ch * sh == f.h,
            f.cw * sw == f.w,
    ;
    order::lemma_time_range(r * sh, c * sw, agreement::across(f), f.h as int);
}

proof fn lemma_spots_add(a: Seq<Cu>, b: Seq<Cu>)
    ensures
        spots_of(a + b) == spots_of(a) + spots_of(b),
{
    assert(spots_of(a + b) =~= spots_of(a) + spots_of(b));
}

/// The planes of a scene after units are those that a decoder comes to.
proof fn lemma_scene_planes(f: Frame, s: Scene, aq: AqCtuState, cus: Seq<Cu>, k: int)
    requires
        0 <= k <= cus.len(),
    ensures
        ctu::scene_at(f, s, aq, cus, k).planes() == decoded(f, s.planes(), cus.take(k)),
    decreases k,
{
    if k > 0 {
        lemma_scene_planes(f, s, aq, cus, k - 1);
        assert(cus.take(k).drop_last() =~= cus.take(k - 1));
        assert(cus.take(k).last() == cus[k - 1]);
    } else {
        assert(cus.take(k) =~= Seq::empty());
    }
}

/// The units of the first `k` coding tree units of a run.
pub open spec fn strip_units(s: Strip, k: int) -> Seq<Cu>
    decreases k,
{
    if k <= 0 {
        Seq::empty()
    } else {
        strip_units(s, k - 1) + s.logs[k - 1].run.cus
    }
}

/// Units that fit and follow one another, as many as coding tree units have.
pub open spec fn units_ok(f: Frame, cus: Seq<Cu>, lossless: bool, start: int, count: int) -> bool {
    &&& forall|i: int| 0 <= i < cus.len() ==> (#[trigger] cus[i]).wf(f, lossless)
    &&& in_order(spots_of(cus), agreement::across(f), 256 * start)
    &&& extent(spots_of(cus)) == 256 * count
}

proof fn lemma_units_add(f: Frame, a: Seq<Cu>, b: Seq<Cu>, lossless: bool, start: int, m: int, n: int)
    requires
        units_ok(f, a, lossless, start, m),
        units_ok(f, b, lossless, start + m, n),
    ensures
        units_ok(f, a + b, lossless, start, m + n),
{
    lemma_spots_add(a, b);
    lemma_order_add(spots_of(a), spots_of(b), agreement::across(f), 256 * start);
    assert forall|i: int| 0 <= i < (a + b).len() implies (#[trigger] (a + b)[i]).wf(
        f,
        lossless,
    ) by {
        if i < a.len() {
            assert(a[i].wf(f, lossless));
        } else {
            assert(b[i - a.len()].wf(f, lossless));
        }
    }
}

/// The units of one coding tree unit.
proof fn lemma_one_tree_unit<Q: CuChooser>(f: Frame, src: Yuv, q: Q, log: CtuLog, k: int)
    requires
        f.wf(),
        0 <= k,
        log.done(
            f,
            src,
            q,
            (k / strip::ctus_x(f)) * 64,
            (k % strip::ctus_x(f)) * 64,
        ),
    ensures
        units_ok(f, log.run.cus, log.run.lossless, k, 1),
        log.run.now(f).planes() == decoded(f, log.run.scene.planes(), log.run.cus),
{
    let cx = strip::ctus_x(f);
    let (row, col) = ((k / cx) * 64, (k % cx) * 64);
    let cus = log.run.cus;
    assert(0 <= k / cx && 0 <= k % cx < cx) by (nonlinear_arith)
        requires
            0 <= k,
            0 < cx,
    ;
    order::lemma_unit_time(k, cx);
    lemma_tree_unit(row, col, log.plans, 4, cx);
    assert(log.run.spots() =~= spots_of(cus));
    assert forall|i: int| 0 <= i < cus.len() implies (#[trigger] cus[i]).wf(
        f,
        log.run.lossless,
    ) by {
        assert(log.run.sound_at(f, src, q, i));
    }
    lemma_scene_planes(f, log.run.scene, log.run.aq, cus, cus.len() as int);
    assert(cus.take(cus.len() as int) =~= cus);
}

/// The units of a run.
proof fn lemma_strip_units<Q: CuChooser>(f: Frame, src: Yuv, q: Q, s: Strip, k: int)
    requires
        f.wf(),
        0 <= s.start,
        s.linked(f, src, q),
        0 <= k <= s.count(),
    ensures
        units_ok(f, strip_units(s, k), s.lossless, s.start, k),
        s.scene_before(f, k).planes() == decoded(f, s.scene.planes(), strip_units(s, k)),
    decreases k,
{
    if k > 0 {
        lemma_strip_units(f, src, q, s, k - 1);
        assert(s.linked_at(f, src, q, k - 1));
        let log = s.logs[k - 1];
        lemma_one_tree_unit(f, src, q, log, s.start + k - 1);
        lemma_units_add(
            f,
            strip_units(s, k - 1),
            log.run.cus,
            s.lossless,
            s.start,
            k - 1,
            1,
        );
        lemma_decoded_add(f, s.scene.planes(), strip_units(s, k - 1), log.run.cus);
    } else {
        assert(spots_of(Seq::<Cu>::empty()) =~= Seq::empty());
    }
}

/// The units of the first `j` substreams of a region, in coding order.
pub open spec fn region_units(log: RegionLog, j: int) -> Seq<Cu>
    decreases j,
{
    if j <= 0 {
        Seq::empty()
    } else {
        region_units(log, j - 1) + strip_units(log.strips[j - 1], log.strips[j - 1].count())
    }
}

/// The units of a region.
proof fn lemma_region_units<Q: CuChooser>(
    f: Frame,
    src: Yuv,
    q: Q,
    log: RegionLog,
    parts: Seq<Vec<u8>>,
    n: int,
    j: int,
)
    requires
        f.wf(),
        log.reached(f, src, q, parts, n),
        0 <= j <= n,
    ensures
        units_ok(f, region_units(log, j), log.lossless, 0, j * log.per_strip(f)),
        log.scene_in(f, src, j).planes() == decoded(
            f,
            log.scene_in(f, src, 0).planes(),
            region_units(log, j),
        ),
    decreases j,
{
    let m = log.per_strip(f);
    if j > 0 {
        lemma_region_units(f, src, q, log, parts, n, j - 1);
        let s = log.strips[j - 1];
        assert(log.strip_ok(f, src, q, parts[j - 1]@, j - 1));
        assert(0 <= (j - 1) * m && j * m == (j - 1) * m + m) by (nonlinear_arith)
            requires
                1 <= j,
                0 <= m,
        ;
        lemma_strip_units(f, src, q, s, s.count());
        lemma_units_add(
            f,
            region_units(log, j - 1),
            strip_units(s, s.count()),
            log.lossless,
            0,
            (j - 1) * m,
            m,
        );
        lemma_decoded_add(
            f,
            log.scene_in(f, src, 0).planes(),
            region_units(log, j - 1),
            strip_units(s, s.count()),
        );
    } else {
        assert(spots_of(Seq::<Cu>::empty()) =~= Seq::empty());
        assert(j * m == 0) by (nonlinear_arith)
            requires
                j == 0,
        ;
    }
}

/// Whatever the planes of a decoder hold at first, once it has put the units of a
/// region into them they are those that the encoder has reconstructed, before the
/// filter. So the units alone carry the picture, and nothing of the source that the
/// encoder still sees gets into it by another way.
pub proof fn law_the_units_carry_the_picture<Q: CuChooser>(
    f: Frame,
    src: Yuv,
    q: Q,
    log: RegionLog,
    parts: Seq<Vec<u8>>,
    p: (Seq<u16>, Seq<u16>, Seq<u16>),
)
    requires
        f.wf(),
        log.reached(f, src, q, parts, log.strip_count(f)),
        sized(f, p),
    ensures
        ({
            let got = decoded(f, p, region_units(log, log.strip_count(f)));
            let s = log.unfiltered(f, src);
            &&& got.0 == s.y
            &&& !(f.chroma is Monochrome) ==> got.1 == s.cb && got.2 == s.cr
        }),
{
    let n = log.strip_count(f);
    let cus = region_units(log, n);
    let first = log.scene_in(f, src, 0).planes();
    lemma_region_units(f, src, q, log, parts, n, n);
    assert(n * log.per_strip(f) == strip::ctu_count(f)) by (nonlinear_arith)
        requires
            log.wpp ==> n == f.h as int / 64 && log.per_strip(f) == f.w as int / 64,
            !log.wpp ==> n == 1 && log.per_strip(f) == strip::ctu_count(f),
            strip::ctu_count(f) == (f.w as int / 64) * (f.h as int / 64),
    ;
    assert(sized(f, first)) by {
        assert(0 <= f.w * f.h && 0 <= f.cw * f.ch) by (nonlinear_arith)
            requires
                0 <= f.w,
                0 <= f.h,
                0 <= f.cw,
                0 <= f.ch,
        ;
    }
    lemma_agree(f, cus, log.lossless, p, first);
    let (u, v) = (decoded(f, p, cus), decoded(f, first, cus));
    let t = 256 * strip::ctu_count(f);
    assert forall|x: int| 0 <= x < f.w * f.h implies #[trigger] u.0[x] == v.0[x] by {
        let (r, c) = (x / f.w as int, x % f.w as int);
        lemma_back(x, f.w as int, f.h as int);
        order::lemma_time_range(r, c, agreement::across(f), f.h as int);
        assert(order::time(r, c, agreement::across(f)) < t);
    }
    assert(u.0 =~= v.0);
    if !(f.chroma is Monochrome) {
        lemma_same_chroma(f, u.1, v.1, t);
        lemma_same_chroma(f, u.2, v.2, t);
    }
}

/// Chroma planes that agree on the whole picture are the same.
proof fn lemma_same_chroma(f: Frame, u: Seq<u16>, v: Seq<u16>, t: int)
    requires
        f.wf(),
        agreement::chroma_agrees(f, u, v, t),
        t == 256 * strip::ctu_count(f),
    ensures
        u == v,
{
    assert forall|x: int| 0 <= x < u.len() implies #[trigger] u[x] == v[x] by {
        let (r, c) = (x / f.cw as int, x % f.cw as int);
        assert(f.cw > 0) by (nonlinear_arith)
            requires
                0 <= x < f.cw * f.ch,
                0 <= f.cw,
        ;
        lemma_back(x, f.cw as int, f.ch as int);
        lemma_beneath_inside(f, r, c);
        assert(agreement::chroma_time(f, r, c) < t);
    }
    assert(u =~= v);
}

/// A place in a plane, from its row and column.
proof fn lemma_back(x: int, w: int, h: int)
    requires
        0 <= x < w * h,
        0 < w,
    ensures
        0 <= x / w < h,
        0 <= x % w < w,
        (x / w) * w + x % w == x,
{
    assert(0 <= x / w < h && 0 <= x % w < w && (x / w) * w + x % w == x) by (nonlinear_arith)
        requires
            0 <= x < w * h,
            0 < w,
    ;
}

} // verus!
