//! A map of one quantisation parameter filters a picture as that parameter does.
use crate::deblock;
use crate::deblock::EdgeInfo;
use crate::fmt::ChromaFormat;
use vstd::prelude::*;

verus! {

/// All entries of a map are the same.
pub open spec fn is_even(map: Seq<u8>, q: u8) -> bool {
    forall|i: int| 0 <= i < map.len() ==> #[trigger] map[i] == q
}

/// The edges without a map, with one parameter for all.
pub open spec fn without_map(info: EdgeInfo, q: u8) -> EdgeInfo {
    EdgeInfo { qp: q as int, map: None, map_stride: 0, ..info }
}

/// The parameter of an edge inside the picture.
proof fn lemma_edge(info: EdgeInfo, w: int, h: int, q: u8, lx: int, ly: int, vertical: bool)
    requires
        info.covers(w, h),
        info.map matches Some(m) && is_even(m, q),
        0 <= lx < w,
        0 <= ly < h,
        if vertical {
            lx >= 4
        } else {
            ly >= 4
        },
    ensures
        info.qp_at(lx, ly, vertical) == q,
{
    match info.map {
        Some(m) => {
            let (qx, qy) = (lx / 4, ly / 4);
            let (px, py) = if vertical {
                (qx - 1, qy)
            } else {
                (qx, qy - 1)
            };
            let len = m.len() as int;
            deblock::lemma_map_inside(lx, ly, w, h, info.map_stride, len);
            deblock::lemma_map_inside(4 * px, 4 * py, w, h, info.map_stride, len);
            assert(4 * px / 4 == px && 4 * py / 4 == py);
            assert(m[py * info.map_stride + px] == q);
            assert(m[qy * info.map_stride + qx] == q);
        },
        None => {},
    }
}

/// Where a sample lies.
proof fn lemma_place(x: int, w: int, h: int)
    requires
        0 <= x < w * h,
        0 <= w,
    ensures
        0 < w,
        0 <= x / w < h,
        0 <= x % w < w,
{
    assert(0 < w) by (nonlinear_arith)
        requires
            0 <= x < w * h,
            0 <= w,
    ;
    assert(0 <= x / w < h && 0 <= x % w < w) by (nonlinear_arith)
        requires
            0 <= x < w * h,
            0 < w,
    ;
}

proof fn lemma_luma(
    plane: Seq<u16>,
    w: int,
    h: int,
    bit_depth: int,
    vertical: bool,
    info: EdgeInfo,
    q: u8,
)
    requires
        deblock::plane_ok(plane.len() as int, w, h),
        info.covers(w, h),
        info.map matches Some(m) && is_even(m, q),
    ensures
        deblock::luma_passed(plane, w, h, bit_depth, vertical, info) == deblock::luma_passed(
            plane,
            w,
            h,
            bit_depth,
            vertical,
            without_map(info, q),
        ),
{
    let other = without_map(info, q);
    assert forall|x: int| 0 <= x < plane.len() implies #[trigger] deblock::luma_pass(
        plane,
        w,
        h,
        bit_depth,
        vertical,
        info,
        x,
    ) == deblock::luma_pass(plane, w, h, bit_depth, vertical, other, x) by {
        lemma_place(x, w, h);
        let (e, s) = deblock::segment(w, vertical, x);
        let (ex, ey) = deblock::corner(vertical, e, s);
        assert(e % 8 == 0 && 0 <= e);
        if 0 < e < deblock::across(vertical, w, h) {
            lemma_edge(info, w, h, q, ex, ey, vertical);
        }
        assert(info.on(ex, ey) == other.on(ex, ey));
    }
    assert(deblock::luma_passed(plane, w, h, bit_depth, vertical, info) =~= deblock::luma_passed(
        plane,
        w,
        h,
        bit_depth,
        vertical,
        other,
    ));
}

/// Where a chroma segment looks up the luma maps lies inside the luma plane.
proof fn lemma_lookup(cw: int, ch: int, chroma: ChromaFormat, vertical: bool, x: int)
    requires
        cw % 8 == 0,
        ch % 8 == 0,
        0 <= cw,
        0 <= x < cw * ch,
        ({
            let e = deblock::segment(cw, vertical, x).0;
            0 < e < deblock::across(vertical, cw, ch)
        }),
    ensures
        ({
            let (e, s) = deblock::segment(cw, vertical, x);
            let (lx, ly) = deblock::chroma_lookup(chroma, vertical, e, s);
            &&& 0 <= lx < cw * chroma.spec_sub_w()
            &&& 0 <= ly < ch * chroma.spec_sub_h()
            &&& if vertical {
                lx >= 4
            } else {
                ly >= 4
            }
        }),
{
    lemma_place(x, cw, ch);
    let (e, s) = deblock::segment(cw, vertical, x);
    let (sw, sh) = (chroma.spec_sub_w(), chroma.spec_sub_h());
    assert(sw == 1 || sw == 2);
    assert(sh == 1 || sh == 2);
    assert(e % 8 == 0 && e >= 8);
    if vertical {
        assert(0 <= s && s + 1 < ch);
        assert(e * sw >= 4 && e * sw < cw * sw && 0 <= (s + 1) * sh < ch * sh) by (nonlinear_arith)
            requires
                8 <= e < cw,
                0 <= s,
                s + 1 < ch,
                sw == 1 || sw == 2,
                sh == 1 || sh == 2,
        ;
    } else {
        assert(0 <= s && s + 1 < cw);
        assert(e * sh >= 4 && e * sh < ch * sh && 0 <= (s + 1) * sw < cw * sw) by (nonlinear_arith)
            requires
                8 <= e < ch,
                0 <= s,
                s + 1 < cw,
                sw == 1 || sw == 2,
                sh == 1 || sh == 2,
        ;
    }
}

proof fn lemma_chroma(
    plane: Seq<u16>,
    cw: int,
    ch: int,
    bit_depth: int,
    chroma: ChromaFormat,
    vertical: bool,
    info: EdgeInfo,
    q: u8,
)
    requires
        deblock::plane_ok(plane.len() as int, cw, ch),
        info.covers(cw * chroma.spec_sub_w(), ch * chroma.spec_sub_h()),
        info.map matches Some(m) && is_even(m, q),
    ensures
        deblock::chroma_passed(plane, cw, ch, bit_depth, chroma, vertical, info)
            == deblock::chroma_passed(
            plane,
            cw,
            ch,
            bit_depth,
            chroma,
            vertical,
            without_map(info, q),
        ),
{
    let other = without_map(info, q);
    assert forall|x: int| 0 <= x < plane.len() implies #[trigger] deblock::chroma_pass(
        plane,
        cw,
        ch,
        bit_depth,
        chroma,
        vertical,
        info,
        x,
    ) == deblock::chroma_pass(plane, cw, ch, bit_depth, chroma, vertical, other, x) by {
        let (e, s) = deblock::segment(cw, vertical, x);
        let (lx, ly) = deblock::chroma_lookup(chroma, vertical, e, s);
        if 0 < e < deblock::across(vertical, cw, ch) {
            lemma_lookup(cw, ch, chroma, vertical, x);
            lemma_edge(
                info,
                cw * chroma.spec_sub_w(),
                ch * chroma.spec_sub_h(),
                q,
                lx,
                ly,
                vertical,
            );
        }
        assert(info.on(lx, ly) == other.on(lx, ly));
    }
    assert(deblock::chroma_passed(plane, cw, ch, bit_depth, chroma, vertical, info)
        =~= deblock::chroma_passed(plane, cw, ch, bit_depth, chroma, vertical, other));
}

/// A map with the same parameter everywhere filters the luma plane as that parameter
/// does, whatever the parameter of the picture is.
pub proof fn law_an_even_map_filters_luma_as_its_value(
    plane: Seq<u16>,
    w: int,
    h: int,
    bit_depth: int,
    v: EdgeInfo,
    hz: EdgeInfo,
    q: u8,
)
    requires
        deblock::plane_ok(plane.len() as int, w, h),
        v.covers(w, h),
        hz.covers(w, h),
        v.map matches Some(m) && is_even(m, q),
        hz.map matches Some(m) && is_even(m, q),
    ensures
        deblock::luma_deblocked(plane, w, h, bit_depth, v, hz) == deblock::luma_deblocked(
            plane,
            w,
            h,
            bit_depth,
            without_map(v, q),
            without_map(hz, q),
        ),
{
    lemma_luma(plane, w, h, bit_depth, true, v, q);
    let once = deblock::luma_passed(plane, w, h, bit_depth, true, v);
    lemma_luma(once, w, h, bit_depth, false, hz, q);
}

/// A map with the same parameter everywhere filters a chroma plane as that parameter
/// does, whatever the parameter of the picture is.
pub proof fn law_an_even_map_filters_chroma_as_its_value(
    plane: Seq<u16>,
    cw: int,
    ch: int,
    bit_depth: int,
    chroma: ChromaFormat,
    v: EdgeInfo,
    hz: EdgeInfo,
    q: u8,
)
    requires
        !(chroma is Monochrome) ==> {
            &&& deblock::plane_ok(plane.len() as int, cw, ch)
            &&& v.covers(cw * chroma.spec_sub_w(), ch * chroma.spec_sub_h())
            &&& hz.covers(cw * chroma.spec_sub_w(), ch * chroma.spec_sub_h())
        },
        v.map matches Some(m) && is_even(m, q),
        hz.map matches Some(m) && is_even(m, q),
    ensures
        deblock::chroma_deblocked(plane, cw, ch, bit_depth, chroma, v, hz)
            == deblock::chroma_deblocked(
            plane,
            cw,
            ch,
            bit_depth,
            chroma,
            without_map(v, q),
            without_map(hz, q),
        ),
{
    if !(chroma is Monochrome) {
        lemma_chroma(plane, cw, ch, bit_depth, chroma, true, v, q);
        let once = deblock::chroma_passed(plane, cw, ch, bit_depth, chroma, true, v);
        lemma_chroma(once, cw, ch, bit_depth, chroma, false, hz, q);
    }
}

} // verus!
