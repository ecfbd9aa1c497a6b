//! The in-loop deblocking filter on a picture.
use crate::arith;
use crate::arith::{clip3, pow2_i64};
use crate::edgefilter;
use crate::edgefilter::{chroma_qp, filter_chroma_segment, filter_luma_segment};
use crate::edgefilter::{BETA_TABLE, TC_TABLE};
use crate::fmt::{BitDepth, ChromaFormat};
use crate::refs;
use vstd::arithmetic::power2::*;
use vstd::prelude::*;

verus! {

/// Which edges are filtered and how strongly, on 4x4 maps of the luma plane: the
/// marked edges of one orientation, and the quantisation parameter of the picture
/// or of each block.
pub struct EdgeInfo {
    pub flags: Seq<bool>,
    pub stride: int,
    pub qp: int,
    pub map: Option<Seq<u8>>,
    pub map_stride: int,
}

impl EdgeInfo {
    /// The edge at luma `(lx, ly)` is marked.
    pub open spec fn on(self, lx: int, ly: int) -> bool {
        self.flags[(ly / 4) * self.stride + lx / 4]
    }

    /// Quantisation parameter of the edge at luma `(lx, ly)`: the rounded mean of
    /// its two sides.
    pub open spec fn qp_at(self, lx: int, ly: int, vertical: bool) -> int {
        match self.map {
            None => self.qp,
            Some(m) => {
                let (qx, qy) = (lx / 4, ly / 4);
                let (px, py) = if vertical {
                    (qx - 1, qy)
                } else {
                    (qx, qy - 1)
                };
                (m[py * self.map_stride + px] + m[qy * self.map_stride + qx] + 1) / 2
            },
        }
    }

    /// The maps cover a luma plane of `w` by `h`.
    pub open spec fn covers(self, w: int, h: int) -> bool {
        &&& w <= 4 * self.stride
        &&& ((h + 3) / 4) * self.stride <= self.flags.len()
        &&& 0 <= self.qp <= 255
        &&& self.map matches Some(m) ==> {
            &&& w <= 4 * self.map_stride
            &&& ((h + 3) / 4) * self.map_stride <= m.len()
        }
    }
}

/// Activity limit of a luma edge.
pub open spec fn beta_of(qp: int, bit_depth: int) -> int {
    BETA_TABLE@[arith::clip(0, 51, qp)] * pow2((bit_depth - 8) as nat)
}

/// How far a sample of an edge may move.
pub open spec fn tc_of(qp: int, bit_depth: int) -> int {
    TC_TABLE@[arith::clip(0, 53, qp + 2)] * pow2((bit_depth - 8) as nat)
}

/// The segment that a sample belongs to: the nearest edge on the 8-sample grid,
/// and the first of its four lines.
pub open spec fn segment(stride: int, vertical: bool, x: int) -> (int, int) {
    let (t, s) = if vertical {
        (x % stride, x / stride)
    } else {
        (x / stride, x % stride)
    };
    (((t + 4) / 8) * 8, (s / 4) * 4)
}

/// Column and row of the segment of edge `e` that starts at line `s`.
pub open spec fn corner(vertical: bool, e: int, s: int) -> (int, int) {
    if vertical {
        (e, s)
    } else {
        (s, e)
    }
}

/// Length of a `w` by `h` plane across the edges of one orientation.
pub open spec fn across(vertical: bool, w: int, h: int) -> int {
    if vertical {
        w
    } else {
        h
    }
}

/// Sample `x` of the luma plane after the edges of one orientation were filtered.
pub open spec fn luma_pass(
    plane: Seq<u16>,
    w: int,
    h: int,
    bit_depth: int,
    vertical: bool,
    info: EdgeInfo,
    x: int,
) -> int {
    let (e, s) = segment(w, vertical, x);
    let (ex, ey) = corner(vertical, e, s);
    let qp = info.qp_at(ex, ey, vertical);
    if 0 < e < across(vertical, w, h) && info.on(ex, ey) {
        edgefilter::luma_seg_out(
            plane,
            w,
            ex,
            ey,
            vertical,
            beta_of(qp, bit_depth),
            tc_of(qp, bit_depth),
            pow2(bit_depth as nat) - 1,
            x,
        )
    } else {
        plane[x] as int
    }
}

/// Where a chroma edge segment looks up the luma maps.
pub open spec fn chroma_lookup(chroma: ChromaFormat, vertical: bool, e: int, s: int) -> (int, int) {
    if vertical {
        (e * chroma.spec_sub_w(), (s + 1) * chroma.spec_sub_h())
    } else {
        ((s + 1) * chroma.spec_sub_w(), e * chroma.spec_sub_h())
    }
}

/// Sample `x` of a chroma plane after the edges of one orientation were filtered.
pub open spec fn chroma_pass(
    plane: Seq<u16>,
    cw: int,
    ch: int,
    bit_depth: int,
    chroma: ChromaFormat,
    vertical: bool,
    info: EdgeInfo,
    x: int,
) -> int {
    let (e, s) = segment(cw, vertical, x);
    let (ex, ey) = corner(vertical, e, s);
    let (lx, ly) = chroma_lookup(chroma, vertical, e, s);
    let qp = edgefilter::chroma_qp_of(info.qp_at(lx, ly, vertical), chroma);
    if 0 < e < across(vertical, cw, ch) && info.on(lx, ly) {
        edgefilter::chroma_seg_out(
            plane,
            cw,
            ex,
            ey,
            vertical,
            tc_of(qp, bit_depth),
            pow2(bit_depth as nat) - 1,
            x,
        )
    } else {
        plane[x] as int
    }
}

/// A sample is in a segment on the grid exactly where that is its own segment.
proof fn lemma_segment(stride: int, vertical: bool, e: int, s: int, x: int)
    requires
        0 < stride,
        0 <= x,
        e % 8 == 0,
        s % 4 == 0,
    ensures
        ({
            let (ex, ey) = corner(vertical, e, s);
            let (k, j) = edgefilter::in_seg(ex, ey, vertical, x / stride, x % stride);
            (0 <= k < 4 && -4 <= j < 4) == (segment(stride, vertical, x) == (e, s))
        }),
{
}

/// Planes that agree on a segment agree on its lines.
proof fn lemma_same_segment(
    before: Seq<u16>,
    now: Seq<u16>,
    stride: int,
    vertical: bool,
    e: int,
    s: int,
)
    requires
        before.len() == now.len(),
        0 < stride,
        e % 8 == 0,
        s % 4 == 0,
        forall|i: int|
            0 <= i < before.len() && segment(stride, vertical, i) == (e, s) ==> #[trigger] now[i]
                == before[i],
    ensures
        forall|i: int|
            0 <= i < before.len() && ({
                let (ex, ey) = corner(vertical, e, s);
                let (k, j) = edgefilter::in_seg(ex, ey, vertical, i / stride, i % stride);
                0 <= k < 4 && -4 <= j < 4
            }) ==> #[trigger] now[i] == before[i],
{
    assert forall|i: int|
        0 <= i < before.len() && ({
            let (ex, ey) = corner(vertical, e, s);
            let (k, j) = edgefilter::in_seg(ex, ey, vertical, i / stride, i % stride);
            0 <= k < 4 && -4 <= j < 4
        }) implies #[trigger] now[i] == before[i] by {
        lemma_segment(stride, vertical, e, s, i);
    }
}

/// What the luma filter makes of a segment rests on that segment only.
proof fn lemma_luma_local(
    before: Seq<u16>,
    now: Seq<u16>,
    stride: int,
    height: int,
    vertical: bool,
    e: int,
    s: int,
    beta: int,
    tc: int,
    max_val: int,
    x: int,
)
    requires
        before.len() == now.len(),
        0 <= x < before.len(),
        e % 8 == 0,
        s % 4 == 0,
        ({
            let (ex, ey) = corner(vertical, e, s);
            edgefilter::seg_ok(before.len() as int, stride, height, ex, ey, vertical)
        }),
        forall|i: int|
            0 <= i < before.len() && segment(stride, vertical, i) == (e, s) ==> #[trigger] now[i]
                == before[i],
        segment(stride, vertical, x) == (e, s),
    ensures
        ({
            let (ex, ey) = corner(vertical, e, s);
            edgefilter::luma_seg_out(now, stride, ex, ey, vertical, beta, tc, max_val, x)
                == edgefilter::luma_seg_out(before, stride, ex, ey, vertical, beta, tc, max_val, x)
        }),
{
    let (ex, ey) = corner(vertical, e, s);
    let (k, j) = edgefilter::in_seg(ex, ey, vertical, x / stride, x % stride);
    lemma_same_segment(before, now, stride, vertical, e, s);
    lemma_segment(stride, vertical, e, s, x);
    edgefilter::lemma_line_kept(before, now, stride, height, ex, ey, vertical, 0);
    edgefilter::lemma_line_kept(before, now, stride, height, ex, ey, vertical, 3);
    edgefilter::lemma_line_kept(before, now, stride, height, ex, ey, vertical, k);
    edgefilter::lemma_same_choice(
        edgefilter::seg_line(now, stride, ex, ey, vertical, 0),
        edgefilter::seg_line(now, stride, ex, ey, vertical, 3),
        edgefilter::seg_line(before, stride, ex, ey, vertical, 0),
        edgefilter::seg_line(before, stride, ex, ey, vertical, 3),
        beta,
        tc,
    );
    let c = edgefilter::choice(
        edgefilter::seg_line(before, stride, ex, ey, vertical, 0),
        edgefilter::seg_line(before, stride, ex, ey, vertical, 3),
        beta,
        tc,
    );
    edgefilter::lemma_same_luma(
        edgefilter::seg_line(now, stride, ex, ey, vertical, k),
        edgefilter::seg_line(before, stride, ex, ey, vertical, k),
        c,
        tc,
        max_val,
        j,
    );
}

/// What the chroma filter makes of a segment rests on that segment only.
proof fn lemma_chroma_local(
    before: Seq<u16>,
    now: Seq<u16>,
    stride: int,
    height: int,
    vertical: bool,
    e: int,
    s: int,
    tc: int,
    max_val: int,
    x: int,
)
    requires
        before.len() == now.len(),
        0 <= x < before.len(),
        e % 8 == 0,
        s % 4 == 0,
        ({
            let (ex, ey) = corner(vertical, e, s);
            edgefilter::seg_ok(before.len() as int, stride, height, ex, ey, vertical)
        }),
        forall|i: int|
            0 <= i < before.len() && segment(stride, vertical, i) == (e, s) ==> #[trigger] now[i]
                == before[i],
        segment(stride, vertical, x) == (e, s),
    ensures
        ({
            let (ex, ey) = corner(vertical, e, s);
            edgefilter::chroma_seg_out(now, stride, ex, ey, vertical, tc, max_val, x)
                == edgefilter::chroma_seg_out(before, stride, ex, ey, vertical, tc, max_val, x)
        }),
{
    let (ex, ey) = corner(vertical, e, s);
    let (k, j) = edgefilter::in_seg(ex, ey, vertical, x / stride, x % stride);
    lemma_same_segment(before, now, stride, vertical, e, s);
    lemma_segment(stride, vertical, e, s, x);
    edgefilter::lemma_line_kept(before, now, stride, height, ex, ey, vertical, k);
    edgefilter::lemma_same_chroma(
        edgefilter::seg_line(now, stride, ex, ey, vertical, k),
        edgefilter::seg_line(before, stride, ex, ey, vertical, k),
        tc,
        max_val,
        j,
    );
}

/// A 4x4 map entry under luma `(lx, ly)` is inside the map.
pub proof fn lemma_map_inside(lx: int, ly: int, w: int, h: int, stride: int, len: int)
    requires
        0 <= lx < w,
        0 <= ly < h,
        w <= 4 * stride,
        ((h + 3) / 4) * stride <= len,
    ensures
        0 <= (ly / 4) * stride,
        0 <= (ly / 4) * stride + lx / 4 < len,
{
    refs::lemma_inside(ly / 4, lx / 4, stride, (h + 3) / 4);
}

/// The quantisation parameter of the edge at luma `(luma_x, luma_y)`.
pub fn edge_qp(
    fallback: u8,
    qp_map: Option<&[u8]>,
    stride: usize,
    luma_x: usize,
    luma_y: usize,
    vertical: bool,
    Ghost(info): Ghost<EdgeInfo>,
    Ghost(w): Ghost<int>,
    Ghost(h): Ghost<int>,
) -> (r: i32)
    requires
        info.covers(w, h),
        info.qp == fallback,
        info.map == map_view(qp_map),
        info.map_stride == stride,
        luma_x < w,
        luma_y < h,
        if vertical {
            luma_x >= 4
        } else {
            luma_y >= 4
        },
    ensures
        r == info.qp_at(luma_x as int, luma_y as int, vertical),
        0 <= r <= 255,
{
    match qp_map {
        None => fallback as i32,
        Some(map) => {
            let len: usize = map.len();
            let qx: usize = luma_x / 4;
            let qy: usize = luma_y / 4;
            let (px, py): (usize, usize) = if vertical {
                (qx - 1, qy)
            } else {
                (qx, qy - 1)
            };
            proof {
                lemma_map_inside(luma_x as int, luma_y as int, w, h, stride as int, len as int);
                lemma_map_inside(4 * px as int, 4 * py as int, w, h, stride as int, len as int);
            }
            (map[py * stride + px] as i32 + map[qy * stride + qx] as i32 + 1) / 2
        },
    }
}

/// The samples of a map, if there is one.
pub open spec fn map_view(map: Option<&[u8]>) -> Option<Seq<u8>> {
    match map {
        None => None,
        Some(m) => Some(m@),
    }
}

/// `BETA_TABLE` or `TC_TABLE` entry at a bit depth.
fn scaled_entry(v: i32, bit_depth: u8) -> (r: i32)
    requires
        0 <= v <= 64,
        8 <= bit_depth <= 16,
    ensures
        r == v * pow2((bit_depth - 8) as nat),
        0 <= r <= 0x4000,
{
    let f: i64 = pow2_i64((bit_depth - 8) as u32);
    proof {
        lemma2_to64();
        if bit_depth < 16 {
            lemma_pow2_strictly_increases((bit_depth - 8) as nat, 8);
        }
        assert(0 <= v * f <= 0x4000) by (nonlinear_arith)
            requires
                0 <= v <= 64,
                0 <= f <= 256,
        ;
    }
    v * (f as i32)
}

fn beta_at(qp: i32, bit_depth: u8) -> (r: i32)
    requires
        8 <= bit_depth <= 16,
    ensures
        r == beta_of(qp as int, bit_depth as int),
        0 <= r <= 0x4000,
{
    assert(forall|i: int| 0 <= i < 52 ==> 0 <= #[trigger] BETA_TABLE@[i] <= 64);
    scaled_entry(BETA_TABLE[clip3(0, 51, qp) as usize], bit_depth)
}

fn tc_at(qp: i32, bit_depth: u8) -> (r: i32)
    requires
        8 <= bit_depth <= 16,
        qp <= 1000,
    ensures
        r == tc_of(qp as int, bit_depth as int),
        0 <= r <= 0x4000,
{
    assert(forall|i: int| 0 <= i < 54 ==> 0 <= #[trigger] TC_TABLE@[i] <= 64);
    scaled_entry(TC_TABLE[clip3(0, 53, qp + 2) as usize], bit_depth)
}

fn max_at(bit_depth: u8) -> (r: i32)
    requires
        8 <= bit_depth <= 16,
    ensures
        r == pow2(bit_depth as nat) - 1,
        0 <= r <= 65535,
{
    let f: i64 = pow2_i64(bit_depth as u32);
    proof {
        lemma2_to64();
        if bit_depth < 16 {
            lemma_pow2_strictly_increases(bit_depth as nat, 16);
        }
    }
    (f - 1) as i32
}

/// Segment `(e, s)` comes before `(e0, s0)` in filtering order.
spec fn earlier(p: (int, int), e0: int, s0: int) -> bool {
    p.0 < e0 || (p.0 == e0 && p.1 < s0)
}

/// The maps as they are passed around.
pub open spec fn info_of(
    edges: Seq<bool>,
    edge_stride: int,
    qp: u8,
    qp_map: Option<&[u8]>,
    qp_stride: int,
) -> EdgeInfo {
    EdgeInfo {
        flags: edges,
        stride: edge_stride,
        qp: qp as int,
        map: map_view(qp_map),
        map_stride: qp_stride,
    }
}

/// The luma plane after the edges of one orientation were filtered.
pub open spec fn luma_passed(
    plane: Seq<u16>,
    w: int,
    h: int,
    bit_depth: int,
    vertical: bool,
    info: EdgeInfo,
) -> Seq<u16> {
    Seq::new(plane.len(), |x: int| luma_pass(plane, w, h, bit_depth, vertical, info, x) as u16)
}

/// A chroma plane after the edges of one orientation were filtered.
pub open spec fn chroma_passed(
    plane: Seq<u16>,
    cw: int,
    ch: int,
    bit_depth: int,
    chroma: ChromaFormat,
    vertical: bool,
    info: EdgeInfo,
) -> Seq<u16> {
    Seq::new(
        plane.len(),
        |x: int| chroma_pass(plane, cw, ch, bit_depth, chroma, vertical, info, x) as u16,
    )
}

/// Row and column of a sample.
proof fn lemma_rows(w: int, h: int, x: int)
    requires
        0 <= x < w * h,
        0 <= w,
        0 <= h,
    ensures
        0 <= x / w < h,
        0 <= x % w < w,
{
    assert(0 < w) by (nonlinear_arith)
        requires
            0 <= x < w * h,
            0 <= w,
    ;
    assert(x / w < h) by (nonlinear_arith)
        requires
            0 <= x < w * h,
            0 < w,
    ;
    assert(0 <= x / w) by (nonlinear_arith)
        requires
            0 <= x,
            0 < w,
    ;
}

/// Filters one segment of a luma plane if its edge is marked.
fn step_luma(
    y: &mut [u16],
    w: usize,
    h: usize,
    qp: u8,
    vertical: bool,
    bit_depth: u8,
    edges: &[bool],
    edge_stride: usize,
    qp_map: Option<&[u8]>,
    qp_stride: usize,
    e: usize,
    s: usize,
)
    requires
        old(y)@.len() == w * h,
        w % 8 == 0,
        h % 8 == 0,
        w <= 0x3fff_fff0,
        h <= 0x3fff_fff0,
        8 <= bit_depth <= 16,
        ({
            let info = info_of(edges@, edge_stride as int, qp, qp_map, qp_stride as int);
            info.covers(w as int, h as int)
        }),
        8 <= e < across(vertical, w as int, h as int),
        s < across(!vertical, w as int, h as int),
        e % 8 == 0,
        s % 4 == 0,
    ensures
        final(y)@.len() == old(y)@.len(),
        forall|x: int|
            0 <= x < old(y)@.len() ==> #[trigger] final(y)@[x] == if segment(
                w as int,
                vertical,
                x,
            ) == (e as int, s as int) {
                luma_pass(
                    old(y)@,
                    w as int,
                    h as int,
                    bit_depth as int,
                    vertical,
                    info_of(edges@, edge_stride as int, qp, qp_map, qp_stride as int),
                    x,
                )
            } else {
                old(y)@[x] as int
            },
{
    let ghost info = info_of(edges@, edge_stride as int, qp, qp_map, qp_stride as int);
    let max_val: i32 = max_at(bit_depth);
    let (ex, ey): (usize, usize) = if vertical {
        (e, s)
    } else {
        (s, e)
    };
    let (lx, ly): (usize, usize) = (ex, ey);
    let ghost (gw, gh) = (w as int, h as int);
    let len: usize = edges.len();
    proof {
        lemma_map_inside(lx as int, ly as int, gw, gh, edge_stride as int, len as int);
    }
    if edges[(ly / 4) * edge_stride + lx / 4] {
        let qp_l: i32 = edge_qp(
            qp,
            qp_map,
            qp_stride,
            lx,
            ly,
            vertical,
            Ghost(info),
            Ghost(gw),
            Ghost(gh),
        );
        let beta: i32 = beta_at(qp_l, bit_depth);
        let tc: i32 = tc_at(qp_l, bit_depth);
        filter_luma_segment(y, w, ex, ey, vertical, beta, tc, max_val, Ghost(h as int));
        proof {
            assert forall|x: int| 0 <= x < y@.len() implies #[trigger] y@[x] == (if segment(
                w as int,
                vertical,
                x,
            ) == (e as int, s as int) {
                luma_pass(
                    old(y)@,
                    w as int,
                    h as int,
                    bit_depth as int,
                    vertical,
                    info,
                    x,
                )
            } else {
                old(y)@[x] as int
            }) by {
                lemma_segment(w as int, vertical, e as int, s as int, x);
            }
        }
    }
}

/// One more segment is filtered as if it had been the first.
proof fn lemma_luma_advance(
    before: Seq<u16>,
    now: Seq<u16>,
    after: Seq<u16>,
    w: int,
    h: int,
    bit_depth: int,
    vertical: bool,
    info: EdgeInfo,
    e: int,
    s: int,
)
    requires
        before.len() == now.len() == after.len(),
        before.len() == w * h,
        0 < w,
        w % 8 == 0,
        h % 8 == 0,
        8 <= e < across(vertical, w, h),
        0 <= s < across(!vertical, w, h),
        e % 8 == 0,
        s % 4 == 0,
        forall|x: int|
            0 <= x < now.len() ==> #[trigger] now[x] == if earlier(
                segment(w, vertical, x),
                e,
                s,
            ) {
                luma_pass(before, w, h, bit_depth, vertical, info, x)
            } else {
                before[x] as int
            },
        forall|x: int|
            0 <= x < after.len() ==> #[trigger] after[x] == if segment(w, vertical, x) == (e, s) {
                luma_pass(now, w, h, bit_depth, vertical, info, x)
            } else {
                now[x] as int
            },
    ensures
        forall|x: int|
            0 <= x < after.len() ==> #[trigger] after[x] == if earlier(
                segment(w, vertical, x),
                e,
                s + 4,
            ) {
                luma_pass(before, w, h, bit_depth, vertical, info, x)
            } else {
                before[x] as int
            },
{
    let (ex, ey) = corner(vertical, e, s);
    let (lx, ly) = (ex, ey);
    let qp = info.qp_at(lx, ly, vertical);
    assert forall|x: int| 0 <= x < after.len() implies #[trigger] after[x] == (if earlier(
        segment(w, vertical, x),
        e,
        s + 4,
    ) {
        luma_pass(before, w, h, bit_depth, vertical, info, x)
    } else {
        before[x] as int
    }) by {
        assert(now[x] == now[x]);
        if segment(w, vertical, x) == (e, s) {
            lemma_luma_local(
                before,
                now,
                w,
                h,
                vertical,
                e,
                s,
                beta_of(qp, bit_depth),
                tc_of(qp, bit_depth),
                pow2(bit_depth as nat) - 1,
                x,
            );
        }
    }
}

/// Filters the luma edges of one orientation on the 8-sample grid.
pub fn deblock_luma(
    y: &mut [u16],
    w: usize,
    h: usize,
    qp: u8,
    vertical: bool,
    bit_depth: u8,
    edges: &[bool],
    edge_stride: usize,
    qp_map: Option<&[u8]>,
    qp_stride: usize,
)
    requires
        old(y)@.len() == w * h,
        w % 8 == 0,
        h % 8 == 0,
        w <= 0x3fff_fff0,
        h <= 0x3fff_fff0,
        8 <= bit_depth <= 16,
        ({
            let info = info_of(edges@, edge_stride as int, qp, qp_map, qp_stride as int);
            info.covers(w as int, h as int)
        }),
    ensures
        final(y)@ == luma_passed(
            old(y)@,
            w as int,
            h as int,
            bit_depth as int,
            
            vertical,
            info_of(edges@, edge_stride as int, qp, qp_map, qp_stride as int),
        ),
{
    let ghost info = info_of(edges@, edge_stride as int, qp, qp_map, qp_stride as int);
    let (lim, along): (usize, usize) = if vertical {
        (w, h)
    } else {
        (h, w)
    };
    let mut e: usize = 8;
    proof {
        assert forall|x: int| 0 <= x < y@.len() implies #[trigger] y@[x] == (if earlier(
            segment(w as int, vertical, x),
            8,
            0,
        ) {
            luma_pass(old(y)@, w as int, h as int, bit_depth as int, vertical, info, x)
        } else {
            old(y)@[x] as int
        }) by {
            lemma_rows(w as int, h as int, x);
        }
    }
    while e < lim
        invariant
            y@.len() == old(y)@.len(),
            y@.len() == w * h,
            w % 8 == 0,
            h % 8 == 0,
            w <= 0x3fff_fff0,
            h <= 0x3fff_fff0,
            8 <= bit_depth <= 16,
            info.covers(w as int, h as int),
            info == info_of(edges@, edge_stride as int, qp, qp_map, qp_stride as int),
            lim == across(vertical, w as int, h as int),
            along == across(!vertical, w as int, h as int),
            0 <= e <= lim + 8,
            e % 8 == 0,
            8 <= e,
            forall|x: int|
                0 <= x < y@.len() ==> #[trigger] y@[x] == if earlier(
                    segment(w as int, vertical, x),
                    e as int,
                    0,
                ) {
                    luma_pass(old(y)@, w as int, h as int, bit_depth as int, vertical, info, x)
                } else {
                    old(y)@[x] as int
                },
        decreases lim + 8 - e,
    {
        let mut s: usize = 0;
        while s < along
            invariant
            y@.len() == old(y)@.len(),
            y@.len() == w * h,
            w % 8 == 0,
            h % 8 == 0,
            w <= 0x3fff_fff0,
            h <= 0x3fff_fff0,
            8 <= bit_depth <= 16,
            info.covers(w as int, h as int),
            info == info_of(edges@, edge_stride as int, qp, qp_map, qp_stride as int),
            lim == across(vertical, w as int, h as int),
            along == across(!vertical, w as int, h as int),
            0 <= e <= lim + 8,
            e % 8 == 0,
            8 <= e,
            e < lim,
                0 <= s <= along,
                s % 4 == 0,
                forall|x: int|
                    0 <= x < y@.len() ==> #[trigger] y@[x] == if earlier(
                        segment(w as int, vertical, x),
                        e as int,
                        s as int,
                    ) {
                        luma_pass(old(y)@, w as int, h as int, bit_depth as int, vertical, info, x)
                    } else {
                        old(y)@[x] as int
                    },
            decreases along - s,
        {
            let ghost now = y@;
            step_luma(
                y,
                w,
                h,
                qp,
                vertical,
                bit_depth,
                edges,
                edge_stride,
                qp_map,
                qp_stride,
                e,
                s,
            );
            proof {
                lemma_luma_advance(
                    old(y)@,
                    now,
                    y@,
                    w as int,
                    h as int,
                    bit_depth as int,
                    vertical,
                    info,
                    e as int,
                    s as int,
                );
            }
            s += 4;
        }
        proof {
            assert forall|x: int| 0 <= x < y@.len() implies #[trigger] y@[x] == (if earlier(
                segment(w as int, vertical, x),
                e + 8,
                0,
            ) {
                luma_pass(old(y)@, w as int, h as int, bit_depth as int, vertical, info, x)
            } else {
                old(y)@[x] as int
            }) by {
                lemma_rows(w as int, h as int, x);
            }
        }
        e += 8;
    }
    proof {
        assert forall|x: int| 0 <= x < y@.len() implies #[trigger] y@[x] == luma_pass(
            old(y)@,
            w as int,
            h as int,
            bit_depth as int,
            vertical,
            info,
            x,
        ) by {
            lemma_rows(w as int, h as int, x);
        }
        assert(y@ =~= luma_passed(
            old(y)@,
            w as int,
            h as int,
            bit_depth as int,
            
            vertical,
            info,
        ));
    }
}

proof fn lemma_scaled(a: int, b: int, k: int)
    requires
        0 <= a < b <= 0x3fff_fff0,
        1 <= k <= 2,
    ensures
        a <= a * k < b * k <= 0x7fff_ffe0,
{
    assert(a <= a * k < b * k <= 0x7fff_ffe0) by (nonlinear_arith)
        requires
            0 <= a < b <= 0x3fff_fff0,
            1 <= k <= 2,
    ;
}

/// Where a chroma edge segment looks up the luma maps.
fn chroma_lookup_at(
    chroma: ChromaFormat,
    vertical: bool,
    e: usize,
    s: usize,
    Ghost(cw): Ghost<int>,
    Ghost(ch): Ghost<int>,
) -> (r: (usize, usize))
    requires
        cw <= 0x3fff_fff0,
        ch <= 0x3fff_fff0,
        cw % 8 == 0,
        ch % 8 == 0,
        8 <= e < across(vertical, cw, ch),
        s < across(!vertical, cw, ch),
        s % 4 == 0,
    ensures
        (r.0 as int, r.1 as int) == chroma_lookup(chroma, vertical, e as int, s as int),
        r.0 < cw * chroma.spec_sub_w(),
        r.1 < ch * chroma.spec_sub_h(),
        if vertical {
            r.0 >= 4
        } else {
            r.1 >= 4
        },
{
    let (sub_w, sub_h): (usize, usize) = (chroma.sub_w(), chroma.sub_h());
    if vertical {
        proof {
            lemma_scaled(e as int, cw, sub_w as int);
            lemma_scaled(s + 1, ch, sub_h as int);
        }
        (e * sub_w, (s + 1) * sub_h)
    } else {
        proof {
            lemma_scaled(s + 1, cw, sub_w as int);
            lemma_scaled(e as int, ch, sub_h as int);
        }
        ((s + 1) * sub_w, e * sub_h)
    }
}

/// Filters one segment of a chroma plane if its edge is marked.
fn step_chroma(
    c: &mut [u16],
    cw: usize,
    chh: usize,
    qp: u8,
    vertical: bool,
    bit_depth: u8,
    chroma: ChromaFormat,
    edges: &[bool],
    edge_stride: usize,
    qp_map: Option<&[u8]>,
    qp_stride: usize,
    e: usize,
    s: usize,
)
    requires
        old(c)@.len() == cw * chh,
        cw % 8 == 0,
        chh % 8 == 0,
        cw <= 0x3fff_fff0,
        chh <= 0x3fff_fff0,
        8 <= bit_depth <= 16,
        ({
            let info = info_of(edges@, edge_stride as int, qp, qp_map, qp_stride as int);
            info.covers(cw * chroma.spec_sub_w(), chh * chroma.spec_sub_h())
        }),
        8 <= e < across(vertical, cw as int, chh as int),
        s < across(!vertical, cw as int, chh as int),
        e % 8 == 0,
        s % 4 == 0,
    ensures
        final(c)@.len() == old(c)@.len(),
        forall|x: int|
            0 <= x < old(c)@.len() ==> #[trigger] final(c)@[x] == if segment(
                cw as int,
                vertical,
                x,
            ) == (e as int, s as int) {
                chroma_pass(
                    old(c)@,
                    cw as int,
                    chh as int,
                    bit_depth as int, chroma,
                    vertical,
                    info_of(edges@, edge_stride as int, qp, qp_map, qp_stride as int),
                    x,
                )
            } else {
                old(c)@[x] as int
            },
{
    let ghost info = info_of(edges@, edge_stride as int, qp, qp_map, qp_stride as int);
    let max_val: i32 = max_at(bit_depth);
    let (ex, ey): (usize, usize) = if vertical {
        (e, s)
    } else {
        (s, e)
    };
    let ghost (gw, gh) = (cw * chroma.spec_sub_w(), chh * chroma.spec_sub_h());
    let (lx, ly): (usize, usize) = chroma_lookup_at(
        chroma,
        vertical,
        e,
        s,
        Ghost(cw as int),
        Ghost(chh as int),
    );
    let len: usize = edges.len();
    proof {
        lemma_map_inside(lx as int, ly as int, gw, gh, edge_stride as int, len as int);
    }
    if edges[(ly / 4) * edge_stride + lx / 4] {
        let qp_l: i32 = edge_qp(
            qp,
            qp_map,
            qp_stride,
            lx,
            ly,
            vertical,
            Ghost(info),
            Ghost(gw),
            Ghost(gh),
        );
        let tc: i32 = tc_at(chroma_qp(qp_l, chroma), bit_depth);
        filter_chroma_segment(c, cw, ex, ey, vertical, tc, max_val, Ghost(chh as int));
        proof {
            assert forall|x: int| 0 <= x < c@.len() implies #[trigger] c@[x] == (if segment(
                cw as int,
                vertical,
                x,
            ) == (e as int, s as int) {
                chroma_pass(
                    old(c)@,
                    cw as int,
                    chh as int,
                    bit_depth as int, chroma,
                    vertical,
                    info,
                    x,
                )
            } else {
                old(c)@[x] as int
            }) by {
                lemma_segment(cw as int, vertical, e as int, s as int, x);
            }
        }
    }
}

/// A segment that is as it was is filtered as it would have been.
proof fn lemma_chroma_own(
    before: Seq<u16>,
    now: Seq<u16>,
    w: int,
    h: int,
    bit_depth: int,
    chroma: ChromaFormat,
    vertical: bool,
    info: EdgeInfo,
    e: int,
    s: int,
    x: int,
)
    requires
        before.len() == now.len(),
        before.len() == w * h,
        0 < w,
        w % 8 == 0,
        h % 8 == 0,
        8 <= e < across(vertical, w, h),
        0 <= s < across(!vertical, w, h),
        e % 8 == 0,
        s % 4 == 0,
        0 <= x < before.len(),
        forall|i: int|
            0 <= i < before.len() && segment(w, vertical, i) == (e, s) ==> #[trigger] now[i]
                == before[i],
        segment(w, vertical, x) == (e, s),
    ensures
        chroma_pass(now, w, h, bit_depth, chroma, vertical, info, x) == chroma_pass(
            before,
            w,
            h,
            bit_depth,
            chroma,
            vertical,
            info,
            x,
        ),
{
    let (lx, ly) = chroma_lookup(chroma, vertical, e, s);
    let qp = edgefilter::chroma_qp_of(info.qp_at(lx, ly, vertical), chroma);
    lemma_chroma_local(
        before,
        now,
        w,
        h,
        vertical,
        e,
        s,
        tc_of(qp, bit_depth),
        pow2(bit_depth as nat) - 1,
        x,
    );
}

/// One more segment is filtered as if it had been the first.
proof fn lemma_chroma_advance(
    before: Seq<u16>,
    now: Seq<u16>,
    after: Seq<u16>,
    w: int,
    h: int,
    bit_depth: int,
    chroma: ChromaFormat,
    vertical: bool,
    info: EdgeInfo,
    e: int,
    s: int,
)
    requires
        before.len() == now.len() == after.len(),
        before.len() == w * h,
        0 < w,
        w % 8 == 0,
        h % 8 == 0,
        8 <= e < across(vertical, w, h),
        0 <= s < across(!vertical, w, h),
        e % 8 == 0,
        s % 4 == 0,
        forall|x: int|
            0 <= x < now.len() ==> #[trigger] now[x] == if earlier(
                segment(w, vertical, x),
                e,
                s,
            ) {
                chroma_pass(before, w, h, bit_depth, chroma, vertical, info, x)
            } else {
                before[x] as int
            },
        forall|x: int|
            0 <= x < after.len() ==> #[trigger] after[x] == if segment(w, vertical, x) == (e, s) {
                chroma_pass(now, w, h, bit_depth, chroma, vertical, info, x)
            } else {
                now[x] as int
            },
    ensures
        forall|x: int|
            0 <= x < after.len() ==> #[trigger] after[x] == if earlier(
                segment(w, vertical, x),
                e,
                s + 4,
            ) {
                chroma_pass(before, w, h, bit_depth, chroma, vertical, info, x)
            } else {
                before[x] as int
            },
{
    assert forall|x: int|
        0 <= x < before.len() && segment(w, vertical, x) == (e, s) implies #[trigger] now[x]
        == before[x] by {
        assert(!earlier(segment(w, vertical, x), e, s));
    }
    assert forall|x: int| 0 <= x < after.len() implies #[trigger] after[x] == (if earlier(
        segment(w, vertical, x),
        e,
        s + 4,
    ) {
        chroma_pass(before, w, h, bit_depth, chroma, vertical, info, x)
    } else {
        before[x] as int
    }) by {
        assert(now[x] == now[x]);
        if segment(w, vertical, x) == (e, s) {
            lemma_chroma_own(before, now, w, h, bit_depth, chroma, vertical, info, e, s, x);
        }
    }
}

/// Filters the chroma edges of one orientation on the 8-sample grid of the plane.
#[verifier::spinoff_prover]
#[verifier::rlimit(40)]
pub fn deblock_chroma(
    c: &mut [u16],
    cw: usize,
    chh: usize,
    qp: u8,
    vertical: bool,
    bit_depth: u8,
    chroma: ChromaFormat,
    edges: &[bool],
    edge_stride: usize,
    qp_map: Option<&[u8]>,
    qp_stride: usize,
)
    requires
        old(c)@.len() == cw * chh,
        cw % 8 == 0,
        chh % 8 == 0,
        cw <= 0x3fff_fff0,
        chh <= 0x3fff_fff0,
        8 <= bit_depth <= 16,
        ({
            let info = info_of(edges@, edge_stride as int, qp, qp_map, qp_stride as int);
            info.covers(cw * chroma.spec_sub_w(), chh * chroma.spec_sub_h())
        }),
    ensures
        final(c)@ == chroma_passed(
            old(c)@,
            cw as int,
            chh as int,
            bit_depth as int,
            chroma,
            vertical,
            info_of(edges@, edge_stride as int, qp, qp_map, qp_stride as int),
        ),
{
    let ghost info = info_of(edges@, edge_stride as int, qp, qp_map, qp_stride as int);
    let (lim, along): (usize, usize) = if vertical {
        (cw, chh)
    } else {
        (chh, cw)
    };
    let mut e: usize = 8;
    proof {
        assert forall|x: int| 0 <= x < c@.len() implies #[trigger] c@[x] == (if earlier(
            segment(cw as int, vertical, x),
            8,
            0,
        ) {
            chroma_pass(old(c)@, cw as int, chh as int, bit_depth as int, chroma, vertical, info, x)
        } else {
            old(c)@[x] as int
        }) by {
            lemma_rows(cw as int, chh as int, x);
        }
    }
    while e < lim
        invariant
            c@.len() == old(c)@.len(),
            c@.len() == cw * chh,
            cw % 8 == 0,
            chh % 8 == 0,
            cw <= 0x3fff_fff0,
            chh <= 0x3fff_fff0,
            8 <= bit_depth <= 16,
            info.covers(cw * chroma.spec_sub_w(), chh * chroma.spec_sub_h()),
            info == info_of(edges@, edge_stride as int, qp, qp_map, qp_stride as int),
            lim == across(vertical, cw as int, chh as int),
            along == across(!vertical, cw as int, chh as int),
            0 <= e <= lim + 8,
            e % 8 == 0,
            8 <= e,
            forall|x: int|
                0 <= x < c@.len() ==> #[trigger] c@[x] == if earlier(
                    segment(cw as int, vertical, x),
                    e as int,
                    0,
                ) {
                    chroma_pass(old(c)@, cw as int, chh as int, bit_depth as int, chroma, vertical, info, x)
                } else {
                    old(c)@[x] as int
                },
        decreases lim + 8 - e,
    {
        let mut s: usize = 0;
        while s < along
            invariant
            c@.len() == old(c)@.len(),
            c@.len() == cw * chh,
            cw % 8 == 0,
            chh % 8 == 0,
            cw <= 0x3fff_fff0,
            chh <= 0x3fff_fff0,
            8 <= bit_depth <= 16,
            info.covers(cw * chroma.spec_sub_w(), chh * chroma.spec_sub_h()),
            info == info_of(edges@, edge_stride as int, qp, qp_map, qp_stride as int),
            lim == across(vertical, cw as int, chh as int),
            along == across(!vertical, cw as int, chh as int),
            0 <= e <= lim + 8,
            e % 8 == 0,
            8 <= e,
            e < lim,
                0 <= s <= along,
                s % 4 == 0,
                forall|x: int|
                    0 <= x < c@.len() ==> #[trigger] c@[x] == if earlier(
                        segment(cw as int, vertical, x),
                        e as int,
                        s as int,
                    ) {
                        chroma_pass(
                            old(c)@,
                            cw as int,
                            chh as int,
                            bit_depth as int,
                            chroma,
                            vertical,
                            info,
                            x,
                        )
                    } else {
                        old(c)@[x] as int
                    },
            decreases along - s,
        {
            let ghost now = c@;
            step_chroma(
                c,
                cw,
                chh,
                qp,
                vertical,
                bit_depth, chroma,
                edges,
                edge_stride,
                qp_map,
                qp_stride,
                e,
                s,
            );
            proof {
                lemma_chroma_advance(
                    old(c)@,
                    now,
                    c@,
                    cw as int,
                    chh as int,
                    bit_depth as int, chroma,
                    vertical,
                    info,
                    e as int,
                    s as int,
                );
            }
            s += 4;
        }
        proof {
            assert forall|x: int| 0 <= x < c@.len() implies #[trigger] c@[x] == (if earlier(
                segment(cw as int, vertical, x),
                e + 8,
                0,
            ) {
                chroma_pass(old(c)@, cw as int, chh as int, bit_depth as int, chroma, vertical, info, x)
            } else {
                old(c)@[x] as int
            }) by {
                lemma_rows(cw as int, chh as int, x);
            }
        }
        e += 8;
    }
    proof {
        assert forall|x: int| 0 <= x < c@.len() implies #[trigger] c@[x] == chroma_pass(
            old(c)@,
            cw as int,
            chh as int,
            bit_depth as int,
            chroma,
            vertical,
            info,
            x,
        ) by {
            lemma_rows(cw as int, chh as int, x);
        }
        assert(c@ =~= chroma_passed(
            old(c)@,
            cw as int,
            chh as int,
            bit_depth as int,
            chroma,
            vertical,
            info,
        ));
    }
}

/// A luma plane after both orientations were filtered.
pub open spec fn luma_deblocked(
    plane: Seq<u16>,
    w: int,
    h: int,
    bit_depth: int,
    v: EdgeInfo,
    hz: EdgeInfo,
) -> Seq<u16> {
    luma_passed(luma_passed(plane, w, h, bit_depth, true, v), w, h, bit_depth, false, hz)
}

/// A chroma plane after both orientations were filtered.
pub open spec fn chroma_deblocked(
    plane: Seq<u16>,
    cw: int,
    ch: int,
    bit_depth: int,
    chroma: ChromaFormat,
    v: EdgeInfo,
    hz: EdgeInfo,
) -> Seq<u16> {
    if chroma is Monochrome {
        plane
    } else {
        chroma_passed(
            chroma_passed(plane, cw, ch, bit_depth, chroma, true, v),
            cw,
            ch,
            bit_depth,
            chroma,
            false,
            hz,
        )
    }
}

/// A plane whose sides the filter can work on.
pub open spec fn plane_ok(len: int, w: int, h: int) -> bool {
    &&& len == w * h
    &&& w % 8 == 0
    &&& h % 8 == 0
    &&& 0 <= w <= 0x3fff_fff0
    &&& 0 <= h <= 0x3fff_fff0
}

/// The maps cover the luma plane and what the chroma planes stand for.
pub open spec fn maps_ok(
    info: EdgeInfo,
    w: int,
    h: int,
    cw: int,
    ch: int,
    chroma: ChromaFormat,
) -> bool {
    &&& info.covers(w, h)
    &&& !(chroma is Monochrome) ==> info.covers(cw * chroma.spec_sub_w(), ch * chroma.spec_sub_h())
}

/// Filters a reconstructed picture: the vertical edges of each plane, and after
/// them the horizontal ones.
fn deblock_impl(
    y: &mut [u16],
    w: usize,
    h: usize,
    cb: &mut [u16],
    cr: &mut [u16],
    cw: usize,
    ch: usize,
    qp: u8,
    bit_depth: BitDepth,
    chroma: ChromaFormat,
    edge_v: &[bool],
    edge_h: &[bool],
    qp_map: Option<&[u8]>,
    qp_stride: usize,
)
    requires
        plane_ok(old(y)@.len() as int, w as int, h as int),
        !(chroma is Monochrome) ==> plane_ok(old(cb)@.len() as int, cw as int, ch as int)
            && old(cr)@.len() == old(cb)@.len(),
        maps_ok(
            info_of(edge_v@, w as int / 4, qp, qp_map, qp_stride as int),
            w as int,
            h as int,
            cw as int,
            ch as int,
            chroma,
        ),
        maps_ok(
            info_of(edge_h@, w as int / 4, qp, qp_map, qp_stride as int),
            w as int,
            h as int,
            cw as int,
            ch as int,
            chroma,
        ),
    ensures
        ({
            let v = info_of(edge_v@, w as int / 4, qp, qp_map, qp_stride as int);
            let hz = info_of(edge_h@, w as int / 4, qp, qp_map, qp_stride as int);
            let bits = bit_depth.spec_bits();
            &&& final(y)@ == luma_deblocked(old(y)@, w as int, h as int, bits, v, hz)
            &&& final(cb)@ == chroma_deblocked(old(cb)@, cw as int, ch as int, bits, chroma, v, hz)
            &&& final(cr)@ == chroma_deblocked(old(cr)@, cw as int, ch as int, bits, chroma, v, hz)
        }),
{
    let stride: usize = w / 4;
    let bits: u8 = bit_depth.bits();
    deblock_luma(y, w, h, qp, true, bits, edge_v, stride, qp_map, qp_stride);
    deblock_luma(y, w, h, qp, false, bits, edge_h, stride, qp_map, qp_stride);
    if !chroma.is_monochrome() {
        deblock_chroma(cb, cw, ch, qp, true, bits, chroma, edge_v, stride, qp_map, qp_stride);
        deblock_chroma(cr, cw, ch, qp, true, bits, chroma, edge_v, stride, qp_map, qp_stride);
        deblock_chroma(cb, cw, ch, qp, false, bits, chroma, edge_h, stride, qp_map, qp_stride);
        deblock_chroma(cr, cw, ch, qp, false, bits, chroma, edge_h, stride, qp_map, qp_stride);
    }
}

/// Filters a picture of one quantisation parameter.
pub fn deblock(
    y: &mut [u16],
    w: usize,
    h: usize,
    cb: &mut [u16],
    cr: &mut [u16],
    cw: usize,
    ch: usize,
    qp: u8,
    bit_depth: BitDepth,
    chroma: ChromaFormat,
    edge_v: &[bool],
    edge_h: &[bool],
)
    requires
        plane_ok(old(y)@.len() as int, w as int, h as int),
        !(chroma is Monochrome) ==> plane_ok(old(cb)@.len() as int, cw as int, ch as int)
            && old(cr)@.len() == old(cb)@.len(),
        maps_ok(
            info_of(edge_v@, w as int / 4, qp, None, 0),
            w as int,
            h as int,
            cw as int,
            ch as int,
            chroma,
        ),
        maps_ok(
            info_of(edge_h@, w as int / 4, qp, None, 0),
            w as int,
            h as int,
            cw as int,
            ch as int,
            chroma,
        ),
    ensures
        ({
            let v = info_of(edge_v@, w as int / 4, qp, None, 0);
            let hz = info_of(edge_h@, w as int / 4, qp, None, 0);
            let bits = bit_depth.spec_bits();
            &&& final(y)@ == luma_deblocked(old(y)@, w as int, h as int, bits, v, hz)
            &&& final(cb)@ == chroma_deblocked(old(cb)@, cw as int, ch as int, bits, chroma, v, hz)
            &&& final(cr)@ == chroma_deblocked(old(cr)@, cw as int, ch as int, bits, chroma, v, hz)
        }),
{
    deblock_impl(y, w, h, cb, cr, cw, ch, qp, bit_depth, chroma, edge_v, edge_h, None, 0);
}

/// Filters a picture whose 4x4 blocks have quantisation parameters of their own.
pub fn deblock_with_qp_map(
    y: &mut [u16],
    w: usize,
    h: usize,
    cb: &mut [u16],
    cr: &mut [u16],
    cw: usize,
    ch: usize,
    qp: u8,
    bit_depth: BitDepth,
    chroma: ChromaFormat,
    edge_v: &[bool],
    edge_h: &[bool],
    qp_map: &[u8],
    qp_stride: usize,
)
    requires
        plane_ok(old(y)@.len() as int, w as int, h as int),
        !(chroma is Monochrome) ==> plane_ok(old(cb)@.len() as int, cw as int, ch as int)
            && old(cr)@.len() == old(cb)@.len(),
        maps_ok(
            info_of(edge_v@, w as int / 4, qp, Some(qp_map), qp_stride as int),
            w as int,
            h as int,
            cw as int,
            ch as int,
            chroma,
        ),
        maps_ok(
            info_of(edge_h@, w as int / 4, qp, Some(qp_map), qp_stride as int),
            w as int,
            h as int,
            cw as int,
            ch as int,
            chroma,
        ),
    ensures
        ({
            let v = info_of(edge_v@, w as int / 4, qp, Some(qp_map), qp_stride as int);
            let hz = info_of(edge_h@, w as int / 4, qp, Some(qp_map), qp_stride as int);
            let bits = bit_depth.spec_bits();
            &&& final(y)@ == luma_deblocked(old(y)@, w as int, h as int, bits, v, hz)
            &&& final(cb)@ == chroma_deblocked(old(cb)@, cw as int, ch as int, bits, chroma, v, hz)
            &&& final(cr)@ == chroma_deblocked(old(cr)@, cw as int, ch as int, bits, chroma, v, hz)
        }),
{
    deblock_impl(
        y,
        w,
        h,
        cb,
        cr,
        cw,
        ch,
        qp,
        bit_depth,
        chroma,
        edge_v,
        edge_h,
        Some(qp_map),
        qp_stride,
    );
}

/// A luma sample whose segment is not marked, or whose nearest edge is the border
/// of the picture, keeps its value; so does one that is not among the three on
/// each side of its edge.
pub proof fn law_unmarked_luma_is_kept(
    plane: Seq<u16>,
    w: int,
    h: int,
    bit_depth: int,
    vertical: bool,
    info: EdgeInfo,
    x: int,
)
    requires
        0 < w,
        0 <= x < plane.len(),
        ({
            let (e, s) = segment(w, vertical, x);
            let (ex, ey) = corner(vertical, e, s);
            let j = edgefilter::in_seg(ex, ey, vertical, x / w, x % w).1;
            e == 0 || e >= across(vertical, w, h) || !info.on(ex, ey) || j == -4 || j == 3
        }),
    ensures
        luma_passed(plane, w, h, bit_depth, vertical, info)[x] == plane[x],
{
    let (e, s) = segment(w, vertical, x);
    let (ex, ey) = corner(vertical, e, s);
    edgefilter::lemma_seg_inverse(w, ex, ey, vertical, x);
}

/// Only the chroma samples next to a marked edge change.
pub proof fn law_unmarked_chroma_is_kept(
    plane: Seq<u16>,
    cw: int,
    ch: int,
    bit_depth: int,
    chroma: ChromaFormat,
    vertical: bool,
    info: EdgeInfo,
    x: int,
)
    requires
        0 < cw,
        0 <= x < plane.len(),
        ({
            let (e, s) = segment(cw, vertical, x);
            let (ex, ey) = corner(vertical, e, s);
            let (lx, ly) = chroma_lookup(chroma, vertical, e, s);
            let j = edgefilter::in_seg(ex, ey, vertical, x / cw, x % cw).1;
            e == 0 || e >= across(vertical, cw, ch) || !info.on(lx, ly) || !(-1 <= j <= 0)
        }),
    ensures
        chroma_passed(plane, cw, ch, bit_depth, chroma, vertical, info)[x] == plane[x],
{
    let (e, s) = segment(cw, vertical, x);
    let (ex, ey) = corner(vertical, e, s);
    edgefilter::lemma_seg_inverse(cw, ex, ey, vertical, x);
}

} // verus!
