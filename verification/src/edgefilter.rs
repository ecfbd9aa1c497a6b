//! The deblocking filter on one segment of an edge.
use crate::arith;
use crate::arith::{clip3, shr_i32};
use crate::fmt::ChromaFormat;
use crate::refs;
use vstd::arithmetic::power2::*;
use vstd::prelude::*;

verus! {

/// How much activity a filtered edge may have, by quantisation parameter.
pub const BETA_TABLE: [i32; 52] = [
    0, 0, 0, 0, 0, 0, 0, 0, 0, 0, 0, 0, 0, 0, 0, 0, 6, 7, 8, 9, 10, 11, 12, 13, 14, 15, 16, 17, 18,
    20, 22, 24, 26, 28, 30, 32, 34, 36, 38, 40, 42, 44, 46, 48, 50, 52, 54, 56, 58, 60, 62, 64,
];

/// How far a sample may move, by quantisation parameter.
pub const TC_TABLE: [i32; 54] = [
    0, 0, 0, 0, 0, 0, 0, 0, 0, 0, 0, 0, 0, 0, 0, 0, 0, 0, 1, 1, 1, 1, 1, 1, 1, 1, 1, 2, 2, 2, 2, 3,
    3, 3, 3, 4, 4, 4, 5, 5, 6, 6, 7, 8, 9, 10, 11, 13, 14, 16, 18, 20, 22, 24,
];

/// Chroma parameter of the luma parameters 30 to 42 in 4:2:0.
pub const CHROMA_QP_TABLE: [i32; 13] = [29, 30, 31, 32, 33, 33, 34, 34, 35, 35, 36, 36, 37];

/// The chroma quantisation parameter that belongs to a luma one.
pub open spec fn chroma_qp_of(qpi: int, chroma: ChromaFormat) -> int {
    if !(chroma is Yuv420) {
        if qpi < 51 {
            qpi
        } else {
            51
        }
    } else if qpi < 30 {
        qpi
    } else if qpi >= 43 {
        qpi - 6
    } else {
        CHROMA_QP_TABLE@[qpi - 30] as int
    }
}

/// The chroma parameter that the edge filter goes by.
pub fn chroma_qp(qpi: i32, chroma: ChromaFormat) -> (r: i32)
    ensures
        r == chroma_qp_of(qpi as int, chroma),
{
    if !matches!(chroma, ChromaFormat::Yuv420) {
        return if qpi < 51 {
            qpi
        } else {
            51
        };
    }
    if qpi < 30 {
        qpi
    } else if qpi >= 43 {
        qpi - 6
    } else {
        CHROMA_QP_TABLE[(qpi - 30) as usize]
    }
}

/// Magnitude.
pub open spec fn abs(x: int) -> int {
    if x < 0 {
        -x
    } else {
        x
    }
}

/// Eight samples across an edge: the four before it at `-4 .. 0` and the four
/// after it at `0 .. 4`.
pub type Line = spec_fn(int) -> int;

/// How much three samples bend.
pub open spec fn bend(a: int, b: int, c: int) -> int {
    abs(a - 2 * b + c)
}

/// What is done to a segment: nothing, the normal filter on one or two samples of
/// each side, or the strong filter.
pub enum Choice {
    Off,
    Normal { before: bool, after: bool },
    Strong,
}

/// The segment is flat along the line and the step at the edge is small.
pub open spec fn flat(l: Line, beta: int, tc: int) -> bool {
    let dpq = bend(l(-3), l(-2), l(-1)) + bend(l(2), l(1), l(0));
    &&& 2 * dpq < beta / 4
    &&& abs(l(-4) - l(-1)) + abs(l(0) - l(3)) < beta / 8
    &&& abs(l(-1) - l(0)) < (5 * tc + 1) / 2
}

/// The choice for a segment, from its first and last line.
pub open spec fn choice(l0: Line, l3: Line, beta: int, tc: int) -> Choice {
    let dp = bend(l0(-3), l0(-2), l0(-1)) + bend(l3(-3), l3(-2), l3(-1));
    let dq = bend(l0(2), l0(1), l0(0)) + bend(l3(2), l3(1), l3(0));
    if dp + dq >= beta {
        Choice::Off
    } else if flat(l0, beta, tc) && flat(l3, beta, tc) {
        Choice::Strong
    } else {
        Choice::Normal {
            before: dp < (beta + beta / 2) / 8,
            after: dq < (beta + beta / 2) / 8,
        }
    }
}

/// `v` moved towards `to` by at most `by`, as a sample.
pub open spec fn near(v: int, to: int, by: int, max_val: int) -> int {
    arith::clip(0, max_val, arith::clip(v - by, v + by, to))
}

/// Sample `j` of a line after the strong filter.
pub open spec fn strong(l: Line, tc: int, max_val: int, j: int) -> int {
    if j == -1 {
        near(l(-1), (l(-3) + 2 * l(-2) + 2 * l(-1) + 2 * l(0) + l(1) + 4) / 8, 2 * tc, max_val)
    } else if j == -2 {
        near(l(-2), (l(-3) + l(-2) + l(-1) + l(0) + 2) / 4, 2 * tc, max_val)
    } else if j == -3 {
        near(l(-3), (2 * l(-4) + 3 * l(-3) + l(-2) + l(-1) + l(0) + 4) / 8, 2 * tc, max_val)
    } else if j == 0 {
        near(l(0), (l(-2) + 2 * l(-1) + 2 * l(0) + 2 * l(1) + l(2) + 4) / 8, 2 * tc, max_val)
    } else if j == 1 {
        near(l(1), (l(-1) + l(0) + l(1) + l(2) + 2) / 4, 2 * tc, max_val)
    } else if j == 2 {
        near(l(2), (l(-1) + l(0) + l(1) + 3 * l(2) + 2 * l(3) + 4) / 8, 2 * tc, max_val)
    } else {
        l(j)
    }
}

/// Sample `j` of a line after the normal filter.
pub open spec fn normal(
    l: Line,
    before: bool,
    after: bool,
    tc: int,
    max_val: int,
    j: int,
) -> int {
    let raw = (9 * (l(0) - l(-1)) - 3 * (l(1) - l(-2)) + 8) / 16;
    let d = arith::clip(-tc, tc, raw);
    if abs(raw) >= 10 * tc {
        l(j)
    } else if j == -1 {
        arith::clip(0, max_val, l(-1) + d)
    } else if j == 0 {
        arith::clip(0, max_val, l(0) - d)
    } else if j == -2 && before {
        arith::clip(
            0,
            max_val,
            l(-2) + arith::clip(-(tc / 2), tc / 2, ((l(-3) + l(-1) + 1) / 2 - l(-2) + d) / 2),
        )
    } else if j == 1 && after {
        arith::clip(
            0,
            max_val,
            l(1) + arith::clip(-(tc / 2), tc / 2, ((l(2) + l(0) + 1) / 2 - l(1) - d) / 2),
        )
    } else {
        l(j)
    }
}

/// Sample `j` of a luma line after the filter.
pub open spec fn luma_out(l: Line, c: Choice, tc: int, max_val: int, j: int) -> int {
    match c {
        Choice::Off => l(j),
        Choice::Strong => strong(l, tc, max_val, j),
        Choice::Normal { before, after } => normal(l, before, after, tc, max_val, j),
    }
}

/// Sample `j` of a chroma line after the filter.
pub open spec fn chroma_out(l: Line, tc: int, max_val: int, j: int) -> int {
    let d = arith::clip(-tc, tc, ((l(0) - l(-1)) * 4 + l(-2) - l(1) + 4) / 8);
    if j == -1 {
        arith::clip(0, max_val, l(-1) + d)
    } else if j == 0 {
        arith::clip(0, max_val, l(0) - d)
    } else {
        l(j)
    }
}

/// Where sample `j` of line `k` of the segment at `(ex, ey)` is in the plane.
pub open spec fn seg_at(stride: int, ex: int, ey: int, vertical: bool, k: int, j: int) -> int {
    if vertical {
        (ey + k) * stride + (ex + j)
    } else {
        (ey + j) * stride + (ex + k)
    }
}

/// Line `k` of the segment at `(ex, ey)`.
pub open spec fn seg_line(
    plane: Seq<u16>,
    stride: int,
    ex: int,
    ey: int,
    vertical: bool,
    k: int,
) -> Line {
    |j: int| plane[seg_at(stride, ex, ey, vertical, k, j)] as int
}

/// Line and place across the edge of sample `(r, c)` in the segment at
/// `(ex, ey)`.
pub open spec fn in_seg(ex: int, ey: int, vertical: bool, r: int, c: int) -> (int, int) {
    if vertical {
        (r - ey, c - ex)
    } else {
        (c - ex, r - ey)
    }
}

/// The segment and the four samples on each side of it lie inside the plane.
pub open spec fn seg_ok(
    len: int,
    stride: int,
    height: int,
    ex: int,
    ey: int,
    vertical: bool,
) -> bool {
    &&& 0 < stride
    &&& len >= stride * height
    &&& if vertical {
        4 <= ex && ex + 4 <= stride && 0 <= ey && ey + 4 <= height
    } else {
        4 <= ey && ey + 4 <= height && 0 <= ex && ex + 4 <= stride
    }
}

/// The plane after the luma segment at `(ex, ey)` was filtered.
pub open spec fn luma_seg_out(
    plane: Seq<u16>,
    stride: int,
    ex: int,
    ey: int,
    vertical: bool,
    beta: int,
    tc: int,
    max_val: int,
    x: int,
) -> int {
    let (k, j) = in_seg(ex, ey, vertical, x / stride, x % stride);
    let c = choice(
        seg_line(plane, stride, ex, ey, vertical, 0),
        seg_line(plane, stride, ex, ey, vertical, 3),
        beta,
        tc,
    );
    if 0 <= k < 4 && -4 <= j < 4 {
        luma_out(seg_line(plane, stride, ex, ey, vertical, k), c, tc, max_val, j)
    } else {
        plane[x] as int
    }
}

/// The plane after the chroma segment at `(ex, ey)` was filtered.
pub open spec fn chroma_seg_out(
    plane: Seq<u16>,
    stride: int,
    ex: int,
    ey: int,
    vertical: bool,
    tc: int,
    max_val: int,
    x: int,
) -> int {
    let (k, j) = in_seg(ex, ey, vertical, x / stride, x % stride);
    if 0 <= k < 4 && -4 <= j < 4 {
        chroma_out(seg_line(plane, stride, ex, ey, vertical, k), tc, max_val, j)
    } else {
        plane[x] as int
    }
}

/// Places in a segment are inside the plane, and their row and column lead back.
pub proof fn lemma_seg_at(
    len: int,
    stride: int,
    height: int,
    ex: int,
    ey: int,
    vertical: bool,
    k: int,
    j: int,
)
    requires
        seg_ok(len, stride, height, ex, ey, vertical),
        0 <= k < 4,
        -4 <= j < 4,
    ensures
        ({
            let x = seg_at(stride, ex, ey, vertical, k, j);
            &&& 0 <= x < len
            &&& in_seg(ex, ey, vertical, x / stride, x % stride) == (k, j)
        }),
{
    let (r, c) = if vertical {
        (ey + k, ex + j)
    } else {
        (ey + j, ex + k)
    };
    refs::lemma_inside(r, c, stride, height);
    crate::transform::lemma_at(r, c, stride);
    assert(stride * height == height * stride) by (nonlinear_arith);
}

/// A place in the plane that is in the segment is where its line and place say.
pub proof fn lemma_seg_inverse(
    stride: int,
    ex: int,
    ey: int,
    vertical: bool,
    x: int,
)
    requires
        0 < stride,
        0 <= x,
    ensures
        ({
            let (k, j) = in_seg(ex, ey, vertical, x / stride, x % stride);
            seg_at(stride, ex, ey, vertical, k, j) == x
        }),
{
    assert((x / stride) * stride + x % stride == x) by {
        vstd::arithmetic::div_mod::lemma_fundamental_div_mod(x, stride);
        assert((x / stride) * stride == stride * (x / stride)) by (nonlinear_arith);
    }
}

/// Eight samples as a line.
pub open spec fn line_of(v: Seq<i32>) -> Line {
    |j: int| v[4 + j] as int
}

/// Eight samples.
pub open spec fn eight_samples(v: Seq<i32>) -> bool {
    v.len() == 8 && forall|i: int| 0 <= i < 8 ==> 0 <= #[trigger] v[i] <= 65535
}

fn abs_i32(x: i32) -> (r: i32)
    requires
        x > i32::MIN,
    ensures
        r == abs(x as int),
{
    if x < 0 {
        -x
    } else {
        x
    }
}

fn bend_of(a: i32, b: i32, c: i32) -> (r: i32)
    requires
        0 <= a <= 65535,
        0 <= b <= 65535,
        0 <= c <= 65535,
    ensures
        r == bend(a as int, b as int, c as int),
        0 <= r <= 131070,
{
    abs_i32(a - 2 * b + c)
}

fn is_flat(l: &[i32], beta: i32, tc: i32) -> (r: bool)
    requires
        eight_samples(l@),
        0 <= beta <= 0x5555_5555,
        0 <= tc <= 0xccc_cccc,
    ensures
        r == flat(line_of(l@), beta as int, tc as int),
{
    let dpq: i32 = bend_of(l[1], l[2], l[3]) + bend_of(l[6], l[5], l[4]);
    2 * dpq < beta / 4 && abs_i32(l[0] - l[3]) + abs_i32(l[4] - l[7]) < beta / 8 && abs_i32(
        l[3] - l[4],
    ) < (5 * tc + 1) / 2
}

/// What is done to a luma segment: whether it is filtered, whether strongly, and
/// whether a second sample of each side is.
fn decide(l0: &[i32], l3: &[i32], beta: i32, tc: i32) -> (r: (bool, bool, bool, bool))
    requires
        eight_samples(l0@),
        eight_samples(l3@),
        0 <= beta <= 0x5555_5555,
        0 <= tc <= 0xccc_cccc,
    ensures
        choice(line_of(l0@), line_of(l3@), beta as int, tc as int) == if !r.0 {
            Choice::Off
        } else if r.1 {
            Choice::Strong
        } else {
            Choice::Normal { before: r.2, after: r.3 }
        },
{
    let dp: i32 = bend_of(l0[1], l0[2], l0[3]) + bend_of(l3[1], l3[2], l3[3]);
    let dq: i32 = bend_of(l0[6], l0[5], l0[4]) + bend_of(l3[6], l3[5], l3[4]);
    if dp + dq >= beta {
        return (false, false, false, false);
    }
    let limit: i32 = (beta + beta / 2) / 8;
    (true, is_flat(l0, beta, tc) && is_flat(l3, beta, tc), dp < limit, dq < limit)
}

/// `v` moved towards `to` by at most `by`, as a sample.
fn near_of(v: i32, to: i32, by: i32, max_val: i32) -> (r: i32)
    requires
        0 <= v <= 65535,
        0 <= by <= 0x1999_9998,
        0 <= max_val <= 65535,
    ensures
        r == near(v as int, to as int, by as int, max_val as int),
        0 <= r <= 65535,
{
    clip3(0, max_val, clip3(v - by, v + by, to))
}

/// Sample `j - 4` of a line after the strong filter.
fn strong_sample(l: &[i32], tc: i32, max_val: i32, j: usize) -> (r: i32)
    requires
        eight_samples(l@),
        0 <= tc <= 0xccc_cccc,
        0 <= max_val <= 65535,
        j < 8,
    ensures
        r == strong(line_of(l@), tc as int, max_val as int, j - 4),
        0 <= r <= 65535,
{
    let (p2, p1, p0): (i32, i32, i32) = (l[1], l[2], l[3]);
    let (q0, q1, q2): (i32, i32, i32) = (l[4], l[5], l[6]);
    let by: i32 = 2 * tc;
    if j == 3 {
        near_of(p0, (p2 + 2 * p1 + 2 * p0 + 2 * q0 + q1 + 4) / 8, by, max_val)
    } else if j == 2 {
        near_of(p1, (p2 + p1 + p0 + q0 + 2) / 4, by, max_val)
    } else if j == 1 {
        near_of(p2, (2 * l[0] + 3 * p2 + p1 + p0 + q0 + 4) / 8, by, max_val)
    } else if j == 4 {
        near_of(q0, (p1 + 2 * p0 + 2 * q0 + 2 * q1 + q2 + 4) / 8, by, max_val)
    } else if j == 5 {
        near_of(q1, (p0 + q0 + q1 + q2 + 2) / 4, by, max_val)
    } else if j == 6 {
        near_of(q2, (p0 + q0 + q1 + 3 * q2 + 2 * l[7] + 4) / 8, by, max_val)
    } else {
        l[j]
    }
}

/// Sample `j - 4` of a line after the normal filter.
fn normal_sample(l: &[i32], before: bool, after: bool, tc: i32, max_val: i32, j: usize) -> (r: i32)
    requires
        eight_samples(l@),
        0 <= tc <= 0xccc_cccc,
        0 <= max_val <= 65535,
        j < 8,
    ensures
        r == normal(line_of(l@), before, after, tc as int, max_val as int, j - 4),
        0 <= r <= 65535,
{
    let (p2, p1, p0): (i32, i32, i32) = (l[1], l[2], l[3]);
    let (q0, q1, q2): (i32, i32, i32) = (l[4], l[5], l[6]);
    proof {
        lemma2_to64();
    }
    let raw: i32 = shr_i32(9 * (q0 - p0) - 3 * (q1 - p1) + 8, 4);
    if abs_i32(raw) >= 10 * tc {
        return l[j];
    }
    let d: i32 = clip3(-tc, tc, raw);
    let half: i32 = tc / 2;
    if j == 3 {
        clip3(0, max_val, p0 + d)
    } else if j == 4 {
        clip3(0, max_val, q0 - d)
    } else if j == 2 && before {
        let m: i32 = shr_i32((p2 + p0 + 1) / 2 - p1 + d, 1);
        clip3(0, max_val, p1 + clip3(-half, half, m))
    } else if j == 5 && after {
        let m: i32 = shr_i32((q2 + q0 + 1) / 2 - q1 - d, 1);
        clip3(0, max_val, q1 + clip3(-half, half, m))
    } else {
        l[j]
    }
}

/// Sample `j - 4` of a chroma line after the filter.
fn chroma_sample(l: &[i32], tc: i32, max_val: i32, j: usize) -> (r: i32)
    requires
        eight_samples(l@),
        0 <= tc <= 0xccc_cccc,
        0 <= max_val <= 65535,
        j < 8,
    ensures
        r == chroma_out(line_of(l@), tc as int, max_val as int, j - 4),
        0 <= r <= 65535,
{
    let (p1, p0): (i32, i32) = (l[2], l[3]);
    let (q0, q1): (i32, i32) = (l[4], l[5]);
    proof {
        lemma2_to64();
    }
    let d: i32 = clip3(-tc, tc, shr_i32((q0 - p0) * 4 + p1 - q1 + 4, 3));
    if j == 3 {
        clip3(0, max_val, p0 + d)
    } else if j == 4 {
        clip3(0, max_val, q0 - d)
    } else {
        l[j]
    }
}

/// Where sample `j - 4` of line `k` is.
fn place(
    stride: usize,
    ex: usize,
    ey: usize,
    vertical: bool,
    k: usize,
    j: usize,
    Ghost(len): Ghost<int>,
    Ghost(height): Ghost<int>,
) -> (r: usize)
    requires
        seg_ok(len, stride as int, height, ex as int, ey as int, vertical),
        len <= usize::MAX,
        k < 4,
        j < 8,
    ensures
        r == seg_at(stride as int, ex as int, ey as int, vertical, k as int, j - 4),
        r < len,
{
    proof {
        lemma_seg_at(len, stride as int, height, ex as int, ey as int, vertical, k as int, j - 4);
        lemma_small_sides(stride as int, height, len);
    }
    if vertical {
        assert(0 <= (ey + k) * stride) by (nonlinear_arith)
            requires
                0 <= ey + k,
                0 <= stride,
        ;
        (ey + k) * stride + (ex + j - 4)
    } else {
        assert(0 <= (ey + j - 4) * stride) by (nonlinear_arith)
            requires
                0 <= ey + j - 4,
                0 <= stride,
        ;
        (ey + j - 4) * stride + (ex + k)
    }
}

/// A plane that fits in memory has sides that do.
proof fn lemma_small_sides(stride: int, height: int, len: int)
    requires
        4 <= stride,
        4 <= height,
        stride * height <= len,
    ensures
        4 * stride <= len,
        4 * height <= len,
{
    assert(4 * stride <= stride * height && 4 * height <= stride * height) by (nonlinear_arith)
        requires
            4 <= stride,
            4 <= height,
    ;
}

/// Reads line `k` of a segment.
fn read_line(
    plane: &[u16],
    stride: usize,
    ex: usize,
    ey: usize,
    vertical: bool,
    k: usize,
    Ghost(height): Ghost<int>,
) -> (r: Vec<i32>)
    requires
        seg_ok(plane@.len() as int, stride as int, height, ex as int, ey as int, vertical),
        k < 4,
    ensures
        eight_samples(r@),
        forall|j: int|
            -4 <= j < 4 ==> #[trigger] line_of(r@)(j) == seg_line(
                plane@,
                stride as int,
                ex as int,
                ey as int,
                vertical,
                k as int,
            )(j),
{
    let len: usize = plane.len();
    let mut r: Vec<i32> = Vec::new();
    for j in 0..8usize
        invariant
            len == plane@.len(),
            seg_ok(plane@.len() as int, stride as int, height, ex as int, ey as int, vertical),
            k < 4,
            r@.len() == j,
            forall|i: int|
                0 <= i < j ==> #[trigger] r@[i] == plane@[seg_at(
                    stride as int,
                    ex as int,
                    ey as int,
                    vertical,
                    k as int,
                    i - 4,
                )],
            forall|i: int| 0 <= i < j ==> 0 <= #[trigger] r@[i] <= 65535,
    {
        let x: usize = place(
            stride,
            ex,
            ey,
            vertical,
            k,
            j,
            Ghost(len as int),
            Ghost(height),
        );
        r.push(plane[x] as i32);
    }
    r
}

/// Writes line `k` of a segment.
fn write_line(
    plane: &mut [u16],
    stride: usize,
    ex: usize,
    ey: usize,
    vertical: bool,
    k: usize,
    v: &Vec<i32>,
    Ghost(height): Ghost<int>,
)
    requires
        seg_ok(old(plane)@.len() as int, stride as int, height, ex as int, ey as int, vertical),
        k < 4,
        eight_samples(v@),
    ensures
        final(plane)@.len() == old(plane)@.len(),
        forall|x: int|
            0 <= x < old(plane)@.len() ==> #[trigger] final(plane)@[x] == {
                let (l, j) = in_seg(
                    ex as int,
                    ey as int,
                    vertical,
                    x / stride as int,
                    x % stride as int,
                );
                if l == k && -4 <= j < 4 {
                    v@[4 + j] as int
                } else {
                    old(plane)@[x] as int
                }
            },
{
    let len: usize = plane.len();
    for j in 0..8usize
        invariant
            len == plane@.len(),
            plane@.len() == old(plane)@.len(),
            seg_ok(plane@.len() as int, stride as int, height, ex as int, ey as int, vertical),
            k < 4,
            eight_samples(v@),
            forall|x: int|
                0 <= x < old(plane)@.len() ==> #[trigger] plane@[x] == {
                    let (l, i) = in_seg(
                        ex as int,
                        ey as int,
                        vertical,
                        x / stride as int,
                        x % stride as int,
                    );
                    if l == k && -4 <= i < j - 4 {
                        v@[4 + i] as int
                    } else {
                        old(plane)@[x] as int
                    }
                },
    {
        let ghost before = plane@;
        let p: usize = place(
            stride,
            ex,
            ey,
            vertical,
            k,
            j,
            Ghost(len as int),
            Ghost(height),
        );
        plane[p] = v[j] as u16;
        proof {
            lemma_seg_at(
                len as int,
                stride as int,
                height,
                ex as int,
                ey as int,
                vertical,
                k as int,
                j - 4,
            );
            assert forall|x: int| 0 <= x < old(plane)@.len() implies #[trigger] plane@[x] == {
                let (l, i) = in_seg(
                    ex as int,
                    ey as int,
                    vertical,
                    x / stride as int,
                    x % stride as int,
                );
                if l == k && -4 <= i < j + 1 - 4 {
                    v@[4 + i] as int
                } else {
                    old(plane)@[x] as int
                }
            } by {
                lemma_seg_inverse(stride as int, ex as int, ey as int, vertical, x);
                if x != p {
                    assert(plane@[x] == before[x]);
                }
            }
        }
    }
}

/// Two lines with the same samples.
pub open spec fn same_line(l: Line, m: Line) -> bool {
    forall|j: int| -4 <= j < 4 ==> #[trigger] l(j) == m(j)
}

pub proof fn lemma_same_choice(l0: Line, l3: Line, m0: Line, m3: Line, beta: int, tc: int)
    requires
        same_line(l0, m0),
        same_line(l3, m3),
    ensures
        choice(l0, l3, beta, tc) == choice(m0, m3, beta, tc),
{
}

pub proof fn lemma_same_luma(l: Line, m: Line, c: Choice, tc: int, max_val: int, j: int)
    requires
        same_line(l, m),
        -4 <= j < 4,
    ensures
        luma_out(l, c, tc, max_val, j) == luma_out(m, c, tc, max_val, j),
{
}

pub proof fn lemma_same_chroma(l: Line, m: Line, tc: int, max_val: int, j: int)
    requires
        same_line(l, m),
        -4 <= j < 4,
    ensures
        chroma_out(l, tc, max_val, j) == chroma_out(m, tc, max_val, j),
{
}

/// The plane after the first `n` lines of the luma segment were filtered.
spec fn luma_part(
    plane: Seq<u16>,
    stride: int,
    ex: int,
    ey: int,
    vertical: bool,
    c: Choice,
    tc: int,
    max_val: int,
    n: int,
    x: int,
) -> int {
    let (k, j) = in_seg(ex, ey, vertical, x / stride, x % stride);
    if 0 <= k < n && -4 <= j < 4 {
        luma_out(seg_line(plane, stride, ex, ey, vertical, k), c, tc, max_val, j)
    } else {
        plane[x] as int
    }
}

/// Line `k` is as it was where only earlier lines changed.
pub proof fn lemma_line_kept(
    before: Seq<u16>,
    now: Seq<u16>,
    stride: int,
    height: int,
    ex: int,
    ey: int,
    vertical: bool,
    k: int,
)
    requires
        before.len() == now.len(),
        seg_ok(before.len() as int, stride, height, ex, ey, vertical),
        0 <= k < 4,
        forall|x: int|
            0 <= x < before.len() && in_seg(ex, ey, vertical, x / stride, x % stride).0 == k
                && -4 <= in_seg(ex, ey, vertical, x / stride, x % stride).1 < 4
                ==> #[trigger] now[x] == before[x],
    ensures
        same_line(
            seg_line(now, stride, ex, ey, vertical, k),
            seg_line(before, stride, ex, ey, vertical, k),
        ),
{
    assert forall|j: int| -4 <= j < 4 implies #[trigger] seg_line(
        now,
        stride,
        ex,
        ey,
        vertical,
        k,
    )(j) == seg_line(before, stride, ex, ey, vertical, k)(j) by {
        lemma_seg_at(before.len() as int, stride, height, ex, ey, vertical, k, j);
    }
}

/// Filters the four lines of the luma segment at `(ex, ey)`: for a vertical edge
/// the rows `ey .. ey + 4` across column `ex`, else transposed.
pub fn filter_luma_segment(
    y: &mut [u16],
    stride: usize,
    ex: usize,
    ey: usize,
    vertical: bool,
    beta: i32,
    tc: i32,
    max_val: i32,
    Ghost(height): Ghost<int>,
)
    requires
        seg_ok(old(y)@.len() as int, stride as int, height, ex as int, ey as int, vertical),
        0 <= beta <= 0x5555_5555,
        0 <= tc <= 0xccc_cccc,
        0 <= max_val <= 65535,
    ensures
        final(y)@.len() == old(y)@.len(),
        forall|x: int|
            0 <= x < old(y)@.len() ==> #[trigger] final(y)@[x] == luma_seg_out(
                old(y)@,
                stride as int,
                ex as int,
                ey as int,
                vertical,
                beta as int,
                tc as int,
                max_val as int,
                x,
            ),
{
    let l0: Vec<i32> = read_line(y, stride, ex, ey, vertical, 0, Ghost(height));
    let l3: Vec<i32> = read_line(y, stride, ex, ey, vertical, 3, Ghost(height));
    let (on, strongly, before, after): (bool, bool, bool, bool) = decide(&l0, &l3, beta, tc);
    let ghost c = choice(
        seg_line(y@, stride as int, ex as int, ey as int, vertical, 0),
        seg_line(y@, stride as int, ex as int, ey as int, vertical, 3),
        beta as int,
        tc as int,
    );
    proof {
        lemma_same_choice(
            line_of(l0@),
            line_of(l3@),
            seg_line(y@, stride as int, ex as int, ey as int, vertical, 0),
            seg_line(y@, stride as int, ex as int, ey as int, vertical, 3),
            beta as int,
            tc as int,
        );
    }
    if !on {
        proof {
            assert forall|x: int| 0 <= x < old(y)@.len() implies #[trigger] y@[x] == luma_seg_out(
                old(y)@,
                stride as int,
                ex as int,
                ey as int,
                vertical,
                beta as int,
                tc as int,
                max_val as int,
                x,
            ) by {
                lemma_seg_inverse(stride as int, ex as int, ey as int, vertical, x);
            }
        }
        return ;
    }
    for k in 0..4usize
        invariant
            y@.len() == old(y)@.len(),
            seg_ok(y@.len() as int, stride as int, height, ex as int, ey as int, vertical),
            0 <= tc <= 0xccc_cccc,
            0 <= max_val <= 65535,
            c == if strongly {
                Choice::Strong
            } else {
                Choice::Normal { before, after }
            },
            forall|x: int|
                0 <= x < y@.len() ==> #[trigger] y@[x] == luma_part(
                    old(y)@,
                    stride as int,
                    ex as int,
                    ey as int,
                    vertical,
                    c,
                    tc as int,
                    max_val as int,
                    k as int,
                    x,
                ),
    {
        let ghost now = y@;
        let l: Vec<i32> = read_line(y, stride, ex, ey, vertical, k, Ghost(height));
        let ghost m = seg_line(old(y)@, stride as int, ex as int, ey as int, vertical, k as int);
        proof {
            lemma_line_kept(
                old(y)@,
                now,
                stride as int,
                height,
                ex as int,
                ey as int,
                vertical,
                k as int,
            );
            assert(same_line(line_of(l@), m));
        }
        let mut v: Vec<i32> = Vec::new();
        for j in 0..8usize
            invariant
                eight_samples(l@),
                same_line(line_of(l@), m),
                0 <= tc <= 0xccc_cccc,
                0 <= max_val <= 65535,
                c == if strongly {
                    Choice::Strong
                } else {
                    Choice::Normal { before, after }
                },
                v@.len() == j,
                forall|i: int| 0 <= i < j ==> 0 <= #[trigger] v@[i] <= 65535,
                forall|i: int|
                    0 <= i < j ==> #[trigger] v@[i] == luma_out(
                        m,
                        c,
                        tc as int,
                        max_val as int,
                        i - 4,
                    ),
        {
            let s: i32 = if strongly {
                strong_sample(&l, tc, max_val, j)
            } else {
                normal_sample(&l, before, after, tc, max_val, j)
            };
            proof {
                lemma_same_luma(line_of(l@), m, c, tc as int, max_val as int, j - 4);
            }
            v.push(s);
        }
        write_line(y, stride, ex, ey, vertical, k, &v, Ghost(height));
    }
}

/// The plane after the first `n` lines of the chroma segment were filtered.
spec fn chroma_part(
    plane: Seq<u16>,
    stride: int,
    ex: int,
    ey: int,
    vertical: bool,
    tc: int,
    max_val: int,
    n: int,
    x: int,
) -> int {
    let (k, j) = in_seg(ex, ey, vertical, x / stride, x % stride);
    if 0 <= k < n && -4 <= j < 4 {
        chroma_out(seg_line(plane, stride, ex, ey, vertical, k), tc, max_val, j)
    } else {
        plane[x] as int
    }
}

/// Filters the four lines of the chroma segment at `(ex, ey)`.
pub fn filter_chroma_segment(
    c: &mut [u16],
    stride: usize,
    ex: usize,
    ey: usize,
    vertical: bool,
    tc: i32,
    max_val: i32,
    Ghost(height): Ghost<int>,
)
    requires
        seg_ok(old(c)@.len() as int, stride as int, height, ex as int, ey as int, vertical),
        0 <= tc <= 0xccc_cccc,
        0 <= max_val <= 65535,
    ensures
        final(c)@.len() == old(c)@.len(),
        forall|x: int|
            0 <= x < old(c)@.len() ==> #[trigger] final(c)@[x] == chroma_seg_out(
                old(c)@,
                stride as int,
                ex as int,
                ey as int,
                vertical,
                tc as int,
                max_val as int,
                x,
            ),
{
    for k in 0..4usize
        invariant
            c@.len() == old(c)@.len(),
            seg_ok(c@.len() as int, stride as int, height, ex as int, ey as int, vertical),
            0 <= tc <= 0xccc_cccc,
            0 <= max_val <= 65535,
            forall|x: int|
                0 <= x < c@.len() ==> #[trigger] c@[x] == chroma_part(
                    old(c)@,
                    stride as int,
                    ex as int,
                    ey as int,
                    vertical,
                    tc as int,
                    max_val as int,
                    k as int,
                    x,
                ),
    {
        let ghost now = c@;
        let l: Vec<i32> = read_line(c, stride, ex, ey, vertical, k, Ghost(height));
        let ghost m = seg_line(old(c)@, stride as int, ex as int, ey as int, vertical, k as int);
        proof {
            lemma_line_kept(
                old(c)@,
                now,
                stride as int,
                height,
                ex as int,
                ey as int,
                vertical,
                k as int,
            );
            assert(same_line(line_of(l@), m));
        }
        let mut v: Vec<i32> = Vec::new();
        for j in 0..8usize
            invariant
                eight_samples(l@),
                same_line(line_of(l@), m),
                0 <= tc <= 0xccc_cccc,
                0 <= max_val <= 65535,
                v@.len() == j,
                forall|i: int| 0 <= i < j ==> 0 <= #[trigger] v@[i] <= 65535,
                forall|i: int|
                    0 <= i < j ==> #[trigger] v@[i] == chroma_out(
                        m,
                        tc as int,
                        max_val as int,
                        i - 4,
                    ),
        {
            proof {
                lemma_same_chroma(line_of(l@), m, tc as int, max_val as int, j - 4);
            }
            v.push(chroma_sample(&l, tc, max_val, j));
        }
        write_line(c, stride, ex, ey, vertical, k, &v, Ghost(height));
    }
}

} // verus!
