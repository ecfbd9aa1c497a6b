//! Planes of samples: padding, windows and blocks.
use crate::fmt::{BitDepth, ChromaFormat};
use crate::refs;
use crate::transform;
use vstd::prelude::*;

verus! {

/// A picture: a luma plane and, but for monochrome, two chroma planes.
pub struct Yuv {
    pub y: Vec<u16>,
    pub cb: Vec<u16>,
    pub cr: Vec<u16>,
    pub width: u32,
    pub height: u32,
    pub display_w: u32,
    pub display_h: u32,
    pub chroma: ChromaFormat,
    pub bit_depth: BitDepth,
}

/// Quotient rounded up.
pub open spec fn ceil_div(a: int, b: int) -> int {
    (a + b - 1) / b
}

impl Yuv {
    /// Width of the chroma planes.
    pub open spec fn chroma_w(self) -> int {
        ceil_div(self.width as int, self.chroma.spec_sub_w())
    }

    /// Height of the chroma planes.
    pub open spec fn chroma_h(self) -> int {
        ceil_div(self.height as int, self.chroma.spec_sub_h())
    }

    /// The planes hold as many samples as the dimensions say.
    pub open spec fn wf(self) -> bool {
        &&& 1 <= self.width <= 0x3fff_ffff
        &&& 1 <= self.height <= 0x3fff_ffff
        &&& self.y@.len() >= self.width * self.height
        &&& !(self.chroma is Monochrome) ==> {
            &&& self.cb@.len() >= self.chroma_w() * self.chroma_h()
            &&& self.cr@.len() >= self.chroma_w() * self.chroma_h()
        }
    }
}

/// The smaller of two numbers.
pub open spec fn min(a: int, b: int) -> int {
    if a < b {
        a
    } else {
        b
    }
}

/// The smaller of two numbers.
pub fn min_of(a: usize, b: usize) -> (r: usize)
    ensures
        r == min(a as int, b as int),
{
    if a < b {
        a
    } else {
        b
    }
}

/// Sample `(r, c)` of a plane whose last row and column go on forever.
pub open spec fn clamped(src: Seq<u16>, w: int, h: int, r: int, c: int) -> u16 {
    src[min(r, h - 1) * w + min(c, w - 1)]
}

/// A sample of a plane whose last row and column go on forever.
pub fn clamped_at(src: &[u16], w: usize, h: usize, r: usize, c: usize) -> (v: u16)
    requires
        1 <= w,
        1 <= h,
        src@.len() >= w * h,
    ensures
        v == clamped(src@, w as int, h as int, r as int, c as int),
{
    let len: usize = src.len();
    let (rr, cc): (usize, usize) = (min_of(r, h - 1), min_of(c, w - 1));
    proof {
        refs::lemma_inside(rr as int, cc as int, w as int, h as int);
        assert(h * w == w * h) by (nonlinear_arith);
    }
    src[rr * w + cc]
}

/// A `tw` by `th` window of a plane that starts at `(x0, y0)`.
pub open spec fn window(
    src: Seq<u16>,
    w: int,
    h: int,
    x0: int,
    y0: int,
    tw: int,
    th: int,
) -> Seq<u16> {
    Seq::new((tw * th) as nat, |x: int| clamped(src, w, h, y0 + x / tw, x0 + x % tw))
}

/// The window of a plane that starts at `(x0, y0)`, where the last row and column
/// of the plane go on past it.
pub fn extract_plane(
    src: &[u16],
    sw: usize,
    sh: usize,
    x0: usize,
    y0: usize,
    tw: usize,
    th: usize,
) -> (out: Vec<u16>)
    requires
        1 <= sw,
        1 <= sh,
        src@.len() >= sw * sh,
        tw * th <= usize::MAX,
        x0 + tw <= usize::MAX,
        y0 + th <= usize::MAX,
    ensures
        out@ == window(src@, sw as int, sh as int, x0 as int, y0 as int, tw as int, th as int),
{
    let mut out: Vec<u16> = Vec::new();
    let ghost all = window(src@, sw as int, sh as int, x0 as int, y0 as int, tw as int, th as int);
    assert(0 * tw == 0);
    for r in 0..th
        invariant
            1 <= sw,
            1 <= sh,
            src@.len() >= sw * sh,
            tw * th <= usize::MAX,
            x0 + tw <= usize::MAX,
            y0 + th <= usize::MAX,
            all == window(
                src@,
                sw as int,
                sh as int,
                x0 as int,
                y0 as int,
                tw as int,
                th as int,
            ),
            out@.len() == r * tw,
            r * tw <= tw * th,
            forall|x: int| 0 <= x < out@.len() ==> #[trigger] out@[x] == all[x],
    {
        assert(r * tw + tw == (r + 1) * tw && (r + 1) * tw <= tw * th) by (nonlinear_arith)
            requires
                r < th,
                0 <= tw,
        ;
        for c in 0..tw
            invariant
                1 <= sw,
                1 <= sh,
                r < th,
                src@.len() >= sw * sh,
                r * tw + tw <= tw * th,
                x0 + tw <= usize::MAX,
                y0 + th <= usize::MAX,
                all == window(
                    src@,
                    sw as int,
                    sh as int,
                    x0 as int,
                    y0 as int,
                    tw as int,
                    th as int,
                ),
                out@.len() == r * tw + c,
                forall|x: int| 0 <= x < out@.len() ==> #[trigger] out@[x] == all[x],
        {
            proof {
                transform::lemma_at(r as int, c as int, tw as int);
            }
            let v: u16 = clamped_at(src, sw, sh, y0 + r, x0 + c);
            assert(all[r * tw + c] == v);
            out.push(v);
        }
    }
    assert(out@.len() == tw * th) by (nonlinear_arith)
        requires
            out@.len() == th * tw,
    ;
    assert(out@ =~= all);
    out
}

/// The plane extended to `dst_w` by `dst_h`, its last row and column going on.
pub fn pad_plane(src: &[u16], src_w: usize, src_h: usize, dst_w: usize, dst_h: usize) -> (out: Vec<
    u16,
>)
    requires
        1 <= src_w,
        1 <= src_h,
        src@.len() >= src_w * src_h,
        dst_w * dst_h <= usize::MAX,
    ensures
        out@ == window(src@, src_w as int, src_h as int, 0, 0, dst_w as int, dst_h as int),
{
    extract_plane(src, src_w, src_h, 0, 0, dst_w, dst_h)
}

/// Inside the source, padding keeps every sample.
pub proof fn law_padding_keeps_samples(
    src: Seq<u16>,
    w: int,
    h: int,
    dst_w: int,
    dst_h: int,
    r: int,
    c: int,
)
    requires
        src.len() >= w * h,
        0 <= r < h,
        0 <= c < w,
        r < dst_h,
        c < dst_w,
    ensures
        window(src, w, h, 0, 0, dst_w, dst_h)[r * dst_w + c] == src[r * w + c],
{
    transform::lemma_at(r, c, dst_w);
    refs::lemma_inside(r, c, dst_w, dst_h);
    assert(dst_h * dst_w == dst_w * dst_h) by (nonlinear_arith);
}

/// Copies the `n` by `n` block at `(row, col)` of a plane, clamped at its borders,
/// to the front of `out`.
pub fn extract_block_dyn_into(
    plane: &[u16],
    src_w: usize,
    src_h: usize,
    row: usize,
    col: usize,
    n: usize,
    out: &mut [u16],
)
    requires
        1 <= src_w,
        1 <= src_h,
        plane@.len() >= src_w * src_h,
        old(out)@.len() >= n * n,
        row + n <= usize::MAX,
        col + n <= usize::MAX,
    ensures
        final(out)@.len() == old(out)@.len(),
        forall|x: int|
            0 <= x < n * n ==> #[trigger] final(out)@[x] == clamped(
                plane@,
                src_w as int,
                src_h as int,
                row + x / n as int,
                col + x % n as int,
            ),
        forall|x: int| n * n <= x < old(out)@.len() ==> #[trigger] final(out)@[x] == old(out)@[x],
{
    let len: usize = out.len();
    let b: Vec<u16> = extract_plane(plane, src_w, src_h, col, row, n, n);
    for x in 0..b.len()
        invariant
            b@ == window(
                plane@,
                src_w as int,
                src_h as int,
                col as int,
                row as int,
                n as int,
                n as int,
            ),
            b@.len() == n * n,
            out@.len() == old(out)@.len(),
            old(out)@.len() >= n * n,
            forall|i: int| 0 <= i < x ==> #[trigger] out@[i] == b@[i],
            forall|i: int| x <= i < out@.len() ==> #[trigger] out@[i] == old(out)@[i],
    {
        out[x] = b[x];
    }
}

/// The same with the side known at compile time.
pub fn extract_block_n_into<const N: usize>(
    plane: &[u16],
    src_w: usize,
    src_h: usize,
    row: usize,
    col: usize,
    out: &mut [u16],
)
    requires
        1 <= src_w,
        1 <= src_h,
        plane@.len() >= src_w * src_h,
        old(out)@.len() >= N * N,
        row + N <= usize::MAX,
        col + N <= usize::MAX,
    ensures
        final(out)@.len() == old(out)@.len(),
        forall|x: int|
            0 <= x < N * N ==> #[trigger] final(out)@[x] == clamped(
                plane@,
                src_w as int,
                src_h as int,
                row + x / N as int,
                col + x % N as int,
            ),
        forall|x: int| N * N <= x < old(out)@.len() ==> #[trigger] final(out)@[x] == old(out)@[x],
{
    extract_block_dyn_into(plane, src_w, src_h, row, col, N, out);
}

/// Sample `x` of a plane after a `bw` by `bh` block was put at `(row, col)`.
pub open spec fn put_at(
    plane: Seq<u16>,
    stride: int,
    row: int,
    col: int,
    bw: int,
    bh: int,
    block: Seq<u16>,
    x: int,
) -> u16 {
    let (r, c) = (x / stride - row, x % stride - col);
    if 0 <= r < bh && 0 <= c < bw {
        block[r * bw + c]
    } else {
        plane[x]
    }
}

/// A plane after a `bw` by `bh` block was put at `(row, col)`.
pub open spec fn with_block(
    plane: Seq<u16>,
    stride: int,
    row: int,
    col: int,
    bw: int,
    bh: int,
    block: Seq<u16>,
) -> Seq<u16> {
    Seq::new(plane.len(), |x: int| put_at(plane, stride, row, col, bw, bh, block, x))
}

/// A block lies inside a plane.
pub open spec fn block_fits(
    len: int,
    stride: int,
    height: int,
    row: int,
    col: int,
    bw: int,
    bh: int,
) -> bool {
    &&& 0 < stride
    &&& stride * height <= len
    &&& 0 <= row
    &&& row + bh <= height
    &&& 0 <= col
    &&& col + bw <= stride
}

/// Puts a block of `bw` by `bh` samples into a plane at `(row, col)`.
pub fn put_block(
    plane: &mut Vec<u16>,
    stride: usize,
    row: usize,
    col: usize,
    bw: usize,
    bh: usize,
    block: &[u16],
    Ghost(height): Ghost<int>,
)
    requires
        block_fits(
            old(plane)@.len() as int,
            stride as int,
            height,
            row as int,
            col as int,
            bw as int,
            bh as int,
        ),
        block@.len() >= bw * bh,
    ensures
        final(plane)@ == with_block(
            old(plane)@,
            stride as int,
            row as int,
            col as int,
            bw as int,
            bh as int,
            block@,
        ),
{
    let len: usize = plane.len();
    let blen: usize = block.len();
    proof {
        assert forall|x: int| 0 <= x < plane@.len() implies #[trigger] plane@[x] == put_at(
            old(plane)@,
            stride as int,
            row as int,
            col as int,
            bw as int,
            0,
            block@,
            x,
        ) by {}
        assert(height * stride == stride * height) by (nonlinear_arith);
    }
    for r in 0..bh
        invariant
            plane@.len() == old(plane)@.len(),
            len == plane@.len(),
            blen == block@.len(),
            block_fits(
                plane@.len() as int,
                stride as int,
                height,
                row as int,
                col as int,
                bw as int,
                bh as int,
            ),
            height * stride == stride * height,
            block@.len() >= bw * bh,
            forall|x: int|
                0 <= x < plane@.len() ==> #[trigger] plane@[x] == put_at(
                    old(plane)@,
                    stride as int,
                    row as int,
                    col as int,
                    bw as int,
                    r as int,
                    block@,
                    x,
                ),
    {
        let ghost now = plane@;
        for c in 0..bw
            invariant
                plane@.len() == old(plane)@.len(),
                now.len() == plane@.len(),
                len == plane@.len(),
                blen == block@.len(),
                r < bh,
                block_fits(
                    plane@.len() as int,
                    stride as int,
                    height,
                    row as int,
                    col as int,
                    bw as int,
                    bh as int,
                ),
                height * stride == stride * height,
                block@.len() >= bw * bh,
                forall|x: int|
                    0 <= x < plane@.len() ==> #[trigger] plane@[x] == if x / stride as int == row + r
                        && col <= x % stride as int && x % (stride as int) < col + c {
                        block@[r * bw + (x % stride as int - col)]
                    } else {
                        now[x]
                    },
        {
            proof {
                refs::lemma_inside(row + r, col + c, stride as int, height);
                refs::lemma_inside(r as int, c as int, bw as int, bh as int);
                assert(bh * bw == bw * bh) by (nonlinear_arith);
                assert(height <= height * stride) by (nonlinear_arith)
                    requires
                        0 <= height,
                        1 <= stride,
                ;
                transform::lemma_at(row + r, col + c, stride as int);
            }
            let ghost before = plane@;
            let at: usize = (row + r) * stride + (col + c);
            plane.set(at, block[r * bw + c]);
            proof {
                assert forall|x: int| 0 <= x < plane@.len() implies #[trigger] plane@[x] == (if x
                    / stride as int == row + r && col <= x % stride as int && x % (stride as int)
                    < col + c + 1 {
                    block@[r * bw + (x % stride as int - col)]
                } else {
                    now[x]
                }) by {
                    if x != at {
                        assert(plane@[x] == before[x]);
                        vstd::arithmetic::div_mod::lemma_fundamental_div_mod(x, stride as int);
                        assert(stride * (x / stride as int) == (x / stride as int) * stride)
                            by (nonlinear_arith);
                    }
                }
            }
        }
        proof {
            assert forall|x: int| 0 <= x < plane@.len() implies #[trigger] plane@[x] == put_at(
                old(plane)@,
                stride as int,
                row as int,
                col as int,
                bw as int,
                r + 1,
                block@,
                x,
            ) by {
                assert(now[x] == now[x]);
            }
        }
    }
    assert(plane@ =~= with_block(
        old(plane)@,
        stride as int,
        row as int,
        col as int,
        bw as int,
        bh as int,
        block@,
    ));
}

/// Putting a block changes nothing outside it and makes its samples those of the
/// block.
pub proof fn law_put_block_is_local(
    plane: Seq<u16>,
    stride: int,
    height: int,
    row: int,
    col: int,
    bw: int,
    bh: int,
    block: Seq<u16>,
    r: int,
    c: int,
)
    requires
        block_fits(plane.len() as int, stride, height, row, col, bw, bh),
        0 <= r < height,
        0 <= c < stride,
    ensures
        with_block(plane, stride, row, col, bw, bh, block)[r * stride + c] == if row <= r < row + bh
            && col <= c < col + bw {
            block[(r - row) * bw + (c - col)]
        } else {
            plane[r * stride + c]
        },
{
    transform::lemma_at(r, c, stride);
    refs::lemma_inside(r, c, stride, height);
    assert(height * stride == stride * height) by (nonlinear_arith);
}

/// Squared difference.
pub open spec fn sq_diff(a: u16, b: u16) -> int {
    (a - b) * (a - b)
}

/// Sum of the squared differences of the first `k` samples of two blocks.
pub open spec fn sse(a: Seq<u16>, b: Seq<u16>, k: int) -> int
    decreases k,
{
    if k <= 0 {
        0
    } else {
        sse(a, b, k - 1) + sq_diff(a[k - 1], b[k - 1])
    }
}

/// Sum of the squared differences of two `n` by `n` blocks.
pub fn block_sse(orig: &[u16], rec: &[u16], n: usize) -> (r: i64)
    requires
        n <= 64,
        orig@.len() >= n * n,
        rec@.len() >= n * n,
    ensures
        r == sse(orig@, rec@, n * n),
        0 <= r,
{
    assert(0 <= n * n <= 4096) by (nonlinear_arith)
        requires
            0 <= n <= 64,
    ;
    let count: usize = n * n;
    let mut acc: i64 = 0;
    for k in 0..count
        invariant
            count == n * n,
            count <= 4096,
            orig@.len() >= count,
            rec@.len() >= count,
            acc == sse(orig@, rec@, k as int),
            0 <= acc <= 0x1_0000_0000 * k,
    {
        let d: i64 = orig[k] as i64 - rec[k] as i64;
        assert(0 <= d * d <= 0x1_0000_0000) by (nonlinear_arith)
            requires
                -65535 <= d <= 65535,
        ;
        acc += d * d;
    }
    acc
}

/// Sum of the squared differences of an `n` by `n` block and the samples of a
/// plane at `(row, col)`.
pub fn sse_plane(
    orig: &[u16],
    plane: &[u16],
    row: usize,
    col: usize,
    stride: usize,
    n: usize,
    height: usize,
) -> (r: i64)
    requires
        n <= 64,
        orig@.len() >= n * n,
        block_fits(
            plane@.len() as int,
            stride as int,
            height as int,
            row as int,
            col as int,
            n as int,
            n as int,
        ),
    ensures
        r == sse(
            orig@,
            window(
                plane@,
                stride as int,
                height as int,
                col as int,
                row as int,
                n as int,
                n as int,
            ),
            n * n,
        ),
{
    assert(0 <= n * n <= 4096) by (nonlinear_arith)
        requires
            0 <= n <= 64,
    ;
    if n == 0 {
        return 0;
    }
    let b: Vec<u16> = extract_plane(plane, stride, height, col, row, n, n);
    block_sse(orig, &b, n)
}

} // verus!
