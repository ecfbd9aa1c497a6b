//! Whole pictures: tiles, the slice, and the units of a stream.
use crate::bitseq;
use crate::color::Cicp;
use crate::ctu::CuChooser;
use crate::error::EncodeError;
use crate::exactness;
use crate::frame::Frame;
use crate::nal::{Nalu, NaluStream};
use crate::params;
use crate::params::{build_pps_tiled, build_sps, build_vps};
use crate::planes;
use crate::planes::{put_block, Yuv};
use crate::refs;
use crate::region;
use crate::region::{encode_region_substreams, frame_for, RegionLog, RegionOutput};
use crate::scratch::fill_resize;
use crate::slice;
use crate::slice::{addressable, build_slice, qp_for_quality};
use crate::tb;
use crate::tiles;
use crate::tiles::{ceil_sqrt, choose_tile_grid, extract_tile_yuv, tile_rects, TileRect};
use vstd::prelude::*;

verus! {

/// A tile of a picture, and how it was coded.
pub struct Tile {
    pub src: Yuv,
    pub out: RegionOutput,
    pub log: RegionLog,
}

/// The samples of a picture inside a rectangle make up another picture.
pub open spec fn is_part(yuv: Yuv, rect: (int, int, int, int), part: Yuv) -> bool {
    let (x0, y0, w, h) = rect;
    let (sw, sh) = (yuv.chroma.spec_sub_w(), yuv.chroma.spec_sub_h());
    let (cw, ch) = (yuv.chroma_w(), yuv.chroma_h());
    &&& part.width == w
    &&& part.height == h
    &&& part.chroma == yuv.chroma
    &&& part.bit_depth == yuv.bit_depth
    &&& part.y@ == planes::window(yuv.y@, yuv.width as int, yuv.height as int, x0, y0, w, h)
    &&& !(yuv.chroma is Monochrome) ==> {
        &&& part.cb@ == planes::window(yuv.cb@, cw, ch, x0 / sw, y0 / sh, w / sw, h / sh)
        &&& part.cr@ == planes::window(yuv.cr@, cw, ch, x0 / sw, y0 / sh, w / sw, h / sh)
    }
}

/// How a picture is coded.
pub struct PictureJob {
    pub yuv: Yuv,
    pub width: u32,
    pub height: u32,
    pub qp: u8,
    pub lossless: bool,
    pub wpp: bool,
    pub cols: int,
    pub rows: int,
}

impl PictureJob {
    pub open spec fn frame(self) -> Frame {
        region::frame_of(self.yuv, self.width, self.height)
    }

    pub open spec fn count(self) -> int {
        self.cols * self.rows
    }

    /// Where tile `k` is.
    pub open spec fn rect(self, k: int) -> (int, int, int, int) {
        let f = self.frame();
        tiles::tile_at(f.w as int / 64, f.h as int / 64, self.cols, self.rows, k)
    }

    /// Tile `k` was coded.
    #[verifier::opaque]
    pub open spec fn tile_coded<Q: CuChooser>(self, q: Q, t: Tile, k: int) -> bool {
        let r = self.rect(k);
        let f = region::frame_of(t.src, r.2 as u32, r.3 as u32);
        &&& is_part(self.yuv, r, t.src)
        &&& t.log.coded(
            f,
            t.src,
            q,
            t.out,
            self.qp,
            self.lossless,
            self.wpp,
            k == self.count() - 1,
        )
    }

    /// The luma plane with the first `k` tiles put together.
    pub open spec fn luma(self, ts: Seq<Tile>, k: int) -> Seq<u16>
        decreases k,
    {
        let f = self.frame();
        if k <= 0 {
            Seq::new((f.w * f.h) as nat, |i: int| 0u16)
        } else {
            let (x0, y0, w, h) = self.rect(k - 1);
            planes::with_block(
                self.luma(ts, k - 1),
                f.w as int,
                y0,
                x0,
                w,
                h,
                ts[k - 1].out.y@,
            )
        }
    }

    /// A chroma plane with the first `k` tiles put together.
    pub open spec fn chroma(self, first: bool, ts: Seq<Tile>, k: int) -> Seq<u16>
        decreases k,
    {
        let f = self.frame();
        let (sw, sh) = (f.chroma.spec_sub_w(), f.chroma.spec_sub_h());
        if f.chroma is Monochrome {
            Seq::empty()
        } else if k <= 0 {
            Seq::new((f.cw * f.ch) as nat, |i: int| 0u16)
        } else {
            let (x0, y0, w, h) = self.rect(k - 1);
            planes::with_block(
                self.chroma(first, ts, k - 1),
                f.cw as int,
                y0 / sh,
                x0 / sw,
                w / sw,
                h / sh,
                if first {
                    ts[k - 1].out.cb@
                } else {
                    ts[k - 1].out.cr@
                },
            )
        }
    }

    /// The substreams of the first `k` tiles.
    pub open spec fn parts(self, ts: Seq<Tile>, k: int) -> Seq<Vec<u8>>
        decreases k,
    {
        if k <= 0 {
            Seq::empty()
        } else {
            self.parts(ts, k - 1) + ts[k - 1].out.substreams@
        }
    }

    /// The first `k` tiles are coded.
    pub open spec fn reached<Q: CuChooser>(self, q: Q, ts: Seq<Tile>, k: int) -> bool {
        &&& ts.len() == k
        &&& forall|i: int| 0 <= i < k ==> self.tile_coded(q, #[trigger] ts[i], i)
    }

    /// The picture was coded: in one piece, or tile by tile.
    #[verifier::opaque]
    pub open spec fn coded<Q: CuChooser>(self, q: Q, ts: Seq<Tile>, out: RegionOutput) -> bool {
        let n = self.count();
        if n <= 1 {
            &&& ts.len() == 1
            &&& ts[0].src == self.yuv
            &&& ts[0].out == out
            &&& ts[0].log.coded(
                self.frame(),
                self.yuv,
                q,
                out,
                self.qp,
                self.lossless,
                self.wpp,
                true,
            )
        } else {
            &&& self.reached(q, ts, n)
            &&& out.substreams@ == self.parts(ts, n)
            &&& out.y@ == self.luma(ts, n)
            &&& out.cb@ == self.chroma(true, ts, n)
            &&& out.cr@ == self.chroma(false, ts, n)
        }
    }

    /// Only the tiles that are there count.
    proof fn lemma_ext(self, a: Seq<Tile>, b: Seq<Tile>, k: int)
        requires
            forall|i: int| 0 <= i < k ==> a[i] == b[i],
        ensures
            self.luma(a, k) == self.luma(b, k),
            self.chroma(true, a, k) == self.chroma(true, b, k),
            self.chroma(false, a, k) == self.chroma(false, b, k),
            self.parts(a, k) == self.parts(b, k),
        decreases k,
    {
        if k > 0 {
            self.lemma_ext(a, b, k - 1);
        }
    }
}

/// A window of a plane has no larger samples than the plane.
proof fn lemma_window_le(
    src: Seq<u16>,
    w: int,
    h: int,
    x0: int,
    y0: int,
    tw: int,
    th: int,
    max: int,
)
    requires
        1 <= w,
        1 <= h,
        src.len() >= w * h,
        0 <= x0,
        0 <= y0,
        1 <= tw,
        tb::samples_le(src, max),
    ensures
        tb::samples_le(planes::window(src, w, h, x0, y0, tw, th), max),
{
    let r = planes::window(src, w, h, x0, y0, tw, th);
    assert forall|x: int| 0 <= x < r.len() implies #[trigger] r[x] <= max by {
        let (a, b) = (planes::min(y0 + x / tw, h - 1), planes::min(x0 + x % tw, w - 1));
        assert(0 <= x / tw && 0 <= x % tw) by (nonlinear_arith)
            requires
                0 <= x,
                1 <= tw,
        ;
        refs::lemma_inside(a, b, w, h);
        assert(h * w == w * h) by (nonlinear_arith);
    }
}

/// A tile can be coded as a region.
#[verifier::spinoff_prover]
#[verifier::rlimit(60)]
proof fn lemma_part_ok(yuv: Yuv, rect: (int, int, int, int), part: Yuv)
    requires
        yuv.wf(),
        tb::samples_le(yuv.y@, yuv.bit_depth.spec_max()),
        !(yuv.chroma is Monochrome) ==> {
            &&& tb::samples_le(yuv.cb@, yuv.bit_depth.spec_max())
            &&& tb::samples_le(yuv.cr@, yuv.bit_depth.spec_max())
        },
        is_part(yuv, rect, part),
        part.wf(),
        0 <= rect.0,
        0 <= rect.1,
        64 <= rect.2 <= 0x1fff_ffc0,
        64 <= rect.3 <= 0x1fff_ffc0,
        rect.2 % 64 == 0,
        rect.3 % 64 == 0,
        rect.2 * rect.3 <= usize::MAX,
    ensures
        region::region_ok(part, rect.2 as u32, rect.3 as u32),
        params::coded_size(rect.2) == rect.2,
        params::coded_size(rect.3) == rect.3,
{
    let (x0, y0, w, h) = rect;
    let max = yuv.bit_depth.spec_max();
    let f = region::frame_of(part, w as u32, h as u32);
    assert(f.src_w == w && f.src_h == h);
    assert(f.src_cw == part.chroma_w() && f.src_ch == part.chroma_h());
    lemma_window_le(yuv.y@, yuv.width as int, yuv.height as int, x0, y0, w, h, max);
    if !(yuv.chroma is Monochrome) {
        let (sw, sh) = (yuv.chroma.spec_sub_w(), yuv.chroma.spec_sub_h());
        let (cw, ch) = (yuv.chroma_w(), yuv.chroma_h());
        lemma_window_le(yuv.cb@, cw, ch, x0 / sw, y0 / sh, w / sw, h / sh, max);
        lemma_window_le(yuv.cr@, cw, ch, x0 / sw, y0 / sh, w / sw, h / sh, max);
    }
}

/// The boundaries of the tiles can be computed, and the rows of all tiles can be counted.
#[verifier::opaque]
pub open spec fn countable(ctus_x: int, ctus_y: int, cols: int, rows: int) -> bool {
    &&& cols * ctus_x <= usize::MAX
    &&& rows * ctus_y <= usize::MAX
    &&& cols * ctus_y <= u32::MAX
}

proof fn lemma_countable(ctus_x: int, ctus_y: int, cols: int, rows: int)
    requires
        countable(ctus_x, ctus_y, cols, rows),
        1 <= cols,
        1 <= rows <= ctus_y,
    ensures
        cols * ctus_x <= usize::MAX,
        rows * ctus_y <= usize::MAX,
        cols * ctus_y <= u32::MAX,
        cols * rows <= usize::MAX,
{
    reveal(countable);
    assert(cols * rows <= cols * ctus_y) by (nonlinear_arith)
        requires
            1 <= cols,
            1 <= rows <= ctus_y,
    ;
}

impl PictureJob {
    /// The picture can be coded in these tiles.
    pub open spec fn ok(self) -> bool {
        let f = self.frame();
        &&& region::region_ok(self.yuv, self.width, self.height)
        &&& self.qp <= 51
        &&& 1 <= self.cols
        &&& 1 <= self.rows
        &&& self.count() > 1 ==> {
            &&& self.cols <= f.w as int / 64
            &&& self.rows <= f.h as int / 64
            &&& countable(f.w as int / 64, f.h as int / 64, self.cols, self.rows)
        }
    }

    /// Tiles lie inside the picture.
    pub proof fn lemma_rect(self, k: int)
        requires
            self.ok(),
            self.count() > 1,
            0 <= k < self.count(),
        ensures
            ({
                let (x0, y0, w, h) = self.rect(k);
                let f = self.frame();
                &&& 0 <= x0
                &&& 0 <= y0
                &&& 64 <= w <= f.w
                &&& 64 <= h <= f.h
                &&& x0 + w <= f.w
                &&& y0 + h <= f.h
                &&& x0 % 64 == 0
                &&& y0 % 64 == 0
                &&& w % 64 == 0
                &&& h % 64 == 0
            }),
    {
        let f = self.frame();
        let (cx, cy) = (f.w as int / 64, f.h as int / 64);
        let (c, n) = (self.cols, self.count());
        assert(0 <= k / c < self.rows && 0 <= k % c < c) by (nonlinear_arith)
            requires
                0 <= k < n,
                n == c * self.rows,
                1 <= c,
        ;
        tiles::lemma_tile_side(cx, c, k % c);
        tiles::lemma_tile_side(cy, self.rows, k / c);
        tiles::lemma_boundary_grows(cx, c, 0, k % c);
        tiles::lemma_boundary_grows(cy, self.rows, 0, k / c);
    }
}

/// Codes tile `k`.
fn encode_tile<D: CuChooser>(
    yuv: &Yuv,
    rect: TileRect,
    qp: u8,
    lossless: bool,
    wpp: bool,
    last: bool,
    d: &D,
    Ghost(job): Ghost<PictureJob>,
    Ghost(k): Ghost<int>,
) -> (r: (RegionOutput, Ghost<Tile>))
    requires
        job.ok(),
        job.count() > 1,
        0 <= k < job.count(),
        job.yuv == *yuv,
        job.qp == qp,
        job.lossless == lossless,
        job.wpp == wpp,
        last == (k == job.count() - 1),
        (rect.x0 as int, rect.y0 as int, rect.w as int, rect.h as int) == job.rect(k),
    ensures
        r.1@.out == r.0,
        job.tile_coded(*d, r.1@, k),
        r.0.y@.len() == rect.w * rect.h,
        !(yuv.chroma is Monochrome) ==> {
            let n = (rect.w as int / yuv.chroma.spec_sub_w()) * (rect.h as int
                / yuv.chroma.spec_sub_h());
            r.0.cb@.len() == n && r.0.cr@.len() == n
        },
{
    proof {
        job.lemma_rect(k);
        let f = job.frame();
        assert(rect.w * rect.h <= f.w * f.h) by (nonlinear_arith)
            requires
                0 <= rect.w <= f.w,
                0 <= rect.h <= f.h,
        ;
    }
    let src: Yuv = extract_tile_yuv(yuv, rect.x0, rect.y0, rect.w, rect.h);
    proof {
        lemma_part_ok(*yuv, job.rect(k), src);
    }
    let (out, log): (RegionOutput, Ghost<RegionLog>) = encode_region_substreams(
        &src,
        rect.w as u32,
        rect.h as u32,
        qp,
        lossless,
        wpp,
        last,
        d,
    );
    let ghost t = Tile { src, out, log: log@ };
    proof {
        reveal(PictureJob::tile_coded);
    }
    (out, Ghost(t))
}

/// Puts the planes of a tile into those of the picture.
fn put_tile(f: &Frame, pic: &mut RegionOutput, rect: TileRect, tile: &RegionOutput)
    requires
        f.wf(),
        rect.x0 + rect.w <= f.w,
        rect.y0 + rect.h <= f.h,
        rect.x0 % 64 == 0,
        rect.y0 % 64 == 0,
        rect.w % 64 == 0,
        rect.h % 64 == 0,
        old(pic).y@.len() == f.w * f.h,
        tile.y@.len() == rect.w * rect.h,
        !(f.chroma is Monochrome) ==> {
            let n = (rect.w as int / f.chroma.spec_sub_w()) * (rect.h as int
                / f.chroma.spec_sub_h());
            &&& old(pic).cb@.len() == f.cw * f.ch
            &&& old(pic).cr@.len() == f.cw * f.ch
            &&& tile.cb@.len() == n
            &&& tile.cr@.len() == n
        },
    ensures
        final(pic).substreams == old(pic).substreams,
        final(pic).y@ == planes::with_block(
            old(pic).y@,
            f.w as int,
            rect.y0 as int,
            rect.x0 as int,
            rect.w as int,
            rect.h as int,
            tile.y@,
        ),
        ({
            let (sw, sh) = (f.chroma.spec_sub_w(), f.chroma.spec_sub_h());
            let (r, c) = (rect.y0 as int / sh, rect.x0 as int / sw);
            let (w, h) = (rect.w as int / sw, rect.h as int / sh);
            if f.chroma is Monochrome {
                final(pic).cb == old(pic).cb && final(pic).cr == old(pic).cr
            } else {
                &&& final(pic).cb@ == planes::with_block(
                    old(pic).cb@,
                    f.cw as int,
                    r,
                    c,
                    w,
                    h,
                    tile.cb@,
                )
                &&& final(pic).cr@ == planes::with_block(
                    old(pic).cr@,
                    f.cw as int,
                    r,
                    c,
                    w,
                    h,
                    tile.cr@,
                )
            }
        }),
{
    put_block(
        &mut pic.y,
        f.w,
        rect.y0,
        rect.x0,
        rect.w,
        rect.h,
        &tile.y,
        Ghost(f.h as int),
    );
    if !f.chroma.is_monochrome() {
        proof {
            f.lemma_chroma_dims();
        }
        let (sw, sh): (usize, usize) = (f.chroma.sub_w(), f.chroma.sub_h());
        let (r, c): (usize, usize) = (rect.y0 / sh, rect.x0 / sw);
        let (w, h): (usize, usize) = (rect.w / sw, rect.h / sh);
        proof {
            assert(sw == 1 || sw == 2);
            assert(sh == 1 || sh == 2);
        }
        put_block(&mut pic.cb, f.cw, r, c, w, h, &tile.cb, Ghost(f.ch as int));
        put_block(&mut pic.cr, f.cw, r, c, w, h, &tile.cr, Ghost(f.ch as int));
    }
}

/// Codes a picture tile by tile.
fn encode_tiles<D: CuChooser>(
    yuv: &Yuv,
    f: &Frame,
    qp: u8,
    lossless: bool,
    wpp: bool,
    cols: usize,
    rows: usize,
    d: &D,
    Ghost(job): Ghost<PictureJob>,
) -> (r: (RegionOutput, Ghost<Seq<Tile>>))
    requires
        job.ok(),
        job.count() > 1,
        job.yuv == *yuv,
        job.qp == qp,
        job.lossless == lossless,
        job.wpp == wpp,
        job.cols == cols,
        job.rows == rows,
        *f == job.frame(),
        f.wf(),
        f.w * f.h <= usize::MAX,
    ensures
        job.coded(*d, r.1@, r.0),
        r.0.y@.len() == f.w * f.h,
{
    proof {
        lemma_countable(f.w as int / 64, f.h as int / 64, cols as int, rows as int);
    }
    let rects: Vec<TileRect> = tile_rects(f.w / 64, f.h / 64, cols, rows);
    let count: usize = rects.len();
    proof {
        f.lemma_chroma_dims();
        assert(f.cw * f.ch <= f.w * f.h) by (nonlinear_arith)
            requires
                0 <= f.cw <= f.w,
                0 <= f.ch <= f.h,
        ;
    }
    let mut pic: RegionOutput = RegionOutput {
        substreams: Vec::new(),
        y: Vec::new(),
        cb: Vec::new(),
        cr: Vec::new(),
    };
    fill_resize(&mut pic.y, f.w * f.h, 0);
    if !f.chroma.is_monochrome() {
        fill_resize(&mut pic.cb, f.cw * f.ch, 0);
        fill_resize(&mut pic.cr, f.cw * f.ch, 0);
    }
    let ghost mut ts: Seq<Tile> = Seq::empty();
    proof {
        assert(pic.y@ =~= job.luma(ts, 0));
        assert(pic.cb@ =~= job.chroma(true, ts, 0));
        assert(pic.cr@ =~= job.chroma(false, ts, 0));
    }
    for k in 0..count
        invariant
            job.ok(),
            job.count() > 1,
            job.yuv == *yuv,
            job.qp == qp,
            job.lossless == lossless,
            job.wpp == wpp,
            *f == job.frame(),
            f.wf(),
            count == rects@.len(),
            count == job.count(),
            forall|i: int|
                0 <= i < rects@.len() ==> (
                    (#[trigger] rects@[i]).x0 as int,
                    rects@[i].y0 as int,
                    rects@[i].w as int,
                    rects@[i].h as int,
                ) == job.rect(i),
            job.reached(*d, ts, k as int),
            pic.substreams@ == job.parts(ts, k as int),
            pic.y@ == job.luma(ts, k as int),
            pic.y@.len() == f.w * f.h,
            pic.cb@ == job.chroma(true, ts, k as int),
            pic.cr@ == job.chroma(false, ts, k as int),
            !(f.chroma is Monochrome) ==> {
                &&& pic.cb@.len() == f.cw * f.ch
                &&& pic.cr@.len() == f.cw * f.ch
            },
    {
        let rect: TileRect = rects[k];
        proof {
            assert((rect.x0 as int, rect.y0 as int, rect.w as int, rect.h as int) == job.rect(
                k as int,
            ));
            job.lemma_rect(k as int);
        }
        let (tile, t): (RegionOutput, Ghost<Tile>) = encode_tile(
            yuv,
            rect,
            qp,
            lossless,
            wpp,
            k == count - 1,
            d,
            Ghost(job),
            Ghost(k as int),
        );
        put_tile(f, &mut pic, rect, &tile);
        let mut more: Vec<Vec<u8>> = tile.substreams;
        pic.substreams.append(&mut more);
        proof {
            let before = ts;
            ts = ts.push(t@);
            job.lemma_ext(before, ts, k as int);
            assert(ts[k as int] == t@);
        }
    }
    proof {
        reveal(PictureJob::coded);
    }
    (pic, Ghost(ts))
}

/// Codes the samples of a picture, in one piece or tile by tile.
pub fn encode_samples<D: CuChooser>(
    yuv: &Yuv,
    width: u32,
    height: u32,
    qp: u8,
    lossless: bool,
    wpp: bool,
    cols: usize,
    rows: usize,
    d: &D,
) -> (r: (RegionOutput, Ghost<Seq<Tile>>))
    requires
        (PictureJob {
            yuv: *yuv,
            width,
            height,
            qp,
            lossless,
            wpp,
            cols: cols as int,
            rows: rows as int,
        }).ok(),
    ensures
        (PictureJob {
            yuv: *yuv,
            width,
            height,
            qp,
            lossless,
            wpp,
            cols: cols as int,
            rows: rows as int,
        }).coded(*d, r.1@, r.0),
        ({
            let f = region::frame_of(*yuv, width, height);
            r.0.y@.len() == f.w * f.h
        }),
{
    let ghost job = PictureJob {
        yuv: *yuv,
        width,
        height,
        qp,
        lossless,
        wpp,
        cols: cols as int,
        rows: rows as int,
    };
    let f: Frame = frame_for(yuv, width, height);
    proof {
        lemma_several(cols as int, rows as int);
    }
    if cols > 1 || rows > 1 {
        return encode_tiles(yuv, &f, qp, lossless, wpp, cols, rows, d, Ghost(job));
    }
    let (out, log): (RegionOutput, Ghost<RegionLog>) = encode_region_substreams(
        yuv,
        width,
        height,
        qp,
        lossless,
        wpp,
        true,
        d,
    );
    let ghost ts = seq![Tile { src: *yuv, out, log: log@ }];
    proof {
        reveal(PictureJob::coded);
    }
    (out, Ghost(ts))
}

impl PictureJob {
    /// The slice header tells where the substreams are.
    pub open spec fn entry_points(self) -> bool {
        self.wpp || self.count() > 1
    }

    /// A slice unit holds the substreams of a picture that was coded.
    #[verifier::opaque]
    pub open spec fn slice_of<Q: CuChooser>(
        self,
        q: Q,
        ts: Seq<Tile>,
        out: RegionOutput,
        n: Nalu,
    ) -> bool {
        let parts = out.substreams@;
        &&& self.coded(q, ts, out)
        &&& self.entry_points() ==> slice::parts_addressable(parts)
        &&& params::holds(
            n,
            20,
            slice::full_header_bits(self.yuv.chroma, false, self.entry_points(), parts)
                + bitseq::of_bytes(slice::slice_data(self.entry_points(), parts)),
        )
    }

    /// The picture was coded, but a substream other than the last takes up more bytes
    /// than the offsets of a slice header can say.
    #[verifier::opaque]
    pub open spec fn too_long<Q: CuChooser>(
        self,
        q: Q,
        ts: Seq<Tile>,
        out: RegionOutput,
    ) -> bool {
        &&& self.coded(q, ts, out)
        &&& self.entry_points()
        &&& !slice::parts_addressable(out.substreams@)
    }
}

/// Rows of coding tree units in the first `k` tiles of a grid.
spec fn rows_before(cy: int, cols: int, rows: int, k: int) -> int {
    let (i, j) = (k % cols, k / cols);
    let (a, b) = (tiles::boundary(cy, rows, j), tiles::boundary(cy, rows, j + 1));
    cols * a + i * (b - a)
}

/// One more tile has its rows.
proof fn lemma_rows_before(cy: int, cols: int, rows: int, k: int)
    requires
        1 <= cols,
        0 <= k,
    ensures
        rows_before(cy, cols, rows, k + 1) == rows_before(cy, cols, rows, k) + tiles::boundary(
            cy,
            rows,
            k / cols + 1,
        ) - tiles::boundary(cy, rows, k / cols),
{
    let (i, j) = (k % cols, k / cols);
    let (a, b) = (tiles::boundary(cy, rows, j), tiles::boundary(cy, rows, j + 1));
    assert(k == j * cols + i && 0 <= i < cols) by (nonlinear_arith)
        requires
            i == k % cols,
            j == k / cols,
            1 <= cols,
            0 <= k,
    ;
    if i + 1 < cols {
        assert((k + 1) / cols == j && (k + 1) % cols == i + 1) by (nonlinear_arith)
            requires
                k == j * cols + i,
                0 <= i,
                i + 1 < cols,
        ;
        assert((i + 1) * (b - a) == i * (b - a) + (b - a)) by (nonlinear_arith);
    } else {
        assert((k + 1) / cols == j + 1 && (k + 1) % cols == 0) by (nonlinear_arith)
            requires
                k == j * cols + i,
                i + 1 == cols,
                1 <= cols,
        ;
        let c = tiles::boundary(cy, rows, j + 2);
        assert(cols * b + 0 * (c - b) == cols * a + i * (b - a) + (b - a)) by (nonlinear_arith)
            requires
                i + 1 == cols,
        ;
    }
}

/// All tiles together have every row once for each column of tiles.
proof fn lemma_rows_ends(cy: int, cols: int, rows: int)
    requires
        1 <= cols,
        1 <= rows,
        0 <= cy,
    ensures
        rows_before(cy, cols, rows, 0) == 0,
        rows_before(cy, cols, rows, cols * rows) == cols * cy,
{
    tiles::lemma_boundary_ends(cy, rows);
    let k = cols * rows;
    vstd::arithmetic::div_mod::lemma_div_multiples_vanish(rows, cols);
    vstd::arithmetic::div_mod::lemma_mod_multiples_basic(rows, cols);
    assert(rows * cols == cols * rows) by (nonlinear_arith);
    assert(0int / cols == 0 && 0int % cols == 0) by (nonlinear_arith)
        requires
            1 <= cols,
    ;
    let (b, c) = (tiles::boundary(cy, rows, 1), tiles::boundary(cy, rows, rows + 1));
    assert(cols * 0 + 0 * (b - 0) == 0 && cols * cy + 0 * (c - cy) == cols * cy)
        by (nonlinear_arith);
}

/// The code of bins has a byte.
proof fn lemma_strips_have_bytes<Q: CuChooser>(
    log: RegionLog,
    f: Frame,
    src: Yuv,
    q: Q,
    parts: Seq<Vec<u8>>,
    n: int,
)
    requires
        log.reached(f, src, q, parts, n),
    ensures
        forall|i: int| 0 <= i < parts.len() ==> 1 <= (#[trigger] parts[i])@.len(),
{
    assert forall|i: int| 0 <= i < parts.len() implies 1 <= (#[trigger] parts[i])@.len() by {
        assert(log.strip_ok(f, src, q, parts[i]@, i));
    }
}

impl PictureJob {
    /// A tile has a substream for each of its rows at most, and each has a byte.
    #[verifier::spinoff_prover]
    #[verifier::rlimit(60)]
    proof fn lemma_tile_has_bytes<Q: CuChooser>(self, q: Q, t: Tile, k: int)
        requires
            self.ok(),
            self.count() > 1,
            self.tile_coded(q, t, k),
            0 <= k < self.count(),
        ensures
            ({
                let cy = self.frame().h as int / 64;
                let j = k / self.cols;
                t.out.substreams@.len() <= tiles::boundary(cy, self.rows, j + 1) - tiles::boundary(
                    cy,
                    self.rows,
                    j,
                )
            }),
            forall|i: int|
                0 <= i < t.out.substreams@.len() ==> 1 <= (#[trigger] t.out.substreams@[i])@.len(),
    {
        self.lemma_rect(k);
        let r = self.rect(k);
        let g = region::frame_of(t.src, r.2 as u32, r.3 as u32);
        reveal(PictureJob::tile_coded);
        reveal(RegionLog::coded);
        lemma_strips_have_bytes(t.log, g, t.src, q, t.out.substreams@, t.log.strip_count(g));
        assert(g.h == r.3);
    }

    /// The substreams of the first `k` tiles can be counted, and each has a byte.
    #[verifier::spinoff_prover]
    #[verifier::rlimit(60)]
    proof fn lemma_tile_parts<Q: CuChooser>(self, q: Q, ts: Seq<Tile>, n: int, k: int)
        requires
            self.ok(),
            self.count() > 1,
            self.reached(q, ts, n),
            0 <= k <= n <= self.count(),
        ensures
            self.parts(ts, k).len() <= rows_before(
                self.frame().h as int / 64,
                self.cols,
                self.rows,
                k,
            ),
            forall|i: int|
                0 <= i < self.parts(ts, k).len() ==> 1 <= (#[trigger] self.parts(ts, k)[i])@.len(),
        decreases k,
    {
        let cy = self.frame().h as int / 64;
        if k > 0 {
            self.lemma_tile_parts(q, ts, n, k - 1);
            let t = ts[k - 1];
            assert(self.tile_coded(q, t, k - 1));
            self.lemma_tile_has_bytes(q, t, k - 1);
            lemma_rows_before(cy, self.cols, self.rows, k - 1);
            let own = t.out.substreams@;
            let before = self.parts(ts, k - 1);
            let all = self.parts(ts, k);
            assert(all == before + own);
            assert forall|i: int| 0 <= i < all.len() implies 1 <= (#[trigger] all[i])@.len() by {
                if i < before.len() {
                    assert(all[i] == before[i]);
                } else {
                    assert(all[i] == own[i - before.len()]);
                }
            }
        } else {
            lemma_rows_ends(cy, self.cols, self.rows);
        }
    }

    /// The substreams of a picture can be counted, and each has a byte.
    proof fn lemma_parts_ok<Q: CuChooser>(self, q: Q, ts: Seq<Tile>, out: RegionOutput)
        requires
            self.ok(),
            self.coded(q, ts, out),
        ensures
            slice::parts_ok(out.substreams@),
    {
        reveal(PictureJob::coded);
        let f = self.frame();
        let n = self.count();
        let cy = f.h as int / 64;
        if n <= 1 {
            reveal(RegionLog::coded);
            let log = ts[0].log;
            lemma_strips_have_bytes(
                log,
                f,
                self.yuv,
                q,
                out.substreams@,
                log.strip_count(f),
            );
            assert(cy <= f.h);
        } else {
            self.lemma_tile_parts(q, ts, n, n);
            lemma_rows_ends(cy, self.cols, self.rows);
            lemma_countable(f.w as int / 64, cy, self.cols, self.rows);
        }
    }
}

/// Codes a picture and makes its slice unit. The planes are those that a decoder
/// has.
#[verifier::spinoff_prover]
#[verifier::rlimit(60)]
pub fn build_idr_slice<D: CuChooser>(
    yuv: &Yuv,
    width: u32,
    height: u32,
    qp: u8,
    lossless: bool,
    wpp: bool,
    cols: usize,
    rows: usize,
    d: &D,
) -> (r: (Result<Nalu, EncodeError>, RegionOutput, Ghost<Seq<Tile>>))
    requires
        (PictureJob {
            yuv: *yuv,
            width,
            height,
            qp,
            lossless,
            wpp,
            cols: cols as int,
            rows: rows as int,
        }).ok(),
    ensures
        ({
            let job = PictureJob {
                yuv: *yuv,
                width,
                height,
                qp,
                lossless,
                wpp,
                cols: cols as int,
                rows: rows as int,
            };
            match r.0 {
                Ok(n) => {
                    &&& job.slice_of(*d, r.2@, r.1, n)
                    &&& n.data@.len() >= 2
                    &&& n.data@[0] == 0x28
                    &&& n.data@[1] == 0x01
                },
                Err(e) => e is BitstreamError && job.too_long(*d, r.2@, r.1),
            }
        }),
        ({
            let f = region::frame_of(*yuv, width, height);
            &&& r.1.y@.len() == f.w * f.h
            &&& lossless ==> r.1.y@ == planes::window(
                yuv.y@,
                yuv.width as int,
                yuv.height as int,
                0,
                0,
                f.w as int,
                f.h as int,
            )
        }),
{
    let ghost job = PictureJob {
        yuv: *yuv,
        width,
        height,
        qp,
        lossless,
        wpp,
        cols: cols as int,
        rows: rows as int,
    };
    let (out, ts): (RegionOutput, Ghost<Seq<Tile>>) = encode_samples(
        yuv,
        width,
        height,
        qp,
        lossless,
        wpp,
        cols,
        rows,
        d,
    );
    let entry: bool = wpp || cols > 1 || rows > 1;
    proof {
        lemma_several(cols as int, rows as int);
        reveal(PictureJob::slice_of);
        reveal(PictureJob::too_long);
        job.lemma_parts_ok(*d, ts@, out);
        if lossless {
            exactness::law_lossless_luma_is_the_extended_source(job, *d, ts@, out);
        }
    }
    if entry && !addressable(&out.substreams) {
        return (
            Err(EncodeError::BitstreamError("a substream is too long".to_owned())),
            out,
            ts,
        );
    }
    let nalu: Nalu = build_slice(yuv.chroma, false, entry, &out.substreams);
    proof {
        slice::law_slices_start_with_their_type(
            nalu,
            yuv.chroma,
            false,
            entry,
            out.substreams@,
            bitseq::of_bytes(slice::slice_data(entry, out.substreams@)),
        );
    }
    (Ok(nalu), out, ts)
}

/// A grid has several tiles where it has several columns or rows.
proof fn lemma_several(cols: int, rows: int)
    requires
        1 <= cols,
        1 <= rows,
    ensures
        cols * rows > 1 <==> cols > 1 || rows > 1,
{
    if cols > 1 || rows > 1 {
        assert(cols * rows > 1) by (nonlinear_arith)
            requires
                1 <= cols,
                1 <= rows,
                cols > 1 || rows > 1,
        ;
    } else {
        assert(1 * 1 == 1);
    }
}

/// The grid of tiles for a number of workers.
pub open spec fn grid_for(f: Frame, tiled: bool, threads: int, cols: int, rows: int) -> bool {
    let (cx, cy) = (f.w as int / 64, f.h as int / 64);
    if tiled {
        exists|par: int|
            #![trigger tiles::is_ceil_sqrt(threads, par)]
            tiles::is_ceil_sqrt(threads, par) && if par <= 1 {
                cols == 1 && rows == 1
            } else {
                tiles::grid_best(cx, cy, par, cols, rows)
            }
    } else {
        cols == 1 && rows == 1
    }
}

/// The job of encoding a picture with these tools: substreams for rows take at
/// least two columns of coding tree units.
pub open spec fn job_of(
    yuv: Yuv,
    width: u32,
    height: u32,
    quality: u8,
    lossless: bool,
    wpp: bool,
    cols: int,
    rows: int,
) -> PictureJob {
    let f = region::frame_of(yuv, width, height);
    PictureJob {
        yuv,
        width,
        height,
        qp: slice::quality_qp(quality as int) as u8,
        lossless,
        wpp: wpp && f.w as int / 64 >= 2,
        cols,
        rows,
    }
}

/// A picture of a quality below 1 is coded as one of quality 1, and of a quality above 100
/// as one of quality 100.
pub proof fn law_pictures_have_a_clipped_quality(
    yuv: Yuv,
    width: u32,
    height: u32,
    quality: u8,
    lossless: bool,
    wpp: bool,
    cols: int,
    rows: int,
)
    ensures
        quality == 0 ==> job_of(yuv, width, height, quality, lossless, wpp, cols, rows) == job_of(
            yuv,
            width,
            height,
            1,
            lossless,
            wpp,
            cols,
            rows,
        ),
        quality > 100 ==> job_of(yuv, width, height, quality, lossless, wpp, cols, rows) == job_of(
            yuv,
            width,
            height,
            100,
            lossless,
            wpp,
            cols,
            rows,
        ),
{
    slice::law_quality_is_clipped(quality as int);
}

impl PictureJob {
    /// The parameter sets of a stream.
    #[verifier::opaque]
    pub open spec fn sets_of(self, color: Option<Cicp>, vps: Nalu, sps: Nalu, pps: Nalu) -> bool {
        let (w, h) = (self.width as int, self.height as int);
        let (ch, depth) = (self.yuv.chroma, self.yuv.bit_depth);
        &&& params::holds(vps, 32, params::vps_bits(w, h, ch, depth, self.lossless))
        &&& params::holds(sps, 33, params::sps_bits(w, h, ch, depth, self.lossless, color))
        &&& params::holds(
            pps,
            34,
            params::pps_bits(self.qp as int, self.lossless, self.wpp, self.cols, self.rows),
        )
    }

    /// The units of a stream: the parameter sets and the slice.
    pub open spec fn stream_of<Q: CuChooser>(
        self,
        q: Q,
        ts: Seq<Tile>,
        out: RegionOutput,
        color: Option<Cicp>,
        s: NaluStream,
    ) -> bool {
        let n = s.nalus@;
        &&& n.len() == 4
        &&& self.sets_of(color, n[0], n[1], n[2])
        &&& self.slice_of(q, ts, out, n[3])
    }
}

/// The parameter sets of a picture.
fn parameter_sets(
    yuv: &Yuv,
    width: u32,
    height: u32,
    qp: u8,
    lossless: bool,
    color: Option<Cicp>,
    wpp: bool,
    cols: usize,
    rows: usize,
) -> (r: (Nalu, Nalu, Nalu))
    requires
        1 <= width <= 0x1fff_ffc0,
        1 <= height <= 0x1fff_ffc0,
        qp <= 51,
        1 <= cols <= 0x7fff_ffff,
        1 <= rows <= 0x7fff_ffff,
    ensures
        (PictureJob {
            yuv: *yuv,
            width,
            height,
            qp,
            lossless,
            wpp,
            cols: cols as int,
            rows: rows as int,
        }).sets_of(color, r.0, r.1, r.2),
{
    proof {
        reveal(PictureJob::sets_of);
    }
    (
        build_vps(width, height, yuv.chroma, yuv.bit_depth, lossless),
        build_sps(width, height, yuv.chroma, yuv.bit_depth, lossless, color),
        build_pps_tiled(qp, lossless, wpp, cols, rows),
    )
}

/// Encodes a picture in a grid of tiles as a stream of units.
#[verifier::spinoff_prover]
#[verifier::rlimit(60)]
fn encode_grid<D: CuChooser>(
    yuv: &Yuv,
    width: u32,
    height: u32,
    quality: u8,
    lossless: bool,
    color: Option<Cicp>,
    wpp: bool,
    cols: usize,
    rows: usize,
    d: &D,
) -> (r: (Result<NaluStream, EncodeError>, RegionOutput, Ghost<Seq<Tile>>))
    requires
        job_of(*yuv, width, height, quality, lossless, wpp, cols as int, rows as int).ok(),
    ensures
        ({
            let job = job_of(
                *yuv,
                width,
                height,
                quality,
                lossless,
                wpp,
                cols as int,
                rows as int,
            );
            match r.0 {
                Ok(s) => job.stream_of(*d, r.2@, r.1, color, s),
                Err(e) => e is BitstreamError && job.too_long(*d, r.2@, r.1),
            }
        }),
{
    let f: Frame = frame_for(yuv, width, height);
    let rows_apart: bool = wpp && f.w / 64 >= 2;
    let qp: u8 = qp_for_quality(quality);
    proof {
        lemma_several(cols as int, rows as int);
    }
    let (vps, sps, pps): (Nalu, Nalu, Nalu) = parameter_sets(
        yuv,
        width,
        height,
        qp,
        lossless,
        color,
        rows_apart,
        cols,
        rows,
    );
    let (idr, out, ts): (
        Result<Nalu, EncodeError>,
        RegionOutput,
        Ghost<Seq<Tile>>,
    ) = build_idr_slice(yuv, width, height, qp, lossless, rows_apart, cols, rows, d);
    match idr {
        Ok(n) => {
            let stream: NaluStream = NaluStream { nalus: vec![vps, sps, pps, n] };
            (Ok(stream), out, ts)
        },
        Err(e) => (Err(e), out, ts),
    }
}

/// A picture was encoded with these tools.
pub open spec fn encoded<Q: CuChooser>(
    job: PictureJob,
    wpp: bool,
    tiles: bool,
    threads: int,
    q: Q,
    color: Option<Cicp>,
    ts: Seq<Tile>,
    out: RegionOutput,
    r: Result<NaluStream, EncodeError>,
) -> bool {
    &&& grid_for(job.frame(), tiles && wpp && threads > 1, threads, job.cols, job.rows)
    &&& match r {
        Ok(s) => job.stream_of(q, ts, out, color, s),
        Err(e) => e is BitstreamError && job.too_long(q, ts, out),
    }
}

/// How a picture was cut and coded.
pub struct PictureLog {
    pub cols: int,
    pub rows: int,
    pub tiles: Seq<Tile>,
}

proof fn lemma_grid_fits(cx: int, cy: int, cols: int, rows: int)
    requires
        grid_fits(cx, cy),
        1 <= cols <= cx,
        1 <= rows <= cy,
    ensures
        countable(cx, cy, cols, rows),
{
    reveal(countable);
    assert(cols * cx <= cx * cx && rows * cy <= cy * cy && cols * cy <= cx * cy)
        by (nonlinear_arith)
        requires
            1 <= cols <= cx,
            1 <= rows <= cy,
    ;
}

/// The boundaries of the tiles of any grid of a picture of this many coding tree units can
/// be computed, and its rows can be counted.
pub open spec fn grid_fits(ctus_x: int, ctus_y: int) -> bool {
    &&& ctus_x * ctus_x <= usize::MAX
    &&& ctus_y * ctus_y <= usize::MAX
    &&& ctus_x * ctus_y <= u32::MAX
}

/// Encodes a picture as a stream of units. `wpp` gives each row of coding tree
/// units a substream of its own; `tiles` cuts the picture for several workers. The
/// planes that a decoder has come with it.
pub fn encode_intra_opts<D: CuChooser>(
    yuv: &Yuv,
    width: u32,
    height: u32,
    quality: u8,
    lossless: bool,
    color: Option<Cicp>,
    wpp: bool,
    tiles: bool,
    threads: usize,
    d: &D,
) -> (r: (Result<NaluStream, EncodeError>, RegionOutput, Ghost<PictureLog>))
    requires
        region::region_ok(*yuv, width, height),
        threads <= 0x10_0000_0000_0000,
        tiles ==> grid_fits(
            params::coded_size(width as int) / 64,
            params::coded_size(height as int) / 64,
        ),
    ensures
        encoded(
            job_of(*yuv, width, height, quality, lossless, wpp, r.2@.cols, r.2@.rows),
            wpp,
            tiles,
            threads as int,
            *d,
            color,
            r.2@.tiles,
            r.1,
            r.0,
        ),
{
    let f: Frame = frame_for(yuv, width, height);
    let (cx, cy): (usize, usize) = (f.w / 64, f.h / 64);
    let tiled: bool = tiles && wpp && threads > 1;
    let (cols, rows): (usize, usize) = if tiled {
        let par: usize = ceil_sqrt(threads);
        let g: (usize, usize) = choose_tile_grid(cx, cy, par);
        assert(tiles::is_ceil_sqrt(threads as int, par as int));
        g
    } else {
        (1, 1)
    };
    assert(grid_for(f, tiled, threads as int, cols as int, rows as int));
    proof {
        assert(cols <= cx && rows <= cy);
        if tiled {
            lemma_grid_fits(cx as int, cy as int, cols as int, rows as int);
        }
        lemma_several(cols as int, rows as int);
    }
    let (r, out, ts): (
        Result<NaluStream, EncodeError>,
        RegionOutput,
        Ghost<Seq<Tile>>,
    ) = encode_grid(yuv, width, height, quality, lossless, color, wpp, cols, rows, d);
    let ghost log = PictureLog { cols: cols as int, rows: rows as int, tiles: ts@ };
    (r, out, Ghost(log))
}

/// Encodes a picture as a stream of units, in one piece.
pub fn encode_intra<D: CuChooser>(
    yuv: &Yuv,
    width: u32,
    height: u32,
    quality: u8,
    lossless: bool,
    color: Option<Cicp>,
    d: &D,
) -> (r: (Result<NaluStream, EncodeError>, RegionOutput, Ghost<PictureLog>))
    requires
        region::region_ok(*yuv, width, height),
    ensures
        r.0 matches Ok(s) && job_of(
            *yuv,
            width,
            height,
            quality,
            lossless,
            false,
            1,
            1,
        ).stream_of(*d, r.2@.tiles, r.1, color, s),
{
    proof {
        lemma_several(1, 1);
    }
    let (r, out, ts): (
        Result<NaluStream, EncodeError>,
        RegionOutput,
        Ghost<Seq<Tile>>,
    ) = encode_grid(yuv, width, height, quality, lossless, color, false, 1, 1, d);
    proof {
        reveal(PictureJob::too_long);
    }
    let ghost log = PictureLog { cols: 1, rows: 1, tiles: ts@ };
    (r, out, Ghost(log))
}

} // verus!
