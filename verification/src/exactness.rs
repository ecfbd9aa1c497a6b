//! Pictures without loss come back sample by sample.
use crate::ctu::CuChooser;
use crate::picture;
use crate::picture::{PictureJob, Tile};
use crate::planes;
use crate::refs;
use crate::region;
use crate::region::RegionOutput;
use crate::tiles;
use crate::transform;
use vstd::prelude::*;

verus! {

impl PictureJob {
    /// A rectangle has a sample of the luma plane.
    pub open spec fn has(self, k: int, r: int, c: int) -> bool {
        let (x0, y0, w, h) = self.rect(k);
        y0 <= r < y0 + h && x0 <= c < x0 + w
    }

    /// Every sample of the luma plane belongs to one tile.
    proof fn lemma_one_tile(self, r: int, c: int) -> (k: int)
        requires
            self.ok(),
            self.count() > 1,
            0 <= r < self.frame().h,
            0 <= c < self.frame().w,
        ensures
            0 <= k < self.count(),
            self.has(k, r, c),
            forall|i: int| 0 <= i < self.count() && i != k ==> !#[trigger] self.has(i, r, c),
    {
        let f = self.frame();
        let (cx, cy, n, m) = (f.w as int / 64, f.h as int / 64, self.cols, self.rows);
        let (x, y) = (c / 64, r / 64);
        tiles::law_tiles_share_out_the_side(cx, n, x);
        tiles::law_tiles_share_out_the_side(cy, m, y);
        let ti = choose|i: int|
            0 <= i < n && tiles::boundary(cx, n, i) <= x < #[trigger] tiles::boundary(cx, n, i + 1);
        let tj = choose|j: int|
            0 <= j < m && tiles::boundary(cy, m, j) <= y < #[trigger] tiles::boundary(cy, m, j + 1);
        let k = tj * n + ti;
        assert(0 <= k < n * m && k % n == ti && k / n == tj) by {
            transform::lemma_at(tj, ti, n);
            refs::lemma_inside(tj, ti, n, m);
            assert(m * n == n * m) by (nonlinear_arith);
        }
        assert forall|i: int| 0 <= i < self.count() && i != k implies !#[trigger] self.has(
            i,
            r,
            c,
        ) by {
            if self.has(i, r, c) {
                let (a, b) = (i % n, i / n);
                assert(0 <= b < m && 0 <= a < n && i == b * n + a) by (nonlinear_arith)
                    requires
                        0 <= i < n * m,
                        1 <= n,
                        a == i % n,
                        b == i / n,
                ;
                assert(tiles::boundary(cx, n, a) <= x < tiles::boundary(cx, n, a + 1));
                assert(tiles::boundary(cy, m, b) <= y < tiles::boundary(cy, m, b + 1));
                assert(a == ti);
                assert(b == tj);
            }
        }
        k
    }

    /// A sample of the picture is that of its tile.
    proof fn lemma_luma_of_tile(self, ts: Seq<Tile>, n: int, k: int, r: int, c: int)
        requires
            self.ok(),
            self.count() > 1,
            0 <= k < n <= self.count(),
            0 <= r < self.frame().h,
            0 <= c < self.frame().w,
            self.has(k, r, c),
            forall|i: int| 0 <= i < self.count() && i != k ==> !#[trigger] self.has(i, r, c),
        ensures
            ({
                let (x0, y0, w, h) = self.rect(k);
                self.luma(ts, n)[r * self.frame().w + c] == ts[k].out.y@[(r - y0) * w + c - x0]
            }),
        decreases n,
    {
        let f = self.frame();
        let x = r * f.w + c;
        self.lemma_luma_len(ts, n - 1);
        transform::lemma_at(r, c, f.w as int);
        refs::lemma_inside(r, c, f.w as int, f.h as int);
        assert(f.h * f.w == f.w * f.h) by (nonlinear_arith);
        let (x0, y0, w, h) = self.rect(n - 1);
        if k < n - 1 {
            self.lemma_luma_of_tile(ts, n - 1, k, r, c);
            assert(!self.has(n - 1, r, c));
        }
    }

    proof fn lemma_luma_len(self, ts: Seq<Tile>, k: int)
        requires
            0 <= k,
        ensures
            self.luma(ts, k).len() == self.frame().w * self.frame().h,
        decreases k,
    {
        if k > 0 {
            self.lemma_luma_len(ts, k - 1);
        } else {
            let f = self.frame();
            assert(0 <= f.w * f.h) by (nonlinear_arith);
        }
    }
}

impl PictureJob {
    proof fn lemma_chroma_len(self, first: bool, ts: Seq<Tile>, k: int)
        requires
            0 <= k,
            !(self.frame().chroma is Monochrome),
        ensures
            self.chroma(first, ts, k).len() == self.frame().cw * self.frame().ch,
        decreases k,
    {
        if k > 0 {
            self.lemma_chroma_len(first, ts, k - 1);
        } else {
            let f = self.frame();
            assert(0 <= f.cw * f.ch) by (nonlinear_arith);
        }
    }

    /// The chroma of a tile covers the chroma samples of its luma.
    #[verifier::spinoff_prover]
    #[verifier::rlimit(60)]
    proof fn lemma_chroma_rect(self, k: int, r: int, c: int)
        requires
            self.ok(),
            self.frame().wf(),
            self.count() > 1,
            0 <= k < self.count(),
            0 <= r,
            0 <= c,
        ensures
            ({
                let (x0, y0, w, h) = self.rect(k);
                let f = self.frame();
                let (sw, sh) = (f.chroma.spec_sub_w(), f.chroma.spec_sub_h());
                self.has(k, r * sh, c * sw) <==> y0 / sh <= r < y0 / sh + h / sh && x0 / sw <= c
                    < x0 / sw + w / sw
            }),
    {
        self.lemma_rect(k);
        let f = self.frame();
        let (sw, sh) = (f.chroma.spec_sub_w(), f.chroma.spec_sub_h());
        assert(sw == 1 || sw == 2);
        assert(sh == 1 || sh == 2);
        if sw == 1 {
            assert(c * 1 == c);
        } else {
            assert(c * 2 == 2 * c);
        }
        if sh == 1 {
            assert(r * 1 == r);
        } else {
            assert(r * 2 == 2 * r);
        }
    }

    /// A chroma sample of the picture is that of its tile.
    proof fn lemma_chroma_of_tile(
        self,
        first: bool,
        ts: Seq<Tile>,
        n: int,
        k: int,
        r: int,
        c: int,
    )
        requires
            self.ok(),
            self.frame().wf(),
            self.count() > 1,
            !(self.frame().chroma is Monochrome),
            0 <= k < n <= self.count(),
            0 <= r < self.frame().ch,
            0 <= c < self.frame().cw,
            ({
                let f = self.frame();
                let (sw, sh) = (f.chroma.spec_sub_w(), f.chroma.spec_sub_h());
                &&& self.has(k, r * sh, c * sw)
                &&& forall|i: int|
                    0 <= i < self.count() && i != k ==> !#[trigger] self.has(i, r * sh, c * sw)
            }),
        ensures
            ({
                let (x0, y0, w, h) = self.rect(k);
                let f = self.frame();
                let (sw, sh) = (f.chroma.spec_sub_w(), f.chroma.spec_sub_h());
                let plane = if first {
                    ts[k].out.cb@
                } else {
                    ts[k].out.cr@
                };
                self.chroma(first, ts, n)[r * f.cw + c] == plane[(r - y0 / sh) * (w / sw) + c - x0
                    / sw]
            }),
        decreases n,
    {
        let f = self.frame();
        self.lemma_chroma_len(first, ts, n - 1);
        transform::lemma_at(r, c, f.cw as int);
        refs::lemma_inside(r, c, f.cw as int, f.ch as int);
        assert(f.ch * f.cw == f.cw * f.ch) by (nonlinear_arith);
        self.lemma_chroma_rect(n - 1, r, c);
        if k < n - 1 {
            self.lemma_chroma_of_tile(first, ts, n - 1, k, r, c);
            let (sw, sh) = (f.chroma.spec_sub_w(), f.chroma.spec_sub_h());
            assert(!self.has(n - 1, r * sh, c * sw));
        }
    }
}

/// A window of a window that is extended keeps the samples of the extended plane.
proof fn lemma_window_sample(
    src: Seq<u16>,
    w: int,
    h: int,
    x0: int,
    y0: int,
    tw: int,
    th: int,
    r: int,
    c: int,
)
    requires
        0 <= x0 <= c < x0 + tw,
        0 <= y0 <= r < y0 + th,
    ensures
        ({
            let part = planes::window(src, w, h, x0, y0, tw, th);
            planes::window(part, tw, th, 0, 0, tw, th)[(r - y0) * tw + c - x0] == planes::clamped(
                src,
                w,
                h,
                r,
                c,
            )
        }),
{
    let part = planes::window(src, w, h, x0, y0, tw, th);
    let (a, b) = (r - y0, c - x0);
    transform::lemma_at(a, b, tw);
    refs::lemma_inside(a, b, tw, th);
    assert(th * tw == tw * th) by (nonlinear_arith);
    planes::law_padding_keeps_samples(part, tw, th, tw, th, a, b);
    assert(part[a * tw + b] == planes::clamped(src, w, h, y0 + a, x0 + b));
}

/// What a tile without loss holds is its source.
#[verifier::spinoff_prover]
#[verifier::rlimit(60)]
proof fn lemma_tile_planes<Q: CuChooser>(job: PictureJob, q: Q, t: Tile, k: int)
    requires
        job.ok(),
        job.frame().wf(),
        job.lossless,
        job.count() > 1,
        0 <= k < job.count(),
        job.tile_coded(q, t, k),
    ensures
        ({
            let (x0, y0, w, h) = job.rect(k);
            let (sw, sh) = (job.yuv.chroma.spec_sub_w(), job.yuv.chroma.spec_sub_h());
            &&& t.out.y@ == planes::window(t.src.y@, w, h, 0, 0, w, h)
            &&& !(job.yuv.chroma is Monochrome) ==> {
                &&& t.out.cb@ == planes::window(
                    t.src.cb@,
                    w / sw,
                    h / sh,
                    0,
                    0,
                    w / sw,
                    h / sh,
                )
                &&& t.out.cr@ == planes::window(
                    t.src.cr@,
                    w / sw,
                    h / sh,
                    0,
                    0,
                    w / sw,
                    h / sh,
                )
            }
            &&& picture::is_part(job.yuv, (x0, y0, w, h), t.src)
        }),
{
    reveal(PictureJob::tile_coded);
    reveal(region::RegionLog::coded);
    job.lemma_rect(k);
    let (x0, y0, w, h) = job.rect(k);
    let f = region::frame_of(t.src, w as u32, h as u32);
    assert(f.w == w && f.h == h);
    let (sw, sh) = (job.yuv.chroma.spec_sub_w(), job.yuv.chroma.spec_sub_h());
    assert(sw == 1 || sw == 2);
    assert(sh == 1 || sh == 2);
    assert(f.src_cw == w / sw && f.src_ch == h / sh);
}

/// The luma samples of a picture without loss are those of its source, whether it
/// is coded in one piece or tile by tile.
pub proof fn law_lossless_luma_is_exact<Q: CuChooser>(
    job: PictureJob,
    q: Q,
    ts: Seq<Tile>,
    out: RegionOutput,
    r: int,
    c: int,
)
    requires
        job.ok(),
        job.lossless,
        job.coded(q, ts, out),
        0 <= r < job.yuv.height,
        0 <= c < job.yuv.width,
        r < job.frame().h,
        c < job.frame().w,
    ensures
        out.y@[r * job.frame().w + c] == job.yuv.y@[r * job.yuv.width + c],
{
    reveal(PictureJob::coded);
    let f = job.frame();
    let (sw, sh) = (job.yuv.width as int, job.yuv.height as int);
    if job.count() <= 1 {
        reveal(region::RegionLog::coded);
        planes::law_padding_keeps_samples(
            job.yuv.y@,
            sw,
            sh,
            f.w as int,
            f.h as int,
            r,
            c,
        );
    } else {
        region::lemma_frame_ok(job.yuv, job.width, job.height);
        let k = job.lemma_one_tile(r, c);
        let (x0, y0, w, h) = job.rect(k);
        job.lemma_rect(k);
        job.lemma_luma_of_tile(ts, job.count(), k, r, c);
        assert(job.tile_coded(q, ts[k], k));
        lemma_tile_planes(job, q, ts[k], k);
        lemma_window_sample(job.yuv.y@, sw, sh, x0, y0, w, h, r, c);
    }
}

/// The chroma samples of a picture without loss are those of its source.
pub proof fn law_lossless_chroma_is_exact<Q: CuChooser>(
    job: PictureJob,
    q: Q,
    ts: Seq<Tile>,
    out: RegionOutput,
    r: int,
    c: int,
)
    requires
        job.ok(),
        job.lossless,
        job.coded(q, ts, out),
        !(job.yuv.chroma is Monochrome),
        0 <= r < job.yuv.chroma_h(),
        0 <= c < job.yuv.chroma_w(),
        r < job.frame().ch,
        c < job.frame().cw,
    ensures
        out.cb@[r * job.frame().cw + c] == job.yuv.cb@[r * job.yuv.chroma_w() + c],
        out.cr@[r * job.frame().cw + c] == job.yuv.cr@[r * job.yuv.chroma_w() + c],
{
    reveal(PictureJob::coded);
    let f = job.frame();
    let (yuv, cw, ch) = (job.yuv, job.yuv.chroma_w(), job.yuv.chroma_h());
    let (fw, fh) = (f.cw as int, f.ch as int);
    region::lemma_frame_ok(job.yuv, job.width, job.height);
    if job.count() <= 1 {
        reveal(region::RegionLog::coded);
        planes::law_padding_keeps_samples(yuv.cb@, cw, ch, fw, fh, r, c);
        planes::law_padding_keeps_samples(yuv.cr@, cw, ch, fw, fh, r, c);
    } else {
        let (sw, sh) = (f.chroma.spec_sub_w(), f.chroma.spec_sub_h());
        f.lemma_chroma_dims();
        assert(0 <= r * sh < f.h && 0 <= c * sw < f.w) by {
            assert(sw == 1 || sw == 2);
            assert(sh == 1 || sh == 2);
            if sw == 1 {
                assert(c * 1 == c);
            } else {
                assert(c * 2 == 2 * c);
            }
            if sh == 1 {
                assert(r * 1 == r);
            } else {
                assert(r * 2 == 2 * r);
            }
        }
        let k = job.lemma_one_tile(r * sh, c * sw);
        let (x0, y0, w, h) = job.rect(k);
        job.lemma_rect(k);
        job.lemma_chroma_rect(k, r, c);
        job.lemma_chroma_of_tile(true, ts, job.count(), k, r, c);
        job.lemma_chroma_of_tile(false, ts, job.count(), k, r, c);
        assert(job.tile_coded(q, ts[k], k));
        lemma_tile_planes(job, q, ts[k], k);
        let (a, b, tw, th) = (x0 / sw, y0 / sh, w / sw, h / sh);
        lemma_window_sample(yuv.cb@, cw, ch, a, b, tw, th, r, c);
        lemma_window_sample(yuv.cr@, cw, ch, a, b, tw, th, r, c);
    }
}

/// Where a sample of a plane lies.
proof fn lemma_back(x: int, w: int, h: int)
    requires
        0 <= x < w * h,
        0 < w,
    ensures
        0 <= x / w < h,
        0 <= x % w < w,
        (x / w) * w + x % w == x,
{
    assert(0 <= x / w < h && 0 <= x % w < w && (x / w) * w + x % w == x) by (nonlinear_arith)
        requires
            0 <= x < w * h,
            0 < w,
    ;
}

/// Without loss the luma plane is the source, extended to whole coding tree units,
/// whatever the grid of tiles is.
pub proof fn law_lossless_luma_is_the_extended_source<Q: CuChooser>(
    job: PictureJob,
    q: Q,
    ts: Seq<Tile>,
    out: RegionOutput,
)
    requires
        job.ok(),
        job.lossless,
        job.coded(q, ts, out),
    ensures
        out.y@ == planes::window(
            job.yuv.y@,
            job.yuv.width as int,
            job.yuv.height as int,
            0,
            0,
            job.frame().w as int,
            job.frame().h as int,
        ),
{
    reveal(PictureJob::coded);
    let f = job.frame();
    let (sw, sh) = (job.yuv.width as int, job.yuv.height as int);
    let (fw, fh) = (f.w as int, f.h as int);
    region::lemma_frame_ok(job.yuv, job.width, job.height);
    if job.count() <= 1 {
        reveal(region::RegionLog::coded);
    } else {
        let all = planes::window(job.yuv.y@, sw, sh, 0, 0, fw, fh);
        job.lemma_luma_len(ts, job.count());
        assert forall|x: int| 0 <= x < fw * fh implies #[trigger] out.y@[x] == all[x] by {
            lemma_back(x, fw, fh);
            let (r, c) = (x / fw, x % fw);
            let k = job.lemma_one_tile(r, c);
            let (x0, y0, w, h) = job.rect(k);
            job.lemma_rect(k);
            job.lemma_luma_of_tile(ts, job.count(), k, r, c);
            assert(job.tile_coded(q, ts[k], k));
            lemma_tile_planes(job, q, ts[k], k);
            lemma_window_sample(job.yuv.y@, sw, sh, x0, y0, w, h, r, c);
        }
        assert(out.y@ =~= all);
    }
}

/// Without loss the chroma planes are those of the source, extended to whole coding
/// tree units, whatever the grid of tiles is.
#[verifier::spinoff_prover]
#[verifier::rlimit(60)]
pub proof fn law_lossless_chroma_is_the_extended_source<Q: CuChooser>(
    job: PictureJob,
    q: Q,
    ts: Seq<Tile>,
    out: RegionOutput,
)
    requires
        job.ok(),
        job.lossless,
        job.coded(q, ts, out),
        !(job.yuv.chroma is Monochrome),
    ensures
        ({
            let (cw, ch) = (job.yuv.chroma_w(), job.yuv.chroma_h());
            let (fw, fh) = (job.frame().cw as int, job.frame().ch as int);
            &&& out.cb@ == planes::window(job.yuv.cb@, cw, ch, 0, 0, fw, fh)
            &&& out.cr@ == planes::window(job.yuv.cr@, cw, ch, 0, 0, fw, fh)
        }),
{
    reveal(PictureJob::coded);
    let f = job.frame();
    let (cw, ch) = (job.yuv.chroma_w(), job.yuv.chroma_h());
    let (fw, fh) = (f.cw as int, f.ch as int);
    region::lemma_frame_ok(job.yuv, job.width, job.height);
    if job.count() <= 1 {
        reveal(region::RegionLog::coded);
    } else {
        let (cb, cr) = (
            planes::window(job.yuv.cb@, cw, ch, 0, 0, fw, fh),
            planes::window(job.yuv.cr@, cw, ch, 0, 0, fw, fh),
        );
        job.lemma_chroma_len(true, ts, job.count());
        job.lemma_chroma_len(false, ts, job.count());
        f.lemma_chroma_dims();
        assert forall|x: int| 0 <= x < fw * fh implies #[trigger] out.cb@[x] == cb[x] by {
            lemma_back(x, fw, fh);
            lemma_chroma_sample(job, q, ts, true, x / fw, x % fw);
        }
        assert forall|x: int| 0 <= x < fw * fh implies #[trigger] out.cr@[x] == cr[x] by {
            lemma_back(x, fw, fh);
            lemma_chroma_sample(job, q, ts, false, x / fw, x % fw);
        }
        assert(out.cb@ =~= cb);
        assert(out.cr@ =~= cr);
    }
}

/// A chroma sample of a picture in tiles without loss.
#[verifier::spinoff_prover]
#[verifier::rlimit(60)]
proof fn lemma_chroma_sample<Q: CuChooser>(
    job: PictureJob,
    q: Q,
    ts: Seq<Tile>,
    first: bool,
    r: int,
    c: int,
)
    requires
        job.ok(),
        job.frame().wf(),
        job.lossless,
        job.count() > 1,
        job.reached(q, ts, job.count()),
        !(job.yuv.chroma is Monochrome),
        0 <= r < job.frame().ch,
        0 <= c < job.frame().cw,
    ensures
        job.chroma(first, ts, job.count())[r * job.frame().cw + c] == planes::clamped(
            if first {
                job.yuv.cb@
            } else {
                job.yuv.cr@
            },
            job.yuv.chroma_w(),
            job.yuv.chroma_h(),
            r,
            c,
        ),
{
    let f = job.frame();
    let (yuv, cw, ch) = (job.yuv, job.yuv.chroma_w(), job.yuv.chroma_h());
    let (sw, sh) = (f.chroma.spec_sub_w(), f.chroma.spec_sub_h());
    f.lemma_chroma_dims();
    assert(0 <= r * sh < f.h && 0 <= c * sw < f.w) by {
        assert(sw == 1 || sw == 2);
        assert(sh == 1 || sh == 2);
        if sw == 1 {
            assert(c * 1 == c);
        } else {
            assert(c * 2 == 2 * c);
        }
        if sh == 1 {
            assert(r * 1 == r);
        } else {
            assert(r * 2 == 2 * r);
        }
    }
    let k = job.lemma_one_tile(r * sh, c * sw);
    let (x0, y0, w, h) = job.rect(k);
    job.lemma_rect(k);
    job.lemma_chroma_rect(k, r, c);
    job.lemma_chroma_of_tile(first, ts, job.count(), k, r, c);
    assert(job.tile_coded(q, ts[k], k));
    lemma_tile_planes(job, q, ts[k], k);
    let (a, b, tw, th) = (x0 / sw, y0 / sh, w / sw, h / sh);
    if first {
        lemma_window_sample(yuv.cb@, cw, ch, a, b, tw, th, r, c);
    } else {
        lemma_window_sample(yuv.cr@, cw, ch, a, b, tw, th, r, c);
    }
}

} // verus!
