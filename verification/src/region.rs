//! Regions of a picture that are coded on their own: a whole picture, or a tile.
use crate::cabac::coder;
use crate::cabac::contexts;
use crate::cabac::contexts::{ContextSet, IntraModeContexts};
use crate::cabac::engine::CtxModel;
use crate::canvas;
use crate::canvas::{Canvas, Scene};
use crate::ctu;
use crate::ctu::CuChooser;
use crate::deblock;
use crate::deblock::{deblock, deblock_with_qp_map, EdgeInfo};
use crate::frame::Frame;
use crate::params;
use crate::params::{activity_aq_enabled, round_up_64};
use crate::planes;
use crate::planes::Yuv;
use crate::strip;
use crate::strip::{code_strip, Strip};
use vstd::prelude::*;

verus! {

/// What coding a region gives: its substreams and its planes as a decoder has them.
pub struct RegionOutput {
    pub substreams: Vec<Vec<u8>>,
    pub y: Vec<u16>,
    pub cb: Vec<u16>,
    pub cr: Vec<u16>,
}

/// The dimensions of a region.
pub open spec fn frame_of(yuv: Yuv, width: u32, height: u32) -> Frame {
    let (sw, sh) = (yuv.chroma.spec_sub_w(), yuv.chroma.spec_sub_h());
    let (w, h) = (params::coded_size(width as int), params::coded_size(height as int));
    Frame {
        w: w as usize,
        h: h as usize,
        cw: (w / sw) as usize,
        ch: (h / sh) as usize,
        src_w: yuv.width as usize,
        src_h: yuv.height as usize,
        src_cw: yuv.chroma_w() as usize,
        src_ch: yuv.chroma_h() as usize,
        chroma: yuv.chroma,
        bit_depth: yuv.bit_depth,
    }
}

/// A source can be coded as a region: it has samples of its bit depth, and the
/// planes can be addressed.
pub open spec fn region_ok(yuv: Yuv, width: u32, height: u32) -> bool {
    &&& yuv.wf()
    &&& 1 <= width <= 0x1fff_ffc0
    &&& 1 <= height <= 0x1fff_ffc0
    &&& params::coded_size(width as int) * params::coded_size(height as int) <= usize::MAX
    &&& frame_of(yuv, width, height).source_ok(yuv)
}

/// Whole coding tree units have halves.
proof fn lemma_halves(n: int, s: int)
    requires
        n % 64 == 0,
        s == 1 || s == 2,
        0 <= n,
    ensures
        (n / s) * s == n,
        0 <= n / s <= n,
{
    if s == 1 {
        assert((n / 1) * 1 == n);
    } else {
        assert((n / 2) * 2 == n);
    }
}

/// Something has halves.
proof fn lemma_ceil(n: int, s: int)
    requires
        1 <= n,
        s == 1 || s == 2,
    ensures
        1 <= planes::ceil_div(n, s) <= n,
        planes::ceil_div(n, s) == (n + s - 1) / s,
{
    if s == 1 {
        assert((n + 1 - 1) / 1 == n);
    } else {
        assert((n + 2 - 1) / 2 >= 1);
    }
}

/// The dimensions of a region are in order.
pub proof fn lemma_frame_ok(yuv: Yuv, width: u32, height: u32)
    requires
        region_ok(yuv, width, height),
    ensures
        frame_of(yuv, width, height).wf(),
{
    let (sw, sh) = (yuv.chroma.spec_sub_w(), yuv.chroma.spec_sub_h());
    lemma_halves(params::coded_size(width as int), sw);
    lemma_halves(params::coded_size(height as int), sh);
    lemma_ceil(yuv.width as int, sw);
    lemma_ceil(yuv.height as int, sh);
}

/// Derives the dimensions of a region.
#[verifier::spinoff_prover]
pub fn frame_for(yuv: &Yuv, width: u32, height: u32) -> (f: Frame)
    requires
        region_ok(*yuv, width, height),
    ensures
        f == frame_of(*yuv, width, height),
        f.wf(),
        f.w * f.h <= usize::MAX,
        f.source_ok(*yuv),
{
    let (sw, sh): (usize, usize) = (yuv.chroma.sub_w(), yuv.chroma.sub_h());
    let w: usize = round_up_64(width) as usize;
    let h: usize = round_up_64(height) as usize;
    proof {
        lemma_frame_ok(*yuv, width, height);
        lemma_ceil(yuv.width as int, sw as int);
        lemma_ceil(yuv.height as int, sh as int);
    }
    Frame {
        w,
        h,
        cw: w / sw,
        ch: h / sh,
        src_w: yuv.width as usize,
        src_h: yuv.height as usize,
        src_cw: (yuv.width as usize + sw - 1) / sw,
        src_ch: (yuv.height as usize + sh - 1) / sh,
        chroma: yuv.chroma,
        bit_depth: yuv.bit_depth,
    }
}

/// The contexts at the start of a slice.
pub open spec fn first_bank(qp: u8) -> Seq<CtxModel> {
    contexts::islice_bank(qp) + seq![
        CtxModel::initial(184, qp),
        CtxModel::initial(184, qp),
        CtxModel::initial(63, qp),
    ]
}

/// How a region was coded.
pub struct RegionLog {
    pub qp: u8,
    pub lossless: bool,
    pub wpp: bool,
    pub last: bool,
    pub offsets: Seq<i8>,
    pub strips: Seq<Strip>,
}

impl RegionLog {
    /// Coding tree units of each substream.
    pub open spec fn per_strip(self, f: Frame) -> int {
        if self.wpp {
            strip::ctus_x(f)
        } else {
            strip::ctu_count(f)
        }
    }

    /// Number of substreams.
    pub open spec fn strip_count(self, f: Frame) -> int {
        if self.wpp {
            f.h as int / 64
        } else {
            1
        }
    }

    /// The scene before a substream.
    pub open spec fn scene_in(self, f: Frame, src: Yuv, j: int) -> Scene {
        if j <= 0 {
            canvas::first_scene(f, src, self.qp, self.offsets.len() > 0)
        } else {
            self.strips[j - 1].scene_after(f)
        }
    }

    /// The contexts before a substream: those after the second unit of the row above.
    pub open spec fn bank_in(self, f: Frame, j: int) -> Seq<CtxModel> {
        if j <= 0 || strip::ctus_x(f) < 2 {
            first_bank(self.qp)
        } else {
            self.strips[j - 1].sync_bank(f)
        }
    }

    /// Substream `j` goes on where the one before it ended, and its bytes are the
    /// code of its bins.
    pub open spec fn strip_ok<Q: CuChooser>(
        self,
        f: Frame,
        src: Yuv,
        q: Q,
        part: Seq<u8>,
        j: int,
    ) -> bool {
        let s = self.strips[j];
        &&& s == (Strip {
            scene: self.scene_in(f, src, j),
            bank: self.bank_in(f, j),
            qp: self.qp,
            lossless: self.lossless,
            offsets: self.offsets,
            start: j * self.per_strip(f),
            last: self.last,
            logs: s.logs,
        })
        &&& s.count() == self.per_strip(f)
        &&& s.linked(f, src, q)
        &&& coder::code_of(part, s.bank, s.all_bins(f))
    }

    /// The first `k` substreams are coded.
    pub open spec fn reached<Q: CuChooser>(
        self,
        f: Frame,
        src: Yuv,
        q: Q,
        parts: Seq<Vec<u8>>,
        k: int,
    ) -> bool {
        &&& self.strips.len() == k
        &&& parts.len() == k
        &&& forall|j: int| 0 <= j < k ==> self.strip_ok(f, src, q, (#[trigger] parts[j])@, j)
    }

    /// The scene before the planes are filtered.
    pub open spec fn unfiltered(self, f: Frame, src: Yuv) -> Scene {
        self.scene_in(f, src, self.strips.len() as int)
    }

    /// One substream more.
    pub open spec fn with(self, s: Strip) -> RegionLog {
        RegionLog { strips: self.strips.push(s), ..self }
    }

    /// A substream that goes on where the last one ended.
    proof fn lemma_grow<Q: CuChooser>(
        self,
        f: Frame,
        src: Yuv,
        q: Q,
        parts: Seq<Vec<u8>>,
        s: Strip,
        part: Vec<u8>,
        k: int,
    )
        requires
            0 <= k,
            self.reached(f, src, q, parts, k),
            self.with(s).strip_ok(f, src, q, part@, k),
        ensures
            self.with(s).reached(f, src, q, parts.push(part), k + 1),
    {
        let (next, all) = (self.with(s), parts.push(part));
        assert forall|j: int| 0 <= j < k + 1 implies next.strip_ok(
            f,
            src,
            q,
            (#[trigger] all[j])@,
            j,
        ) by {
            if j < k {
                assert(self.strip_ok(f, src, q, parts[j]@, j));
                assert(next.strips[j] == self.strips[j]);
                if j > 0 {
                    assert(next.strips[j - 1] == self.strips[j - 1]);
                }
            }
        }
    }
}

/// The edges of one orientation as filtering sees them.
pub open spec fn edge_info(f: Frame, s: Scene, qp: u8, vertical: bool) -> EdgeInfo {
    EdgeInfo {
        flags: if vertical {
            s.edge_v
        } else {
            s.edge_h
        },
        stride: f.w as int / 4,
        qp: qp as int,
        map: if s.qp.len() == 0 {
            None
        } else {
            Some(s.qp)
        },
        map_stride: if s.qp.len() == 0 {
            0
        } else {
            f.w as int / 4
        },
    }
}

/// The planes after filtering; without loss they are not filtered.
pub open spec fn finished(f: Frame, s: Scene, qp: u8, lossless: bool) -> (
    Seq<u16>,
    Seq<u16>,
    Seq<u16>,
) {
    if lossless {
        s.planes()
    } else {
        let (v, h) = (edge_info(f, s, qp, true), edge_info(f, s, qp, false));
        let bits = f.bit_depth.spec_bits();
        let (cw, ch) = (f.cw as int, f.ch as int);
        (
            deblock::luma_deblocked(s.y, f.w as int, f.h as int, bits, v, h),
            deblock::chroma_deblocked(s.cb, cw, ch, bits, f.chroma, v, h),
            deblock::chroma_deblocked(s.cr, cw, ch, bits, f.chroma, v, h),
        )
    }
}

/// Filters the planes of a region that is coded.
#[verifier::spinoff_prover]
#[verifier::rlimit(60)]
pub fn filter_region(f: &Frame, cv: &mut Canvas, qp: u8)
    requires
        f.wf(),
        old(cv).ok(*f),
    ensures
        final(cv).scene().planes() == finished(*f, old(cv).scene(), qp, false),
        final(cv).pic.y@.len() == old(cv).pic.y@.len(),
        final(cv).pic.cb@.len() == old(cv).pic.cb@.len(),
        final(cv).pic.cr@.len() == old(cv).pic.cr@.len(),
{
    proof {
        f.lemma_chroma_dims();
        let (w4, h4) = (f.w as int / 4, f.h as int / 4);
        assert(h4 * w4 == w4 * h4) by (nonlinear_arith);
        assert((f.h + 3) / 4 == h4);
        assert(f.cw * f.chroma.spec_sub_w() == f.w);
        assert(f.ch * f.chroma.spec_sub_h() == f.h);
    }
    let stride: usize = f.w / 4;
    if cv.qp.len() == 0 {
        deblock(
            cv.pic.y.as_mut_slice(),
            f.w,
            f.h,
            cv.pic.cb.as_mut_slice(),
            cv.pic.cr.as_mut_slice(),
            f.cw,
            f.ch,
            qp,
            f.bit_depth,
            f.chroma,
            &cv.edge_v,
            &cv.edge_h,
        );
    } else {
        deblock_with_qp_map(
            cv.pic.y.as_mut_slice(),
            f.w,
            f.h,
            cv.pic.cb.as_mut_slice(),
            cv.pic.cr.as_mut_slice(),
            f.cw,
            f.ch,
            qp,
            f.bit_depth,
            f.chroma,
            &cv.edge_v,
            &cv.edge_h,
            &cv.qp,
            stride,
        );
    }
}

/// Codes the units of a region: all its coding tree units as one substream, or a
/// substream for each row. The planes are not filtered yet.
#[verifier::spinoff_prover]
#[verifier::rlimit(60)]
pub fn encode_region_units<D: CuChooser>(
    f: &Frame,
    src: &Yuv,
    qp: u8,
    lossless: bool,
    wpp: bool,
    last: bool,
    offsets: &Vec<i8>,
    d: &D,
) -> (r: (Vec<Vec<u8>>, Canvas, Ghost<RegionLog>))
    requires
        f.wf(),
        f.source_ok(*src),
        f.w * f.h <= usize::MAX,
        qp <= 51,
    ensures
        r.1.ok(*f),
        ({
            let log = r.2@;
            &&& log == (RegionLog {
                qp,
                lossless,
                wpp,
                last,
                offsets: offsets@,
                strips: log.strips,
            })
            &&& log.reached(*f, *src, *d, r.0@, log.strip_count(*f))
            &&& r.1.scene() == log.unfiltered(*f, *src)
        }),
        lossless ==> ctu::at_source(*f, *src, r.1.scene()),
{
    let (cx, cy): (usize, usize) = (f.w / 64, f.h / 64);
    proof {
        assert(cx * cy <= f.w * f.h) by (nonlinear_arith)
            requires
                0 <= cx <= f.w,
                0 <= cy <= f.h,
        ;
    }
    let mut cv: Canvas = Canvas::new(f, src, qp, offsets.len() > 0);
    let rows: usize = if wpp {
        cy
    } else {
        1
    };
    let per: usize = if wpp {
        cx
    } else {
        cx * cy
    };
    proof {
        assert(1 <= cx * cy) by (nonlinear_arith)
            requires
                1 <= cx,
                1 <= cy,
        ;
        assert(rows * per == cx * cy) by (nonlinear_arith)
            requires
                (rows == 1 && per == cx * cy) || (rows == cy && per == cx),
        ;
    }
    let mut substreams: Vec<Vec<u8>> = Vec::new();
    let ghost start = RegionLog {
        qp,
        lossless,
        wpp,
        last,
        offsets: offsets@,
        strips: Seq::empty(),
    };
    let ghost mut log = start;
    let mut sync: Option<(ContextSet, IntraModeContexts)> = None;
    for j in 0..rows
        invariant
            f.wf(),
            f.source_ok(*src),
            cv.ok(*f),
            qp <= 51,
            cx == f.w as int / 64,
            cy == f.h as int / 64,
            cx * cy <= usize::MAX,
            rows == start.strip_count(*f),
            per == start.per_strip(*f),
            1 <= per,
            rows * per == cx * cy,
            start == (RegionLog {
                qp,
                lossless,
                wpp,
                last,
                offsets: offsets@,
                strips: Seq::empty(),
            }),
            log == (RegionLog { strips: log.strips, ..start }),
            log.reached(*f, *src, *d, substreams@, j as int),
            cv.scene() == log.scene_in(*f, *src, j as int),
            wpp ==> (sync is Some <==> (j > 0 && cx >= 2)),
            wpp ==> (sync matches Some(s) ==> {
                &&& s.0.wf()
                &&& s.1.wf()
                &&& coder::bank_of(s.0, s.1) == log.bank_in(*f, j as int)
            }),
            lossless ==> ctu::at_source(*f, *src, cv.scene()),
    {
        let (ctx, ictx): (ContextSet, IntraModeContexts) = match sync {
            Some(s) if wpp => s,
            _ => (ContextSet::init_islice(qp), IntraModeContexts::init_islice(qp)),
        };
        proof {
            if !(wpp && sync is Some) {
                assert(coder::bank_of(ctx, ictx) =~= first_bank(qp));
            }
            assert(j * per + per <= cx * cy && j * per >= 0) by (nonlinear_arith)
                requires
                    0 <= j < rows,
                    rows * per == cx * cy,
                    0 <= per,
            ;
        }
        let (part, next, s): (
            Vec<u8>,
            Option<(ContextSet, IntraModeContexts)>,
            Ghost<Strip>,
        ) = code_strip(
            f,
            src,
            &mut cv,
            ctx,
            ictx,
            j * per,
            per,
            qp,
            lossless,
            offsets,
            last,
            d,
        );
        proof {
            let before = log;
            log = before.with(s@);
            assert(log.strip_ok(*f, *src, *d, part@, j as int));
            before.lemma_grow(*f, *src, *d, substreams@, s@, part, j as int);
        }
        sync = next;
        substreams.push(part);
    }
    (substreams, cv, Ghost(log))
}

/// Codes a region and filters its planes.
#[verifier::spinoff_prover]
#[verifier::rlimit(60)]
pub fn encode_region_pass<D: CuChooser>(
    f: &Frame,
    src: &Yuv,
    qp: u8,
    lossless: bool,
    wpp: bool,
    last: bool,
    offsets: &Vec<i8>,
    d: &D,
) -> (r: (RegionOutput, Ghost<RegionLog>))
    requires
        f.wf(),
        f.source_ok(*src),
        f.w * f.h <= usize::MAX,
        qp <= 51,
    ensures
        r.0.y@.len() == f.w * f.h,
        !(f.chroma is Monochrome) ==> r.0.cb@.len() == f.cw * f.ch && r.0.cr@.len() == f.cw * f.ch,
        ({
            let log = r.1@;
            let out = r.0;
            &&& log == (RegionLog {
                qp,
                lossless,
                wpp,
                last,
                offsets: offsets@,
                strips: log.strips,
            })
            &&& log.reached(*f, *src, *d, out.substreams@, log.strip_count(*f))
            &&& (out.y@, out.cb@, out.cr@) == finished(
                *f,
                log.unfiltered(*f, *src),
                qp,
                lossless,
            )
            &&& lossless ==> (out.y@, out.cb@, out.cr@) == canvas::first_scene(
                *f,
                *src,
                qp,
                false,
            ).planes()
        }),
{
    let (substreams, canvas, log): (
        Vec<Vec<u8>>,
        Canvas,
        Ghost<RegionLog>,
    ) = encode_region_units(f, src, qp, lossless, wpp, last, offsets, d);
    let mut cv: Canvas = canvas;
    if !lossless {
        filter_region(f, &mut cv, qp);
    }
    (RegionOutput { substreams, y: cv.pic.y, cb: cv.pic.cb, cr: cv.pic.cr }, log)
}

impl RegionLog {
    /// The region was coded as asked, into these substreams and planes. Where
    /// parameters may differ between coding tree units the offsets are decided on;
    /// elsewhere there are none.
    #[verifier::opaque]
    pub open spec fn coded<Q: CuChooser>(
        self,
        f: Frame,
        src: Yuv,
        q: Q,
        out: RegionOutput,
        qp: u8,
        lossless: bool,
        wpp: bool,
        last: bool,
    ) -> bool {
        &&& self == (RegionLog {
            qp,
            lossless,
            wpp,
            last,
            offsets: self.offsets,
            strips: self.strips,
        })
        &&& if params::aq_on(qp as int, lossless) {
            q.may_offset(f, src, qp, self.offsets)
        } else {
            self.offsets.len() == 0
        }
        &&& self.reached(f, src, q, out.substreams@, self.strip_count(f))
        &&& (out.y@, out.cb@, out.cr@) == finished(f, self.unfiltered(f, src), qp, lossless)
        &&& lossless ==> (out.y@, out.cb@, out.cr@) == canvas::first_scene(
            f,
            src,
            qp,
            false,
        ).planes()
    }
}

/// Codes a source as a region of the given dimensions.
#[verifier::spinoff_prover]
#[verifier::rlimit(60)]
pub fn encode_region_substreams<D: CuChooser>(
    yuv: &Yuv,
    width: u32,
    height: u32,
    qp: u8,
    lossless: bool,
    wpp: bool,
    last: bool,
    d: &D,
) -> (r: (RegionOutput, Ghost<RegionLog>))
    requires
        region_ok(*yuv, width, height),
        qp <= 51,
    ensures
        r.1@.coded(frame_of(*yuv, width, height), *yuv, *d, r.0, qp, lossless, wpp, last),
        ({
            let f = frame_of(*yuv, width, height);
            &&& r.0.y@.len() == f.w * f.h
            &&& !(f.chroma is Monochrome) ==> {
                &&& r.0.cb@.len() == f.cw * f.ch
                &&& r.0.cr@.len() == f.cw * f.ch
            }
        }),
{
    let f: Frame = frame_for(yuv, width, height);
    let offsets: Vec<i8> = if activity_aq_enabled(qp, lossless) {
        d.qp_offsets(&f, yuv, qp)
    } else {
        Vec::new()
    };
    proof {
        reveal(RegionLog::coded);
    }
    encode_region_pass(&f, yuv, qp, lossless, wpp, last, &offsets, d)
}

} // verus!
