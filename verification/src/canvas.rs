//! A picture while it is coded: its planes and the maps that later units look up.
use crate::cabac::bins;
use crate::cabac::coder;
use crate::cabac::coder::Coder;
use crate::cabac::contexts;
use crate::cabac::engine::CabacWriter;
use crate::commit::LevelChooser;
use crate::cu::{commit_cu, Cu};
use crate::cumaps;
use crate::cumaps::{
    fill_cu_depth, fill_cu_qp, mark_deblock_edges, split_cu_context, TuLayout,
};
use crate::cuplan::{CuChoice, CuPlace};
use crate::cuqp::AqCtuState;
use crate::cusyntax;
use crate::cusyntax::encode_cu_syntax;
use crate::frame::{Frame, Picture};
use crate::planes;
use crate::planes::{pad_plane, Yuv};
use crate::refs;
use crate::runs;
use crate::scratch::fill_resize;
use crate::tb;
use vstd::prelude::*;

verus! {

/// What a picture holds while it is coded.
pub struct Scene {
    pub y: Seq<u16>,
    pub cb: Seq<u16>,
    pub cr: Seq<u16>,
    pub modes: Seq<u8>,
    pub depth: Seq<u8>,
    pub edge_v: Seq<bool>,
    pub edge_h: Seq<bool>,
    pub qp: Seq<u8>,
}

/// How deep the coding units of a size are below the coding tree unit.
pub open spec fn depth_of(size: int) -> int {
    if size == 32 {
        1
    } else if size == 16 {
        2
    } else {
        3
    }
}

/// How the edges of the blocks of a unit are marked.
pub open spec fn layout_of(c: CuChoice) -> TuLayout {
    match c {
        CuChoice::Split { .. } => TuLayout::Split,
        CuChoice::Lossless { .. } => TuLayout::Recursive,
        _ => TuLayout::Unsplit,
    }
}

/// The cuts of the luma of a unit without loss.
pub open spec fn cuts_of(c: CuChoice) -> Seq<bool> {
    match c {
        CuChoice::Lossless { split, .. } => split@,
        _ => Seq::new(85, |i: int| false),
    }
}

/// A map of edges with those of a unit marked.
pub open spec fn marked(edges: Seq<bool>, vertical: bool, f: Frame, cu: Cu) -> Seq<bool> {
    let stride = f.w as int / 4;
    Seq::new(
        edges.len(),
        |x: int|
            edges[x] || cumaps::unit_marks(
                vertical,
                layout_of(cu.choice),
                cuts_of(cu.choice),
                cu.place.row as int,
                cu.place.col as int,
                cu.place.size as int,
                x / stride,
                x % stride,
            ),
    )
}

impl Scene {
    /// The scene after a unit, where the quantisation parameter that a decoder uses
    /// for it is `qp`.
    pub open spec fn after(self, f: Frame, cu: Cu, qp: u8) -> Scene {
        let (row, col, size) = (
            cu.place.row as int,
            cu.place.col as int,
            cu.place.size as int,
        );
        Scene {
            y: cu.luma_after(f, self.y),
            cb: cu.chroma_after(true, f, self.cb),
            cr: cu.chroma_after(false, f, self.cr),
            modes: cu.modes_after(f, self.modes),
            depth: cumaps::filled(
                self.depth,
                f.w as int / 8,
                row / 8,
                col / 8,
                size / 8,
                size / 8,
                depth_of(size) as u8,
            ),
            edge_v: marked(self.edge_v, true, f, cu),
            edge_h: marked(self.edge_h, false, f, cu),
            qp: cumaps::qp_filled(self.qp, f.w as int / 4, row, col, size, qp),
        }
    }

    /// The flags that lead to a unit: whether the squares that start with it are split.
    pub open spec fn split_bins(self, f: Frame, row: int, col: int, size: int) -> Seq<bins::Bin> {
        let stride = f.w as int / 8;
        let a = if row % 64 == 0 && col % 64 == 0 {
            seq![
                bins::coded(
                    contexts::SPLIT_CU_FLAG + (if col > 0 {
                        1int
                    } else {
                        0
                    }) + (if row > 0 {
                        1int
                    } else {
                        0
                    }),
                    true,
                ),
            ]
        } else {
            Seq::empty()
        };
        let b = if row % 32 == 0 && col % 32 == 0 {
            seq![
                bins::coded(
                    contexts::SPLIT_CU_FLAG + cumaps::split_context(
                        self.depth,
                        row,
                        col,
                        1,
                        stride,
                    ),
                    size < 32,
                ),
            ]
        } else {
            Seq::empty()
        };
        let c = if size < 32 && row % 16 == 0 && col % 16 == 0 {
            seq![
                bins::coded(
                    contexts::SPLIT_CU_FLAG + cumaps::split_context(
                        self.depth,
                        row,
                        col,
                        2,
                        stride,
                    ),
                    size < 16,
                ),
            ]
        } else {
            Seq::empty()
        };
        a + b + c
    }

    /// The bins of a unit with the flags that lead to it.
    pub open spec fn leaf_bins(self, f: Frame, cu: Cu, aq: AqCtuState) -> Seq<bins::Bin> {
        self.split_bins(f, cu.place.row as int, cu.place.col as int, cu.place.size as int)
            + cu.bins(f, self.modes, aq)
    }

    /// The planes.
    pub open spec fn planes(self) -> (Seq<u16>, Seq<u16>, Seq<u16>) {
        (self.y, self.cb, self.cr)
    }
}

/// A picture while it is coded.
pub struct Canvas {
    pub pic: Picture,
    pub modes: Vec<u8>,
    pub depth: Vec<u8>,
    pub edge_v: Vec<bool>,
    pub edge_h: Vec<bool>,
    /// The parameters of the 4x4 blocks; none where there is one for all.
    pub qp: Vec<u8>,
}

/// The scene before the first unit: the planes are the source, extended to whole
/// coding tree units.
pub open spec fn first_scene(f: Frame, src: Yuv, qp: u8, varied: bool) -> Scene {
    let n = (f.w as int / 4) * (f.h as int / 4);
    let (cw, ch) = (f.cw as int, f.ch as int);
    let (scw, sch) = (f.src_cw as int, f.src_ch as int);
    Scene {
        y: planes::window(
            src.y@,
            f.src_w as int,
            f.src_h as int,
            0,
            0,
            f.w as int,
            f.h as int,
        ),
        cb: if f.chroma is Monochrome {
            Seq::empty()
        } else {
            planes::window(src.cb@, scw, sch, 0, 0, cw, ch)
        },
        cr: if f.chroma is Monochrome {
            Seq::empty()
        } else {
            planes::window(src.cr@, scw, sch, 0, 0, cw, ch)
        },
        modes: Seq::new(n as nat, |i: int| 0u8),
        depth: Seq::new(((f.w as int / 8) * (f.h as int / 8)) as nat, |i: int| 0u8),
        edge_v: Seq::new(n as nat, |i: int| false),
        edge_h: Seq::new(n as nat, |i: int| false),
        qp: if varied {
            Seq::new(n as nat, |i: int| qp)
        } else {
            Seq::empty()
        },
    }
}

impl Canvas {
    pub open spec fn scene(self) -> Scene {
        Scene {
            y: self.pic.y@,
            cb: self.pic.cb@,
            cr: self.pic.cr@,
            modes: self.modes@,
            depth: self.depth@,
            edge_v: self.edge_v@,
            edge_h: self.edge_h@,
            qp: self.qp@,
        }
    }

    /// The planes and the maps have the dimensions.
    pub open spec fn ok(self, f: Frame) -> bool {
        let n = (f.w as int / 4) * (f.h as int / 4);
        &&& f.picture_ok(self.pic)
        &&& cusyntax::modes_ok(f, self.modes@)
        &&& self.depth@.len() == (f.w as int / 8) * (f.h as int / 8)
        &&& self.edge_v@.len() == n
        &&& self.edge_h@.len() == n
        &&& self.qp@.len() == 0 || self.qp@.len() == n
    }

    /// Starts a picture.
    pub fn new(f: &Frame, src: &Yuv, qp: u8, varied: bool) -> (r: Self)
        requires
            f.wf(),
            f.source_ok(*src),
            f.w * f.h <= usize::MAX,
        ensures
            r.ok(*f),
            r.scene() == first_scene(*f, *src, qp, varied),
    {
        let (w, h): (usize, usize) = (f.w, f.h);
        proof {
            f.lemma_chroma_dims();
            assert(f.cw * f.ch <= w * h) by (nonlinear_arith)
                requires
                    0 <= f.cw <= w,
                    0 <= f.ch <= h,
            ;
            assert((w as int / 4) * (h as int / 4) <= w * h) by (nonlinear_arith)
                requires
                    0 <= w as int / 4 <= w,
                    0 <= h as int / 4 <= h,
            ;
            assert((w as int / 8) * (h as int / 8) <= w * h) by (nonlinear_arith)
                requires
                    0 <= w as int / 8 <= w,
                    0 <= h as int / 8 <= h,
            ;
        }
        let y: Vec<u16> = pad_plane(&src.y, f.src_w, f.src_h, w, h);
        let (cb, cr): (Vec<u16>, Vec<u16>) = if f.chroma.is_monochrome() {
            (Vec::new(), Vec::new())
        } else {
            (
                pad_plane(&src.cb, f.src_cw, f.src_ch, f.cw, f.ch),
                pad_plane(&src.cr, f.src_cw, f.src_ch, f.cw, f.ch),
            )
        };
        let n: usize = (w / 4) * (h / 4);
        let mut modes: Vec<u8> = Vec::new();
        fill_resize(&mut modes, n, 0);
        let mut depth: Vec<u8> = Vec::new();
        fill_resize(&mut depth, (w / 8) * (h / 8), 0);
        let mut edge_v: Vec<bool> = Vec::new();
        fill_resize(&mut edge_v, n, false);
        let mut edge_h: Vec<bool> = Vec::new();
        fill_resize(&mut edge_h, n, false);
        let mut map: Vec<u8> = Vec::new();
        if varied {
            fill_resize(&mut map, n, qp);
        }
        proof {
            lemma_window_le(src.y@, f.src_w as int, f.src_h as int, w as int, h as int, f.max());
            if !(f.chroma is Monochrome) {
                let (cw, ch) = (f.cw as int, f.ch as int);
                let (scw, sch) = (f.src_cw as int, f.src_ch as int);
                lemma_window_le(src.cb@, scw, sch, cw, ch, f.max());
                lemma_window_le(src.cr@, scw, sch, cw, ch, f.max());
            }
        }
        Canvas { pic: Picture { y, cb, cr }, modes, depth, edge_v, edge_h, qp: map }
    }
}

/// Extending a plane makes its samples no larger.
proof fn lemma_window_le(src: Seq<u16>, w: int, h: int, dw: int, dh: int, max: int)
    requires
        1 <= w,
        1 <= h,
        src.len() >= w * h,
        1 <= dw,
        0 <= dh,
        tb::samples_le(src, max),
    ensures
        tb::samples_le(planes::window(src, w, h, 0, 0, dw, dh), max),
        planes::window(src, w, h, 0, 0, dw, dh).len() == dw * dh,
{
    let r = planes::window(src, w, h, 0, 0, dw, dh);
    assert(0 <= dw * dh) by (nonlinear_arith)
        requires
            0 <= dw,
            0 <= dh,
    ;
    assert forall|x: int| 0 <= x < r.len() implies #[trigger] r[x] <= max by {
        let (a, b) = (planes::min(x / dw, h - 1), planes::min(x % dw, w - 1));
        assert(0 <= x / dw && 0 <= x % dw) by (nonlinear_arith)
            requires
                0 <= x,
                1 <= dw,
        ;
        refs::lemma_inside(a, b, w, h);
        assert(h * w == w * h) by (nonlinear_arith);
    }
}

/// A unit lies inside the maps.
proof fn lemma_map_fits(f: Frame, p: CuPlace)
    requires
        f.wf(),
        p.ok(f),
    ensures
        ({
            let (row, col, size) = (p.row as int, p.col as int, p.size as int);
            let (n4, n8) = (
                (f.w as int / 4) * (f.h as int / 4),
                (f.w as int / 8) * (f.h as int / 8),
            );
            &&& cumaps::rect_fits(n8, f.w as int / 8, row / 8, col / 8, size / 8, size / 8)
            &&& cumaps::rect_fits(n4, f.w as int / 4, row / 4, col / 4, size / 4, size / 4)
            &&& cumaps::square_fits(n4, f.w as int / 4, row, col, size)
            &&& (row / 8 + 1) * (f.w as int / 8) <= n8
            &&& col / 8 < f.w as int / 8
        }),
{
    let (row, col, size) = (p.row as int, p.col as int, p.size as int);
    let (w4, h4, w8, h8) = (
        f.w as int / 4,
        f.h as int / 4,
        f.w as int / 8,
        f.h as int / 8,
    );
    assert(row % 8 == 0 && col % 8 == 0);
    let (a, b, c) = (row / 8 + size / 8, row / 4 + size / 4, (row + size) / 4);
    assert(a * w8 <= w8 * h8) by (nonlinear_arith)
        requires
            a <= h8,
            0 <= w8,
    ;
    assert(b * w4 <= w4 * h4) by (nonlinear_arith)
        requires
            b <= h4,
            0 <= w4,
    ;
    assert(c == b);
    let d = row / 8 + 1;
    assert(d * w8 <= w8 * h8) by (nonlinear_arith)
        requires
            d <= h8,
            0 <= w8,
    ;
}

/// Codes the flags that lead to a unit.
fn encode_split_flags<W: CabacWriter>(c: &mut Coder<W>, f: &Frame, cv: &Canvas, p: CuPlace)
    requires
        old(c).wf(),
        f.wf(),
        cv.ok(*f),
        p.ok(*f),
    ensures
        final(c).wf(),
        final(c).adds(
            *old(c),
            cv.scene().split_bins(*f, p.row as int, p.col as int, p.size as int),
        ),
{
    let (row, col, size): (usize, usize, usize) = (p.row, p.col, p.size);
    let stride: usize = f.w / 8;
    let ghost c0 = *c;
    proof {
        lemma_map_fits(*f, p);
        coder::lemma_nothing(c.said());
    }
    if row % 64 == 0 && col % 64 == 0 {
        let k: usize = (if col > 0 {
            1usize
        } else {
            0
        }) + (if row > 0 {
            1usize
        } else {
            0
        });
        c.split_cu_flag(k, true);
    }
    let ghost c1 = *c;
    proof {
        coder::lemma_nothing(c.said());
    }
    if row % 32 == 0 && col % 32 == 0 {
        let k: usize = split_cu_context(&cv.depth, row, col, 1, stride);
        c.split_cu_flag(k, size < 32);
    }
    let ghost c2 = *c;
    proof {
        coder::lemma_nothing(c.said());
    }
    if size < 32 && row % 16 == 0 && col % 16 == 0 {
        let k: usize = split_cu_context(&cv.depth, row, col, 2, stride);
        c.split_cu_flag(k, size < 16);
    }
    proof {
        let all = cv.scene().split_bins(*f, row as int, col as int, size as int);
        assert(c.said() =~= c0.said() + all);
    }
}

/// Codes a unit with the flags that lead to it, and records it in the maps.
#[verifier::spinoff_prover]
#[verifier::rlimit(60)]
pub fn encode_cu_leaf<W: CabacWriter, Q: LevelChooser>(
    c: &mut Coder<W>,
    f: &Frame,
    src: &Yuv,
    cv: &mut Canvas,
    place: CuPlace,
    choice: &CuChoice,
    q: &Q,
    aq: &mut AqCtuState,
    Ghost(lossless): Ghost<bool>,
) -> (cu: Cu)
    requires
        old(c).wf(),
        f.wf(),
        f.source_ok(*src),
        old(cv).ok(*f),
        place.ok(*f),
        choice.ok(place.size as int, lossless, f.chroma),
    ensures
        cu.place == place,
        cu.choice == *choice,
        cu.wf(*f, lossless),
        final(c).wf(),
        final(c).adds(*old(c), old(cv).scene().leaf_bins(*f, cu, *old(aq))),
        *final(aq) == cu.aq_after(*f, *old(aq)),
        final(cv).ok(*f),
        final(cv).scene() == old(cv).scene().after(*f, cu, final(aq).resolved()),
        cu.chosen(
            *f,
            *src,
            old(cv).scene().y,
            old(cv).scene().cb,
            old(cv).scene().cr,
            *q,
            bins::bank_after(
                old(c).bank(),
                old(cv).scene().split_bins(
                    *f,
                    place.row as int,
                    place.col as int,
                    place.size as int,
                ),
            ),
        ),
        lossless ==> cu.exact(
            *f,
            *src,
            old(cv).scene().planes(),
            final(cv).scene().planes(),
        ),
{
    let ghost c0 = *c;
    let ghost s0 = cv.scene();
    let (row, col, size): (usize, usize, usize) = (place.row, place.col, place.size);
    let ghost flags = s0.split_bins(*f, row as int, col as int, size as int);
    encode_split_flags(c, f, cv, place);
    proof {
        runs::lemma_bank_follows(c0, *c, flags);
        lemma_map_fits(*f, place);
    }
    let cu: Cu = commit_cu(
        f,
        src,
        &mut cv.pic,
        place,
        choice,
        q,
        &c.ctx,
        &c.ictx,
        Ghost(lossless),
    );
    encode_cu_syntax(c, f, &mut cv.modes, &cu, aq, Ghost(lossless));
    proof {
        coder::lemma_then(c0.said(), flags, cu.bins(*f, s0.modes, *old(aq)));
    }
    fill_cu_qp(&mut cv.qp, f.w / 4, row, col, size, aq.resolved_qp());
    let none: [bool; 85] = [false;85];
    match choice {
        CuChoice::Lossless { split, .. } => mark_deblock_edges(
            &mut cv.edge_v,
            &mut cv.edge_h,
            f.w / 4,
            row,
            col,
            size,
            TuLayout::Recursive,
            split,
        ),
        CuChoice::Split { .. } => mark_deblock_edges(
            &mut cv.edge_v,
            &mut cv.edge_h,
            f.w / 4,
            row,
            col,
            size,
            TuLayout::Split,
            &none,
        ),
        _ => mark_deblock_edges(
            &mut cv.edge_v,
            &mut cv.edge_h,
            f.w / 4,
            row,
            col,
            size,
            TuLayout::Unsplit,
            &none,
        ),
    }
    let depth: u8 = if size == 32 {
        1
    } else if size == 16 {
        2
    } else {
        3
    };
    fill_cu_depth(&mut cv.depth, row, col, size, depth, f.w / 8);
    proof {
        assert(none@ =~= Seq::new(85, |i: int| false));
        assert(cv.edge_v@ =~= marked(s0.edge_v, true, *f, cu));
        assert(cv.edge_h@ =~= marked(s0.edge_h, false, *f, cu));
    }
    cu
}

} // verus!
