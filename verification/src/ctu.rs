//! Coding tree units.
use crate::cabac::bins;
use crate::cabac::coder;
use crate::cabac::coder::Coder;
use crate::cabac::contexts::{ContextSet, IntraModeContexts};
use crate::cabac::engine::{CabacWriter, CtxModel};
use crate::canvas;
use crate::canvas::{encode_cu_leaf, Canvas, Scene};
use crate::commit::{LevelChooser, PlainLevels};
use crate::cu::Cu;
use crate::cuplan::{CuChoice, CuPlace};
use crate::cuqp;
use crate::cuqp::{target_qp, AqCtuState};
use crate::frame::Frame;
use crate::lossless;
use crate::params;
use crate::params::activity_aq_enabled;
use crate::planes;
use crate::planes::Yuv;
use crate::runs;
use vstd::prelude::*;

verus! {

/// How a square of thirty-two samples is cut into coding units: not at all, or into
/// quarters, each of which may be cut again.
#[derive(Clone, Copy)]
pub struct Cu32Plan {
    pub split_32: bool,
    pub split_16: [bool; 4],
}

/// Makes the decisions of an encoder.
pub trait CuChooser: LevelChooser {
    /// Whether these offsets may be decided on.
    open spec fn may_offset(&self, f: Frame, src: Yuv, qp: u8, offsets: Seq<i8>) -> bool {
        true
    }

    /// Whether a square may be cut like this, where `s` is the scene before it and
    /// `bank` the contexts.
    open spec fn may_plan(
        &self,
        f: Frame,
        src: Yuv,
        s: Scene,
        bank: Seq<CtxModel>,
        place: CuPlace,
        lossless: bool,
        plan: Cu32Plan,
    ) -> bool {
        true
    }

    /// Whether a unit may be coded like this, where `s` is the scene before it and
    /// `bank` the contexts.
    open spec fn may_pick(
        &self,
        f: Frame,
        src: Yuv,
        s: Scene,
        bank: Seq<CtxModel>,
        place: CuPlace,
        lossless: bool,
        choice: CuChoice,
    ) -> bool {
        true
    }

    /// Decides how far the quantisation parameters of the coding tree units of a
    /// region are from that of the slice.
    fn qp_offsets(&self, f: &Frame, src: &Yuv, qp: u8) -> (r: Vec<i8>)
        requires
            f.wf(),
            f.source_ok(*src),
        ensures
            self.may_offset(*f, *src, qp, r@),
    ;

    /// Decides how a square is cut.
    fn plan(
        &self,
        f: &Frame,
        src: &Yuv,
        cv: &Canvas,
        ctx: &ContextSet,
        ictx: &IntraModeContexts,
        place: CuPlace,
        lossless: bool,
    ) -> (r: Cu32Plan)
        requires
            f.wf(),
            f.source_ok(*src),
            cv.ok(*f),
            ctx.wf(),
            ictx.wf(),
            place.ok(*f),
            place.size == 32,
        ensures
            self.may_plan(
                *f,
                *src,
                cv.scene(),
                coder::bank_of(*ctx, *ictx),
                place,
                lossless,
                r,
            ),
    ;

    /// Decides how a unit is coded.
    fn pick_cu(
        &self,
        f: &Frame,
        src: &Yuv,
        cv: &Canvas,
        ctx: &ContextSet,
        ictx: &IntraModeContexts,
        place: CuPlace,
        lossless: bool,
    ) -> (r: CuChoice)
        requires
            f.wf(),
            f.source_ok(*src),
            cv.ok(*f),
            ctx.wf(),
            ictx.wf(),
            place.ok(*f),
        ensures
            r.ok(place.size as int, lossless, f.chroma),
            self.may_pick(
                *f,
                *src,
                cv.scene(),
                coder::bank_of(*ctx, *ictx),
                place,
                lossless,
                r,
            ),
    ;
}

/// The largest units, each predicted by its mean, and one parameter for all.
impl CuChooser for PlainLevels {
    open spec fn may_offset(&self, f: Frame, src: Yuv, qp: u8, offsets: Seq<i8>) -> bool {
        offsets.len() == 0
    }

    open spec fn may_plan(
        &self,
        f: Frame,
        src: Yuv,
        s: Scene,
        bank: Seq<CtxModel>,
        place: CuPlace,
        lossless: bool,
        plan: Cu32Plan,
    ) -> bool {
        &&& !plan.split_32
        &&& forall|i: int| 0 <= i < 4 ==> !#[trigger] plan.split_16@[i]
    }

    open spec fn may_pick(
        &self,
        f: Frame,
        src: Yuv,
        s: Scene,
        bank: Seq<CtxModel>,
        place: CuPlace,
        lossless: bool,
        choice: CuChoice,
    ) -> bool {
        match choice {
            CuChoice::Whole { mode, chroma } => !lossless && mode == 1 && chroma == 4,
            CuChoice::Lossless { mode, chroma, split } => {
                &&& lossless
                &&& mode == 1
                &&& chroma == 4
                &&& forall|i: int| 0 <= i < 85 ==> !#[trigger] split@[i]
            },
            _ => false,
        }
    }

    fn qp_offsets(&self, f: &Frame, src: &Yuv, qp: u8) -> (r: Vec<i8>) {
        Vec::new()
    }

    fn plan(
        &self,
        f: &Frame,
        src: &Yuv,
        cv: &Canvas,
        ctx: &ContextSet,
        ictx: &IntraModeContexts,
        place: CuPlace,
        lossless: bool,
    ) -> (r: Cu32Plan) {
        Cu32Plan { split_32: false, split_16: [false;4] }
    }

    fn pick_cu(
        &self,
        f: &Frame,
        src: &Yuv,
        cv: &Canvas,
        ctx: &ContextSet,
        ictx: &IntraModeContexts,
        place: CuPlace,
        lossless: bool,
    ) -> (r: CuChoice) {
        if lossless {
            CuChoice::Lossless { mode: 1, chroma: 4, split: [false;85] }
        } else {
            CuChoice::Whole { mode: 1, chroma: 4 }
        }
    }
}

/// Where a unit is and how large.
pub open spec fn spot(cu: Cu) -> (int, int, int) {
    (cu.place.row as int, cu.place.col as int, cu.place.size as int)
}

/// The first `k` units of a square of sixteen samples that is cut in four.
pub open spec fn eights_spots(row: int, col: int, k: int) -> Seq<(int, int, int)>
    decreases k,
{
    if k <= 0 {
        Seq::empty()
    } else {
        eights_spots(row, col, k - 1) + seq![
            (row + ((k - 1) / 2) * 8, col + ((k - 1) % 2) * 8, 8int),
        ]
    }
}

/// The units of a square of sixteen samples.
pub open spec fn quad_spots(row: int, col: int, split: bool) -> Seq<(int, int, int)> {
    if split {
        eights_spots(row, col, 4)
    } else {
        seq![(row, col, 16int)]
    }
}

/// The units of the first `k` quarters of a square of thirty-two samples.
pub open spec fn quads_spots(row: int, col: int, split: Seq<bool>, k: int) -> Seq<(int, int, int)>
    decreases k,
{
    if k <= 0 {
        Seq::empty()
    } else {
        quads_spots(row, col, split, k - 1) + quad_spots(
            row + ((k - 1) / 2) * 16,
            col + ((k - 1) % 2) * 16,
            split[k - 1],
        )
    }
}

/// The units of a square of thirty-two samples, in coding order.
pub open spec fn plan_spots(row: int, col: int, plan: Cu32Plan) -> Seq<(int, int, int)> {
    if plan.split_32 {
        quads_spots(row, col, plan.split_16@, 4)
    } else {
        seq![(row, col, 32int)]
    }
}

/// The units of the first `k` quarters of a coding tree unit.
pub open spec fn ctu_spots(row: int, col: int, plans: Seq<Cu32Plan>, k: int) -> Seq<
    (int, int, int),
>
    decreases k,
{
    if k <= 0 {
        Seq::empty()
    } else {
        ctu_spots(row, col, plans, k - 1) + plan_spots(
            row + ((k - 1) / 2) * 32,
            col + ((k - 1) % 2) * 32,
            plans[k - 1],
        )
    }
}

/// The state of the quantisation parameter after the first `k` units.
pub open spec fn aq_at(f: Frame, aq: AqCtuState, cus: Seq<Cu>, k: int) -> AqCtuState
    decreases k,
{
    if k <= 0 {
        aq
    } else {
        cus[k - 1].aq_after(f, aq_at(f, aq, cus, k - 1))
    }
}

/// The scene after the first `k` units.
pub open spec fn scene_at(f: Frame, s: Scene, aq: AqCtuState, cus: Seq<Cu>, k: int) -> Scene
    decreases k,
{
    if k <= 0 {
        s
    } else {
        scene_at(f, s, aq, cus, k - 1).after(
            f,
            cus[k - 1],
            aq_at(f, aq, cus, k).resolved(),
        )
    }
}

/// The bins of the first `k` units.
pub open spec fn bins_at(f: Frame, s: Scene, aq: AqCtuState, cus: Seq<Cu>, k: int) -> Seq<bins::Bin>
    decreases k,
{
    if k <= 0 {
        Seq::empty()
    } else {
        bins_at(f, s, aq, cus, k - 1) + scene_at(f, s, aq, cus, k - 1).leaf_bins(
            f,
            cus[k - 1],
            aq_at(f, aq, cus, k - 1),
        )
    }
}

/// The planes are those of the source, extended to whole coding tree units.
pub open spec fn at_source(f: Frame, src: Yuv, s: Scene) -> bool {
    s.planes() == canvas::first_scene(f, src, 0, false).planes()
}

/// The units of a coding tree unit that are coded so far, and what coding started
/// from.
pub struct CtuRun {
    pub scene: Scene,
    pub aq: AqCtuState,
    pub said: Seq<bins::Bin>,
    pub bank: Seq<CtxModel>,
    pub cus: Seq<Cu>,
    pub lossless: bool,
}

impl CtuRun {
    pub open spec fn count(self) -> int {
        self.cus.len() as int
    }

    /// Where the units are.
    pub open spec fn spots(self) -> Seq<(int, int, int)> {
        Seq::new(self.cus.len(), |i: int| spot(self.cus[i]))
    }

    /// The scene now.
    pub open spec fn now(self, f: Frame) -> Scene {
        scene_at(f, self.scene, self.aq, self.cus, self.count())
    }

    /// The state of the quantisation parameter now.
    pub open spec fn aq_now(self, f: Frame) -> AqCtuState {
        aq_at(f, self.aq, self.cus, self.count())
    }

    /// The bins of the units.
    pub open spec fn bins(self, f: Frame) -> Seq<bins::Bin> {
        bins_at(f, self.scene, self.aq, self.cus, self.count())
    }

    /// The contexts after the first `i` units.
    pub open spec fn bank_at(self, f: Frame, i: int) -> Seq<CtxModel> {
        bins::bank_after(self.bank, bins_at(f, self.scene, self.aq, self.cus, i))
    }

    /// Unit `i` is coded as may be decided after the units before it, and has blocks
    /// that fit, with levels that may be chosen.
    pub open spec fn sound_at<Q: CuChooser>(self, f: Frame, src: Yuv, q: Q, i: int) -> bool {
        let s = scene_at(f, self.scene, self.aq, self.cus, i);
        let cu = self.cus[i];
        let (row, col, size) = spot(cu);
        &&& cu.wf(f, self.lossless)
        &&& cu.place.qp == self.aq.target
        &&& q.may_pick(f, src, s, self.bank_at(f, i), cu.place, self.lossless, cu.choice)
        &&& cu.chosen(
            f,
            src,
            s.y,
            s.cb,
            s.cr,
            q,
            bins::bank_after(
                self.bank,
                bins_at(f, self.scene, self.aq, self.cus, i) + s.split_bins(f, row, col, size),
            ),
        )
    }

    pub open spec fn sound<Q: CuChooser>(self, f: Frame, src: Yuv, q: Q) -> bool {
        forall|i: int| 0 <= i < self.count() ==> #[trigger] self.sound_at(f, src, q, i)
    }

    /// A coder and a canvas are where the run is.
    pub open spec fn holds<W: CabacWriter>(
        self,
        f: Frame,
        c: Coder<W>,
        cv: Canvas,
        aq: AqCtuState,
    ) -> bool {
        &&& c.said() == self.said + self.bins(f)
        &&& cv.scene() == self.now(f)
        &&& aq == self.aq_now(f)
    }

    /// A run is where a coder and a canvas are, and everything in it is in order.
    #[verifier::opaque]
    pub open spec fn going<W: CabacWriter, Q: CuChooser>(
        self,
        f: Frame,
        src: Yuv,
        q: Q,
        c: Coder<W>,
        cv: Canvas,
        aq: AqCtuState,
    ) -> bool {
        &&& c.wf()
        &&& cv.ok(f)
        &&& self.holds(f, c, cv, aq)
        &&& self.sound(f, src, q)
        &&& c.bank() == bins::bank_after(self.bank, self.bins(f))
        &&& self.lossless ==> at_source(f, src, cv.scene())
    }

    /// The run went on from another by units at some places.
    #[verifier::opaque]
    pub open spec fn extends(self, before: CtuRun, more: Seq<(int, int, int)>) -> bool {
        &&& self == (CtuRun { cus: self.cus, ..before })
        &&& before.cus.is_prefix_of(self.cus)
        &&& self.spots() == before.spots() + more
    }

    /// One unit more.
    pub open spec fn with(self, cu: Cu) -> CtuRun {
        CtuRun { cus: self.cus.push(cu), ..self }
    }

    /// The units before one do not depend on it.
    proof fn lemma_with(self, f: Frame, cu: Cu, k: int)
        requires
            0 <= k <= self.count(),
        ensures
            aq_at(f, self.aq, self.with(cu).cus, k) == aq_at(f, self.aq, self.cus, k),
            scene_at(f, self.scene, self.aq, self.with(cu).cus, k) == scene_at(
                f,
                self.scene,
                self.aq,
                self.cus,
                k,
            ),
            bins_at(f, self.scene, self.aq, self.with(cu).cus, k) == bins_at(
                f,
                self.scene,
                self.aq,
                self.cus,
                k,
            ),
        decreases k,
    {
        if k > 0 {
            self.lemma_with(f, cu, k - 1);
        }
    }
}

/// What happened up to a unit does not depend on those after it.
proof fn lemma_prefix(f: Frame, s: Scene, aq: AqCtuState, a: Seq<Cu>, b: Seq<Cu>, k: int)
    requires
        0 <= k <= a.len(),
        a.is_prefix_of(b),
    ensures
        aq_at(f, aq, a, k) == aq_at(f, aq, b, k),
        scene_at(f, s, aq, a, k) == scene_at(f, s, aq, b, k),
        bins_at(f, s, aq, a, k) == bins_at(f, s, aq, b, k),
    decreases k,
{
    if k > 0 {
        lemma_prefix(f, s, aq, a, b, k - 1);
        assert(a[k - 1] == b[k - 1]);
    }
}

/// In a square where the planes are the source, putting the source changes nothing.
proof fn lemma_stays_source(f: Frame, src: Yuv, cu: Cu, before: Scene, after: Scene)
    requires
        f.wf(),
        cu.place.ok(f),
        at_source(f, src, before),
        cu.exact(f, src, before.planes(), after.planes()),
        f.chroma is Monochrome ==> after.cb == before.cb && after.cr == before.cr,
    ensures
        at_source(f, src, after),
{
    reveal(lossless::chroma_sourced);
    assert(after.y =~= before.y);
    if !(f.chroma is Monochrome) {
        assert(after.cb =~= before.cb);
        assert(after.cr =~= before.cr);
    }
}

/// Codes one unit of a coding tree unit.
#[verifier::spinoff_prover]
#[verifier::rlimit(60)]
fn code_leaf<W: CabacWriter, D: CuChooser>(
    c: &mut Coder<W>,
    f: &Frame,
    src: &Yuv,
    cv: &mut Canvas,
    place: CuPlace,
    d: &D,
    aq: &mut AqCtuState,
    lossless: bool,
    Ghost(run): Ghost<CtuRun>,
) -> (r: Ghost<CtuRun>)
    requires
        f.wf(),
        f.source_ok(*src),
        place.ok(*f),
        place.qp == run.aq.target,
        run.lossless == lossless,
        run.going(*f, *src, *d, *old(c), *old(cv), *old(aq)),
    ensures
        r@.extends(run, seq![(place.row as int, place.col as int, place.size as int)]),
        r@.going(*f, *src, *d, *final(c), *final(cv), *final(aq)),
        final(c).log0 == old(c).log0,
        final(c).bank0 == old(c).bank0,
{
    proof {
        reveal(CtuRun::going);
        reveal(CtuRun::extends);
    }
    let choice: CuChoice = d.pick_cu(f, src, cv, &c.ctx, &c.ictx, place, lossless);
    let ghost c0 = *c;
    let ghost s0 = cv.scene();
    let ghost aq0 = *aq;
    let cu: Cu = encode_cu_leaf(c, f, src, cv, place, &choice, d, aq, Ghost(lossless));
    let ghost more = s0.leaf_bins(*f, cu, aq0);
    let ghost next = run.with(cu);
    proof {
        let k = run.count();
        run.lemma_with(*f, cu, k);
        coder::lemma_then(run.said, run.bins(*f), more);
        runs::lemma_bank_follows(c0, *c, more);
        bins::lemma_symbols_add(run.bank, run.bins(*f), more);
        let flags = s0.split_bins(*f, place.row as int, place.col as int, place.size as int);
        bins::lemma_symbols_add(run.bank, run.bins(*f), flags);
        assert(next.spots() =~= run.spots() + seq![spot(cu)]);
        assert(next.sound_at(*f, *src, *d, k));
        assert forall|i: int| 0 <= i < next.count() implies #[trigger] next.sound_at(
            *f,
            *src,
            *d,
            i,
        ) by {
            if i < k {
                run.lemma_with(*f, cu, i);
                assert(run.sound_at(*f, *src, *d, i));
            }
        }
        if lossless {
            lemma_stays_source(*f, *src, cu, s0, cv.scene());
        }
    }
    Ghost(next)
}

/// What a run says of the coder and the canvas.
proof fn lemma_going<W: CabacWriter, Q: CuChooser>(
    run: CtuRun,
    f: Frame,
    src: Yuv,
    q: Q,
    c: Coder<W>,
    cv: Canvas,
    aq: AqCtuState,
)
    requires
        run.going(f, src, q, c, cv, aq),
    ensures
        c.wf(),
        cv.ok(f),
        cv.scene() == run.now(f),
        c.bank() == run.bank_at(f, run.count()),
{
    reveal(CtuRun::going);
}

/// A run keeps what it started from.
proof fn lemma_same_start(a: CtuRun, b: CtuRun, x: Seq<(int, int, int)>)
    requires
        b.extends(a, x),
    ensures
        b.aq == a.aq,
        b.lossless == a.lossless,
        b.scene == a.scene,
        b.said == a.said,
        b.bank == a.bank,
        b.spots() == a.spots() + x,
{
    reveal(CtuRun::extends);
}

/// Going on twice is going on.
proof fn lemma_extends(
    a: CtuRun,
    b: CtuRun,
    c: CtuRun,
    x: Seq<(int, int, int)>,
    y: Seq<(int, int, int)>,
)
    requires
        b.extends(a, x),
        c.extends(b, y),
    ensures
        c.extends(a, x + y),
{
    reveal(CtuRun::extends);
    assert((a.spots() + x) + y =~= a.spots() + (x + y));
}

/// Going on by nothing.
proof fn lemma_extends_none(a: CtuRun)
    ensures
        a.extends(a, Seq::empty()),
{
    reveal(CtuRun::extends);
    assert(a.spots() + Seq::<(int, int, int)>::empty() =~= a.spots());
}

/// The quarters of a square lie where the square does.
proof fn lemma_quarter_ok(f: Frame, place: CuPlace, child: CuPlace, i: int)
    requires
        place.ok(f),
        0 <= i < 4,
        (place.size == 32 && child.size == 16) || (place.size == 16 && child.size == 8),
        child.qp == place.qp,
        child.row == place.row + (i / 2) * child.size,
        child.col == place.col + (i % 2) * child.size,
    ensures
        child.ok(f),
{
    lemma_quarter_corner(place.row as int, child.row as int, child.size as int, i / 2);
    lemma_quarter_corner(place.col as int, child.col as int, child.size as int, i % 2);
}

/// A quarter of a side starts where the side does or in its middle.
proof fn lemma_quarter_corner(start: int, at: int, half: int, k: int)
    requires
        0 <= k <= 1,
        at == start + k * half,
        half == 16 || half == 8,
    ensures
        half == 16 && start % 32 == 0 ==> at % 16 == 0,
        half == 8 && start % 16 == 0 ==> at % 8 == 0,
        start <= at <= start + half,
{
    assert(k * half == (if k == 1 {
        half
    } else {
        0
    })) by (nonlinear_arith)
        requires
            0 <= k <= 1,
    ;
}

/// Codes unit `i` of a square of sixteen samples that is cut in four.
#[verifier::spinoff_prover]
#[verifier::rlimit(60)]
fn code_eighth<W: CabacWriter, D: CuChooser>(
    c: &mut Coder<W>,
    f: &Frame,
    src: &Yuv,
    cv: &mut Canvas,
    place: CuPlace,
    i: usize,
    d: &D,
    aq: &mut AqCtuState,
    lossless: bool,
    Ghost(run): Ghost<CtuRun>,
    Ghost(now): Ghost<CtuRun>,
) -> (r: Ghost<CtuRun>)
    requires
        f.wf(),
        f.source_ok(*src),
        place.ok(*f),
        place.size == 16,
        i < 4,
        place.qp == run.aq.target,
        run.lossless == lossless,
        now.extends(run, eights_spots(place.row as int, place.col as int, i as int)),
        now.going(*f, *src, *d, *old(c), *old(cv), *old(aq)),
    ensures
        r@.extends(run, eights_spots(place.row as int, place.col as int, i + 1)),
        r@.going(*f, *src, *d, *final(c), *final(cv), *final(aq)),
        final(c).log0 == old(c).log0,
        final(c).bank0 == old(c).bank0,
{
    let p: CuPlace = CuPlace {
        row: place.row + (i / 2) * 8,
        col: place.col + (i % 2) * 8,
        size: 8,
        qp: place.qp,
    };
    let ghost spots = eights_spots(place.row as int, place.col as int, i as int);
    proof {
        lemma_quarter_ok(*f, place, p, i as int);
        lemma_same_start(run, now, spots);
    }
    let next: Ghost<CtuRun> = code_leaf(c, f, src, cv, p, d, aq, lossless, Ghost(now));
    proof {
        lemma_extends(run, now, next@, spots, seq![(p.row as int, p.col as int, 8int)]);
    }
    next
}

/// Codes a square of sixteen samples, as one unit or as four.
#[verifier::spinoff_prover]
#[verifier::rlimit(60)]
fn code_quad<W: CabacWriter, D: CuChooser>(
    c: &mut Coder<W>,
    f: &Frame,
    src: &Yuv,
    cv: &mut Canvas,
    place: CuPlace,
    split: bool,
    d: &D,
    aq: &mut AqCtuState,
    lossless: bool,
    Ghost(run): Ghost<CtuRun>,
) -> (r: Ghost<CtuRun>)
    requires
        f.wf(),
        f.source_ok(*src),
        place.ok(*f),
        place.size == 16,
        place.qp == run.aq.target,
        run.lossless == lossless,
        run.going(*f, *src, *d, *old(c), *old(cv), *old(aq)),
    ensures
        r@.extends(run, quad_spots(place.row as int, place.col as int, split)),
        r@.going(*f, *src, *d, *final(c), *final(cv), *final(aq)),
        final(c).log0 == old(c).log0,
        final(c).bank0 == old(c).bank0,
{
    if !split {
        return code_leaf(c, f, src, cv, place, d, aq, lossless, Ghost(run));
    }
    proof {
        lemma_extends_none(run);
    }
    let g: Ghost<CtuRun> = Ghost(run);
    let r: Ghost<CtuRun> = Ghost(run);
    let r: Ghost<CtuRun> = code_eighth(c, f, src, cv, place, 0, d, aq, lossless, g, r);
    let r: Ghost<CtuRun> = code_eighth(c, f, src, cv, place, 1, d, aq, lossless, g, r);
    let r: Ghost<CtuRun> = code_eighth(c, f, src, cv, place, 2, d, aq, lossless, g, r);
    code_eighth(c, f, src, cv, place, 3, d, aq, lossless, g, r)
}

/// Codes quarter `i` of a square of thirty-two samples.
#[verifier::spinoff_prover]
#[verifier::rlimit(60)]
fn code_quarter<W: CabacWriter, D: CuChooser>(
    c: &mut Coder<W>,
    f: &Frame,
    src: &Yuv,
    cv: &mut Canvas,
    place: CuPlace,
    plan: Cu32Plan,
    i: usize,
    d: &D,
    aq: &mut AqCtuState,
    lossless: bool,
    Ghost(run): Ghost<CtuRun>,
    Ghost(now): Ghost<CtuRun>,
) -> (r: Ghost<CtuRun>)
    requires
        f.wf(),
        f.source_ok(*src),
        place.ok(*f),
        place.size == 32,
        i < 4,
        place.qp == run.aq.target,
        run.lossless == lossless,
        now.extends(
            run,
            quads_spots(place.row as int, place.col as int, plan.split_16@, i as int),
        ),
        now.going(*f, *src, *d, *old(c), *old(cv), *old(aq)),
    ensures
        r@.extends(
            run,
            quads_spots(place.row as int, place.col as int, plan.split_16@, i + 1),
        ),
        r@.going(*f, *src, *d, *final(c), *final(cv), *final(aq)),
        final(c).log0 == old(c).log0,
        final(c).bank0 == old(c).bank0,
{
    let p: CuPlace = CuPlace {
        row: place.row + (i / 2) * 16,
        col: place.col + (i % 2) * 16,
        size: 16,
        qp: place.qp,
    };
    let ghost spots = quads_spots(place.row as int, place.col as int, plan.split_16@, i as int);
    proof {
        lemma_quarter_ok(*f, place, p, i as int);
        lemma_same_start(run, now, spots);
    }
    let split: bool = plan.split_16[i];
    let next: Ghost<CtuRun> = code_quad(c, f, src, cv, p, split, d, aq, lossless, Ghost(now));
    proof {
        lemma_extends(run, now, next@, spots, quad_spots(p.row as int, p.col as int, split));
    }
    next
}

/// Codes a square of thirty-two samples that is cut as a plan says.
#[verifier::spinoff_prover]
#[verifier::rlimit(60)]
fn commit_cu32_plan<W: CabacWriter, D: CuChooser>(
    c: &mut Coder<W>,
    f: &Frame,
    src: &Yuv,
    cv: &mut Canvas,
    place: CuPlace,
    plan: Cu32Plan,
    d: &D,
    aq: &mut AqCtuState,
    lossless: bool,
    Ghost(run): Ghost<CtuRun>,
) -> (r: Ghost<CtuRun>)
    requires
        f.wf(),
        f.source_ok(*src),
        place.ok(*f),
        place.size == 32,
        place.qp == run.aq.target,
        run.lossless == lossless,
        run.going(*f, *src, *d, *old(c), *old(cv), *old(aq)),
    ensures
        r@.extends(run, plan_spots(place.row as int, place.col as int, plan)),
        r@.going(*f, *src, *d, *final(c), *final(cv), *final(aq)),
        final(c).log0 == old(c).log0,
        final(c).bank0 == old(c).bank0,
{
    if !plan.split_32 {
        return code_leaf(c, f, src, cv, place, d, aq, lossless, Ghost(run));
    }
    proof {
        lemma_extends_none(run);
    }
    let g: Ghost<CtuRun> = Ghost(run);
    let r: Ghost<CtuRun> = Ghost(run);
    let r: Ghost<CtuRun> = code_quarter(c, f, src, cv, place, plan, 0, d, aq, lossless, g, r);
    let r: Ghost<CtuRun> = code_quarter(c, f, src, cv, place, plan, 1, d, aq, lossless, g, r);
    let r: Ghost<CtuRun> = code_quarter(c, f, src, cv, place, plan, 2, d, aq, lossless, g, r);
    code_quarter(c, f, src, cv, place, plan, 3, d, aq, lossless, g, r)
}

/// The state of the quantisation parameter at the start of a coding tree unit.
pub open spec fn aq_start(qp: u8, lossless: bool, offset: i8, predictor: u8) -> AqCtuState {
    AqCtuState {
        enabled: params::aq_on(qp as int, lossless),
        predictor,
        target: cuqp::target_of(qp as int, offset as int, lossless) as u8,
        coded: false,
    }
}

/// The units of a coding tree unit, and how its quarters are cut.
pub struct CtuLog {
    pub run: CtuRun,
    pub plans: Seq<Cu32Plan>,
}

/// Quarter `i` of a coding tree unit.
pub open spec fn quarter_place(row: int, col: int, qp: u8, i: int) -> CuPlace {
    CuPlace {
        row: (row + (i / 2) * 32) as usize,
        col: (col + (i % 2) * 32) as usize,
        size: 32,
        qp,
    }
}

/// The cut of a quarter may be decided on after the first `k` units of a run.
pub open spec fn planned<Q: CuChooser>(
    run: CtuRun,
    f: Frame,
    src: Yuv,
    q: Q,
    k: int,
    place: CuPlace,
    plan: Cu32Plan,
) -> bool {
    q.may_plan(
        f,
        src,
        scene_at(f, run.scene, run.aq, run.cus, k),
        run.bank_at(f, k),
        place,
        run.lossless,
        plan,
    )
}

impl CtuLog {
    /// Quarter `i` is cut as may be decided after the units of those before it.
    pub open spec fn planned_at<Q: CuChooser>(
        self,
        f: Frame,
        src: Yuv,
        q: Q,
        row: int,
        col: int,
        i: int,
    ) -> bool {
        planned(
            self.run,
            f,
            src,
            q,
            ctu_spots(row, col, self.plans, i).len() as int,
            quarter_place(row, col, self.run.aq.target, i),
            self.plans[i],
        )
    }

    /// The units are those of a coding tree unit, and everything is in order.
    pub open spec fn done<Q: CuChooser>(
        self,
        f: Frame,
        src: Yuv,
        q: Q,
        row: int,
        col: int,
    ) -> bool {
        &&& self.plans.len() == 4
        &&& self.run.spots() == ctu_spots(row, col, self.plans, 4)
        &&& forall|i: int|
            0 <= i < 4 ==> #[trigger] self.planned_at(f, src, q, row, col, i)
        &&& self.run.sound(f, src, q)
    }
}

/// Codes quarter `i` of a coding tree unit.
#[verifier::spinoff_prover]
#[verifier::rlimit(60)]
fn code_square<W: CabacWriter, D: CuChooser>(
    c: &mut Coder<W>,
    f: &Frame,
    src: &Yuv,
    cv: &mut Canvas,
    p: CuPlace,
    d: &D,
    aq: &mut AqCtuState,
    lossless: bool,
    i: usize,
    Ghost(g): Ghost<(CtuRun, CtuRun, Seq<Cu32Plan>, int, int)>,
) -> (r: (Cu32Plan, Ghost<CtuRun>))
    requires
        f.wf(),
        f.source_ok(*src),
        p.ok(*f),
        p.size == 32,
        i < 4,
        p.qp == g.0.aq.target,
        p.row == g.3 + (i as int / 2) * 32,
        p.col == g.4 + (i as int % 2) * 32,
        g.0.lossless == lossless,
        g.2.len() == i,
        g.1.extends(g.0, ctu_spots(g.3, g.4, g.2, i as int)),
        g.1.going(*f, *src, *d, *old(c), *old(cv), *old(aq)),
    ensures
        r.1@.extends(g.0, ctu_spots(g.3, g.4, g.2.push(r.0), i + 1)),
        r.1@.extends(g.1, plan_spots(p.row as int, p.col as int, r.0)),
        planned(g.1, *f, *src, *d, g.1.count(), p, r.0),
        r.1@.going(*f, *src, *d, *final(c), *final(cv), *final(aq)),
        final(c).log0 == old(c).log0,
        final(c).bank0 == old(c).bank0,
{
    let ghost spots = ctu_spots(g.3, g.4, g.2, i as int);
    proof {
        lemma_going(g.1, *f, *src, *d, *c, *cv, *aq);
        lemma_same_start(g.0, g.1, spots);
    }
    let plan: Cu32Plan = d.plan(f, src, cv, &c.ctx, &c.ictx, p, lossless);
    let next: Ghost<CtuRun> = commit_cu32_plan(
        c,
        f,
        src,
        cv,
        p,
        plan,
        d,
        aq,
        lossless,
        Ghost(g.1),
    );
    proof {
        let plans = g.2.push(plan);
        lemma_spots_ext(g.3, g.4, g.2, plans, i as int);
        lemma_extends(g.0, g.1, next@, spots, plan_spots(p.row as int, p.col as int, plan));
    }
    (plan, next)
}

/// One more quarter is cut as may be decided.
proof fn lemma_more_planned<Q: CuChooser>(
    run: CtuRun,
    now: CtuRun,
    next: CtuRun,
    plans: Seq<Cu32Plan>,
    plan: Cu32Plan,
    f: Frame,
    src: Yuv,
    q: Q,
    row: int,
    col: int,
    p: CuPlace,
)
    requires
        run.cus.len() == 0,
        plans.len() < 4,
        now.extends(run, ctu_spots(row, col, plans, plans.len() as int)),
        next.extends(now, plan_spots(p.row as int, p.col as int, plan)),
        p == quarter_place(row, col, run.aq.target, plans.len() as int),
        planned(now, f, src, q, now.count(), p, plan),
        forall|j: int|
            0 <= j < plans.len() ==> #[trigger] (CtuLog { run: now, plans }).planned_at(
                f,
                src,
                q,
                row,
                col,
                j,
            ),
    ensures
        forall|j: int|
            0 <= j <= plans.len() ==> #[trigger] (CtuLog {
                run: next,
                plans: plans.push(plan),
            }).planned_at(f, src, q, row, col, j),
{
    let all = plans.push(plan);
    let (a, b) = (CtuLog { run: now, plans }, CtuLog { run: next, plans: all });
    let n = plans.len() as int;
    reveal(CtuRun::extends);
    assert(now.spots().len() == now.count());
    assert(run.spots().len() == 0);
    assert(now.spots() =~= ctu_spots(row, col, plans, n));
    assert forall|j: int| 0 <= j <= n implies #[trigger] b.planned_at(f, src, q, row, col, j) by {
        lemma_spots_ext(row, col, plans, all, j);
        lemma_spots_grow(row, col, plans, j, n);
        let k = ctu_spots(row, col, plans, j).len() as int;
        lemma_prefix(f, now.scene, now.aq, now.cus, next.cus, k);
        if j < n {
            assert(a.planned_at(f, src, q, row, col, j));
        }
    }
}

/// The first quarters have no more units than all of them.
proof fn lemma_spots_grow(row: int, col: int, plans: Seq<Cu32Plan>, j: int, k: int)
    requires
        0 <= j <= k,
    ensures
        ctu_spots(row, col, plans, j).len() <= ctu_spots(row, col, plans, k).len(),
    decreases k,
{
    if j < k {
        lemma_spots_grow(row, col, plans, j, k - 1);
    }
}

/// Codes a coding tree unit: decides how its quarters are cut, and codes their units.
#[verifier::spinoff_prover]
#[verifier::rlimit(60)]
pub fn code_one_ctu<W: CabacWriter, D: CuChooser>(
    c: &mut Coder<W>,
    f: &Frame,
    src: &Yuv,
    cv: &mut Canvas,
    ctu_row: usize,
    ctu_col: usize,
    qp: u8,
    lossless: bool,
    aq_predictor: u8,
    aq_offset: i8,
    d: &D,
) -> (r: (u8, Ghost<CtuLog>))
    requires
        old(c).wf(),
        f.wf(),
        f.source_ok(*src),
        old(cv).ok(*f),
        ctu_row < f.h as int / 64,
        ctu_col < f.w as int / 64,
        qp <= 51,
        lossless ==> at_source(*f, *src, old(cv).scene()),
    ensures
        final(c).wf(),
        final(cv).ok(*f),
        ({
            let log = r.1@;
            let run = log.run;
            &&& run.scene == old(cv).scene()
            &&& run.aq == aq_start(qp, lossless, aq_offset, aq_predictor)
            &&& run.bank == old(c).bank()
            &&& run.lossless == lossless
            &&& log.done(*f, *src, *d, ctu_row * 64, ctu_col * 64)
            &&& final(c).adds(*old(c), run.bins(*f))
            &&& final(cv).scene() == run.now(*f)
            &&& r.0 == run.aq_now(*f).resolved()
        }),
        lossless ==> at_source(*f, *src, final(cv).scene()),
{
    let target: u8 = target_qp(qp, aq_offset, lossless);
    let mut aq: AqCtuState = AqCtuState {
        enabled: activity_aq_enabled(qp, lossless),
        predictor: aq_predictor,
        target,
        coded: false,
    };
    let ghost run = CtuRun {
        scene: cv.scene(),
        aq,
        said: c.said(),
        bank: c.bank(),
        cus: Seq::empty(),
        lossless,
    };
    let ghost mut now = run;
    let ghost mut plans: Seq<Cu32Plan> = Seq::empty();
    let ghost (y, x) = (ctu_row * 64, ctu_col * 64);
    let (row0, col0): (usize, usize) = (ctu_row * 64, ctu_col * 64);
    proof {
        lemma_extends_none(run);
        coder::lemma_nothing(c.said());
        reveal(CtuRun::going);
    }
    for i in 0..4usize
        invariant
            f.wf(),
            f.source_ok(*src),
            ctu_row < f.h as int / 64,
            ctu_col < f.w as int / 64,
            row0 == ctu_row * 64,
            col0 == ctu_col * 64,
            (y, x) == (row0 as int, col0 as int),
            target <= 51,
            target == run.aq.target,
            run.lossless == lossless,
            plans.len() == i,
            now.extends(run, ctu_spots(y, x, plans, i as int)),
            now.going(*f, *src, *d, *c, *cv, aq),
            run.cus.len() == 0,
            forall|j: int|
                0 <= j < i ==> #[trigger] (CtuLog { run: now, plans }).planned_at(
                    *f,
                    *src,
                    *d,
                    y,
                    x,
                    j,
                ),
            c.log0 == old(c).log0,
            c.bank0 == old(c).bank0,
    {
        let p: CuPlace = CuPlace {
            row: row0 + (i / 2) * 32,
            col: col0 + (i % 2) * 32,
            size: 32,
            qp: target,
        };
        let next: (Cu32Plan, Ghost<CtuRun>) = code_square(
            c,
            f,
            src,
            cv,
            p,
            d,
            &mut aq,
            lossless,
            i,
            Ghost((run, now, plans, y, x)),
        );
        proof {
            lemma_more_planned(run, now, next.1@, plans, next.0, *f, *src, *d, y, x, p);
            plans = plans.push(next.0);
            now = next.1@;
        }
    }
    proof {
        lemma_same_start(run, now, ctu_spots(y, x, plans, 4));
        assert(run.spots() + ctu_spots(y, x, plans, 4) =~= ctu_spots(y, x, plans, 4));
    }
    (aq.resolved_qp(), Ghost(CtuLog { run: now, plans }))
}

/// Only the plans that are used count.
proof fn lemma_spots_ext(row: int, col: int, a: Seq<Cu32Plan>, b: Seq<Cu32Plan>, k: int)
    requires
        forall|i: int| 0 <= i < k ==> a[i] == b[i],
    ensures
        ctu_spots(row, col, a, k) == ctu_spots(row, col, b, k),
    decreases k,
{
    if k > 0 {
        lemma_spots_ext(row, col, a, b, k - 1);
    }
}

/// A unit has a sample.
pub open spec fn spot_has(s: (int, int, int), row: int, col: int) -> bool {
    s.0 <= row < s.0 + s.2 && s.1 <= col < s.1 + s.2
}

/// How many units have a sample.
pub open spec fn spots_with(spots: Seq<(int, int, int)>, row: int, col: int) -> int
    decreases spots.len(),
{
    if spots.len() == 0 {
        0
    } else {
        spots_with(spots.drop_last(), row, col) + if spot_has(spots.last(), row, col) {
            1int
        } else {
            0
        }
    }
}

proof fn lemma_spots_add(
    a: Seq<(int, int, int)>,
    b: Seq<(int, int, int)>,
    row: int,
    col: int,
)
    ensures
        spots_with(a + b, row, col) == spots_with(a, row, col) + spots_with(b, row, col),
    decreases b.len(),
{
    if b.len() == 0 {
        assert(a + b =~= a);
    } else {
        assert((a + b).drop_last() =~= a + b.drop_last());
        lemma_spots_add(a, b.drop_last(), row, col);
    }
}

/// Whether a sample lies in a square of a side.
pub open spec fn inside(row: int, col: int, side: int, r: int, c: int) -> int {
    if row <= r < row + side && col <= c < col + side {
        1
    } else {
        0
    }
}

proof fn lemma_one_spot(s: (int, int, int), r: int, c: int)
    ensures
        spots_with(seq![s], r, c) == inside(s.0, s.1, s.2, r, c),
{
    reveal_with_fuel(spots_with, 2);
    assert(seq![s].drop_last() =~= Seq::empty());
}

proof fn lemma_eights_step(row: int, col: int, k: int, r: int, c: int)
    requires
        0 <= k,
    ensures
        spots_with(eights_spots(row, col, k + 1), r, c) == spots_with(
            eights_spots(row, col, k),
            r,
            c,
        ) + inside(row + (k / 2) * 8, col + (k % 2) * 8, 8, r, c),
{
    let s = (row + (k / 2) * 8, col + (k % 2) * 8, 8int);
    lemma_spots_add(eights_spots(row, col, k), seq![s], r, c);
    lemma_one_spot(s, r, c);
}

proof fn lemma_quad_spots(row: int, col: int, split: bool, r: int, c: int)
    ensures
        spots_with(quad_spots(row, col, split), r, c) == inside(row, col, 16, r, c),
{
    if split {
        assert(spots_with(eights_spots(row, col, 0), r, c) == 0);
        lemma_eights_step(row, col, 0, r, c);
        lemma_eights_step(row, col, 1, r, c);
        lemma_eights_step(row, col, 2, r, c);
        lemma_eights_step(row, col, 3, r, c);
    } else {
        lemma_one_spot((row, col, 16int), r, c);
    }
}

proof fn lemma_quads_step(row: int, col: int, p: Seq<bool>, k: int, r: int, c: int)
    requires
        0 <= k,
    ensures
        spots_with(quads_spots(row, col, p, k + 1), r, c) == spots_with(
            quads_spots(row, col, p, k),
            r,
            c,
        ) + inside(row + (k / 2) * 16, col + (k % 2) * 16, 16, r, c),
{
    let (y, x) = (row + (k / 2) * 16, col + (k % 2) * 16);
    lemma_spots_add(quads_spots(row, col, p, k), quad_spots(y, x, p[k]), r, c);
    lemma_quad_spots(y, x, p[k], r, c);
}

proof fn lemma_plan_spots(row: int, col: int, plan: Cu32Plan, r: int, c: int)
    ensures
        spots_with(plan_spots(row, col, plan), r, c) == inside(row, col, 32, r, c),
{
    if plan.split_32 {
        let p = plan.split_16@;
        assert(spots_with(quads_spots(row, col, p, 0), r, c) == 0);
        lemma_quads_step(row, col, p, 0, r, c);
        lemma_quads_step(row, col, p, 1, r, c);
        lemma_quads_step(row, col, p, 2, r, c);
        lemma_quads_step(row, col, p, 3, r, c);
    } else {
        lemma_one_spot((row, col, 32int), r, c);
    }
}

proof fn lemma_plans_step(row: int, col: int, plans: Seq<Cu32Plan>, k: int, r: int, c: int)
    requires
        0 <= k,
    ensures
        spots_with(ctu_spots(row, col, plans, k + 1), r, c) == spots_with(
            ctu_spots(row, col, plans, k),
            r,
            c,
        ) + inside(row + (k / 2) * 32, col + (k % 2) * 32, 32, r, c),
{
    let (y, x) = (row + (k / 2) * 32, col + (k % 2) * 32);
    lemma_spots_add(ctu_spots(row, col, plans, k), plan_spots(y, x, plans[k]), r, c);
    lemma_plan_spots(y, x, plans[k], r, c);
}

/// However its quarters are cut, every sample of a coding tree unit belongs to one
/// coding unit, and no sample outside it to any.
pub proof fn law_units_tile_the_tree_unit(
    row: int,
    col: int,
    plans: Seq<Cu32Plan>,
    r: int,
    c: int,
)
    requires
        plans.len() == 4,
    ensures
        spots_with(ctu_spots(row, col, plans, 4), r, c) == inside(row, col, 64, r, c),
{
    assert(spots_with(ctu_spots(row, col, plans, 0), r, c) == 0);
    lemma_plans_step(row, col, plans, 0, r, c);
    lemma_plans_step(row, col, plans, 1, r, c);
    lemma_plans_step(row, col, plans, 2, r, c);
    lemma_plans_step(row, col, plans, 3, r, c);
}

} // verus!
