//! Runs of coding tree units that are coded one after another.
use crate::cabac::bins;
use crate::cabac::coder;
use crate::cabac::coder::Coder;
use crate::cabac::contexts::{ContextSet, IntraModeContexts};
use crate::cabac::engine::{CabacEncoder, CtxModel};
use crate::canvas::{Canvas, Scene};
use crate::ctu;
use crate::ctu::{code_one_ctu, CtuLog, CuChooser};
use crate::frame::Frame;
use crate::planes::Yuv;
use crate::runs;
use vstd::prelude::*;

verus! {

/// The offset of a coding tree unit; those beyond the list have none.
pub open spec fn offset_at(offsets: Seq<i8>, k: int) -> i8 {
    if 0 <= k < offsets.len() {
        offsets[k]
    } else {
        0
    }
}

/// Coding tree units in a row across a picture.
pub open spec fn ctus_x(f: Frame) -> int {
    f.w as int / 64
}

/// Coding tree units of a picture.
pub open spec fn ctu_count(f: Frame) -> int {
    (f.w as int / 64) * (f.h as int / 64)
}

/// A run of coding tree units in the order of rows: what coding started from, and
/// the units.
pub struct Strip {
    pub scene: Scene,
    pub bank: Seq<CtxModel>,
    pub qp: u8,
    pub lossless: bool,
    pub offsets: Seq<i8>,
    /// Number of the first unit.
    pub start: int,
    /// The picture ends with the last of its units.
    pub last: bool,
    pub logs: Seq<CtuLog>,
}

impl Strip {
    pub open spec fn count(self) -> int {
        self.logs.len() as int
    }

    /// What the parameter of unit `i` is predicted from.
    pub open spec fn predictor(self, f: Frame, i: int) -> u8 {
        if i <= 0 {
            self.qp
        } else {
            self.logs[i - 1].run.aq_now(f).resolved()
        }
    }

    /// The scene before unit `i`.
    pub open spec fn scene_before(self, f: Frame, i: int) -> Scene {
        if i <= 0 {
            self.scene
        } else {
            self.logs[i - 1].run.now(f)
        }
    }

    /// The picture ends with unit `i`.
    pub open spec fn ends_at(self, f: Frame, i: int) -> bool {
        self.last && self.start + i == ctu_count(f) - 1
    }

    /// The bins of the first `k` units, each with the flag that tells whether it is
    /// the last.
    pub open spec fn bins(self, f: Frame, k: int) -> Seq<bins::Bin>
        decreases k,
    {
        if k <= 0 {
            Seq::empty()
        } else {
            self.bins(f, k - 1) + self.logs[k - 1].run.bins(f) + seq![
                bins::end(self.ends_at(f, k - 1)),
            ]
        }
    }

    /// Unit `i` goes on where the one before it ended.
    pub open spec fn linked_at<Q: CuChooser>(self, f: Frame, src: Yuv, q: Q, i: int) -> bool {
        let log = self.logs[i];
        let k = self.start + i;
        &&& log.run.scene == self.scene_before(f, i)
        &&& log.run.aq == ctu::aq_start(
            self.qp,
            self.lossless,
            offset_at(self.offsets, k),
            self.predictor(f, i),
        )
        &&& log.run.bank == bins::bank_after(self.bank, self.bins(f, i))
        &&& log.run.lossless == self.lossless
        &&& log.done(f, src, q, (k / ctus_x(f)) * 64, (k % ctus_x(f)) * 64)
    }

    pub open spec fn linked<Q: CuChooser>(self, f: Frame, src: Yuv, q: Q) -> bool {
        forall|i: int| 0 <= i < self.count() ==> #[trigger] self.linked_at(f, src, q, i)
    }

    /// The scene after the units.
    pub open spec fn scene_after(self, f: Frame) -> Scene {
        self.scene_before(f, self.count())
    }

    /// All bins: a run that does not end the picture is closed by a flag of its own.
    pub open spec fn all_bins(self, f: Frame) -> Seq<bins::Bin> {
        if self.count() > 0 && self.ends_at(f, self.count() - 1) {
            self.bins(f, self.count())
        } else {
            self.bins(f, self.count()) + seq![bins::end(true)]
        }
    }

    /// The contexts after the second unit, from which the row below starts.
    pub open spec fn sync_bank(self, f: Frame) -> Seq<CtxModel> {
        bins::bank_after(self.bank, self.bins(f, 1) + self.logs[1].run.bins(f))
    }

    /// The run with one unit more.
    pub open spec fn with(self, log: CtuLog) -> Strip {
        Strip { logs: self.logs.push(log), ..self }
    }

    /// What came before does not depend on a unit.
    proof fn lemma_with(self, f: Frame, log: CtuLog, k: int)
        requires
            0 <= k <= self.count(),
        ensures
            self.with(log).bins(f, k) == self.bins(f, k),
            self.with(log).scene_before(f, k) == self.scene_before(f, k),
            self.with(log).predictor(f, k) == self.predictor(f, k),
        decreases k,
    {
        if k > 0 {
            self.lemma_with(f, log, k - 1);
        }
    }

    /// A unit that goes on where the run ended makes a longer run.
    proof fn lemma_grow<Q: CuChooser>(self, f: Frame, src: Yuv, q: Q, log: CtuLog)
        requires
            self.linked(f, src, q),
            self.with(log).linked_at(f, src, q, self.count()),
        ensures
            self.with(log).linked(f, src, q),
    {
        let next = self.with(log);
        assert forall|i: int| 0 <= i < next.count() implies #[trigger] next.linked_at(
            f,
            src,
            q,
            i,
        ) by {
            if i < self.count() {
                self.lemma_with(f, log, i);
                assert(self.linked_at(f, src, q, i));
            }
        }
    }
}

/// Where a coding tree unit lies.
proof fn lemma_ctu_place(f: Frame, k: int)
    requires
        f.wf(),
        0 <= k < ctu_count(f),
    ensures
        0 <= k / ctus_x(f) < f.h as int / 64,
        0 <= k % ctus_x(f) < ctus_x(f),
{
    let (cx, cy) = (f.w as int / 64, f.h as int / 64);
    assert(0 <= k / cx < cy && 0 <= k % cx < cx) by (nonlinear_arith)
        requires
            0 <= k < cx * cy,
            0 < cx,
    ;
}

/// Codes one coding tree unit of a run and its end flag.
#[verifier::spinoff_prover]
#[verifier::rlimit(60)]
fn code_next<D: CuChooser>(
    c: &mut Coder<CabacEncoder>,
    f: &Frame,
    src: &Yuv,
    cv: &mut Canvas,
    k: usize,
    predictor: u8,
    offsets: &Vec<i8>,
    qp: u8,
    lossless: bool,
    ends: bool,
    d: &D,
    Ghost(strip): Ghost<Strip>,
) -> (r: (u8, ContextSet, IntraModeContexts, Ghost<Strip>))
    requires
        f.wf(),
        f.source_ok(*src),
        old(cv).ok(*f),
        old(c).wf(),
        qp <= 51,
        k < ctu_count(*f),
        k == strip.start + strip.count(),
        ends == strip.ends_at(*f, strip.count()),
        strip.qp == qp,
        strip.lossless == lossless,
        strip.offsets == offsets@,
        strip.linked(*f, *src, *d),
        predictor == strip.predictor(*f, strip.count()),
        old(cv).scene() == strip.scene_before(*f, strip.count()),
        old(c).said() == strip.bins(*f, strip.count()),
        old(c).bank0@ == strip.bank,
        old(c).bank() == bins::bank_after(strip.bank, strip.bins(*f, strip.count())),
        lossless ==> ctu::at_source(*f, *src, old(cv).scene()),
    ensures
        r.3@ == strip.with(r.3@.logs.last()),
        r.3@.linked(*f, *src, *d),
        r.0 == r.3@.predictor(*f, r.3@.count()),
        r.1.wf(),
        r.2.wf(),
        coder::bank_of(r.1, r.2) == bins::bank_after(
            strip.bank,
            strip.bins(*f, strip.count()) + r.3@.logs.last().run.bins(*f),
        ),
        final(cv).ok(*f),
        final(cv).scene() == r.3@.scene_before(*f, r.3@.count()),
        final(c).kept(),
        final(c).enc.wf(),
        ends ==> final(c).enc.closed(),
        !ends ==> final(c).wf(),
        final(c).said() == r.3@.bins(*f, r.3@.count()),
        final(c).log0 == old(c).log0,
        final(c).bank0 == old(c).bank0,
        final(c).bank() == bins::bank_after(strip.bank, r.3@.bins(*f, r.3@.count())),
        lossless ==> ctu::at_source(*f, *src, final(cv).scene()),
{
    let cx: usize = f.w / 64;
    proof {
        lemma_ctu_place(*f, k as int);
    }
    let offset: i8 = if k < offsets.len() {
        offsets[k]
    } else {
        0
    };
    let ghost c0 = *c;
    let ghost n = strip.count();
    let ghost before = strip.bins(*f, n);
    let (resolved, log): (u8, Ghost<CtuLog>) = code_one_ctu(
        c,
        f,
        src,
        cv,
        k / cx,
        k % cx,
        qp,
        lossless,
        predictor,
        offset,
        d,
    );
    let ghost next = strip.with(log@);
    let ghost unit = log@.run.bins(*f);
    let (ctx, ictx): (ContextSet, IntraModeContexts) = (c.ctx, c.ictx);
    proof {
        strip.lemma_with(*f, log@, n);
        assert(next.logs.last() == log@);
        assert(next.linked_at(*f, *src, *d, n));
        strip.lemma_grow(*f, *src, *d, log@);
        runs::lemma_bank_follows(c0, *c, unit);
        bins::lemma_symbols_add(strip.bank, before, unit);
    }
    let ghost c1 = *c;
    c.end(ends);
    proof {
        c.lemma_bank_is();
    }
    (resolved, ctx, ictx, Ghost(next))
}

/// Codes a run of coding tree units as a substream of its own. The contexts after
/// the second unit are handed out.
#[verifier::spinoff_prover]
#[verifier::rlimit(60)]
pub fn code_strip<D: CuChooser>(
    f: &Frame,
    src: &Yuv,
    cv: &mut Canvas,
    ctx: ContextSet,
    ictx: IntraModeContexts,
    start: usize,
    count: usize,
    qp: u8,
    lossless: bool,
    offsets: &Vec<i8>,
    last: bool,
    d: &D,
) -> (r: (Vec<u8>, Option<(ContextSet, IntraModeContexts)>, Ghost<Strip>))
    requires
        f.wf(),
        f.source_ok(*src),
        old(cv).ok(*f),
        ctx.wf(),
        ictx.wf(),
        qp <= 51,
        1 <= count,
        start + count <= ctu_count(*f),
        ctu_count(*f) <= usize::MAX,
        lossless ==> ctu::at_source(*f, *src, old(cv).scene()),
    ensures
        ({
            let strip = r.2@;
            &&& strip == (Strip {
                scene: old(cv).scene(),
                bank: coder::bank_of(ctx, ictx),
                qp,
                lossless,
                offsets: offsets@,
                start: start as int,
                last,
                logs: strip.logs,
            })
            &&& strip.count() == count
            &&& strip.linked(*f, *src, *d)
            &&& coder::code_of(r.0@, strip.bank, strip.all_bins(*f))
            &&& final(cv).scene() == strip.scene_after(*f)
            &&& r.1 is Some <==> count >= 2
            &&& r.1 matches Some(s) ==> {
                &&& s.0.wf()
                &&& s.1.wf()
                &&& coder::bank_of(s.0, s.1) == strip.sync_bank(*f)
            }
        }),
        final(cv).ok(*f),
        lossless ==> ctu::at_source(*f, *src, final(cv).scene()),
{
    let total: usize = (f.w / 64) * (f.h / 64);
    let mut c: Coder<CabacEncoder> = Coder::new(CabacEncoder::new(), ctx, ictx);
    let ghost first = Strip {
        scene: cv.scene(),
        bank: coder::bank_of(ctx, ictx),
        qp,
        lossless,
        offsets: offsets@,
        start: start as int,
        last,
        logs: Seq::empty(),
    };
    let ghost mut strip = first;
    let mut predictor: u8 = qp;
    let mut sync: Option<(ContextSet, IntraModeContexts)> = None;
    let ends_here: bool = last && start + count == total;
    proof {
        c.lemma_bank_is();
    }
    for i in 0..count
        invariant
            f.wf(),
            f.source_ok(*src),
            cv.ok(*f),
            qp <= 51,
            start + count <= ctu_count(*f),
            ctu_count(*f) <= usize::MAX,
            total == ctu_count(*f),
            ends_here == (last && start + count == total),
            strip == (Strip { logs: strip.logs, ..first }),
            first == (Strip {
                scene: old(cv).scene(),
                bank: coder::bank_of(ctx, ictx),
                qp,
                lossless,
                offsets: offsets@,
                start: start as int,
                last,
                logs: Seq::empty(),
            }),
            strip.count() == i,
            strip.linked(*f, *src, *d),
            predictor == strip.predictor(*f, i as int),
            cv.scene() == strip.scene_before(*f, i as int),
            c.kept(),
            c.enc.wf(),
            !(ends_here && i == count) ==> c.wf(),
            ends_here && i == count ==> c.enc.closed(),
            c.said() == strip.bins(*f, i as int),
            c.bank0@ == strip.bank,
            c.log0@.len() == 0,
            c.bank() == bins::bank_after(strip.bank, strip.bins(*f, i as int)),
            sync is Some <==> i >= 2,
            sync matches Some(s) ==> {
                &&& s.0.wf()
                &&& s.1.wf()
                &&& coder::bank_of(s.0, s.1) == strip.sync_bank(*f)
            },
            lossless ==> ctu::at_source(*f, *src, cv.scene()),
    {
        let k: usize = start + i;
        let ends: bool = last && k == total - 1;
        let ghost before = strip;
        let (resolved, ctx1, ictx1, next): (
            u8,
            ContextSet,
            IntraModeContexts,
            Ghost<Strip>,
        ) = code_next(
            &mut c,
            f,
            src,
            cv,
            k,
            predictor,
            offsets,
            qp,
            lossless,
            ends,
            d,
            Ghost(strip),
        );
        predictor = resolved;
        if i == 1 {
            sync = Some((ctx1, ictx1));
        }
        proof {
            let log = next@.logs.last();
            strip = next@;
            before.lemma_with(*f, log, i as int);
            if i >= 1 {
                before.lemma_with(*f, log, 1);
                if i >= 2 {
                    assert(strip.logs[1] == before.logs[1]);
                }
            }
        }
    }
    if !ends_here {
        c.end(true);
    }
    proof {
        assert(c.log0@ =~= Seq::empty());
    }
    let bytes: Vec<u8> = c.finish();
    (bytes, sync, Ghost(strip))
}

} // verus!
