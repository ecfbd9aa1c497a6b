//! Coding runs of transform blocks into the picture, the contexts following them.
use crate::cabac::bins;
use crate::cabac::coder;
use crate::cabac::coder::Coder;
use crate::cabac::engine::{CabacContextUpdater, CabacWriter, CtxModel};
use crate::cabac::residual;
use crate::commit;
use crate::commit::{commit_chroma, commit_luma, ChromaBlock, LevelChooser, LumaBlock};
use crate::frame::{Frame, Picture};
use crate::planes::Yuv;
use crate::tb::Tb;
use crate::tusyntax;
use crate::tusyntax::encode_levels;
use vstd::prelude::*;

verus! {

/// The contexts that code blocks of levels, out of all contexts.
pub open spec fn level_bank(bank: Seq<CtxModel>) -> Seq<CtxModel> {
    bank.take(132)
}

/// The flag and the levels of a luma block.
pub open spec fn luma_tb_bins(t: Tb, depth: int) -> Seq<bins::Bin> {
    residual::cbf_luma_bins(t.nz, depth) + tusyntax::res_bins(t, true, true)
}

/// The flags and the levels of the first `k` luma blocks.
pub open spec fn luma_run_bins(ts: Seq<Tb>, depth: int, k: int) -> Seq<bins::Bin>
    decreases k,
{
    if k <= 0 {
        Seq::empty()
    } else {
        luma_run_bins(ts, depth, k - 1) + luma_tb_bins(ts[k - 1], depth)
    }
}

/// The luma plane after a decoder put the first `k` blocks into it.
pub open spec fn luma_after(
    f: Frame,
    y: Seq<u16>,
    bs: Seq<LumaBlock>,
    ts: Seq<Tb>,
    k: int,
) -> Seq<u16>
    decreases k,
{
    if k <= 0 {
        y
    } else {
        bs[k - 1].after(f, luma_after(f, y, bs, ts, k - 1), ts[k - 1].levels@)
    }
}

/// The levels of block `i` may be chosen while the contexts are those that the
/// blocks before it leave behind.
pub open spec fn luma_chosen<Q: LevelChooser>(
    f: Frame,
    src: Yuv,
    y: Seq<u16>,
    q: Q,
    bank: Seq<CtxModel>,
    depth: int,
    bs: Seq<LumaBlock>,
    ts: Seq<Tb>,
    i: int,
) -> bool {
    bs[i].chosen(
        f,
        src,
        luma_after(f, y, bs, ts, i),
        q,
        level_bank(bins::bank_after(bank, luma_run_bins(ts, depth, i))),
        depth,
        ts[i].levels@,
    )
}

/// Blocks of levels have the sizes and scans of their places.
pub open spec fn luma_fit(bs: Seq<LumaBlock>, ts: Seq<Tb>, k: int) -> bool {
    forall|i: int|
        0 <= i < k ==> {
            &&& (#[trigger] ts[i]).wf()
            &&& ts[i].n == bs[i].n
            &&& ts[i].scan_idx == bs[i].scan_of()
        }
}

/// Only the blocks that are put count.
proof fn lemma_luma_ext(
    f: Frame,
    y: Seq<u16>,
    bs: Seq<LumaBlock>,
    a: Seq<Tb>,
    b: Seq<Tb>,
    depth: int,
    k: int,
)
    requires
        forall|i: int| 0 <= i < k ==> a[i] == b[i],
    ensures
        luma_after(f, y, bs, a, k) == luma_after(f, y, bs, b, k),
        luma_run_bins(a, depth, k) == luma_run_bins(b, depth, k),
    decreases k,
{
    if k > 0 {
        lemma_luma_ext(f, y, bs, a, b, depth, k - 1);
    }
}

/// Codes luma blocks one after another.
pub fn commit_luma_run<Q: LevelChooser>(
    f: &Frame,
    src: &Yuv,
    pic: &mut Picture,
    bs: &Vec<LumaBlock>,
    q: &Q,
    t: &mut Coder<CabacContextUpdater>,
    depth: usize,
) -> (ts: Vec<Tb>)
    requires
        f.wf(),
        f.source_ok(*src),
        f.picture_ok(*old(pic)),
        forall|i: int| 0 <= i < bs@.len() ==> (#[trigger] bs@[i]).ok(*f),
        old(t).wf(),
    ensures
        ts@.len() == bs@.len(),
        luma_fit(bs@, ts@, ts@.len() as int),
        forall|i: int|
            0 <= i < ts@.len() ==> #[trigger] luma_chosen(
                *f,
                *src,
                old(pic).y@,
                *q,
                old(t).bank(),
                depth as int,
                bs@,
                ts@,
                i,
            ),
        final(pic).y@ == luma_after(*f, old(pic).y@, bs@, ts@, ts@.len() as int),
        final(pic).cb == old(pic).cb,
        final(pic).cr == old(pic).cr,
        f.picture_ok(*final(pic)),
        final(t).wf(),
        final(t).adds(*old(t), luma_run_bins(ts@, depth as int, ts@.len() as int)),
{
    let ghost y0 = pic.y@;
    let ghost t0 = *t;
    let count: usize = bs.len();
    let mut ts: Vec<Tb> = Vec::new();
    proof {
        coder::lemma_nothing(t.said());
    }
    for k in 0..count
        invariant
            count == bs@.len(),
            f.wf(),
            f.source_ok(*src),
            f.picture_ok(*pic),
            forall|i: int| 0 <= i < bs@.len() ==> (#[trigger] bs@[i]).ok(*f),
            t0 == *old(t),
            y0 == old(pic).y@,
            t0.wf(),
            t.wf(),
            ts@.len() == k,
            luma_fit(bs@, ts@, k as int),
            forall|i: int|
                0 <= i < k ==> #[trigger] luma_chosen(
                    *f,
                    *src,
                    y0,
                    *q,
                    t0.bank(),
                    depth as int,
                    bs@,
                    ts@,
                    i,
                ),
            pic.y@ == luma_after(*f, y0, bs@, ts@, k as int),
            pic.cb == old(pic).cb,
            pic.cr == old(pic).cr,
            t.adds(t0, luma_run_bins(ts@, depth as int, k as int)),
    {
        let ghost ts0 = ts@;
        let ghost run = luma_run_bins(ts0, depth as int, k as int);
        proof {
            assert(bs@[k as int].ok(*f));
            lemma_bank_follows(t0, *t, run);
        }
        let x: Tb = commit_luma(f, src, pic, bs[k], q, &t.ctx, depth);
        t.cbf_luma(x.nz, depth);
        encode_levels(t, &x, true, true);
        let ghost ts1 = ts0.push(x);
        ts.push(x);
        proof {
            let flag = residual::cbf_luma_bins(x.nz, depth as int);
            let levels = tusyntax::res_bins(x, true, true);
            coder::lemma_then(t0.said() + run, flag, levels);
            coder::lemma_then(t0.said(), run, flag + levels);
            lemma_luma_ext(*f, y0, bs@, ts0, ts1, depth as int, k as int);
            assert forall|i: int| 0 <= i < k + 1 implies #[trigger] luma_chosen(
                *f,
                *src,
                y0,
                *q,
                t0.bank(),
                depth as int,
                bs@,
                ts1,
                i,
            ) by {
                lemma_luma_ext(*f, y0, bs@, ts0, ts1, depth as int, i);
                if i < k {
                    assert(luma_chosen(
                        *f,
                        *src,
                        y0,
                        *q,
                        t0.bank(),
                        depth as int,
                        bs@,
                        ts0,
                        i,
                    ));
                }
            }
        }
    }
    ts
}

/// In a run over both chroma planes, `m` blocks in each, block `i` is in the first
/// plane or not, and where in it. The planes take turns or follow each other.
pub open spec fn turn(m: int, woven: bool, i: int) -> (bool, int) {
    if woven {
        (i % 2 == 0, i / 2)
    } else if i < m {
        (true, i)
    } else {
        (false, i - m)
    }
}

/// Blocks of a plane among the first `i`.
pub open spec fn turns(m: int, woven: bool, first: bool, i: int) -> int {
    if woven {
        if first {
            (i + 1) / 2
        } else {
            i / 2
        }
    } else if first {
        if i < m {
            i
        } else {
            m
        }
    } else if i < m {
        0
    } else {
        i - m
    }
}

/// The block that comes at a turn.
pub open spec fn tb_at(cb: Seq<Tb>, cr: Seq<Tb>, at: (bool, int)) -> Tb {
    if at.0 {
        cb[at.1]
    } else {
        cr[at.1]
    }
}

/// The flag and the levels of a chroma block.
pub open spec fn chroma_tb_bins(t: Tb, depth: int) -> Seq<bins::Bin> {
    residual::cbf_chroma_bins(t.nz, depth) + tusyntax::res_bins(t, false, true)
}

/// The flags and the levels of the first `k` chroma blocks.
pub open spec fn chroma_run_bins(
    cb: Seq<Tb>,
    cr: Seq<Tb>,
    m: int,
    woven: bool,
    depth: int,
    k: int,
) -> Seq<bins::Bin>
    decreases k,
{
    if k <= 0 {
        Seq::empty()
    } else {
        chroma_run_bins(cb, cr, m, woven, depth, k - 1) + chroma_tb_bins(
            tb_at(cb, cr, turn(m, woven, k - 1)),
            depth,
        )
    }
}

/// A chroma plane after a decoder put the first `k` blocks into it.
pub open spec fn chroma_after(
    f: Frame,
    plane: Seq<u16>,
    bs: Seq<ChromaBlock>,
    ts: Seq<Tb>,
    k: int,
) -> Seq<u16>
    decreases k,
{
    if k <= 0 {
        plane
    } else {
        bs[k - 1].after(f, chroma_after(f, plane, bs, ts, k - 1), ts[k - 1].levels@)
    }
}

/// What a run over the chroma planes starts from and how it goes.
pub struct ChromaRun {
    pub f: Frame,
    pub src: Yuv,
    pub cb: Seq<u16>,
    pub cr: Seq<u16>,
    pub bank: Seq<CtxModel>,
    pub depth: int,
    pub bs: Seq<ChromaBlock>,
    /// The planes take turns.
    pub woven: bool,
    /// The contexts follow the blocks.
    pub follow: bool,
}

impl ChromaRun {
    /// The contexts before block `i`.
    pub open spec fn bank_at(self, cb: Seq<Tb>, cr: Seq<Tb>, i: int) -> Seq<CtxModel> {
        if self.follow {
            bins::bank_after(
                self.bank,
                chroma_run_bins(cb, cr, self.bs.len() as int, self.woven, self.depth, i),
            )
        } else {
            self.bank
        }
    }

    /// The levels of block `i` may be chosen.
    pub open spec fn chosen<Q: LevelChooser>(self, q: Q, cb: Seq<Tb>, cr: Seq<Tb>, i: int) -> bool {
        let (first, j) = turn(self.bs.len() as int, self.woven, i);
        let ts = if first {
            cb
        } else {
            cr
        };
        self.bs[j].chosen(
            self.f,
            commit::plane_of(first, self.src.cb@, self.src.cr@),
            chroma_after(self.f, commit::plane_of(first, self.cb, self.cr), self.bs, ts, j),
            q,
            level_bank(self.bank_at(cb, cr, i)),
            self.depth,
            ts[j].levels@,
        )
    }
}

/// Blocks of levels have the sizes and scans of their places.
pub open spec fn chroma_fit(f: Frame, bs: Seq<ChromaBlock>, ts: Seq<Tb>) -> bool {
    forall|i: int|
        0 <= i < ts.len() ==> {
            &&& (#[trigger] ts[i]).wf()
            &&& ts[i].n == bs[i].n
            &&& ts[i].scan_idx == bs[i].scan_of(f)
        }
}

/// Only the blocks that are put count.
proof fn lemma_chroma_ext(
    f: Frame,
    plane: Seq<u16>,
    bs: Seq<ChromaBlock>,
    a: Seq<Tb>,
    b: Seq<Tb>,
    k: int,
)
    requires
        forall|i: int| 0 <= i < k ==> a[i] == b[i],
    ensures
        chroma_after(f, plane, bs, a, k) == chroma_after(f, plane, bs, b, k),
    decreases k,
{
    if k > 0 {
        lemma_chroma_ext(f, plane, bs, a, b, k - 1);
    }
}

/// Only the blocks that are coded count.
proof fn lemma_chroma_bins_ext(
    cb: Seq<Tb>,
    cr: Seq<Tb>,
    cb1: Seq<Tb>,
    cr1: Seq<Tb>,
    m: int,
    woven: bool,
    depth: int,
    k: int,
)
    requires
        0 <= m,
        k <= 2 * m,
        forall|i: int| 0 <= i < turns(m, woven, true, k) ==> cb[i] == cb1[i],
        forall|i: int| 0 <= i < turns(m, woven, false, k) ==> cr[i] == cr1[i],
    ensures
        chroma_run_bins(cb, cr, m, woven, depth, k) == chroma_run_bins(
            cb1,
            cr1,
            m,
            woven,
            depth,
            k,
        ),
    decreases k,
{
    if k > 0 {
        lemma_chroma_bins_ext(cb, cr, cb1, cr1, m, woven, depth, k - 1);
        let (first, j) = turn(m, woven, k - 1);
        assert(j < turns(m, woven, first, k));
    }
}

impl ChromaRun {
    /// What was chosen stays chosen when more blocks follow.
    proof fn lemma_chosen_ext<Q: LevelChooser>(
        self,
        q: Q,
        cb: Seq<Tb>,
        cr: Seq<Tb>,
        cb1: Seq<Tb>,
        cr1: Seq<Tb>,
        i: int,
    )
        requires
            0 <= i < 2 * self.bs.len(),
            forall|x: int|
                0 <= x < turns(self.bs.len() as int, self.woven, true, i + 1) ==> cb[x] == cb1[x],
            forall|x: int|
                0 <= x < turns(self.bs.len() as int, self.woven, false, i + 1) ==> cr[x] == cr1[x],
            self.chosen(q, cb, cr, i),
        ensures
            self.chosen(q, cb1, cr1, i),
    {
        let m = self.bs.len() as int;
        let (first, j) = turn(m, self.woven, i);
        assert(j < turns(m, self.woven, first, i + 1));
        lemma_chroma_bins_ext(cb, cr, cb1, cr1, m, self.woven, self.depth, i);
        if first {
            lemma_chroma_ext(self.f, self.cb, self.bs, cb, cb1, j);
        } else {
            lemma_chroma_ext(self.f, self.cr, self.bs, cr, cr1, j);
        }
    }
}

impl ChromaRun {
    /// The first `k` blocks are coded.
    pub open spec fn reached<Q: LevelChooser>(
        self,
        q: Q,
        cb: Seq<Tb>,
        cr: Seq<Tb>,
        k: int,
    ) -> bool {
        let m = self.bs.len() as int;
        &&& cb.len() == turns(m, self.woven, true, k)
        &&& cr.len() == turns(m, self.woven, false, k)
        &&& chroma_fit(self.f, self.bs, cb)
        &&& chroma_fit(self.f, self.bs, cr)
        &&& forall|i: int| 0 <= i < k ==> #[trigger] self.chosen(q, cb, cr, i)
    }

    /// The bins of the first `k` blocks, as far as the contexts follow them.
    pub open spec fn bins(self, cb: Seq<Tb>, cr: Seq<Tb>, k: int) -> Seq<bins::Bin> {
        if self.follow {
            chroma_run_bins(cb, cr, self.bs.len() as int, self.woven, self.depth, k)
        } else {
            Seq::empty()
        }
    }

    /// The planes after the blocks.
    pub open spec fn planes(self, cb: Seq<Tb>, cr: Seq<Tb>) -> (Seq<u16>, Seq<u16>) {
        (
            chroma_after(self.f, self.cb, self.bs, cb, cb.len() as int),
            chroma_after(self.f, self.cr, self.bs, cr, cr.len() as int),
        )
    }

    /// One more block.
    proof fn lemma_turn<Q: LevelChooser>(
        self,
        q: Q,
        cb: Seq<Tb>,
        cr: Seq<Tb>,
        cb1: Seq<Tb>,
        cr1: Seq<Tb>,
        k: int,
        x: Tb,
    )
        requires
            0 <= k < 2 * self.bs.len(),
            self.reached(q, cb, cr, k),
            ({
                let (first, j) = turn(self.bs.len() as int, self.woven, k);
                let b = self.bs[j];
                &&& x.wf()
                &&& x.n == b.n
                &&& x.scan_idx == b.scan_of(self.f)
                &&& b.chosen(
                    self.f,
                    commit::plane_of(first, self.src.cb@, self.src.cr@),
                    commit::plane_of(first, self.planes(cb, cr).0, self.planes(cb, cr).1),
                    q,
                    level_bank(self.bank_at(cb, cr, k)),
                    self.depth,
                    x.levels@,
                )
                &&& cb1 == if first {
                    cb.push(x)
                } else {
                    cb
                }
                &&& cr1 == if first {
                    cr
                } else {
                    cr.push(x)
                }
            }),
        ensures
            self.reached(q, cb1, cr1, k + 1),
            self.bins(cb1, cr1, k + 1) == self.bins(cb, cr, k) + if self.follow {
                chroma_tb_bins(x, self.depth)
            } else {
                Seq::empty()
            },
            ({
                let (first, j) = turn(self.bs.len() as int, self.woven, k);
                let (p, r) = self.planes(cb, cr);
                self.planes(cb1, cr1) == (
                    if first {
                        self.bs[j].after(self.f, p, x.levels@)
                    } else {
                        p
                    },
                    if first {
                        r
                    } else {
                        self.bs[j].after(self.f, r, x.levels@)
                    },
                )
            }),
    {
        let m = self.bs.len() as int;
        let (first, j) = turn(m, self.woven, k);
        assert(j == turns(m, self.woven, first, k));
        lemma_chroma_ext(self.f, self.cb, self.bs, cb, cb1, cb.len() as int);
        lemma_chroma_ext(self.f, self.cr, self.bs, cr, cr1, cr.len() as int);
        lemma_chroma_bins_ext(cb, cr, cb1, cr1, m, self.woven, self.depth, k);
        coder::lemma_nothing(Seq::empty());
        assert(self.chosen(q, cb1, cr1, k));
        assert forall|i: int| 0 <= i < k + 1 implies #[trigger] self.chosen(q, cb1, cr1, i) by {
            if i < k {
                assert(self.chosen(q, cb, cr, i));
                self.lemma_chosen_ext(q, cb, cr, cb1, cr1, i);
            }
        }
    }
}

/// Codes blocks of both chroma planes, the same blocks in each.
pub fn commit_chroma_run<Q: LevelChooser>(
    f: &Frame,
    src: &Yuv,
    pic: &mut Picture,
    bs: &Vec<ChromaBlock>,
    q: &Q,
    t: &mut Coder<CabacContextUpdater>,
    depth: usize,
    woven: bool,
    follow: bool,
) -> (r: (Vec<Tb>, Vec<Tb>))
    requires
        f.wf(),
        f.source_ok(*src),
        f.picture_ok(*old(pic)),
        bs@.len() <= 8,
        forall|i: int| 0 <= i < bs@.len() ==> (#[trigger] bs@[i]).ok(*f),
        old(t).wf(),
    ensures
        ({
            let run = ChromaRun {
                f: *f,
                src: *src,
                cb: old(pic).cb@,
                cr: old(pic).cr@,
                bank: old(t).bank(),
                depth: depth as int,
                bs: bs@,
                woven,
                follow,
            };
            let k = 2 * bs@.len() as int;
            &&& run.reached(*q, r.0@, r.1@, k)
            &&& (final(pic).cb@, final(pic).cr@) == run.planes(r.0@, r.1@)
            &&& final(t).adds(*old(t), run.bins(r.0@, r.1@, k))
        }),
        r.0@.len() == bs@.len(),
        r.1@.len() == bs@.len(),
        final(pic).y == old(pic).y,
        f.picture_ok(*final(pic)),
        final(t).wf(),
{
    let m: usize = bs.len();
    let ghost run = ChromaRun {
        f: *f,
        src: *src,
        cb: pic.cb@,
        cr: pic.cr@,
        bank: t.bank(),
        depth: depth as int,
        bs: bs@,
        woven,
        follow,
    };
    let ghost t0 = *t;
    let mut cb: Vec<Tb> = Vec::new();
    let mut cr: Vec<Tb> = Vec::new();
    proof {
        coder::lemma_nothing(t.said());
    }
    for k in 0..2 * m
        invariant
            m == bs@.len(),
            m <= 8,
            f.wf(),
            f.source_ok(*src),
            f.picture_ok(*pic),
            forall|i: int| 0 <= i < bs@.len() ==> (#[trigger] bs@[i]).ok(*f),
            t0 == *old(t),
            t0.wf(),
            t.wf(),
            run == (ChromaRun {
                f: *f,
                src: *src,
                cb: old(pic).cb@,
                cr: old(pic).cr@,
                bank: t0.bank(),
                depth: depth as int,
                bs: bs@,
                woven,
                follow,
            }),
            run.reached(*q, cb@, cr@, k as int),
            (pic.cb@, pic.cr@) == run.planes(cb@, cr@),
            t.adds(t0, run.bins(cb@, cr@, k as int)),
            pic.y == old(pic).y,
    {
        let first: bool = if woven {
            k % 2 == 0
        } else {
            k < m
        };
        let j: usize = if woven {
            k / 2
        } else if k < m {
            k
        } else {
            k - m
        };
        let ghost (cb0, cr0) = (cb@, cr@);
        let ghost more = run.bins(cb0, cr0, k as int);
        proof {
            assert((first, j as int) == turn(m as int, woven, k as int));
            assert(j < m);
            assert(bs@[j as int].ok(*f));
            lemma_bank_follows(t0, *t, more);
            if !follow {
                assert(bins::bank_after(t0.bank(), Seq::empty()) == t0.bank());
            }
        }
        let x: Tb = commit_chroma(f, src, pic, first, bs[j], q, &t.ctx, depth);
        let ghost tail = if follow {
            chroma_tb_bins(x, depth as int)
        } else {
            Seq::empty()
        };
        if follow {
            t.cbf_chroma(x.nz, depth);
            encode_levels(t, &x, false, true);
            proof {
                let flag = residual::cbf_chroma_bins(x.nz, depth as int);
                let levels = tusyntax::res_bins(x, false, true);
                coder::lemma_then(t0.said() + more, flag, levels);
            }
        } else {
            proof {
                coder::lemma_nothing(t.said());
            }
        }
        if first {
            cb.push(x);
        } else {
            cr.push(x);
        }
        proof {
            run.lemma_turn(*q, cb0, cr0, cb@, cr@, k as int, x);
            coder::lemma_then(t0.said(), more, tail);
        }
    }
    (cb, cr)
}

/// The level contexts of a coder are those that the bins since `before` lead to.
pub proof fn lemma_bank_follows<W: CabacWriter>(
    before: Coder<W>,
    now: Coder<W>,
    more: Seq<bins::Bin>,
)
    requires
        before.wf(),
        now.wf(),
        now.adds(before, more),
    ensures
        now.bank() == bins::bank_after(before.bank(), more),
        now.ctx@ == level_bank(bins::bank_after(before.bank(), more)),
{
    bins::lemma_wrote_exact(
        before.log0@,
        before.bank0@,
        before.enc.log(),
        before.bank(),
        before.said@,
    );
    bins::lemma_wrote_exact(now.log0@, now.bank0@, now.enc.log(), now.bank(), now.said@);
    bins::lemma_symbols_add(before.bank0@, before.said@, more);
    assert(now.ctx@ =~= level_bank(now.bank()));
}

} // verus!
