//! Coding units.
use crate::cabac::bins;
use crate::cabac::coder;
use crate::cabac::coder::Coder;
use crate::cabac::contexts::{ContextSet, IntraModeContexts};
use crate::cabac::engine::{CabacContextUpdater, CtxModel};
use crate::commit::{ChromaBlock, LevelChooser, LumaBlock};
use crate::cuplan::{CuChoice, CuPlace};
use crate::fmt::ChromaFormat;
use crate::frame::{Frame, Picture};
use crate::lossless;
use crate::lossless::{
    commit_lossless_chroma_tree, commit_lossless_luma_tree, empty_chroma_tree, ChromaTree, LumaTree,
};
use crate::planes::Yuv;
use crate::runs;
use crate::runs::{commit_chroma_run, commit_luma_run};
use crate::tb::Tb;
use crate::tusyntax;
use crate::tusyntax::{SplitTus, UnsplitTus};
use vstd::prelude::*;

verus! {

/// The blocks of levels of a coding unit.
pub enum CuTus {
    Whole { tus: UnsplitTus },
    Quarters { cut: SplitTus },
    Lossless { luma: LumaTree, chroma: ChromaTree },
}

impl CuTus {
    /// The luma blocks of a unit with loss.
    pub open spec fn ys(self) -> Seq<Tb> {
        match self {
            CuTus::Whole { tus } => seq![tus.y],
            CuTus::Quarters { cut } => cut.y@,
            CuTus::Lossless { .. } => Seq::empty(),
        }
    }

    /// The blocks of the first chroma plane of a unit with loss.
    pub open spec fn cbs(self) -> Seq<Tb> {
        match self {
            CuTus::Whole { tus } => tus.cb@,
            CuTus::Quarters { cut } => cut.cb@,
            CuTus::Lossless { .. } => Seq::empty(),
        }
    }

    /// The blocks of the second chroma plane of a unit with loss.
    pub open spec fn crs(self) -> Seq<Tb> {
        match self {
            CuTus::Whole { tus } => tus.cr@,
            CuTus::Quarters { cut } => cut.cr@,
            CuTus::Lossless { .. } => Seq::empty(),
        }
    }
}

/// A coding unit: where it is, how it is coded, and its levels.
pub struct Cu {
    pub place: CuPlace,
    pub choice: CuChoice,
    pub tus: CuTus,
}

impl Cu {
    /// The blocks are those of the place and the choice.
    pub open spec fn wf(self, f: Frame, lossless: bool) -> bool {
        let size = self.place.size as int;
        let ys = self.tus.ys();
        &&& self.place.ok(f)
        &&& self.choice.ok(size, lossless, f.chroma)
        &&& match self.tus {
            CuTus::Whole { tus } => {
                &&& self.choice is Whole
                &&& tus.wf()
                &&& tus.cb@.len() == tusyntax::stacked(f.chroma)
                &&& tus.cr@.len() == tusyntax::stacked(f.chroma)
            },
            CuTus::Quarters { cut } => {
                &&& self.choice.quartered()
                &&& cut.wf(f.chroma, self.choice.shared(size, f.chroma))
            },
            CuTus::Lossless { luma, chroma } => {
                &&& self.choice matches CuChoice::Lossless { split, .. } && luma.follows(
                    split@,
                    0,
                    size,
                )
                &&& luma.wf(size)
                &&& chroma.wf(size, f.chroma)
                &&& chroma.follows(luma, size, f.chroma)
            },
        }
        &&& !lossless ==> {
            &&& runs::luma_fit(self.place.luma_blocks(f, self.choice), ys, ys.len() as int)
            &&& runs::chroma_fit(f, self.place.chroma_blocks(f, self.choice), self.tus.cbs())
            &&& runs::chroma_fit(f, self.place.chroma_blocks(f, self.choice), self.tus.crs())
        }
    }

    /// The luma plane after a decoder put the unit into it.
    pub open spec fn luma_after(self, f: Frame, y: Seq<u16>) -> Seq<u16> {
        let (row, col) = (self.place.row as int, self.place.col as int);
        let ys = self.tus.ys();
        match self.tus {
            CuTus::Lossless { luma, .. } => luma.after(
                f,
                y,
                row,
                col,
                self.place.size as int,
                self.choice.luma_mode(0),
                self.place.luma_qp(f) as u8,
            ),
            _ => runs::luma_after(
                f,
                y,
                self.place.luma_blocks(f, self.choice),
                ys,
                ys.len() as int,
            ),
        }
    }

    /// A chroma plane after a decoder put the unit into it.
    pub open spec fn chroma_after(self, first: bool, f: Frame, plane: Seq<u16>) -> Seq<u16> {
        let (row, col) = (self.place.row as int, self.place.col as int);
        let ts = if first {
            self.tus.cbs()
        } else {
            self.tus.crs()
        };
        if f.chroma is Monochrome {
            plane
        } else {
            match self.tus {
                CuTus::Lossless { chroma, .. } => chroma.after(
                    first,
                    f,
                    plane,
                    row,
                    col,
                    self.place.size as int,
                    self.choice.chroma_mode(f.chroma, 0),
                    self.place.chroma_qp(f) as u8,
                ),
                _ => runs::chroma_after(
                    f,
                    plane,
                    self.place.chroma_blocks(f, self.choice),
                    ts,
                    ts.len() as int,
                ),
            }
        }
    }

    /// How deep in the transform tree the luma blocks of a unit with loss are.
    pub open spec fn luma_depth(self) -> int {
        if self.choice.quartered() {
            1
        } else {
            0
        }
    }

    /// How the chroma of a unit with loss is coded after its luma.
    pub open spec fn chroma_run(
        self,
        f: Frame,
        src: Yuv,
        cb: Seq<u16>,
        cr: Seq<u16>,
        bank: Seq<CtxModel>,
    ) -> runs::ChromaRun {
        let ys = self.tus.ys();
        let cut = self.choice.chroma_quartered(self.place.size as int, f.chroma);
        runs::ChromaRun {
            f,
            src,
            cb,
            cr,
            bank: bins::bank_after(
                bank,
                runs::luma_run_bins(ys, self.luma_depth(), ys.len() as int),
            ),
            depth: if cut {
                1
            } else {
                0
            },
            bs: self.place.chroma_blocks(f, self.choice),
            woven: self.choice.parted_chroma(f.chroma),
            follow: cut || self.choice is Parts,
        }
    }

    /// The levels of a unit with loss may be chosen, each block after those before
    /// it; without loss they follow from the source.
    pub open spec fn chosen<Q: LevelChooser>(
        self,
        f: Frame,
        src: Yuv,
        y: Seq<u16>,
        cb: Seq<u16>,
        cr: Seq<u16>,
        q: Q,
        bank: Seq<CtxModel>,
    ) -> bool {
        let ys = self.tus.ys();
        &&& forall|i: int|
            0 <= i < ys.len() ==> #[trigger] runs::luma_chosen(
                f,
                src,
                y,
                q,
                bank,
                self.luma_depth(),
                self.place.luma_blocks(f, self.choice),
                ys,
                i,
            )
        &&& !(self.tus is Lossless) && !(f.chroma is Monochrome) ==> self.chroma_run(
            f,
            src,
            cb,
            cr,
            bank,
        ).reached(q, self.tus.cbs(), self.tus.crs(), 2 * self.tus.cbs().len() as int)
    }

    /// The planes have the source where the unit is, and elsewhere what they had.
    pub open spec fn exact(
        self,
        f: Frame,
        src: Yuv,
        before: (Seq<u16>, Seq<u16>, Seq<u16>),
        after: (Seq<u16>, Seq<u16>, Seq<u16>),
    ) -> bool {
        let (row, col, size) = (
            self.place.row as int,
            self.place.col as int,
            self.place.size as int,
        );
        &&& after.0 == lossless::sourced(
            before.0,
            f.w as int,
            src.y@,
            f.src_w as int,
            f.src_h as int,
            row,
            col,
            size,
            size,
        )
        &&& !(f.chroma is Monochrome) ==> {
            &&& after.1 == lossless::chroma_sourced(f, before.1, src.cb@, row, col, size)
            &&& after.2 == lossless::chroma_sourced(f, before.2, src.cr@, row, col, size)
        }
    }
}

/// Codes the blocks of a unit without loss.
#[verifier::spinoff_prover]
#[verifier::rlimit(60)]
fn commit_lossless_cu(
    f: &Frame,
    src: &Yuv,
    pic: &mut Picture,
    place: CuPlace,
    mode: u8,
    chroma: u8,
    split: &[bool; 85],
    ctx: &ContextSet,
) -> (r: (LumaTree, ChromaTree))
    requires
        f.wf(),
        f.source_ok(*src),
        f.picture_ok(*old(pic)),
        place.ok(*f),
        mode <= 34,
        chroma <= 4,
        ctx.wf(),
    ensures
        f.picture_ok(*final(pic)),
        ({
            let cu = Cu {
                place,
                choice: CuChoice::Lossless { mode, chroma, split: *split },
                tus: CuTus::Lossless { luma: r.0, chroma: r.1 },
            };
            &&& cu.wf(*f, true)
            &&& final(pic).y@ == cu.luma_after(*f, old(pic).y@)
            &&& final(pic).cb@ == cu.chroma_after(true, *f, old(pic).cb@)
            &&& final(pic).cr@ == cu.chroma_after(false, *f, old(pic).cr@)
            &&& cu.exact(
                *f,
                *src,
                (old(pic).y@, old(pic).cb@, old(pic).cr@),
                (final(pic).y@, final(pic).cb@, final(pic).cr@),
            )
        }),
{
    let choice: CuChoice = CuChoice::Lossless { mode, chroma, split: *split };
    proof {
        assert(choice.ok(place.size as int, true, f.chroma));
    }
    let luma: LumaTree = commit_lossless_luma_tree(
        f,
        src,
        pic,
        split,
        0,
        place.row,
        place.col,
        place.size,
        mode,
        place.luma_qp_of(f),
        ctx,
    );
    if f.chroma.is_monochrome() {
        let none: ChromaTree = empty_chroma_tree(&luma, place.size);
        return (luma, none);
    }
    let cmode: u8 = choice.chroma_mode_at(f.chroma, 0);
    let cqp: u8 = place.chroma_qp_of(f);
    proof {
        assert(place.row % 8 == 0 && place.col % 8 == 0);
    }
    let ch: ChromaTree = commit_lossless_chroma_tree(
        f,
        src,
        pic,
        &luma,
        place.row,
        place.col,
        place.size,
        cmode,
        cqp,
        ctx,
    );
    (luma, ch)
}

/// Codes the blocks of a unit with loss.
#[verifier::spinoff_prover]
#[verifier::rlimit(60)]
fn commit_lossy_cu<Q: LevelChooser>(
    f: &Frame,
    src: &Yuv,
    pic: &mut Picture,
    place: CuPlace,
    choice: &CuChoice,
    q: &Q,
    ctx: &ContextSet,
    ictx: &IntraModeContexts,
) -> (r: CuTus)
    requires
        f.wf(),
        f.source_ok(*src),
        f.picture_ok(*old(pic)),
        place.ok(*f),
        choice.ok(place.size as int, false, f.chroma),
        ctx.wf(),
        ictx.wf(),
    ensures
        f.picture_ok(*final(pic)),
        ({
            let cu = Cu { place, choice: *choice, tus: r };
            &&& cu.wf(*f, false)
            &&& final(pic).y@ == cu.luma_after(*f, old(pic).y@)
            &&& final(pic).cb@ == cu.chroma_after(true, *f, old(pic).cb@)
            &&& final(pic).cr@ == cu.chroma_after(false, *f, old(pic).cr@)
            &&& cu.chosen(
                *f,
                *src,
                old(pic).y@,
                old(pic).cb@,
                old(pic).cr@,
                *q,
                coder::bank_of(*ctx, *ictx),
            )
        }),
{
    let mut t: Coder<CabacContextUpdater> = Coder::new(CabacContextUpdater::new(), *ctx, *ictx);
    let ghost t0 = t;
    let cut: bool = choice.is_quartered();
    let luma: Vec<LumaBlock> = place.list_luma(f, choice);
    let mut ys: Vec<Tb> = commit_luma_run(
        f,
        src,
        pic,
        &luma,
        q,
        &mut t,
        if cut {
            1
        } else {
            0
        },
    );
    let (cb, cr): (Vec<Tb>, Vec<Tb>) = if f.chroma.is_monochrome() {
        (Vec::new(), Vec::new())
    } else {
        let chroma: Vec<ChromaBlock> = place.list_chroma(f, choice);
        let parts: bool = matches!(choice, CuChoice::Parts { .. });
        let cut_chroma: bool = cut && !tusyntax::split_chroma_is_shared(place.size, f.chroma);
        proof {
            runs::lemma_bank_follows(
                t0,
                t,
                runs::luma_run_bins(
                    ys@,
                    if cut {
                        1
                    } else {
                        0
                    },
                    ys@.len() as int,
                ),
            );
        }
        commit_chroma_run(
            f,
            src,
            pic,
            &chroma,
            q,
            &mut t,
            if cut_chroma {
                1
            } else {
                0
            },
            parts && matches!(f.chroma, ChromaFormat::Yuv444),
            cut_chroma || parts,
        )
    };
    if cut {
        CuTus::Quarters { cut: SplitTus { y: ys, cb, cr } }
    } else {
        let ghost ys0 = ys@;
        let y: Tb = ys.pop().unwrap();
        assert(ys0 =~= seq![y]);
        CuTus::Whole { tus: UnsplitTus { y, cb, cr } }
    }
}

/// Codes the blocks of a unit as `choice` says: chooses their levels, and puts the
/// samples that a decoder will see into the picture.
#[verifier::spinoff_prover]
#[verifier::rlimit(60)]
pub fn commit_cu<Q: LevelChooser>(
    f: &Frame,
    src: &Yuv,
    pic: &mut Picture,
    place: CuPlace,
    choice: &CuChoice,
    q: &Q,
    ctx: &ContextSet,
    ictx: &IntraModeContexts,
    Ghost(lossless): Ghost<bool>,
) -> (cu: Cu)
    requires
        f.wf(),
        f.source_ok(*src),
        f.picture_ok(*old(pic)),
        place.ok(*f),
        choice.ok(place.size as int, lossless, f.chroma),
        ctx.wf(),
        ictx.wf(),
    ensures
        cu.place == place,
        cu.choice == *choice,
        cu.wf(*f, lossless),
        f.picture_ok(*final(pic)),
        final(pic).y@ == cu.luma_after(*f, old(pic).y@),
        final(pic).cb@ == cu.chroma_after(true, *f, old(pic).cb@),
        final(pic).cr@ == cu.chroma_after(false, *f, old(pic).cr@),
        cu.chosen(
            *f,
            *src,
            old(pic).y@,
            old(pic).cb@,
            old(pic).cr@,
            *q,
            coder::bank_of(*ctx, *ictx),
        ),
        lossless ==> cu.exact(
            *f,
            *src,
            (old(pic).y@, old(pic).cb@, old(pic).cr@),
            (final(pic).y@, final(pic).cb@, final(pic).cr@),
        ),
{
    match choice {
        CuChoice::Lossless { mode, chroma, split } => {
            let (luma, ch): (LumaTree, ChromaTree) = commit_lossless_cu(
                f,
                src,
                pic,
                place,
                *mode,
                *chroma,
                split,
                ctx,
            );
            Cu { place, choice: *choice, tus: CuTus::Lossless { luma, chroma: ch } }
        },
        _ => {
            let tus: CuTus = commit_lossy_cu(f, src, pic, place, choice, q, ctx, ictx);
            Cu { place, choice: *choice, tus }
        },
    }
}

} // verus!
