//! What a way of coding a unit would lose and take.
use crate::cabac::coder::Coder;
use crate::cabac::contexts::{ContextSet, IntraModeContexts};
use crate::cabac::engine::{CabacWriter, CtxModel};
use crate::cabac::rate::CabacEstimator;
use crate::cabac::{bins, coder, rate};
use crate::commit::LevelChooser;
use crate::cu::{commit_cu, Cu};
use crate::cuplan::{CuChoice, CuPlace};
use crate::cuqp::AqCtuState;
use crate::cusyntax;
use crate::cusyntax::encode_cu_syntax;
use crate::frame::{Frame, Picture};
use crate::planes::Yuv;
use crate::split;
use crate::split::cu_region_sse;
use vstd::prelude::*;

verus! {

/// What bins take from the contexts `bank` on, in steps of two to the power of -30 of a
/// bit.
pub open spec fn bins_rate(bank: Seq<CtxModel>, said: Seq<bins::Bin>) -> int {
    rate::rate(bins::symbols(bank, said))
}

/// What the syntax of a unit takes; its modes are recorded.
fn cu_rate(
    f: &Frame,
    modes: &mut Vec<u8>,
    cu: &Cu,
    ctx: &ContextSet,
    ictx: &IntraModeContexts,
    aq: AqCtuState,
    Ghost(lossless): Ghost<bool>,
) -> (bits: u64)
    requires
        f.wf(),
        cusyntax::modes_ok(*f, old(modes)@),
        cu.wf(*f, lossless),
        ctx.wf(),
        ictx.wf(),
    ensures
        final(modes)@ == cu.modes_after(*f, old(modes)@),
        cusyntax::modes_ok(*f, final(modes)@),
        bits == bins_rate(coder::bank_of(*ctx, *ictx), cu.bins(*f, old(modes)@, aq)),
{
    let mut c: Coder<CabacEstimator> = Coder::new(CabacEstimator::new(), *ctx, *ictx);
    let ghost said = cu.bins(*f, modes@, aq);
    let mut state: AqCtuState = aq;
    encode_cu_syntax(&mut c, f, modes, cu, &mut state, Ghost(lossless));
    proof {
        assert(c.said() =~= said);
        bins::lemma_wrote_exact(c.log0@, c.bank0@, c.enc.log(), c.bank(), c.said@);
        assert(c.enc.log() =~= bins::symbols(c.bank0@, said));
    }
    c.enc.bits()
}

/// The squared differences of the samples of a unit.
fn unit_loss(f: &Frame, src: &Yuv, pic: &Picture, place: CuPlace) -> (lost: u64)
    requires
        f.wf(),
        f.source_ok(*src),
        f.picture_ok(*pic),
        place.ok(*f),
    ensures
        lost == split::region_loss(
            *f,
            *src,
            *pic,
            place.row as int,
            place.col as int,
            place.size as int,
        ),
{
    cu_region_sse(f, src, pic, place.row, place.col, place.size)
}

/// Codes a unit as `choice` says, to learn what that loses and what it takes: the
/// squared differences of its samples, and its bits in steps of two to the power of -30.
/// The planes and the modes are left as the unit leaves them; the contexts are not
/// touched.
pub fn cost_leaf<Q: LevelChooser>(
    f: &Frame,
    src: &Yuv,
    pic: &mut Picture,
    modes: &mut Vec<u8>,
    place: CuPlace,
    choice: &CuChoice,
    q: &Q,
    ctx: &ContextSet,
    ictx: &IntraModeContexts,
    aq: AqCtuState,
) -> (r: (u64, u64, Ghost<Cu>))
    requires
        f.wf(),
        f.source_ok(*src),
        f.picture_ok(*old(pic)),
        cusyntax::modes_ok(*f, old(modes)@),
        place.ok(*f),
        choice.ok(place.size as int, choice is Lossless, f.chroma),
        ctx.wf(),
        ictx.wf(),
    ensures
        ({
            let cu = r.2@;
            &&& cu.place == place
            &&& cu.choice == *choice
            &&& cu.wf(*f, choice is Lossless)
            &&& cu.chosen(
                *f,
                *src,
                old(pic).y@,
                old(pic).cb@,
                old(pic).cr@,
                *q,
                coder::bank_of(*ctx, *ictx),
            )
            &&& final(pic).y@ == cu.luma_after(*f, old(pic).y@)
            &&& final(pic).cb@ == cu.chroma_after(true, *f, old(pic).cb@)
            &&& final(pic).cr@ == cu.chroma_after(false, *f, old(pic).cr@)
            &&& final(modes)@ == cu.modes_after(*f, old(modes)@)
            &&& r.1 == bins_rate(coder::bank_of(*ctx, *ictx), cu.bins(*f, old(modes)@, aq))
        }),
        r.0 == split::region_loss(
            *f,
            *src,
            *final(pic),
            place.row as int,
            place.col as int,
            place.size as int,
        ),
        f.picture_ok(*final(pic)),
        cusyntax::modes_ok(*f, final(modes)@),
{
    let ghost lossless = choice is Lossless;
    let cu: Cu = commit_cu(f, src, pic, place, choice, q, ctx, ictx, Ghost(lossless));
    let bits: u64 = cu_rate(f, modes, &cu, ctx, ictx, aq, Ghost(lossless));
    let lost: u64 = unit_loss(f, src, pic, place);
    (lost, bits, Ghost(cu))
}

} // verus!
