//! Which modes of a unit are tried in full.
use crate::candidates;
use crate::candidates::{
    full_rdo_candidate_count, promote, push_sorted_unique_candidate, update_chroma_candidate,
    update_intra_candidate, IntraModeCandidate,
};
use crate::commit;
use crate::commit::ChromaBlock;
use crate::cost;
use crate::cost::satd_scalar;
use crate::cuplan::{CuChoice, CuPlace};
use crate::fmt::ChromaFormat;
use crate::frame;
use crate::frame::{take_block, Frame, Picture};
use crate::intra::should_filter_refs;
use crate::modes;
use crate::modes::{chroma_mode_candidates, ChromaModeCandidate};
use crate::planes;
use crate::planes::{put_block, Yuv};
use crate::refs;
use crate::tb;
use crate::tb::{predict_chroma, predict_luma};
use crate::transform;
use vstd::prelude::*;

verus! {

/// What a mode leaves of a luma block, by its Hadamard differences.
pub open spec fn luma_satd(
    f: Frame,
    src: Yuv,
    y: Seq<u16>,
    row: int,
    col: int,
    n: int,
    min_pu: int,
    mode: int,
) -> int {
    cost::satd_of(
        frame::source_block(src.y@, f.src_w as int, f.src_h as int, row, col, n),
        tb::luma_pred(y, f.luma_geo_of(row, col, n, min_pu), mode, f.max()),
        n,
    )
}

/// Measures what each of some modes leaves of a luma block.
pub fn luma_satds(
    f: &Frame,
    src: &Yuv,
    pic: &Picture,
    row: usize,
    col: usize,
    n: usize,
    min_pu: usize,
    modes: &[u8],
) -> (r: Vec<u32>)
    requires
        f.wf(),
        f.source_ok(*src),
        f.picture_ok(*pic),
        transform::is_size(n as int),
        4 <= min_pu <= 64,
        f.luma_fits(row as int, col as int, n as int),
        forall|i: int| 0 <= i < modes@.len() ==> #[trigger] modes@[i] <= 34,
    ensures
        r@.len() == modes@.len(),
        forall|i: int|
            0 <= i < modes@.len() ==> #[trigger] r@[i] == luma_satd(
                *f,
                *src,
                pic.y@,
                row as int,
                col as int,
                n as int,
                min_pu as int,
                modes@[i] as int,
            ),
{
    let max: u16 = f.bit_depth.max_val();
    proof {
        assert(f.h * f.w == f.w * f.h) by (nonlinear_arith);
    }
    let g: refs::LumaRefGeometry = f.luma_geo(row, col, n, min_pu);
    let orig: Vec<u16> = take_block(&src.y, f.src_w, f.src_h, row, col, n, Ghost(f.max()));
    let mut r: Vec<u32> = Vec::new();
    for i in 0..modes.len()
        invariant
            f.wf(),
            f.picture_ok(*pic),
            f.h * f.w == f.w * f.h,
            transform::is_size(n as int),
            max == f.max(),
            g == f.luma_geo_of(row as int, col as int, n as int, min_pu as int),
            g.wf(),
            g.n == n,
            g.neutral <= max,
            orig@ == frame::source_block(
                src.y@,
                f.src_w as int,
                f.src_h as int,
                row as int,
                col as int,
                n as int,
            ),
            orig@.len() == n * n,
            forall|k: int| 0 <= k < modes@.len() ==> #[trigger] modes@[k] <= 34,
            r@.len() == i,
            forall|k: int|
                0 <= k < i ==> #[trigger] r@[k] == luma_satd(
                    *f,
                    *src,
                    pic.y@,
                    row as int,
                    col as int,
                    n as int,
                    min_pu as int,
                    modes@[k] as int,
                ),
    {
        let pred: Vec<u16> = predict_luma(&pic.y, g, modes[i], max);
        let c: u32 = satd_scalar(&orig, &pred, n);
        r.push(c);
    }
    r
}

/// The modes with which the search of a quarter starts.
pub const COARSE_MODES: [u8; 11] = [0, 1, 2, 6, 10, 14, 18, 22, 26, 30, 34];

/// The first place of the least number.
pub open spec fn least_at(s: Seq<u64>, k: int) -> bool {
    &&& 0 <= k < s.len()
    &&& forall|i: int| 0 <= i < s.len() ==> s[k] <= #[trigger] s[i]
    &&& forall|i: int| 0 <= i < k ==> s[k] < #[trigger] s[i]
}

/// The cheapest entry, the first one of several.
pub fn cheapest(costs: &[u64]) -> (r: usize)
    requires
        costs@.len() > 0,
    ensures
        least_at(costs@, r as int),
{
    let mut r: usize = 0;
    for i in 1..costs.len()
        invariant
            0 <= r < i <= costs@.len(),
            forall|k: int| 0 <= k < i ==> costs@[r as int] <= #[trigger] costs@[k],
            forall|k: int| 0 <= k < r ==> costs@[r as int] < #[trigger] costs@[k],
    {
        if costs[i] < costs[r] {
            r = i;
        }
    }
    r
}

/// A list with a mode at its end, unless the mode is in it.
pub open spec fn with_mode(s: Seq<u8>, mode: u8) -> Seq<u8> {
    if s.contains(mode) {
        s
    } else {
        s.push(mode)
    }
}

/// A list with those of `more` at its end that are not in it yet.
pub open spec fn with_modes(s: Seq<u8>, more: Seq<u8>) -> Seq<u8>
    decreases more.len(),
{
    if more.len() == 0 {
        s
    } else {
        with_mode(with_modes(s, more.drop_last()), more.last())
    }
}

/// A direction, if there is one of this number.
pub open spec fn direction(mode: int) -> Seq<u8> {
    if 2 <= mode <= 34 {
        seq![mode as u8]
    } else {
        Seq::empty()
    }
}

/// The directions up to two steps from another one.
pub open spec fn near(mode: int) -> Seq<u8> {
    if mode < 2 {
        Seq::empty()
    } else {
        direction(mode - 2) + direction(mode - 1) + direction(mode + 1) + direction(mode + 2)
    }
}

/// The modes of a quarter that are ranked: the coarse ones, those near the best of
/// them, and the probable ones.
pub open spec fn ranked_modes(best: int, mpm: Seq<u8>) -> Seq<u8> {
    with_modes(with_modes(COARSE_MODES@, near(best)), mpm)
}

fn is_listed(list: &Vec<u8>, mode: u8) -> (r: bool)
    ensures
        r == list@.contains(mode),
{
    for i in 0..list.len()
        invariant
            forall|k: int| 0 <= k < i ==> #[trigger] list@[k] != mode,
    {
        if list[i] == mode {
            assert(list@[i as int] == mode);
            return true;
        }
    }
    false
}

fn put_mode(list: &mut Vec<u8>, mode: u8)
    ensures
        final(list)@ == with_mode(old(list)@, mode),
{
    if !is_listed(list, mode) {
        list.push(mode);
    }
}

proof fn lemma_with_direction(s: Seq<u8>, more: Seq<u8>, mode: int)
    ensures
        with_modes(s, more + direction(mode)) == if 2 <= mode <= 34 {
            with_mode(with_modes(s, more), mode as u8)
        } else {
            with_modes(s, more)
        },
{
    let all = more + direction(mode);
    if 2 <= mode <= 34 {
        assert(all.drop_last() =~= more);
        assert(all.last() == mode as u8);
    } else {
        assert(all =~= more);
    }
}

/// Lists the modes of a quarter that are ranked, given the best coarse one.
pub fn modes_to_rank(best: u8, mpm: &[u8; 3]) -> (r: Vec<u8>)
    requires
        best <= 34,
    ensures
        r@ == ranked_modes(best as int, mpm@),
{
    let mut r: Vec<u8> = Vec::new();
    for i in 0..11usize
        invariant
            r@ == COARSE_MODES@.take(i as int),
    {
        r.push(COARSE_MODES[i]);
        assert(r@ =~= COARSE_MODES@.take(i + 1));
    }
    assert(r@ =~= COARSE_MODES@);
    let ghost s = COARSE_MODES@;
    proof {
        let b = best as int;
        let none = Seq::<u8>::empty();
        lemma_with_direction(s, none, b - 2);
        assert(none + direction(b - 2) =~= direction(b - 2));
        lemma_with_direction(s, direction(b - 2), b - 1);
        lemma_with_direction(s, direction(b - 2) + direction(b - 1), b + 1);
        lemma_with_direction(s, direction(b - 2) + direction(b - 1) + direction(b + 1), b + 2);
    }
    if best >= 2 {
        if best >= 4 {
            put_mode(&mut r, best - 2);
        }
        if best >= 3 {
            put_mode(&mut r, best - 1);
        }
        if best <= 33 {
            put_mode(&mut r, best + 1);
        }
        if best <= 32 {
            put_mode(&mut r, best + 2);
        }
    }
    let ghost t = r@;
    assert(t == with_modes(s, near(best as int)));
    for i in 0..3usize
        invariant
            r@ == with_modes(t, mpm@.take(i as int)),
    {
        put_mode(&mut r, mpm[i]);
        proof {
            let m = mpm@.take(i + 1);
            assert(m.drop_last() =~= mpm@.take(i as int));
            assert(m.last() == mpm@[i as int]);
        }
    }
    assert(mpm@.take(3) =~= mpm@);
    r
}

/// No mode is listed twice.
pub open spec fn distinct(s: Seq<u8>) -> bool {
    forall|i: int, j: int| 0 <= i < j < s.len() ==> #[trigger] s[i] != #[trigger] s[j]
}

pub proof fn lemma_with_modes(s: Seq<u8>, more: Seq<u8>)
    requires
        distinct(s),
    ensures
        distinct(with_modes(s, more)),
        forall|m: u8| #[trigger] s.contains(m) ==> with_modes(s, more).contains(m),
        forall|m: u8| #[trigger] more.contains(m) ==> with_modes(s, more).contains(m),
    decreases more.len(),
{
    if more.len() > 0 {
        let (a, m) = (with_modes(s, more.drop_last()), more.last());
        lemma_with_modes(s, more.drop_last());
        let r = with_modes(s, more);
        assert(r == with_mode(a, m));
        assert forall|x: u8| #[trigger] a.contains(x) implies r.contains(x) by {
            let k = a.index_of(x);
            assert(r[k] == x);
        }
        assert(r.contains(m)) by {
            if !a.contains(m) {
                assert(r[a.len() as int] == m);
            }
        }
        assert forall|x: u8| #[trigger] more.contains(x) implies r.contains(x) by {
            let k = more.index_of(x);
            if k < more.len() - 1 {
                assert(more.drop_last()[k] == x);
                assert(more.drop_last().contains(x));
            }
        }
    }
}

/// Every coarse mode and every probable one is ranked, and none of them twice.
pub proof fn law_ranked_modes_are_distinct(best: int, mpm: Seq<u8>)
    ensures
        distinct(ranked_modes(best, mpm)),
        forall|m: u8| #[trigger] COARSE_MODES@.contains(m) ==> ranked_modes(best, mpm).contains(m),
        forall|m: u8| #[trigger] mpm.contains(m) ==> ranked_modes(best, mpm).contains(m),
{
    let s = COARSE_MODES@;
    assert(distinct(s));
    lemma_with_modes(s, near(best));
    lemma_with_modes(with_modes(s, near(best)), mpm);
}

/// The cheapest `keep` of the first `k` modes.
pub open spec fn kept(modes: Seq<u8>, costs: Seq<u64>, keep: int, k: int) -> Seq<IntraModeCandidate>
    decreases k,
{
    if k <= 0 {
        Seq::new(keep as nat, |i: int| IntraModeCandidate { mode: 0, cost: u64::MAX })
    } else {
        candidates::offered(
            kept(modes, costs, keep, k - 1),
            candidates::luma_cost(),
            (IntraModeCandidate { mode: modes[k - 1], cost: costs[k - 1] }),
        )
    }
}

/// The cost of a mode among the first `k`, the largest number if it has none.
pub open spec fn cost_among(modes: Seq<u8>, costs: Seq<u64>, mode: u8, k: int) -> u64
    decreases k,
{
    if k <= 0 {
        u64::MAX
    } else if modes[k - 1] == mode {
        costs[k - 1]
    } else {
        cost_among(modes, costs, mode, k - 1)
    }
}

/// A growing list after more candidates.
pub open spec fn grown_by(s: Seq<IntraModeCandidate>, more: Seq<IntraModeCandidate>) -> Seq<
    IntraModeCandidate,
>
    decreases more.len(),
{
    if more.len() == 0 {
        s
    } else {
        candidates::grown(grown_by(s, more.drop_last()), more.last())
    }
}

/// Candidates for modes, each with its cost.
pub open spec fn with_costs(modes: Seq<u8>, costs: Seq<u64>, of: Seq<u8>) -> Seq<
    IntraModeCandidate,
> {
    Seq::new(
        of.len(),
        |i: int|
            IntraModeCandidate {
                mode: of[i],
                cost: cost_among(modes, costs, of[i], modes.len() as int),
            },
    )
}

/// The modes that are always tried without loss: there the residual is taken as
/// differences.
pub open spec fn straight() -> Seq<u8> {
    seq![10u8, 26u8]
}

/// The short list of a block: the cheapest modes, the probable ones, and without
/// loss the straight ones, cheapest first.
pub open spec fn short_list(
    modes: Seq<u8>,
    costs: Seq<u64>,
    keep: int,
    mpm: Seq<u8>,
    lossless: bool,
) -> Seq<IntraModeCandidate> {
    let a = grown_by(Seq::empty(), kept(modes, costs, keep, modes.len() as int));
    let b = grown_by(a, with_costs(modes, costs, mpm));
    if lossless {
        grown_by(b, with_costs(modes, costs, straight()))
    } else {
        b
    }
}

fn cost_of_mode(modes: &[u8], costs: &[u64], mode: u8) -> (r: u64)
    requires
        modes@.len() == costs@.len(),
    ensures
        r == cost_among(modes@, costs@, mode, modes@.len() as int),
{
    let mut r: u64 = u64::MAX;
    for i in 0..modes.len()
        invariant
            modes@.len() == costs@.len(),
            r == cost_among(modes@, costs@, mode, i as int),
    {
        if modes[i] == mode {
            r = costs[i];
        }
    }
    r
}

fn grow(list: &mut Vec<IntraModeCandidate>, modes: &[u8], costs: &[u64], of: &[u8])
    requires
        modes@.len() == costs@.len(),
    ensures
        final(list)@ == grown_by(old(list)@, with_costs(modes@, costs@, of@)),
{
    let ghost s = list@;
    let ghost all = with_costs(modes@, costs@, of@);
    assert(all.take(0) =~= Seq::empty());
    for i in 0..of.len()
        invariant
            modes@.len() == costs@.len(),
            all == with_costs(modes@, costs@, of@),
            list@ == grown_by(s, all.take(i as int)),
    {
        let c: IntraModeCandidate = IntraModeCandidate {
            mode: of[i],
            cost: cost_of_mode(modes, costs, of[i]),
        };
        push_sorted_unique_candidate(list, c);
        proof {
            assert(all.take(i + 1).drop_last() =~= all.take(i as int));
            assert(all.take(i + 1).last() == c);
        }
    }
    assert(all.take(of@.len() as int) =~= all);
}

/// Makes the short list of a block from the modes that were ranked and their costs.
pub fn shortlist(modes: &[u8], costs: &[u64], keep: usize, mpm: &[u8; 3], lossless: bool) -> (r: Vec<
    IntraModeCandidate,
>)
    requires
        modes@.len() == costs@.len(),
    ensures
        r@ == short_list(modes@, costs@, keep as int, mpm@, lossless),
{
    let mut best: Vec<IntraModeCandidate> = Vec::new();
    for i in 0..keep
        invariant
            best@.len() == i,
            forall|k: int|
                0 <= k < i ==> #[trigger] best@[k] == (IntraModeCandidate {
                    mode: 0,
                    cost: u64::MAX,
                }),
    {
        best.push(IntraModeCandidate { mode: 0, cost: u64::MAX });
    }
    assert(best@ =~= kept(modes@, costs@, keep as int, 0));
    for i in 0..modes.len()
        invariant
            modes@.len() == costs@.len(),
            best@ == kept(modes@, costs@, keep as int, i as int),
    {
        update_intra_candidate(&mut best, modes[i], costs[i]);
    }
    let ghost all = best@;
    let mut r: Vec<IntraModeCandidate> = Vec::new();
    assert(all.take(0) =~= Seq::empty());
    assert(r@ =~= Seq::empty());
    for i in 0..best.len()
        invariant
            all == best@,
            r@ == grown_by(Seq::empty(), all.take(i as int)),
    {
        push_sorted_unique_candidate(&mut r, best[i]);
        proof {
            assert(all.take(i + 1).drop_last() =~= all.take(i as int));
            assert(all.take(i + 1).last() == best@[i as int]);
        }
    }
    assert(all.take(all.len() as int) =~= all);
    grow(&mut r, modes, costs, mpm);
    if lossless {
        let two: [u8; 2] = [10, 26];
        assert(two@ =~= straight());
        grow(&mut r, modes, costs, &two);
    }
    r
}

proof fn lemma_grown_by(s: Seq<IntraModeCandidate>, more: Seq<IntraModeCandidate>)
    requires
        candidates::sorted(s, candidates::luma_cost()),
        candidates::unique(s),
    ensures
        candidates::sorted(grown_by(s, more), candidates::luma_cost()),
        candidates::unique(grown_by(s, more)),
        forall|m: u8| candidates::lists(s, m) ==> #[trigger] candidates::lists(grown_by(s, more), m),
        forall|i: int|
            0 <= i < more.len() ==> candidates::lists(
                grown_by(s, more),
                (#[trigger] more[i]).mode,
            ),
    decreases more.len(),
{
    if more.len() > 0 {
        let (a, c) = (grown_by(s, more.drop_last()), more.last());
        lemma_grown_by(s, more.drop_last());
        candidates::law_growing_keeps_order_and_modes(a, c);
        let r = grown_by(s, more);
        assert forall|m: u8| candidates::lists(a, m) implies #[trigger] candidates::lists(r, m) by {
            candidates::lemma_grown_lists(a, c, m);
        }
        assert forall|i: int| 0 <= i < more.len() implies candidates::lists(
            r,
            (#[trigger] more[i]).mode,
        ) by {
            if i < more.len() - 1 {
                assert(more.drop_last()[i] == more[i]);
                assert(candidates::lists(a, more[i].mode));
            }
        }
    }
}

/// A short list grows in cost, lists no mode twice, has every probable mode, and
/// without loss both straight ones.
pub proof fn law_probable_modes_are_listed(
    modes: Seq<u8>,
    costs: Seq<u64>,
    keep: int,
    mpm: Seq<u8>,
    lossless: bool,
)
    ensures
        ({
            let r = short_list(modes, costs, keep, mpm, lossless);
            &&& candidates::sorted(r, candidates::luma_cost())
            &&& candidates::unique(r)
            &&& forall|i: int| 0 <= i < mpm.len() ==> candidates::lists(r, #[trigger] mpm[i])
            &&& lossless ==> candidates::lists(r, 10) && candidates::lists(r, 26)
        }),
{
    let best = kept(modes, costs, keep, modes.len() as int);
    let a = grown_by(Seq::empty(), best);
    lemma_grown_by(Seq::empty(), best);
    let more = with_costs(modes, costs, mpm);
    let b = grown_by(a, more);
    lemma_grown_by(a, more);
    let two = with_costs(modes, costs, straight());
    lemma_grown_by(b, two);
    assert forall|i: int| 0 <= i < mpm.len() implies candidates::lists(
        short_list(modes, costs, keep, mpm, lossless),
        #[trigger] mpm[i],
    ) by {
        assert(more[i].mode == mpm[i]);
        assert(candidates::lists(b, mpm[i]));
        assert(candidates::lists(grown_by(b, two), mpm[i]));
    }
    assert(two[0].mode == 10 && two[1].mode == 26);
}

/// A short list in the order in which it is tried, and how many of it are: the
/// cheapest, and without loss the straight modes.
pub open spec fn tried(s: Seq<IntraModeCandidate>, n: int, limit: u64, lossless: bool) -> (
    Seq<IntraModeCandidate>,
    int,
) {
    let count = candidates::full_count(s, n, limit);
    if lossless {
        let a = candidates::promoted(s, count, 10);
        candidates::promoted(a.0, a.1, 26)
    } else {
        (s, count)
    }
}

/// Puts a short list into the order in which it is tried and says how many of it
/// are.
pub fn modes_to_try(
    list: &mut Vec<IntraModeCandidate>,
    n: usize,
    limit: u64,
    lossless: bool,
) -> (r: usize)
    ensures
        (final(list)@, r as int) == tried(old(list)@, n as int, limit, lossless),
        r <= final(list)@.len(),
{
    let mut count: usize = full_rdo_candidate_count(list, n, limit);
    if lossless {
        count = promote(list, count, 10);
        count = promote(list, count, 26);
    }
    count
}

/// What a block of a chroma plane is left with.
pub open spec fn block_satd(f: Frame, src: Seq<u16>, plane: Seq<u16>, b: ChromaBlock) -> int {
    cost::satd_of(b.source(f, src), b.pred(f, plane), b.n as int)
}

/// What the first `k` chroma blocks are left with in both planes.
pub open spec fn chroma_satd(f: Frame, src: Yuv, pic: Picture, bs: Seq<ChromaBlock>, k: int) -> int
    decreases k,
{
    if k <= 0 {
        0
    } else {
        chroma_satd(f, src, pic, bs, k - 1) + block_satd(f, src.cb@, pic.cb@, bs[k - 1])
            + block_satd(f, src.cr@, pic.cr@, bs[k - 1])
    }
}

/// The chroma blocks of a unit whose chroma is not cut, with a chroma choice.
pub open spec fn choice_blocks(f: Frame, place: CuPlace, luma_mode: u8, k: u8) -> Seq<ChromaBlock> {
    place.chroma_blocks(f, (CuChoice::Whole { mode: luma_mode, chroma: k }))
}

fn satd_of_block(f: &Frame, src: &Yuv, pic: &Picture, first: bool, b: ChromaBlock) -> (r: u32)
    requires
        f.wf(),
        f.source_ok(*src),
        f.picture_ok(*pic),
        b.ok(*f),
    ensures
        r == block_satd(
            *f,
            commit::plane_of(first, src.cb@, src.cr@),
            commit::plane_of(first, pic.cb@, pic.cr@),
            b,
        ),
{
    let max: u16 = f.bit_depth.max_val();
    let n: usize = b.n;
    proof {
        f.lemma_chroma_dims();
        assert(f.ch * f.cw == f.cw * f.ch) by (nonlinear_arith);
        transform::lemma_area(n as int);
    }
    let g: refs::ChromaRefGeometry = f.chroma_geo(b.row, b.col, n, b.min_pu, b.lrow, b.lcol);
    let smooth: bool = b.smooth && n > 4 && should_filter_refs(b.mode, n);
    let pred: Vec<u16> = predict_chroma(&pic.cb, &pic.cr, first, g, b.mode, smooth, max);
    let orig: Vec<u16> = if first {
        take_block(&src.cb, f.src_cw, f.src_ch, b.row, b.col, n, Ghost(f.max()))
    } else {
        take_block(&src.cr, f.src_cw, f.src_ch, b.row, b.col, n, Ghost(f.max()))
    };
    satd_scalar(&orig, &pred, n)
}

/// Measures what each chroma choice leaves of the chroma of a unit.
pub fn chroma_satds(f: &Frame, src: &Yuv, pic: &Picture, place: CuPlace, luma_mode: u8) -> (r: [u64; 5])
    requires
        f.wf(),
        f.source_ok(*src),
        f.picture_ok(*pic),
        place.ok(*f),
        luma_mode <= 34,
        !(f.chroma is Monochrome),
    ensures
        forall|k: int|
            0 <= k < 5 ==> #[trigger] r@[k] == ({
                let bs = choice_blocks(*f, place, luma_mode, k as u8);
                chroma_satd(*f, *src, *pic, bs, bs.len() as int)
            }),
{
    let mut r: [u64; 5] = [0;5];
    for k in 0..5u8
        invariant
            f.wf(),
            f.source_ok(*src),
            f.picture_ok(*pic),
            place.ok(*f),
            luma_mode <= 34,
            !(f.chroma is Monochrome),
            forall|i: int|
                0 <= i < k ==> #[trigger] r@[i] == ({
                    let bs = choice_blocks(*f, place, luma_mode, i as u8);
                    chroma_satd(*f, *src, *pic, bs, bs.len() as int)
                }),
    {
        let choice: CuChoice = CuChoice::Whole { mode: luma_mode, chroma: k };
        let bs: Vec<ChromaBlock> = place.list_chroma(f, &choice);
        assert(bs@.len() <= 2);
        let mut sum: u64 = 0;
        for t in 0..bs.len()
            invariant
                f.wf(),
                f.source_ok(*src),
                f.picture_ok(*pic),
                bs@.len() <= 2,
                forall|i: int| 0 <= i < bs@.len() ==> (#[trigger] bs@[i]).ok(*f),
                sum == chroma_satd(*f, *src, *pic, bs@, t as int),
                sum <= 0x1_ffff_fffe * t,
        {
            assert(bs@[t as int].ok(*f));
            let a: u32 = satd_of_block(f, src, pic, true, bs[t]);
            let b: u32 = satd_of_block(f, src, pic, false, bs[t]);
            sum = sum + a as u64 + b as u64;
        }
        r[k as usize] = sum;
    }
    r
}

/// A plane with the source in a block of it.
pub open spec fn seeded(f: Frame, src: Seq<u16>, plane: Seq<u16>, b: ChromaBlock) -> Seq<u16> {
    planes::with_block(
        plane,
        f.cw as int,
        b.row as int,
        b.col as int,
        b.n as int,
        b.n as int,
        b.source(f, src),
    )
}

/// Puts the source into the upper one of two chroma blocks, so that the lower one can
/// be measured before either is coded. Where there is one block nothing is put.
pub fn seed_chroma(f: &Frame, src: &Yuv, pic: &mut Picture, place: CuPlace)
    requires
        f.wf(),
        f.source_ok(*src),
        f.picture_ok(*old(pic)),
        place.ok(*f),
    ensures
        f.picture_ok(*final(pic)),
        final(pic).y == old(pic).y,
        ({
            let b = place.chroma_whole(*f, 0, 0);
            if f.chroma is Yuv422 {
                &&& final(pic).cb@ == seeded(*f, src.cb@, old(pic).cb@, b)
                &&& final(pic).cr@ == seeded(*f, src.cr@, old(pic).cr@, b)
            } else {
                final(pic).cb == old(pic).cb && final(pic).cr == old(pic).cr
            }
        }),
{
    if !matches!(f.chroma, ChromaFormat::Yuv422) {
        return ;
    }
    let choice: CuChoice = CuChoice::Whole { mode: 0, chroma: 0 };
    let bs: Vec<ChromaBlock> = place.list_chroma(f, &choice);
    let b: ChromaBlock = bs[0];
    let n: usize = b.n;
    proof {
        assert(bs@[0].ok(*f));
        f.lemma_chroma_dims();
        assert(f.ch * f.cw == f.cw * f.ch) by (nonlinear_arith);
        transform::lemma_area(n as int);
    }
    let cb: Vec<u16> = take_block(&src.cb, f.src_cw, f.src_ch, b.row, b.col, n, Ghost(f.max()));
    let cr: Vec<u16> = take_block(&src.cr, f.src_cw, f.src_ch, b.row, b.col, n, Ghost(f.max()));
    proof {
        let (w, h) = (f.cw as int, f.ch as int);
        let (r, c) = (b.row as int, b.col as int);
        commit::lemma_with_block_le(pic.cb@, w, h, r, c, n as int, cb@, f.max());
        commit::lemma_with_block_le(pic.cr@, w, h, r, c, n as int, cr@, f.max());
    }
    put_block(&mut pic.cb, f.cw, b.row, b.col, n, n, &cb, Ghost(f.ch as int));
    put_block(&mut pic.cr, f.cw, b.row, b.col, n, n, &cr, Ghost(f.ch as int));
}

/// The order in which chroma choices are ranked: that of the luma first.
pub const CHROMA_ORDER: [usize; 5] = [4, 0, 3, 1, 2];

/// A chroma choice with its cost.
pub open spec fn chroma_candidate(luma_mode: u8, chroma: ChromaFormat, k: int, cost: u64) ->
    ChromaModeCandidate {
    ChromaModeCandidate {
        pred_mode: modes::chroma_mode_of(luma_mode as int, chroma, k) as u8,
        syntax_idx: k as u8,
        cost,
    }
}

/// The first `k` chroma choices, cheapest first.
pub open spec fn chroma_list(luma_mode: u8, chroma: ChromaFormat, costs: Seq<u64>, k: int) -> Seq<
    ChromaModeCandidate,
>
    decreases k,
{
    if k <= 0 {
        Seq::new(5, |i: int| ChromaModeCandidate { pred_mode: 0, syntax_idx: 0, cost: u64::MAX })
    } else {
        let c = CHROMA_ORDER@[k - 1] as int;
        candidates::offered(
            chroma_list(luma_mode, chroma, costs, k - 1),
            candidates::chroma_cost(),
            chroma_candidate(luma_mode, chroma, c, costs[c]),
        )
    }
}

/// Lists the chroma choices, cheapest first.
pub fn rank_chroma(luma_mode: u8, chroma: ChromaFormat, costs: &[u64; 5]) -> (r: Vec<
    ChromaModeCandidate,
>)
    requires
        luma_mode <= 34,
    ensures
        r@ == chroma_list(luma_mode, chroma, costs@, 5),
{
    let all: [ChromaModeCandidate; 5] = chroma_mode_candidates(luma_mode, chroma);
    let mut r: Vec<ChromaModeCandidate> = Vec::new();
    for i in 0..5usize
        invariant
            r@.len() == i,
            forall|k: int|
                0 <= k < i ==> #[trigger] r@[k] == (ChromaModeCandidate {
                    pred_mode: 0,
                    syntax_idx: 0,
                    cost: u64::MAX,
                }),
    {
        r.push(ChromaModeCandidate { pred_mode: 0, syntax_idx: 0, cost: u64::MAX });
    }
    assert(r@ =~= chroma_list(luma_mode, chroma, costs@, 0));
    for i in 0..5usize
        invariant
            luma_mode <= 34,
            forall|k: int|
                0 <= k < 5 ==> {
                    &&& (#[trigger] all@[k]).pred_mode == modes::chroma_mode_of(
                        luma_mode as int,
                        chroma,
                        k,
                    )
                    &&& all@[k].syntax_idx == k
                },
            r@ == chroma_list(luma_mode, chroma, costs@, i as int),
    {
        let k: usize = CHROMA_ORDER[i];
        let c: ChromaModeCandidate = all[k];
        let d: ChromaModeCandidate = ChromaModeCandidate {
            pred_mode: c.pred_mode,
            syntax_idx: c.syntax_idx,
            cost: costs[k],
        };
        assert(d == chroma_candidate(luma_mode, chroma, k as int, costs@[k as int]));
        update_chroma_candidate(&mut r, d);
    }
    r
}

} // verus!
