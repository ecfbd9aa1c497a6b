//! Transform blocks: predicting one, turning what is left into levels, and putting
//! the samples that a decoder will see into the picture.
use crate::arith;
use crate::intra;
use crate::intra::{predict, should_filter_refs};
use crate::quant;
use crate::quant::dequantize_into;
use crate::rdpcm;
use crate::rdpcm::{forward_lossless_rdpcm_into, implicit_rdpcm_mode};
use crate::refs;
use crate::refs::{
    compute_residual_i32, filter_corner, filter_references, get_reference_samples,
    get_reference_samples_chroma_pair, reconstruct, ChromaRefGeometry, LumaRefGeometry,
};
use crate::scan;
use crate::scan::coeff_scan;
use crate::transform;
use crate::transform::log2_of;
use crate::transform2d;
use crate::transform2d::{
    fwd_transform_scalar, inv_transform_scalar,
};
use vstd::prelude::*;

verus! {

/// The corner and the two edges of reference samples.
pub struct Refs {
    pub corner: u16,
    pub above: Seq<u16>,
    pub left: Seq<u16>,
}

/// The reference samples that a line of positions makes up.
pub open spec fn refs_of(line: Seq<Option<u16>>, neutral: u16, n: int) -> Refs {
    Refs {
        corner: refs::substituted(line, neutral, 2 * n + 1),
        above: Seq::new(
            (2 * n + 1) as nat,
            |i: int| refs::substituted(line, neutral, 2 * n + 2 + i),
        ),
        left: Seq::new((2 * n + 1) as nat, |i: int| refs::substituted(line, neutral, 2 * n - i)),
    }
}

/// The reference samples as prediction uses them, smoothed or not.
pub open spec fn ready(r: Refs, smooth: bool, n: int) -> Refs {
    if smooth {
        Refs {
            corner: refs::smoothed_corner(r.corner, r.above, r.left) as u16,
            above: Seq::new(
                (2 * n + 1) as nat,
                |x: int| refs::smoothed(r.corner, r.above, n, x) as u16,
            ),
            left: Seq::new(
                (2 * n + 1) as nat,
                |x: int| refs::smoothed(r.corner, r.left, n, x) as u16,
            ),
        }
    } else {
        r
    }
}

/// The prediction of an `n` by `n` block, row by row.
pub open spec fn prediction(mode: int, r: Refs, n: int, edge: bool, max_val: int) -> Seq<u16> {
    Seq::new(
        (n * n) as nat,
        |x: int|
            intra::pred_at(
                mode,
                r.corner,
                r.above,
                r.left,
                n,
                edge,
                max_val,
                x / n,
                x % n,
            ) as u16,
    )
}

/// The prediction of a luma block from the samples around it.
pub open spec fn luma_pred(plane: Seq<u16>, g: LumaRefGeometry, mode: int, max_val: int) -> Seq<
    u16,
> {
    let n = g.n as int;
    prediction(
        mode,
        ready(refs_of(g.line(plane), g.neutral, n), intra::smooths(mode, n), n),
        n,
        true,
        max_val,
    )
}

/// The prediction of a chroma block from the samples around it.
pub open spec fn chroma_pred(
    plane: Seq<u16>,
    g: ChromaRefGeometry,
    mode: int,
    smooth: bool,
    max_val: int,
) -> Seq<u16> {
    let n = g.n as int;
    prediction(mode, ready(refs_of(g.line(plane), g.neutral, n), smooth, n), n, false, max_val)
}

/// No sample is larger than `max`.
pub open spec fn samples_le(s: Seq<u16>, max: int) -> bool {
    forall|i: int| 0 <= i < s.len() ==> #[trigger] s[i] <= max
}

/// Reference samples up to `max` predict samples up to `max`.
proof fn lemma_prediction_le(
    line: Seq<Option<u16>>,
    neutral: u16,
    n: int,
    mode: int,
    smooth: bool,
    edge: bool,
    max: int,
)
    requires
        transform::is_size(n),
        0 <= mode <= 34,
        line.len() == refs::ref_count(n),
        refs::line_le(line, max),
        neutral <= max <= 65535,
    ensures
        ({
            let r = ready(refs_of(line, neutral, n), smooth, n);
            &&& samples_le(prediction(mode, r, n, edge, max), max)
            &&& forall|x: int|
                0 <= x < n * n ==> #[trigger] prediction(mode, r, n, edge, max)[x]
                    == intra::pred_at(
                    mode,
                    r.corner,
                    r.above,
                    r.left,
                    n,
                    edge,
                    max,
                    x / n,
                    x % n,
                )
        }),
{
    let r0 = refs_of(line, neutral, n);
    refs::lemma_substituted_le(line, neutral, 2 * n + 1, max);
    assert forall|i: int| 0 <= i < r0.above.len() implies #[trigger] r0.above[i] <= max by {
        refs::lemma_substituted_le(line, neutral, 2 * n + 2 + i, max);
    }
    assert forall|i: int| 0 <= i < r0.left.len() implies #[trigger] r0.left[i] <= max by {
        refs::lemma_substituted_le(line, neutral, 2 * n - i, max);
    }
    let r = ready(r0, smooth, n);
    assert(r0.above[0] <= max && r0.left[0] <= max);
    assert forall|i: int| 0 <= i < r.above.len() implies #[trigger] r.above[i] <= max by {
        if smooth {
            assert(r0.above[i] <= max);
            if 0 < i < 2 * n - 1 {
                assert(r0.above[i - 1] <= max && r0.above[i + 1] <= max);
            }
            if i == 0 {
                assert(r0.above[1] <= max);
            }
        }
    }
    assert forall|i: int| 0 <= i < r.left.len() implies #[trigger] r.left[i] <= max by {
        if smooth {
            assert(r0.left[i] <= max);
            if 0 < i < 2 * n - 1 {
                assert(r0.left[i - 1] <= max && r0.left[i + 1] <= max);
            }
            if i == 0 {
                assert(r0.left[1] <= max);
            }
        }
    }
    let p = prediction(mode, r, n, edge, max);
    assert forall|x: int| 0 <= x < n * n implies #[trigger] p[x] <= max && p[x] == intra::pred_at(
        mode,
        r.corner,
        r.above,
        r.left,
        n,
        edge,
        max,
        x / n,
        x % n,
    ) by {
        assert(0 <= x / n < n && 0 <= x % n < n) by (nonlinear_arith)
            requires
                0 <= x < n * n,
                0 < n,
        ;
        intra::lemma_pred_le(mode, r.corner, r.above, r.left, n, edge, max, x / n, x % n);
    }
}

/// The samples of a plane at available positions are not larger than the plane's.
proof fn lemma_luma_line_le(plane: Seq<u16>, g: LumaRefGeometry, max: int)
    requires
        g.wf(),
        plane.len() >= g.height * g.stride,
        samples_le(plane, max),
    ensures
        refs::line_le(g.line(plane), max),
        g.line(plane).len() == refs::ref_count(g.n as int),
{
    let line = g.line(plane);
    assert forall|i: int| 0 <= i < line.len() implies (#[trigger] line[i] matches Some(v) ==> v
        <= max) by {
        let p = refs::ref_pos(g.block_row as int, g.block_col as int, g.n as int, i);
        if g.available(p.0, p.1) {
            refs::lemma_inside(p.0, p.1, g.stride as int, g.height as int);
        }
    }
}

proof fn lemma_chroma_line_le(plane: Seq<u16>, g: ChromaRefGeometry, max: int)
    requires
        g.wf(),
        plane.len() >= g.chroma_h * g.stride,
        samples_le(plane, max),
    ensures
        refs::line_le(g.line(plane), max),
        g.line(plane).len() == refs::ref_count(g.n as int),
{
    let line = g.line(plane);
    assert forall|i: int| 0 <= i < line.len() implies (#[trigger] line[i] matches Some(v) ==> v
        <= max) by {
        let p = refs::ref_pos(g.block_row as int, g.block_col as int, g.n as int, i);
        if g.available(p.0, p.1) {
            refs::lemma_inside(p.0, p.1, g.stride as int, g.chroma_h as int);
        }
    }
}

/// A luma block of a plane with samples up to `max` is predicted by samples up to
/// `max`.
pub proof fn lemma_luma_pred_le(plane: Seq<u16>, g: LumaRefGeometry, mode: int, max: int)
    requires
        g.wf(),
        0 <= mode <= 34,
        plane.len() >= g.height * g.stride,
        samples_le(plane, max),
        g.neutral <= max <= 65535,
    ensures
        samples_le(luma_pred(plane, g, mode, max), max),
{
    lemma_luma_line_le(plane, g, max);
    let n = g.n as int;
    lemma_prediction_le(
        g.line(plane),
        g.neutral,
        n,
        mode,
        intra::smooths(mode, n),
        true,
        max,
    );
}

/// The same for a chroma block.
pub proof fn lemma_chroma_pred_le(
    plane: Seq<u16>,
    g: ChromaRefGeometry,
    mode: int,
    smooth: bool,
    max: int,
)
    requires
        g.wf(),
        0 <= mode <= 34,
        plane.len() >= g.chroma_h * g.stride,
        samples_le(plane, max),
        g.neutral <= max <= 65535,
    ensures
        samples_le(chroma_pred(plane, g, mode, smooth, max), max),
{
    lemma_chroma_line_le(plane, g, max);
    lemma_prediction_le(g.line(plane), g.neutral, g.n as int, mode, smooth, false, max);
}

/// Predicts from gathered reference samples.
fn predict_from(
    corner: u16,
    above: Vec<u16>,
    left: Vec<u16>,
    n: usize,
    mode: u8,
    smooth: bool,
    edge: bool,
    max_val: u16,
    Ghost(line): Ghost<Seq<Option<u16>>>,
    Ghost(neutral): Ghost<u16>,
) -> (r: Vec<u16>)
    requires
        transform::is_size(n as int),
        mode <= 34,
        refs::refs_are((corner, above@, left@), line, neutral, n as int),
        line.len() == refs::ref_count(n as int),
        refs::line_le(line, max_val as int),
        neutral <= max_val,
    ensures
        r@ == prediction(
            mode as int,
            ready(refs_of(line, neutral, n as int), smooth, n as int),
            n as int,
            edge,
            max_val as int,
        ),
        samples_le(r@, max_val as int),
{
    let ghost r0 = refs_of(line, neutral, n as int);
    proof {
        assert(r0.above =~= above@);
        assert(r0.left =~= left@);
        lemma_prediction_le(
            line,
            neutral,
            n as int,
            mode as int,
            smooth,
            edge,
            max_val as int,
        );
    }
    let ghost rr = ready(r0, smooth, n as int);
    let out: Vec<u16>;
    if smooth {
        let (fa, fl): (Vec<u16>, Vec<u16>) = filter_references(corner, &above, &left, n);
        let fc: u16 = filter_corner(corner, &above, &left);
        proof {
            assert(rr.above =~= fa@);
            assert(rr.left =~= fl@);
        }
        out = predict(mode, fc, &fa, &fl, n, edge, max_val as i32);
    } else {
        out = predict(mode, corner, &above, &left, n, edge, max_val as i32);
    }
    assert(out@ =~= prediction(mode as int, rr, n as int, edge, max_val as int));
    out
}

/// Predicts a luma block from the picture around it.
pub fn predict_luma(plane: &Vec<u16>, g: LumaRefGeometry, mode: u8, max_val: u16) -> (r: Vec<u16>)
    requires
        g.wf(),
        mode <= 34,
        plane@.len() >= g.height * g.stride,
        samples_le(plane@, max_val as int),
        g.neutral <= max_val,
    ensures
        r@ == luma_pred(plane@, g, mode as int, max_val as int),
        r@.len() == g.n * g.n,
        samples_le(r@, max_val as int),
{
    let (corner, above, left): (u16, Vec<u16>, Vec<u16>) = get_reference_samples(plane, g);
    proof {
        lemma_luma_line_le(plane@, g, max_val as int);
    }
    let smooth: bool = should_filter_refs(mode, g.n);
    predict_from(
        corner,
        above,
        left,
        g.n,
        mode,
        smooth,
        true,
        max_val,
        Ghost(g.line(plane@)),
        Ghost(g.neutral),
    )
}

/// Predicts a chroma block of either plane (`first` for the first one) from the
/// picture around it.
pub fn predict_chroma(
    cb: &Vec<u16>,
    cr: &Vec<u16>,
    first: bool,
    g: ChromaRefGeometry,
    mode: u8,
    smooth: bool,
    max_val: u16,
) -> (r: Vec<u16>)
    requires
        g.wf(),
        mode <= 34,
        cb@.len() >= g.chroma_h * g.stride,
        cr@.len() >= g.chroma_h * g.stride,
        samples_le(cb@, max_val as int),
        samples_le(cr@, max_val as int),
        g.neutral <= max_val,
    ensures
        r@ == chroma_pred(
            if first {
                cb@
            } else {
                cr@
            },
            g,
            mode as int,
            smooth,
            max_val as int,
        ),
        r@.len() == g.n * g.n,
        samples_le(r@, max_val as int),
{
    let (b, r): ((u16, Vec<u16>, Vec<u16>), (u16, Vec<u16>, Vec<u16>)) =
        get_reference_samples_chroma_pair(cb, cr, g);
    proof {
        lemma_chroma_line_le(cb@, g, max_val as int);
        lemma_chroma_line_le(cr@, g, max_val as int);
    }
    if first {
        predict_from(
            b.0,
            b.1,
            b.2,
            g.n,
            mode,
            smooth,
            false,
            max_val,
            Ghost(g.line(cb@)),
            Ghost(g.neutral),
        )
    } else {
        predict_from(
            r.0,
            r.1,
            r.2,
            g.n,
            mode,
            smooth,
            false,
            max_val,
            Ghost(g.line(cr@)),
            Ghost(g.neutral),
        )
    }
}

/// The levels of a block in the order of a scan.
pub open spec fn scanned(levels: Seq<i16>, n: int, scan_idx: int) -> Seq<i16> {
    let log2 = transform::log2_size(n);
    Seq::new(
        (n * n) as nat,
        |k: int|
            levels[scan::scan_pos(log2, scan_idx, k).0 * n + scan::scan_pos(log2, scan_idx, k).1],
    )
}

/// Some level is not zero.
pub open spec fn any_nonzero(zz: Seq<i16>) -> bool {
    exists|k: int| 0 <= k < zz.len() && #[trigger] zz[k] != 0
}

/// The levels of a transform block, row by row and in the order of its scan.
pub struct Tb {
    pub n: usize,
    pub scan_idx: u8,
    pub levels: Vec<i16>,
    pub zz: Vec<i16>,
    pub nz: bool,
}

impl Tb {
    pub open spec fn wf(self) -> bool {
        &&& transform::is_size(self.n as int)
        &&& scan::scan_ok(transform::log2_size(self.n as int), self.scan_idx as int)
        &&& self.levels@.len() == self.n * self.n
        &&& self.zz@ == scanned(self.levels@, self.n as int, self.scan_idx as int)
        &&& self.nz == any_nonzero(self.zz@)
    }
}

/// Brings levels into scan order.
pub fn pack_levels(levels: Vec<i16>, n: usize, scan_idx: u8) -> (r: Tb)
    requires
        transform::is_size(n as int),
        scan::scan_ok(transform::log2_size(n as int), scan_idx as int),
        levels@.len() == n * n,
    ensures
        r.wf(),
        r.n == n,
        r.scan_idx == scan_idx,
        r.levels == levels,
{
    let log2: u32 = log2_of(n);
    let order: Vec<(usize, usize)> = coeff_scan(log2, scan_idx);
    let ghost all = scanned(levels@, n as int, scan_idx as int);
    proof {
        transform::lemma_area(n as int);
        scan::law_scan_is_a_bijection(log2 as int, scan_idx as int);
    }
    let count: usize = order.len();
    assert(count == n * n);
    let mut zz: Vec<i16> = Vec::new();
    let mut nz: bool = false;
    for k in 0..count
        invariant
            transform::is_size(n as int),
            log2 == transform::log2_size(n as int),
            count == n * n,
            order@ == scan::scan_list(log2 as int, scan_idx as int),
            order@.len() == count,
            levels@.len() == n * n,
            n * n <= 1024,
            all == scanned(levels@, n as int, scan_idx as int),
            forall|k: int|
                0 <= k < scan::area(log2 as int) ==> {
                    let p = #[trigger] scan::scan_pos(log2 as int, scan_idx as int, k);
                    0 <= p.0 < scan::side(log2 as int) && 0 <= p.1 < scan::side(log2 as int)
                },
            scan::side(log2 as int) == n,
            scan::area(log2 as int) == n * n,
            zz@.len() == k,
            forall|i: int| 0 <= i < k ==> #[trigger] zz@[i] == all[i],
            nz == (exists|i: int| 0 <= i < k && #[trigger] zz@[i] != 0),
    {
        let (r, c): (usize, usize) = order[k];
        proof {
            let p = scan::scan_pos(log2 as int, scan_idx as int, k as int);
            refs::lemma_inside(r as int, c as int, n as int, n as int);
        }
        let v: i16 = levels[r * n + c];
        let ghost before = zz@;
        zz.push(v);
        proof {
            if nz {
                let i = choose|i: int| 0 <= i < k && #[trigger] before[i] != 0;
                assert(zz@[i] != 0);
            }
            if v != 0 {
                assert(zz@[k as int] != 0);
            } else if exists|i: int| 0 <= i < k + 1 && #[trigger] zz@[i] != 0 {
                let i = choose|i: int| 0 <= i < k + 1 && #[trigger] zz@[i] != 0;
                assert(before[i] != 0);
            }
        }
        nz = nz || v != 0;
    }
    assert(zz@ =~= all);
    Tb { n, scan_idx, levels, zz, nz }
}

/// What prediction leaves of a block.
pub open spec fn residual(orig: Seq<u16>, pred: Seq<u16>, n: int) -> Seq<i32> {
    Seq::new((n * n) as nat, |x: int| (orig[x] - pred[x]) as i32)
}

/// The levels of a block that is coded without loss.
pub open spec fn lossless_levels(orig: Seq<u16>, pred: Seq<u16>, n: int, mode: int) -> Seq<i16> {
    Seq::new(
        (n * n) as nat,
        |x: int|
            rdpcm::forward_at(residual(orig, pred, n), n, rdpcm::rdpcm_of(mode), x) as i16,
    )
}

/// The samples that a decoder makes of the levels of a lossless block.
pub open spec fn lossless_samples(
    pred: Seq<u16>,
    levels: Seq<i16>,
    n: int,
    mode: int,
    max_val: int,
) -> Seq<u16> {
    Seq::new(
        (n * n) as nat,
        |x: int|
            arith::clip(
                0,
                max_val,
                pred[x] + rdpcm::inverse_at(levels, n, rdpcm::rdpcm_of(mode), x),
            ) as u16,
    )
}

/// A decoder finds every sample of a lossless block again, whatever it was
/// predicted from.
pub proof fn law_lossless_blocks_are_exact(
    orig: Seq<u16>,
    pred: Seq<u16>,
    n: int,
    mode: int,
    max_val: int,
)
    requires
        transform::is_size(n),
        orig.len() == n * n,
        pred.len() == n * n,
        samples_le(orig, max_val),
        samples_le(pred, max_val),
        0 <= max_val <= 4095,
    ensures
        lossless_samples(pred, lossless_levels(orig, pred, n, mode), n, mode, max_val) == orig,
{
    let res = residual(orig, pred, n);
    let levels = lossless_levels(orig, pred, n, mode);
    let dir = rdpcm::rdpcm_of(mode);
    assert forall|x: int| 0 <= x < n * n implies -4095 <= #[trigger] res[x] <= 4095 && res[x]
        == orig[x] - pred[x] by {
        assert(orig[x] <= max_val && pred[x] <= max_val);
    }
    assert forall|x: int| 0 <= x < n * n implies #[trigger] levels[x] == rdpcm::forward_at(
        res,
        n,
        dir,
        x,
    ) by {
        assert(-4095 <= res[x] <= 4095);
        if x > 0 {
            assert(-4095 <= res[x - 1] <= 4095);
        }
        if x >= n {
            assert(-4095 <= res[x - n] <= 4095);
        }
    }
    let got = lossless_samples(pred, levels, n, mode, max_val);
    assert forall|x: int| 0 <= x < n * n implies #[trigger] got[x] == orig[x] by {
        rdpcm::law_inverse_undoes_forward(res, levels, n, dir, x);
        assert(orig[x] <= max_val && res[x] == orig[x] - pred[x]);
    }
    assert(got =~= orig);
}

/// Turns a block into levels without loss.
pub fn code_lossless(orig: &[u16], pred: &Vec<u16>, n: usize, mode: u8, scan_idx: u8) -> (r: Tb)
    requires
        transform::is_size(n as int),
        scan::scan_ok(transform::log2_size(n as int), scan_idx as int),
        orig@.len() == n * n,
        pred@.len() == n * n,
        samples_le(orig@, 4095),
        samples_le(pred@, 4095),
    ensures
        r.wf(),
        r.n == n,
        r.scan_idx == scan_idx,
        r.levels@ == lossless_levels(orig@, pred@, n as int, mode as int),
{
    proof {
        transform::lemma_area(n as int);
    }
    let res: Vec<i32> = compute_residual_i32(orig, pred, n);
    assert(res@ =~= residual(orig@, pred@, n as int)) by {
        assert forall|x: int| 0 <= x < n * n implies #[trigger] res@[x] == residual(
            orig@,
            pred@,
            n as int,
        )[x] by {
            assert(orig@[x] <= 4095 && pred@[x] <= 4095);
        }
    }
    assert(rdpcm::differences_fit(res@, n * n)) by {
        assert forall|x: int| 0 <= x < n * n implies -16383 <= #[trigger] res@[x] <= 16383 by {
            assert(orig@[x] <= 4095 && pred@[x] <= 4095);
        }
    }
    let mut levels: Vec<i16> = zero_levels(n);
    forward_lossless_rdpcm_into(&res, n, implicit_rdpcm_mode(mode), &mut levels);
    assert(levels@ =~= lossless_levels(orig@, pred@, n as int, mode as int)) by {
        assert forall|x: int| 0 <= x < n * n implies #[trigger] levels@[x] == lossless_levels(
            orig@,
            pred@,
            n as int,
            mode as int,
        )[x] by {}
    }
    pack_levels(levels, n, scan_idx)
}

/// A block of zero levels.
pub open spec fn zeros(n: int) -> Seq<i16> {
    Seq::new((n * n) as nat, |x: int| 0i16)
}

/// A block without levels.
pub fn zero_levels(n: usize) -> (r: Vec<i16>)
    requires
        transform::is_size(n as int),
    ensures
        r@ == zeros(n as int),
{
    proof {
        transform::lemma_area(n as int);
    }
    let count: usize = n * n;
    let mut r: Vec<i16> = Vec::new();
    for x in 0..count
        invariant
            r@.len() == x,
            forall|i: int| 0 <= i < x ==> #[trigger] r@[i] == 0,
    {
        r.push(0);
    }
    assert(r@ =~= zeros(n as int));
    r
}

fn zero_coeffs(n: usize) -> (r: Vec<i32>)
    requires
        transform::is_size(n as int),
    ensures
        r@.len() == n * n,
{
    proof {
        transform::lemma_area(n as int);
    }
    let count: usize = n * n;
    let mut r: Vec<i32> = Vec::new();
    for x in 0..count
        invariant
            r@.len() == x,
    {
        r.push(0);
    }
    r
}

/// The coefficients of what prediction leaves of a block.
pub open spec fn coefficients(
    orig: Seq<u16>,
    pred: Seq<u16>,
    n: int,
    bit_depth: int,
    sine: bool,
) -> Seq<i32> {
    Seq::new(
        (n * n) as nat,
        |x: int| transform2d::fwd_at(residual(orig, pred, n), n, bit_depth, sine, x) as i32,
    )
}

/// Transforms what prediction leaves of a block.
pub fn transform_block(
    orig: &[u16],
    pred: &Vec<u16>,
    n: usize,
    bit_depth: u8,
    sine: bool,
) -> (r: Vec<i32>)
    requires
        transform::is_size(n as int),
        8 <= bit_depth <= 15,
        orig@.len() == n * n,
        pred@.len() == n * n,
        samples_le(orig@, 4095),
        samples_le(pred@, 4095),
    ensures
        r@ == coefficients(orig@, pred@, n as int, bit_depth as int, sine),
{
    let res: Vec<i32> = compute_residual_i32(orig, pred, n);
    assert(res@ =~= residual(orig@, pred@, n as int) && transform::within(res@, n * n, 4096)) by {
        assert forall|x: int| 0 <= x < n * n implies #[trigger] res@[x] == residual(
            orig@,
            pred@,
            n as int,
        )[x] && -4095 <= res@[x] <= 4095 by {
            assert(orig@[x] <= 4095 && pred@[x] <= 4095);
        }
    }
    let mut out: Vec<i32> = zero_coeffs(n);
    let mut tmp: Vec<i32> = zero_coeffs(n);
    fwd_transform_scalar(&res, n, bit_depth, &mut out, &mut tmp, sine);
    assert(out@ =~= coefficients(orig@, pred@, n as int, bit_depth as int, sine)) by {
        assert forall|x: int| 0 <= x < n * n implies #[trigger] out@[x] == coefficients(
            orig@,
            pred@,
            n as int,
            bit_depth as int,
            sine,
        )[x] by {}
    }
    out
}

/// The coefficients that levels stand for.
pub open spec fn dequantized(levels: Seq<i16>, n: int, qp: int, bit_depth: int) -> Seq<i32> {
    Seq::new(
        (n * n) as nat,
        |x: int| quant::dequant_of(levels[x] as int, n, qp, bit_depth) as i32,
    )
}

/// The samples that a decoder makes of levels.
pub open spec fn lossy_samples(
    pred: Seq<u16>,
    levels: Seq<i16>,
    n: int,
    qp: int,
    bit_depth: int,
    sine: bool,
    max_val: int,
) -> Seq<u16> {
    Seq::new(
        (n * n) as nat,
        |x: int|
            arith::clip(
                0,
                max_val,
                pred[x] + transform2d::inv_at(
                    dequantized(levels, n, qp, bit_depth),
                    n,
                    bit_depth,
                    sine,
                    x,
                ),
            ) as u16,
    )
}

/// Computes the samples that a decoder makes of levels.
pub fn decode_block(
    pred: &Vec<u16>,
    levels: &Vec<i16>,
    n: usize,
    qp: u8,
    bit_depth: u8,
    sine: bool,
    max_val: u16,
) -> (r: Vec<u16>)
    requires
        quant::quant_ok(n as int, qp as int, bit_depth as int),
        pred@.len() == n * n,
        levels@.len() == n * n,
    ensures
        r@ == lossy_samples(
            pred@,
            levels@,
            n as int,
            qp as int,
            bit_depth as int,
            sine,
            max_val as int,
        ),
        r@.len() == n * n,
        samples_le(r@, max_val as int),
{
    let mut d: Vec<i32> = zero_coeffs(n);
    dequantize_into(levels, n, qp, bit_depth, &mut d);
    assert(d@ =~= dequantized(levels@, n as int, qp as int, bit_depth as int)) by {
        assert forall|x: int| 0 <= x < n * n implies #[trigger] d@[x] == dequantized(
            levels@,
            n as int,
            qp as int,
            bit_depth as int,
        )[x] by {}
    }
    let mut inv: Vec<i32> = zero_coeffs(n);
    let mut tmp: Vec<i32> = zero_coeffs(n);
    inv_transform_scalar(&d, n, bit_depth, &mut inv, &mut tmp, sine);
    let r: Vec<u16> = reconstruct(pred, &inv, n, max_val);
    assert(r@ =~= lossy_samples(
        pred@,
        levels@,
        n as int,
        qp as int,
        bit_depth as int,
        sine,
        max_val as int,
    )) by {
        assert forall|x: int| 0 <= x < n * n implies #[trigger] r@[x] == lossy_samples(
            pred@,
            levels@,
            n as int,
            qp as int,
            bit_depth as int,
            sine,
            max_val as int,
        )[x] by {
            assert(inv@[x] == inv@[x]);
        }
    }
    r
}

} // verus!
