//! The syntax of transform units.
use crate::cabac::bins;
use crate::cabac::coder;
use crate::cabac::coder::Coder;
use crate::cabac::contexts;
use crate::cabac::engine::CabacWriter;
use crate::cabac::residual;
use crate::cumaps;
use crate::cumaps::split_transform_context;
use crate::cuqp;
use crate::cuqp::{encode_cu_qp_delta_if_needed, AqCtuState};
use crate::fmt::ChromaFormat;
use crate::tb::Tb;
use crate::transform;
use crate::transform::log2_of;
use vstd::prelude::*;

verus! {

/// The bins of the levels of a block; a block of zeros has none.
#[verifier::opaque]
pub open spec fn res_bins(t: Tb, is_luma: bool, hide: bool) -> Seq<bins::Bin> {
    if t.nz {
        (residual::Block {
            coeffs: t.zz@,
            log2: transform::log2_size(t.n as int),
            is_luma,
            scan_idx: t.scan_idx as int,
            hide,
        }).bins()
    } else {
        Seq::empty()
    }
}

/// The levels of blocks `a` to `b`, one after another.
pub open spec fn res_list(ts: Seq<Tb>, a: int, b: int, hide: bool) -> Seq<bins::Bin>
    decreases b - a,
{
    if b <= a {
        Seq::empty()
    } else {
        res_list(ts, a, b - 1, hide) + res_bins(ts[b - 1], false, hide)
    }
}

/// The flags of chroma blocks `a` to `b`.
pub open spec fn cbf_list(ts: Seq<Tb>, a: int, b: int, depth: int) -> Seq<bins::Bin>
    decreases b - a,
{
    if b <= a {
        Seq::empty()
    } else {
        cbf_list(ts, a, b - 1, depth) + residual::cbf_chroma_bins(ts[b - 1].nz, depth)
    }
}

/// One of the blocks `a` to `b` has a level.
pub open spec fn any_nz(ts: Seq<Tb>, a: int, b: int) -> bool
    decreases b - a,
{
    if b <= a {
        false
    } else {
        any_nz(ts, a, b - 1) || ts[b - 1].nz
    }
}

/// All blocks of a list are well formed.
pub open spec fn list_ok(ts: Seq<Tb>) -> bool {
    forall|i: int| 0 <= i < ts.len() ==> (#[trigger] ts[i]).wf()
}

/// Codes the levels of a block.
pub fn encode_levels<W: CabacWriter>(c: &mut Coder<W>, t: &Tb, is_luma: bool, hide: bool)
    requires
        old(c).wf(),
        t.wf(),
    ensures
        final(c).wf(),
        final(c).adds(*old(c), res_bins(*t, is_luma, hide)),
{
    proof {
        reveal(res_bins);
    }
    if t.nz {
        proof {
            transform::lemma_area(t.n as int);
        }
        c.residual(&t.zz, log2_of(t.n), is_luma, t.scan_idx, hide);
    } else {
        assert(c.said() =~= old(c).said() + res_bins(*t, is_luma, hide));
    }
}

/// Codes the levels of chroma blocks.
pub fn encode_level_list<W: CabacWriter>(
    c: &mut Coder<W>,
    ts: &Vec<Tb>,
    a: usize,
    b: usize,
    hide: bool,
)
    requires
        old(c).wf(),
        list_ok(ts@),
        a <= b <= ts@.len(),
    ensures
        final(c).wf(),
        final(c).adds(*old(c), res_list(ts@, a as int, b as int, hide)),
{
    let ghost s0 = c.said();
    assert(s0 + res_list(ts@, a as int, a as int, hide) =~= s0);
    for i in a..b
        invariant
            c.wf(),
            list_ok(ts@),
            a <= b <= ts@.len(),
            s0 == old(c).said(),
            c.adds(*old(c), res_list(ts@, a as int, i as int, hide)),
    {
        assert(ts@[i as int].wf());
        encode_levels(c, &ts[i], false, hide);
        assert(c.said() =~= s0 + res_list(ts@, a as int, i + 1, hide));
    }
}

/// Codes the flags of chroma blocks.
pub fn encode_cbf_list<W: CabacWriter>(
    c: &mut Coder<W>,
    ts: &Vec<Tb>,
    a: usize,
    b: usize,
    depth: usize,
)
    requires
        old(c).wf(),
        a <= b <= ts@.len(),
    ensures
        final(c).wf(),
        final(c).adds(*old(c), cbf_list(ts@, a as int, b as int, depth as int)),
{
    let ghost s0 = c.said();
    assert(s0 + cbf_list(ts@, a as int, a as int, depth as int) =~= s0);
    for i in a..b
        invariant
            c.wf(),
            a <= b <= ts@.len(),
            s0 == old(c).said(),
            c.adds(*old(c), cbf_list(ts@, a as int, i as int, depth as int)),
    {
        c.cbf_chroma(ts[i].nz, depth);
        assert(c.said() =~= s0 + cbf_list(ts@, a as int, i + 1, depth as int));
    }
}

/// Whether one of the blocks has a level.
pub fn has_nz(ts: &Vec<Tb>, a: usize, b: usize) -> (r: bool)
    requires
        a <= b <= ts@.len(),
    ensures
        r == any_nz(ts@, a as int, b as int),
{
    let mut r: bool = false;
    for i in a..b
        invariant
            a <= b <= ts@.len(),
            r == any_nz(ts@, a as int, i as int),
    {
        r = r || ts[i].nz;
    }
    r
}

/// A coding unit with one luma block, and chroma blocks one above the other.
pub struct UnsplitTus {
    pub y: Tb,
    pub cb: Vec<Tb>,
    pub cr: Vec<Tb>,
}

impl UnsplitTus {
    pub open spec fn wf(self) -> bool {
        self.y.wf() && list_ok(self.cb@) && list_ok(self.cr@)
    }

    /// Some block has a level.
    pub open spec fn needs_qp(self) -> bool {
        self.y.nz || any_nz(self.cb@, 0, self.cb@.len() as int) || any_nz(
            self.cr@,
            0,
            self.cr@.len() as int,
        )
    }

    /// The transform tree of the unit.
    pub open spec fn bins(self, size: int, aq: AqCtuState, hide: bool) -> Seq<bins::Bin> {
        let (nb, nr) = (self.cb@.len() as int, self.cr@.len() as int);
        let b = seq![
            bins::coded(
                contexts::SPLIT_TRANSFORM_FLAG + cumaps::split_transform_ctx(size),
                false,
            ),
        ];
        let b = b + cbf_list(self.cb@, 0, nb, 0);
        let b = b + cbf_list(self.cr@, 0, nr, 0);
        let b = b + residual::cbf_luma_bins(self.y.nz, 0);
        let b = b + cuqp::qp_bins(aq, self.needs_qp());
        let b = b + res_bins(self.y, true, hide);
        let b = b + res_list(self.cb@, 0, nb, hide);
        b + res_list(self.cr@, 0, nr, hide)
    }
}

/// Codes the transform tree of a unit with one luma block.
pub fn encode_unsplit_transform_tree<W: CabacWriter>(
    c: &mut Coder<W>,
    t: &UnsplitTus,
    size: usize,
    aq: &mut AqCtuState,
    hide: bool,
)
    requires
        old(c).wf(),
        t.wf(),
        size == 8 || size == 16 || size == 32,
    ensures
        final(c).wf(),
        final(c).adds(*old(c), t.bins(size as int, *old(aq), hide)),
        *final(aq) == cuqp::qp_after(*old(aq), t.needs_qp()),
{
    let ghost s0 = c.said();
    let ghost (nb, nr) = (t.cb@.len() as int, t.cr@.len() as int);
    c.split_transform_flag(split_transform_context(size), false);
    let ghost b0 = seq![
        bins::coded(
            contexts::SPLIT_TRANSFORM_FLAG + cumaps::split_transform_ctx(size as int),
            false,
        ),
    ];
    encode_cbf_list(c, &t.cb, 0, t.cb.len(), 0);
    let ghost b1 = b0 + cbf_list(t.cb@, 0, nb, 0);
    encode_cbf_list(c, &t.cr, 0, t.cr.len(), 0);
    let ghost b2 = b1 + cbf_list(t.cr@, 0, nr, 0);
    c.cbf_luma(t.y.nz, 0);
    let ghost b3 = b2 + residual::cbf_luma_bins(t.y.nz, 0);
    let need: bool = t.y.nz || has_nz(&t.cb, 0, t.cb.len()) || has_nz(&t.cr, 0, t.cr.len());
    encode_cu_qp_delta_if_needed(c, aq, need);
    let ghost b4 = b3 + cuqp::qp_bins(*old(aq), need);
    encode_levels(c, &t.y, true, hide);
    let ghost b5 = b4 + res_bins(t.y, true, hide);
    encode_level_list(c, &t.cb, 0, t.cb.len(), hide);
    let ghost b6 = b5 + res_list(t.cb@, 0, nb, hide);
    encode_level_list(c, &t.cr, 0, t.cr.len(), hide);
    proof {
        coder::lemma_then(s0, b0, cbf_list(t.cb@, 0, nb, 0));
        coder::lemma_then(s0, b1, cbf_list(t.cr@, 0, nr, 0));
        coder::lemma_then(s0, b2, residual::cbf_luma_bins(t.y.nz, 0));
        coder::lemma_then(s0, b3, cuqp::qp_bins(*old(aq), need));
        coder::lemma_then(s0, b4, res_bins(t.y, true, hide));
        coder::lemma_then(s0, b5, res_list(t.cb@, 0, nb, hide));
        coder::lemma_then(s0, b6, res_list(t.cr@, 0, nr, hide));
    }
}

/// The chroma of a unit that is cut in four is not: its quarters would be smaller
/// than the smallest block.
pub open spec fn shares_chroma(parent: int, chroma: ChromaFormat) -> bool {
    let child = parent / 2;
    child / chroma.spec_sub_w() < 4 || child / chroma.spec_sub_h() < 4
}

/// Whether the four luma blocks of a cut share one chroma block.
pub fn split_chroma_is_shared(parent_luma: usize, chroma: ChromaFormat) -> (r: bool)
    ensures
        r == shares_chroma(parent_luma as int, chroma),
{
    let child: usize = parent_luma / 2;
    child / chroma.sub_w() < 4 || child / chroma.sub_h() < 4
}

/// Chroma blocks one above the other.
pub open spec fn stacked(chroma: ChromaFormat) -> int {
    if chroma is Monochrome {
        0
    } else if chroma is Yuv422 {
        2
    } else {
        1
    }
}

/// A coding unit whose luma is cut in four. Its chroma is cut in four too, the
/// blocks of each quarter together, or shared by the quarters.
pub struct SplitTus {
    pub y: Vec<Tb>,
    pub cb: Vec<Tb>,
    pub cr: Vec<Tb>,
}

impl SplitTus {
    /// How many chroma blocks there are in each plane.
    pub open spec fn chroma_count(chroma: ChromaFormat, shared: bool) -> int {
        if shared {
            stacked(chroma)
        } else {
            4 * stacked(chroma)
        }
    }

    pub open spec fn wf(self, chroma: ChromaFormat, shared: bool) -> bool {
        &&& self.y@.len() == 4
        &&& list_ok(self.y@)
        &&& list_ok(self.cb@)
        &&& list_ok(self.cr@)
        &&& self.cb@.len() == Self::chroma_count(chroma, shared)
        &&& self.cr@.len() == Self::chroma_count(chroma, shared)
    }

    /// How many flags each chroma plane has at the root.
    pub open spec fn root_count(chroma: ChromaFormat, parent: int) -> int {
        if chroma is Yuv422 && parent == 8 {
            2
        } else {
            1
        }
    }

    /// The flags of a chroma plane at the root.
    pub open spec fn root_bins(ts: Seq<Tb>, chroma: ChromaFormat, shared: bool, parent: int) -> Seq<
        bins::Bin,
    > {
        if shared {
            cbf_list(ts, 0, Self::root_count(chroma, parent), 0)
        } else {
            residual::cbf_chroma_bins(any_nz(ts, 0, ts.len() as int), 0)
        }
    }

    /// The flags of the chroma blocks of quarter `k`, where there are any.
    pub open spec fn child_cbf_bins(ts: Seq<Tb>, chroma: ChromaFormat, k: int) -> Seq<bins::Bin> {
        let st = stacked(chroma);
        if any_nz(ts, 0, ts.len() as int) {
            cbf_list(ts, k * st, k * st + st, 1)
        } else {
            Seq::empty()
        }
    }

    /// Quarter `k` has a level that needs the quantisation parameter.
    pub open spec fn child_needs_qp(self, chroma: ChromaFormat, shared: bool, k: int) -> bool {
        let st = stacked(chroma);
        if shared {
            self.y@[k].nz || (k == 3 && (any_nz(self.cb@, 0, st) || any_nz(self.cr@, 0, st)))
        } else {
            self.y@[k].nz || any_nz(self.cb@, k * st, k * st + st) || any_nz(
                self.cr@,
                k * st,
                k * st + st,
            )
        }
    }

    /// The chroma levels that come with quarter `k`.
    pub open spec fn child_chroma_bins(
        self,
        chroma: ChromaFormat,
        shared: bool,
        hide: bool,
        k: int,
    ) -> Seq<bins::Bin> {
        let st = stacked(chroma);
        if !shared {
            res_list(self.cb@, k * st, k * st + st, hide) + res_list(
                self.cr@,
                k * st,
                k * st + st,
                hide,
            )
        } else if k == 3 {
            res_list(self.cb@, 0, st, hide) + res_list(self.cr@, 0, st, hide)
        } else {
            Seq::empty()
        }
    }

    /// Quarter `k` of the transform tree.
    pub open spec fn child_bins(
        self,
        parent: int,
        chroma: ChromaFormat,
        shared: bool,
        aq: AqCtuState,
        hide: bool,
        k: int,
    ) -> Seq<bins::Bin> {
        let b = if parent > 8 {
            seq![
                bins::coded(
                    contexts::SPLIT_TRANSFORM_FLAG + cumaps::split_transform_ctx(parent / 2),
                    false,
                ),
            ]
        } else {
            Seq::empty()
        };
        let b = if shared || chroma is Monochrome {
            b
        } else {
            b + Self::child_cbf_bins(self.cb@, chroma, k) + Self::child_cbf_bins(
                self.cr@,
                chroma,
                k,
            )
        };
        let b = b + residual::cbf_luma_bins(self.y@[k].nz, 1);
        let b = b + cuqp::qp_bins(aq, self.child_needs_qp(chroma, shared, k));
        let b = b + res_bins(self.y@[k], true, hide);
        b + self.child_chroma_bins(chroma, shared, hide, k)
    }

    /// The state of the quantisation parameter after the first `k` quarters.
    pub open spec fn aq_after(
        self,
        chroma: ChromaFormat,
        shared: bool,
        aq: AqCtuState,
        k: int,
    ) -> AqCtuState
        decreases k,
    {
        if k <= 0 {
            aq
        } else {
            cuqp::qp_after(
                self.aq_after(chroma, shared, aq, k - 1),
                self.child_needs_qp(chroma, shared, k - 1),
            )
        }
    }

    /// The first `k` quarters of the transform tree.
    pub open spec fn children_bins(
        self,
        parent: int,
        chroma: ChromaFormat,
        shared: bool,
        aq: AqCtuState,
        hide: bool,
        k: int,
    ) -> Seq<bins::Bin>
        decreases k,
    {
        if k <= 0 {
            Seq::empty()
        } else {
            self.children_bins(parent, chroma, shared, aq, hide, k - 1) + self.child_bins(
                parent,
                chroma,
                shared,
                self.aq_after(chroma, shared, aq, k - 1),
                hide,
                k - 1,
            )
        }
    }

    /// The transform tree. Its first flag is left out where the partition of the
    /// unit implies it.
    pub open spec fn bins(
        self,
        parent: int,
        chroma: ChromaFormat,
        inferred: bool,
        shared: bool,
        aq: AqCtuState,
        hide: bool,
    ) -> Seq<bins::Bin> {
        let b = if inferred {
            Seq::empty()
        } else {
            seq![
                bins::coded(
                    contexts::SPLIT_TRANSFORM_FLAG + cumaps::split_transform_ctx(parent),
                    true,
                ),
            ]
        };
        let b = if chroma is Monochrome {
            b
        } else {
            b + Self::root_bins(self.cb@, chroma, shared, parent) + Self::root_bins(
                self.cr@,
                chroma,
                shared,
                parent,
            )
        };
        b + self.children_bins(parent, chroma, shared, aq, hide, 4)
    }
}

/// Codes the flags of a chroma plane at the root.
fn encode_root_cbf<W: CabacWriter>(
    c: &mut Coder<W>,
    ts: &Vec<Tb>,
    chroma: ChromaFormat,
    shared: bool,
    parent: usize,
)
    requires
        old(c).wf(),
        ts@.len() == SplitTus::chroma_count(chroma, shared),
        !(chroma is Monochrome),
    ensures
        final(c).wf(),
        final(c).adds(*old(c), SplitTus::root_bins(ts@, chroma, shared, parent as int)),
{
    if shared {
        let count: usize = if matches!(chroma, ChromaFormat::Yuv422) && parent == 8 {
            2
        } else {
            1
        };
        encode_cbf_list(c, ts, 0, count, 0);
    } else {
        c.cbf_chroma(has_nz(ts, 0, ts.len()), 0);
    }
}

/// Codes one quarter of a transform tree.
fn encode_split_child<W: CabacWriter>(
    c: &mut Coder<W>,
    t: &SplitTus,
    parent: usize,
    chroma: ChromaFormat,
    shared: bool,
    aq: &mut AqCtuState,
    hide: bool,
    k: usize,
)
    requires
        old(c).wf(),
        t.wf(chroma, shared),
        parent == 8 || parent == 16 || parent == 32,
        k < 4,
    ensures
        final(c).wf(),
        final(c).adds(
            *old(c),
            t.child_bins(parent as int, chroma, shared, *old(aq), hide, k as int),
        ),
        *final(aq) == cuqp::qp_after(*old(aq), t.child_needs_qp(chroma, shared, k as int)),
{
    let ghost s0 = c.said();
    let st: usize = chroma.chroma_tbs_per_cu();
    let ghost b0 = if parent > 8 {
        seq![
            bins::coded(
                contexts::SPLIT_TRANSFORM_FLAG + cumaps::split_transform_ctx(parent as int / 2),
                false,
            ),
        ]
    } else {
        Seq::empty()
    };
    proof {
        coder::lemma_nothing(s0);
    }
    if parent > 8 {
        c.split_transform_flag(split_transform_context(parent / 2), false);
    }
    let (a, b): (usize, usize) = if shared {
        (0, st)
    } else {
        (k * st, k * st + st)
    };
    encode_child_cbf(c, t, chroma, shared, k, a, b);
    let ghost b1 = if shared || chroma is Monochrome {
        b0
    } else {
        b0 + SplitTus::child_cbf_bins(t.cb@, chroma, k as int) + SplitTus::child_cbf_bins(
            t.cr@,
            chroma,
            k as int,
        )
    };
    proof {
        if !(shared || chroma is Monochrome) {
            coder::lemma_then(s0, b0, SplitTus::child_cbf_bins(t.cb@, chroma, k as int));
            coder::lemma_then(
                s0,
                b0 + SplitTus::child_cbf_bins(t.cb@, chroma, k as int),
                SplitTus::child_cbf_bins(t.cr@, chroma, k as int),
            );
        }
    }
    assert(t.y@[k as int].wf());
    let y: &Tb = &t.y[k];
    c.cbf_luma(y.nz, 1);
    let ghost b2 = b1 + residual::cbf_luma_bins(y.nz, 1);
    let with_chroma: bool = !shared || k == 3;
    let need: bool = y.nz || (with_chroma && (has_nz(&t.cb, a, b) || has_nz(&t.cr, a, b)));
    encode_cu_qp_delta_if_needed(c, aq, need);
    let ghost b3 = b2 + cuqp::qp_bins(*old(aq), need);
    encode_levels(c, y, true, hide);
    let ghost b4 = b3 + res_bins(*y, true, hide);
    let ghost s4 = c.said();
    proof {
        coder::lemma_then(s0, b1, residual::cbf_luma_bins(y.nz, 1));
        coder::lemma_then(s0, b2, cuqp::qp_bins(*old(aq), need));
        coder::lemma_then(s0, b3, res_bins(*y, true, hide));
        coder::lemma_nothing(s4);
    }
    if with_chroma {
        encode_level_list(c, &t.cb, a, b, hide);
        encode_level_list(c, &t.cr, a, b, hide);
        proof {
            coder::lemma_then(
                s4,
                res_list(t.cb@, a as int, b as int, hide),
                res_list(t.cr@, a as int, b as int, hide),
            );
        }
    }
    proof {
        coder::lemma_then(s0, b4, t.child_chroma_bins(chroma, shared, hide, k as int));
    }
}

/// Codes the chroma flags of one quarter.
fn encode_child_cbf<W: CabacWriter>(
    c: &mut Coder<W>,
    t: &SplitTus,
    chroma: ChromaFormat,
    shared: bool,
    k: usize,
    a: usize,
    b: usize,
)
    requires
        old(c).wf(),
        t.wf(chroma, shared),
        k < 4,
        !shared ==> a == k * stacked(chroma) && b == k * stacked(chroma) + stacked(chroma),
    ensures
        final(c).wf(),
        final(c).log0 == old(c).log0,
        final(c).bank0 == old(c).bank0,
        final(c).said() == if shared || chroma is Monochrome {
            old(c).said()
        } else {
            (old(c).said() + SplitTus::child_cbf_bins(t.cb@, chroma, k as int))
                + SplitTus::child_cbf_bins(t.cr@, chroma, k as int)
        },
{
    if !shared && !chroma.is_monochrome() {
        let ghost s0 = c.said();
        proof {
            coder::lemma_nothing(s0);
        }
        if has_nz(&t.cb, 0, t.cb.len()) {
            encode_cbf_list(c, &t.cb, a, b, 1);
        }
        let ghost s1 = c.said();
        proof {
            coder::lemma_nothing(s1);
        }
        if has_nz(&t.cr, 0, t.cr.len()) {
            encode_cbf_list(c, &t.cr, a, b, 1);
        }
    }
}

/// Codes the transform tree of a unit whose luma is cut in four.
pub fn encode_split_transform_tree<W: CabacWriter>(
    c: &mut Coder<W>,
    t: &SplitTus,
    parent_luma: usize,
    chroma: ChromaFormat,
    inferred_root_split: bool,
    shared_chroma: bool,
    sign_data_hiding: bool,
    aq: &mut AqCtuState,
)
    requires
        old(c).wf(),
        t.wf(chroma, shared_chroma),
        parent_luma == 8 || parent_luma == 16 || parent_luma == 32,
    ensures
        final(c).wf(),
        final(c).adds(
            *old(c),
            t.bins(
                parent_luma as int,
                chroma,
                inferred_root_split,
                shared_chroma,
                *old(aq),
                sign_data_hiding,
            ),
        ),
        *final(aq) == t.aq_after(chroma, shared_chroma, *old(aq), 4),
{
    let ghost s0 = c.said();
    let ghost p = parent_luma as int;
    let ghost b0 = if inferred_root_split {
        Seq::empty()
    } else {
        seq![
            bins::coded(
                contexts::SPLIT_TRANSFORM_FLAG + cumaps::split_transform_ctx(p),
                true,
            ),
        ]
    };
    proof {
        coder::lemma_nothing(s0);
    }
    if !inferred_root_split {
        c.split_transform_flag(split_transform_context(parent_luma), true);
    }
    let ghost mut b1 = b0;
    if !chroma.is_monochrome() {
        encode_root_cbf(c, &t.cb, chroma, shared_chroma, parent_luma);
        encode_root_cbf(c, &t.cr, chroma, shared_chroma, parent_luma);
        proof {
            let x = SplitTus::root_bins(t.cb@, chroma, shared_chroma, p);
            let y = SplitTus::root_bins(t.cr@, chroma, shared_chroma, p);
            coder::lemma_then(s0, b0, x);
            coder::lemma_then(s0, b0 + x, y);
            b1 = b0 + x + y;
        }
    }
    let ghost s1 = c.said();
    proof {
        coder::lemma_nothing(s1);
    }
    let ghost aq0 = *aq;
    for k in 0..4usize
        invariant
            c.wf(),
            t.wf(chroma, shared_chroma),
            parent_luma == 8 || parent_luma == 16 || parent_luma == 32,
            p == parent_luma,
            c.said() == s1 + t.children_bins(
                p,
                chroma,
                shared_chroma,
                aq0,
                sign_data_hiding,
                k as int,
            ),
            c.log0 == old(c).log0,
            c.bank0 == old(c).bank0,
            *aq == t.aq_after(chroma, shared_chroma, aq0, k as int),
    {
        let ghost aqk = *aq;
        encode_split_child(c, t, parent_luma, chroma, shared_chroma, aq, sign_data_hiding, k);
        proof {
            coder::lemma_then(
                s1,
                t.children_bins(p, chroma, shared_chroma, aq0, sign_data_hiding, k as int),
                t.child_bins(p, chroma, shared_chroma, aqk, sign_data_hiding, k as int),
            );
        }
    }
    proof {
        coder::lemma_then(
            s0,
            b1,
            t.children_bins(p, chroma, shared_chroma, aq0, sign_data_hiding, 4),
        );
    }
}

} // verus!
