//! The syntax of a coding unit: its prediction modes and its transform tree.
use crate::cabac::bins;
use crate::cabac::coder;
use crate::cabac::coder::Coder;
use crate::cabac::contexts;
use crate::cabac::engine::CabacWriter;
use crate::cu::{Cu, CuTus};
use crate::cumaps;
use crate::cumaps::fill_rect;
use crate::cuplan::CuChoice;
use crate::cuqp;
use crate::cuqp::AqCtuState;
use crate::fmt::ChromaFormat;
use crate::frame::Frame;
use crate::lossless;
use crate::lossless::encode_lossless_transform_tree;
use crate::modes;
use crate::modes::{
    encode_chroma_mode, encode_luma_mode, encode_luma_mode_flag, encode_luma_mode_rem,
    is_block_decoded, mpm_list,
};
use crate::refs;
use crate::tusyntax::{
    encode_split_transform_tree, encode_unsplit_transform_tree, split_chroma_is_shared,
};
use vstd::prelude::*;

verus! {

/// A map has a luma mode for each block of four by four samples.
pub open spec fn modes_ok(f: Frame, map: Seq<u8>) -> bool {
    &&& map.len() == (f.w as int / 4) * (f.h as int / 4)
    &&& forall|i: int| 0 <= i < map.len() ==> #[trigger] map[i] <= 34
}

/// The entry of the block with a sample.
pub open spec fn mode_index(f: Frame, row: int, col: int) -> int {
    (row / 4) * (f.w as int / 4) + col / 4
}

/// The entry of a block lies in the map.
proof fn lemma_mode_index(f: Frame, row: int, col: int)
    requires
        f.wf(),
        0 <= row < f.h,
        0 <= col < f.w,
    ensures
        0 <= mode_index(f, row, col) < (f.w as int / 4) * (f.h as int / 4),
        0 <= (row / 4) * (f.w as int / 4),
{
    let (s, n) = (f.w as int / 4, f.h as int / 4);
    refs::lemma_inside(row / 4, col / 4, s, n);
    assert(n * s == s * n) by (nonlinear_arith);
    assert(0 <= (row / 4) * s) by (nonlinear_arith)
        requires
            0 <= row / 4,
            0 <= s,
    ;
}

/// The mode of the left neighbour of a block, DC where there is none that is coded
/// before it. A neighbour `inside` the same unit is.
pub open spec fn left_mode(f: Frame, map: Seq<u8>, row: int, col: int, inside: bool) -> int {
    if col > 0 && (inside || modes::decoded_before(row, col - 1, row, col, 64, f.w as int)) {
        map[mode_index(f, row, col - 1)] as int
    } else {
        1
    }
}

/// The mode of the neighbour above a block; one in another row of coding tree units
/// does not count.
pub open spec fn above_mode(f: Frame, map: Seq<u8>, row: int, col: int, inside: bool) -> int {
    if row % 64 != 0 && (inside || modes::decoded_before(row - 1, col, row, col, 64, f.w as int)) {
        map[mode_index(f, row - 1, col)] as int
    } else {
        1
    }
}

/// The probable modes of a block.
pub open spec fn probable(
    f: Frame,
    map: Seq<u8>,
    row: int,
    col: int,
    inside_left: bool,
    inside_above: bool,
) -> Seq<int> {
    modes::mpm(
        left_mode(f, map, row, col, inside_left),
        above_mode(f, map, row, col, inside_above),
    )
}

/// Derives the probable modes of a block.
pub fn probable_modes(
    f: &Frame,
    map: &Vec<u8>,
    row: usize,
    col: usize,
    inside_left: bool,
    inside_above: bool,
) -> (r: [u8; 3])
    requires
        f.wf(),
        modes_ok(*f, map@),
        row < f.h,
        col < f.w,
    ensures
        modes::modes_of(r) == probable(
            *f,
            map@,
            row as int,
            col as int,
            inside_left,
            inside_above,
        ),
        forall|i: int| 0 <= i < 3 ==> 0 <= #[trigger] r@[i] <= 34,
{
    let stride: usize = f.w / 4;
    let len: usize = map.len();
    let left: u8 = if col > 0 && (inside_left || is_block_decoded(
        row,
        col - 1,
        row,
        col,
        64,
        f.w,
    )) {
        proof {
            lemma_mode_index(*f, row as int, col - 1);
        }
        map[(row / 4) * stride + (col - 1) / 4]
    } else {
        1
    };
    let above: u8 = if row % 64 != 0 && (inside_above || is_block_decoded(
        row - 1,
        col,
        row,
        col,
        64,
        f.w,
    )) {
        proof {
            lemma_mode_index(*f, row - 1, col as int);
        }
        map[((row - 1) / 4) * stride + col / 4]
    } else {
        1
    };
    mpm_list(left, above)
}

impl Cu {
    /// The first sample of quarter `i`.
    pub open spec fn part_at(self, i: int) -> (int, int) {
        (self.place.row + (i / 2) * 4, self.place.col + (i % 2) * 4)
    }

    /// The map after the modes of the first `i` quarters were recorded.
    pub open spec fn part_map(self, f: Frame, map: Seq<u8>, i: int) -> Seq<u8>
        decreases i,
    {
        if i <= 0 {
            map
        } else {
            let (row, col) = self.part_at(i - 1);
            self.part_map(f, map, i - 1).update(
                mode_index(f, row, col),
                self.choice.luma_mode(i - 1),
            )
        }
    }

    /// The probable modes of quarter `i` of a unit with four predictions.
    pub open spec fn part_probable(self, f: Frame, map: Seq<u8>, i: int) -> Seq<int> {
        let (row, col) = self.part_at(i);
        probable(f, self.part_map(f, map, i), row, col, i % 2 == 1, i / 2 == 1)
    }

    /// The probable modes of a unit with one prediction.
    pub open spec fn whole_probable(self, f: Frame, map: Seq<u8>) -> Seq<int> {
        probable(f, map, self.place.row as int, self.place.col as int, false, false)
    }

    /// The map after the modes of the unit were recorded.
    pub open spec fn modes_after(self, f: Frame, map: Seq<u8>) -> Seq<u8> {
        let (row, col, size) = (
            self.place.row as int,
            self.place.col as int,
            self.place.size as int,
        );
        if self.choice is Parts {
            self.part_map(f, map, 4)
        } else {
            cumaps::filled(
                map,
                f.w as int / 4,
                row / 4,
                col / 4,
                size / 4,
                size / 4,
                self.choice.luma_mode(0),
            )
        }
    }

    /// The flags of the first `k` quarters that tell whether their modes are probable.
    pub open spec fn part_flags(self, f: Frame, map: Seq<u8>, k: int) -> Seq<bins::Bin>
        decreases k,
    {
        if k <= 0 {
            Seq::empty()
        } else {
            self.part_flags(f, map, k - 1) + modes::luma_flag_bins(
                self.choice.luma_mode(k - 1) as int,
                self.part_probable(f, map, k - 1),
            )
        }
    }

    /// The rest of the modes of the first `k` quarters.
    pub open spec fn part_rems(self, f: Frame, map: Seq<u8>, k: int) -> Seq<bins::Bin>
        decreases k,
    {
        if k <= 0 {
            Seq::empty()
        } else {
            self.part_rems(f, map, k - 1) + modes::luma_rem_bins(
                self.choice.luma_mode(k - 1) as int,
                self.part_probable(f, map, k - 1),
            )
        }
    }

    /// The chroma modes of the first `k` quarters.
    pub open spec fn part_chroma(self, k: int) -> Seq<bins::Bin>
        decreases k,
    {
        if k <= 0 {
            Seq::empty()
        } else {
            self.part_chroma(k - 1) + modes::chroma_mode_bins(
                self.choice.chroma_choice(k - 1) as int,
            )
        }
    }

    /// What precedes the modes: whether the unit is coded without loss, and whether
    /// it has one prediction.
    pub open spec fn lead_bins(self) -> Seq<bins::Bin> {
        let a = if self.choice is Lossless {
            seq![bins::coded(contexts::TRANSQUANT_BYPASS as int, true)]
        } else {
            Seq::empty()
        };
        if self.place.size == 8 {
            a + seq![bins::coded(coder::PART_MODE as int, !(self.choice is Parts))]
        } else {
            a
        }
    }

    /// The luma modes.
    pub open spec fn luma_bins(self, f: Frame, map: Seq<u8>) -> Seq<bins::Bin> {
        if self.choice is Parts {
            self.part_flags(f, map, 4) + self.part_rems(f, map, 4)
        } else {
            modes::luma_mode_bins(self.choice.luma_mode(0) as int, self.whole_probable(f, map))
        }
    }

    /// The chroma modes.
    pub open spec fn chroma_bins(self, f: Frame) -> Seq<bins::Bin> {
        if f.chroma is Monochrome {
            Seq::empty()
        } else if self.choice.parted_chroma(f.chroma) {
            self.part_chroma(4)
        } else {
            modes::chroma_mode_bins(self.choice.chroma_choice(0) as int)
        }
    }

    /// The transform tree.
    pub open spec fn tree_bins(self, f: Frame, aq: AqCtuState) -> Seq<bins::Bin> {
        let size = self.place.size as int;
        match self.tus {
            CuTus::Whole { tus } => tus.bins(size, aq, true),
            CuTus::Quarters { cut } => cut.bins(
                size,
                f.chroma,
                self.choice is Parts,
                self.choice.shared(size, f.chroma),
                aq,
                true,
            ),
            CuTus::Lossless { luma, chroma } => lossless::lossless_bins(
                luma,
                chroma,
                size,
                f.chroma,
            ),
        }
    }

    /// All bins of the unit.
    pub open spec fn bins(self, f: Frame, map: Seq<u8>, aq: AqCtuState) -> Seq<bins::Bin> {
        self.lead_bins() + self.luma_bins(f, map) + self.chroma_bins(f) + self.tree_bins(f, aq)
    }

    /// The state of the quantisation parameter after the unit.
    pub open spec fn aq_after(self, f: Frame, aq: AqCtuState) -> AqCtuState {
        match self.tus {
            CuTus::Whole { tus } => cuqp::qp_after(aq, tus.needs_qp()),
            CuTus::Quarters { cut } => cut.aq_after(
                f.chroma,
                self.choice.shared(self.place.size as int, f.chroma),
                aq,
                4,
            ),
            CuTus::Lossless { .. } => aq,
        }
    }
}

/// Codes what precedes the modes.
fn encode_lead<W: CabacWriter>(c: &mut Coder<W>, cu: &Cu)
    requires
        old(c).wf(),
    ensures
        final(c).wf(),
        final(c).adds(*old(c), cu.lead_bins()),
{
    let ghost s0 = c.said();
    proof {
        coder::lemma_nothing(s0);
    }
    let ghost a = if cu.choice is Lossless {
        seq![bins::coded(contexts::TRANSQUANT_BYPASS as int, true)]
    } else {
        Seq::empty()
    };
    if matches!(cu.choice, CuChoice::Lossless { .. }) {
        c.transquant_bypass(true);
    }
    if cu.place.size == 8 {
        let one: bool = !matches!(cu.choice, CuChoice::Parts { .. });
        c.part_mode(one);
        proof {
            coder::lemma_then(s0, a, seq![bins::coded(coder::PART_MODE as int, one)]);
        }
    }
}

/// A mode that is not probable has a number.
proof fn lemma_numbered(a: int, b: int, mode: int)
    requires
        0 <= a <= 34,
        0 <= b <= 34,
        0 <= mode <= 34,
    ensures
        modes::place(mode, modes::mpm(a, b)) < 3 || modes::remainder(mode, modes::mpm(a, b)) >= 0,
{
    if modes::place(mode, modes::mpm(a, b)) == 3 {
        modes::law_remainder_identifies_the_mode(a, b, mode, mode);
    }
}

/// Neighbouring modes are modes.
proof fn lemma_neighbours(f: Frame, map: Seq<u8>, row: int, col: int, il: bool, ia: bool)
    requires
        f.wf(),
        modes_ok(f, map),
        0 <= row < f.h,
        0 <= col < f.w,
    ensures
        0 <= left_mode(f, map, row, col, il) <= 34,
        0 <= above_mode(f, map, row, col, ia) <= 34,
{
    if col > 0 {
        lemma_mode_index(f, row, col - 1);
    }
    if row % 64 != 0 {
        lemma_mode_index(f, row - 1, col);
    }
}

/// Codes the mode of a unit with one prediction and records it.
fn encode_whole_mode<W: CabacWriter>(c: &mut Coder<W>, f: &Frame, map: &mut Vec<u8>, cu: &Cu)
    requires
        old(c).wf(),
        f.wf(),
        modes_ok(*f, old(map)@),
        cu.place.ok(*f),
        cu.choice.luma_mode(0) <= 34,
        !(cu.choice is Parts),
    ensures
        final(c).wf(),
        final(c).adds(*old(c), cu.luma_bins(*f, old(map)@)),
        final(map)@ == cu.modes_after(*f, old(map)@),
        modes_ok(*f, final(map)@),
{
    let mode: u8 = cu.choice.luma_mode_of(0);
    let (row, col, size): (usize, usize, usize) = (cu.place.row, cu.place.col, cu.place.size);
    let mpm: [u8; 3] = probable_modes(f, map, row, col, false, false);
    proof {
        lemma_neighbours(*f, map@, row as int, col as int, false, false);
        lemma_numbered(
            left_mode(*f, map@, row as int, col as int, false),
            above_mode(*f, map@, row as int, col as int, false),
            mode as int,
        );
        let (s, n) = (f.w as int / 4, f.h as int / 4);
        let below = row as int / 4 + size as int / 4;
        assert(below * s <= n * s) by (nonlinear_arith)
            requires
                below <= n,
                0 <= s,
        ;
        assert(n * s == s * n) by (nonlinear_arith);
    }
    encode_luma_mode(c, mode, &mpm);
    fill_rect(map, f.w / 4, row / 4, col / 4, size / 4, size / 4, mode);
    proof {
        assert forall|i: int| 0 <= i < map@.len() implies #[trigger] map@[i] <= 34 by {
            assert(old(map)@[i] <= 34);
        }
    }
}

/// The mode of quarter `i` can be coded with a list of probable modes.
pub open spec fn part_ready(cu: Cu, f: Frame, map: Seq<u8>, i: int, mpm: [u8; 3]) -> bool {
    let (mode, m) = (cu.choice.luma_mode(i) as int, cu.part_probable(f, map, i));
    &&& modes::modes_of(mpm) == m
    &&& modes::place(mode, m) < 3 || modes::remainder(mode, m) >= 0
}

/// Codes whether the mode of quarter `i` is probable and records the mode.
fn encode_part_flag<W: CabacWriter>(
    c: &mut Coder<W>,
    f: &Frame,
    map: &mut Vec<u8>,
    cu: &Cu,
    i: usize,
    Ghost(map0): Ghost<Seq<u8>>,
) -> (mpm: [u8; 3])
    requires
        old(c).wf(),
        f.wf(),
        modes_ok(*f, old(map)@),
        cu.place.ok(*f),
        cu.place.size == 8,
        i < 4,
        cu.choice.luma_mode(i as int) <= 34,
        old(map)@ == cu.part_map(*f, map0, i as int),
    ensures
        final(c).wf(),
        final(c).adds(
            *old(c),
            modes::luma_flag_bins(
                cu.choice.luma_mode(i as int) as int,
                cu.part_probable(*f, map0, i as int),
            ),
        ),
        part_ready(*cu, *f, map0, i as int, mpm),
        final(map)@ == cu.part_map(*f, map0, i + 1),
        modes_ok(*f, final(map)@),
{
    let stride: usize = f.w / 4;
    let len: usize = map.len();
    let (row, col): (usize, usize) = (cu.place.row + (i / 2) * 4, cu.place.col + (i % 2) * 4);
    let mode: u8 = cu.choice.luma_mode_of(i);
    let mpm: [u8; 3] = probable_modes(f, map, row, col, i % 2 == 1, i / 2 == 1);
    proof {
        lemma_neighbours(*f, map@, row as int, col as int, i % 2 == 1, i / 2 == 1);
        lemma_numbered(
            left_mode(*f, map@, row as int, col as int, i % 2 == 1),
            above_mode(*f, map@, row as int, col as int, i / 2 == 1),
            mode as int,
        );
        lemma_mode_index(*f, row as int, col as int);
    }
    encode_luma_mode_flag(c, mode, &mpm);
    map.set((row / 4) * stride + col / 4, mode);
    mpm
}

/// Codes the modes of a unit with four predictions and records them.
fn encode_part_modes<W: CabacWriter>(c: &mut Coder<W>, f: &Frame, map: &mut Vec<u8>, cu: &Cu)
    requires
        old(c).wf(),
        f.wf(),
        modes_ok(*f, old(map)@),
        cu.place.ok(*f),
        cu.place.size == 8,
        forall|i: int| 0 <= i < 4 ==> #[trigger] cu.choice.luma_mode(i) <= 34,
        cu.choice is Parts,
    ensures
        final(c).wf(),
        final(c).adds(*old(c), cu.luma_bins(*f, old(map)@)),
        final(map)@ == cu.modes_after(*f, old(map)@),
        modes_ok(*f, final(map)@),
{
    let ghost map0 = map@;
    let ghost c0 = *c;
    let mut lists: Vec<[u8; 3]> = Vec::new();
    proof {
        coder::lemma_nothing(c.said());
    }
    for i in 0..4usize
        invariant
            f.wf(),
            modes_ok(*f, map@),
            cu.place.ok(*f),
            cu.place.size == 8,
            forall|x: int| 0 <= x < 4 ==> #[trigger] cu.choice.luma_mode(x) <= 34,
            map@ == cu.part_map(*f, map0, i as int),
            lists@.len() == i,
            forall|x: int| 0 <= x < i ==> part_ready(*cu, *f, map0, x, #[trigger] lists@[x]),
            c.wf(),
            c.adds(c0, cu.part_flags(*f, map0, i as int)),
    {
        let ghost flags = cu.part_flags(*f, map0, i as int);
        proof {
            assert(cu.choice.luma_mode(i as int) <= 34);
        }
        let mpm: [u8; 3] = encode_part_flag(c, f, map, cu, i, Ghost(map0));
        proof {
            coder::lemma_then(
                c0.said(),
                flags,
                modes::luma_flag_bins(
                    cu.choice.luma_mode(i as int) as int,
                    cu.part_probable(*f, map0, i as int),
                ),
            );
        }
        lists.push(mpm);
    }
    let ghost c1 = *c;
    proof {
        coder::lemma_nothing(c1.said());
    }
    for i in 0..4usize
        invariant
            lists@.len() == 4,
            forall|x: int| 0 <= x < 4 ==> part_ready(*cu, *f, map0, x, #[trigger] lists@[x]),
            c.wf(),
            c.adds(c1, cu.part_rems(*f, map0, i as int)),
    {
        let mode: u8 = cu.choice.luma_mode_of(i);
        let mpm: [u8; 3] = lists[i];
        proof {
            assert(part_ready(*cu, *f, map0, i as int, lists@[i as int]));
            coder::lemma_then(
                c1.said(),
                cu.part_rems(*f, map0, i as int),
                modes::luma_rem_bins(mode as int, modes::modes_of(mpm)),
            );
        }
        encode_luma_mode_rem(c, mode, &mpm);
    }
    proof {
        coder::lemma_then(c0.said(), cu.part_flags(*f, map0, 4), cu.part_rems(*f, map0, 4));
    }
}

/// Codes the chroma modes.
fn encode_chroma_modes<W: CabacWriter>(c: &mut Coder<W>, f: &Frame, cu: &Cu)
    requires
        old(c).wf(),
        forall|i: int| 0 <= i < 4 ==> #[trigger] cu.choice.chroma_choice(i) <= 4,
    ensures
        final(c).wf(),
        final(c).adds(*old(c), cu.chroma_bins(*f)),
{
    let ghost c0 = *c;
    proof {
        coder::lemma_nothing(c.said());
        assert(cu.choice.chroma_choice(0) <= 4);
    }
    if f.chroma.is_monochrome() {
        return ;
    }
    let parted: bool = matches!(cu.choice, CuChoice::Parts { .. }) && matches!(
        f.chroma,
        ChromaFormat::Yuv444
    );
    if parted {
        for i in 0..4usize
            invariant
                forall|x: int| 0 <= x < 4 ==> #[trigger] cu.choice.chroma_choice(x) <= 4,
                c.wf(),
                c.adds(c0, cu.part_chroma(i as int)),
        {
            let k: u8 = cu.choice.chroma_choice_of(i);
            proof {
                coder::lemma_then(
                    c0.said(),
                    cu.part_chroma(i as int),
                    modes::chroma_mode_bins(k as int),
                );
            }
            encode_chroma_mode(c, k);
        }
    } else {
        encode_chroma_mode(c, cu.choice.chroma_choice_of(0));
    }
}

/// Codes the transform tree.
fn encode_tree<W: CabacWriter>(
    c: &mut Coder<W>,
    f: &Frame,
    cu: &Cu,
    aq: &mut AqCtuState,
    Ghost(lossless): Ghost<bool>,
)
    requires
        old(c).wf(),
        cu.wf(*f, lossless),
    ensures
        final(c).wf(),
        final(c).adds(*old(c), cu.tree_bins(*f, *old(aq))),
        *final(aq) == cu.aq_after(*f, *old(aq)),
{
    let size: usize = cu.place.size;
    match &cu.tus {
        CuTus::Whole { tus } => encode_unsplit_transform_tree(c, tus, size, aq, true),
        CuTus::Quarters { cut } => {
            let shared: bool = !f.chroma.is_monochrome() && split_chroma_is_shared(size, f.chroma);
            let parts: bool = matches!(cu.choice, CuChoice::Parts { .. });
            encode_split_transform_tree(c, cut, size, f.chroma, parts, shared, true, aq);
        },
        CuTus::Lossless { luma, chroma } => encode_lossless_transform_tree(
            c,
            luma,
            chroma,
            size,
            f.chroma,
        ),
    }
}

/// Codes the syntax of a unit and records its modes.
pub fn encode_cu_syntax<W: CabacWriter>(
    c: &mut Coder<W>,
    f: &Frame,
    map: &mut Vec<u8>,
    cu: &Cu,
    aq: &mut AqCtuState,
    Ghost(lossless): Ghost<bool>,
)
    requires
        old(c).wf(),
        f.wf(),
        modes_ok(*f, old(map)@),
        cu.wf(*f, lossless),
    ensures
        final(c).wf(),
        final(c).adds(*old(c), cu.bins(*f, old(map)@, *old(aq))),
        final(map)@ == cu.modes_after(*f, old(map)@),
        modes_ok(*f, final(map)@),
        *final(aq) == cu.aq_after(*f, *old(aq)),
{
    let ghost s0 = c.said();
    let ghost map0 = map@;
    proof {
        assert forall|i: int| 0 <= i < 4 implies #[trigger] cu.choice.luma_mode(i) <= 34 by {}
        assert forall|i: int| 0 <= i < 4 implies #[trigger] cu.choice.chroma_choice(i) <= 4 by {}
        assert(cu.choice.luma_mode(0) <= 34);
    }
    encode_lead(c, cu);
    if matches!(cu.choice, CuChoice::Parts { .. }) {
        encode_part_modes(c, f, map, cu);
    } else {
        encode_whole_mode(c, f, map, cu);
    }
    encode_chroma_modes(c, f, cu);
    encode_tree(c, f, cu, aq, Ghost(lossless));
    proof {
        let (a, b) = (cu.lead_bins(), cu.luma_bins(*f, map0));
        let (d, e) = (cu.chroma_bins(*f), cu.tree_bins(*f, *old(aq)));
        coder::lemma_then(s0, a, b);
        coder::lemma_then(s0, a + b, d);
        coder::lemma_then(s0, a + b + d, e);
    }
}

} // verus!
