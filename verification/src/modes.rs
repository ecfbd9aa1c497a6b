//! Intra prediction modes: which ones are probable, and how they are coded.
use crate::bitseq;
use crate::cabac::bins;
use crate::cabac::coder;
use crate::cabac::coder::Coder;
use crate::cabac::engine::CabacWriter;
use crate::fmt::ChromaFormat;
use crate::refs;
use crate::refs::decode_order;
use vstd::prelude::*;

verus! {

/// The three most probable modes from the modes to the left and above.
pub open spec fn mpm(a: int, b: int) -> Seq<int> {
    if a == b {
        if a < 2 {
            seq![0, 1, 26]
        } else {
            seq![a, 2 + (a + 29) % 32, 2 + (a - 1) % 32]
        }
    } else {
        seq![
            a,
            b,
            if a != 0 && b != 0 {
                0
            } else if a != 1 && b != 1 {
                1
            } else {
                26
            },
        ]
    }
}

/// A list of modes as numbers.
pub open spec fn modes_of(m: [u8; 3]) -> Seq<int> {
    Seq::new(3, |i: int| m@[i] as int)
}

/// The three probable modes, from those of the two neighbours.
pub fn mpm_list(cand_a: u8, cand_b: u8) -> (r: [u8; 3])
    requires
        cand_a <= 34,
        cand_b <= 34,
    ensures
        modes_of(r) == mpm(cand_a as int, cand_b as int),
        forall|i: int| 0 <= i < 3 ==> 0 <= #[trigger] r@[i] <= 34,
{
    let r: [u8; 3] = if cand_a == cand_b {
        if cand_a < 2 {
            [0, 1, 26]
        } else {
            [cand_a, 2 + (cand_a + 29) % 32, 2 + (cand_a - 1) % 32]
        }
    } else {
        let third: u8 = if cand_a != 0 && cand_b != 0 {
            0
        } else if cand_a != 1 && cand_b != 1 {
            1
        } else {
            26
        };
        [cand_a, cand_b, third]
    };
    assert(modes_of(r) =~= mpm(cand_a as int, cand_b as int));
    r
}

/// The most probable modes are three different modes.
pub proof fn law_probable_modes_are_distinct(a: int, b: int)
    requires
        0 <= a <= 34,
        0 <= b <= 34,
    ensures
        mpm(a, b).len() == 3,
        forall|i: int| 0 <= i < 3 ==> 0 <= #[trigger] mpm(a, b)[i] <= 34,
        forall|i: int, j: int|
            0 <= i < j < 3 ==> #[trigger] mpm(a, b)[i] != #[trigger] mpm(a, b)[j],
{
}

/// Place of a mode among the most probable ones, or 3.
pub open spec fn place(mode: int, m: Seq<int>) -> int {
    if m[0] == mode {
        0
    } else if m[1] == mode {
        1
    } else if m[2] == mode {
        2
    } else {
        3
    }
}

fn place_of(mode: u8, m: &[u8; 3]) -> (r: usize)
    ensures
        r == place(mode as int, modes_of(*m)),
        r <= 3,
{
    if m[0] == mode {
        0
    } else if m[1] == mode {
        1
    } else if m[2] == mode {
        2
    } else {
        3
    }
}

/// 1 or 0.
pub open spec fn one_if(b: bool) -> int {
    if b {
        1
    } else {
        0
    }
}

/// Number of a mode among those that are not probable.
pub open spec fn remainder(mode: int, m: Seq<int>) -> int {
    mode - one_if(m[0] < mode) - one_if(m[1] < mode) - one_if(m[2] < mode)
}

/// Bins of the place among the probable modes, or of the number among the others.
pub open spec fn luma_rem_bins(mode: int, m: Seq<int>) -> Seq<bins::Bin> {
    if place(mode, m) == 0 {
        seq![bins::plain(false)]
    } else if place(mode, m) == 1 {
        seq![bins::plain(true), bins::plain(false)]
    } else if place(mode, m) == 2 {
        seq![bins::plain(true), bins::plain(true)]
    } else {
        bins::plain_bits(bitseq::low_bits(remainder(mode, m), 5))
    }
}

/// The bin that tells whether a mode is probable.
pub open spec fn luma_flag_bins(mode: int, m: Seq<int>) -> Seq<bins::Bin> {
    seq![bins::coded(coder::PREV_INTRA_LUMA as int, place(mode, m) < 3)]
}

/// The bins of a luma mode.
pub open spec fn luma_mode_bins(mode: int, m: Seq<int>) -> Seq<bins::Bin> {
    luma_flag_bins(mode, m) + luma_rem_bins(mode, m)
}

/// Codes whether a mode is probable.
pub fn encode_luma_mode_flag<W: CabacWriter>(c: &mut Coder<W>, mode: u8, mpm: &[u8; 3])
    requires
        old(c).wf(),
    ensures
        final(c).wf(),
        final(c).adds(*old(c), luma_flag_bins(mode as int, modes_of(*mpm))),
{
    c.prev_intra_luma(place_of(mode, mpm) < 3);
}

/// Codes which probable mode it is, or which of the others.
pub fn encode_luma_mode_rem<W: CabacWriter>(c: &mut Coder<W>, mode: u8, mpm: &[u8; 3])
    requires
        old(c).wf(),
        3 <= mode || place(mode as int, modes_of(*mpm)) < 3 || remainder(
            mode as int,
            modes_of(*mpm),
        ) >= 0,
    ensures
        final(c).wf(),
        final(c).adds(*old(c), luma_rem_bins(mode as int, modes_of(*mpm))),
{
    let p: usize = place_of(mode, mpm);
    let ghost s0 = c.said();
    if p == 0 {
        c.plain(false);
    } else if p == 1 {
        c.plain(true);
        c.plain(false);
        assert(c.said() =~= s0 + seq![bins::plain(true), bins::plain(false)]);
    } else if p == 2 {
        c.plain(true);
        c.plain(true);
        assert(c.said() =~= s0 + seq![bins::plain(true), bins::plain(true)]);
    } else {
        let mut rem: i32 = mode as i32;
        if mpm[0] < mode {
            rem -= 1;
        }
        if mpm[1] < mode {
            rem -= 1;
        }
        if mpm[2] < mode {
            rem -= 1;
        }
        assert(rem == remainder(mode as int, modes_of(*mpm)));
        c.plain_bits(rem as u32, 5);
    }
}

/// Codes a luma mode.
pub fn encode_luma_mode<W: CabacWriter>(c: &mut Coder<W>, mode: u8, mpm: &[u8; 3])
    requires
        old(c).wf(),
        3 <= mode || place(mode as int, modes_of(*mpm)) < 3 || remainder(
            mode as int,
            modes_of(*mpm),
        ) >= 0,
    ensures
        final(c).wf(),
        final(c).adds(*old(c), luma_mode_bins(mode as int, modes_of(*mpm))),
{
    let ghost s0 = c.said();
    encode_luma_mode_flag(c, mode, mpm);
    encode_luma_mode_rem(c, mode, mpm);
    assert(c.said() =~= s0 + luma_mode_bins(mode as int, modes_of(*mpm)));
}

/// Modes other than the probable ones have different numbers, from 0 to 31.
pub proof fn law_remainder_identifies_the_mode(a: int, b: int, m1: int, m2: int)
    requires
        0 <= a <= 34,
        0 <= b <= 34,
        0 <= m1 <= 34,
        0 <= m2 <= 34,
        place(m1, mpm(a, b)) == 3,
        place(m2, mpm(a, b)) == 3,
    ensures
        0 <= remainder(m1, mpm(a, b)) < 32,
        remainder(m1, mpm(a, b)) == remainder(m2, mpm(a, b)) ==> m1 == m2,
{
    law_probable_modes_are_distinct(a, b);
}

/// Number of bins of a luma mode.
pub fn estimated_luma_mode_bins(mode: u8, mpm: &[u8; 3]) -> (r: u32)
    ensures
        r == luma_mode_bins(mode as int, modes_of(*mpm)).len(),
{
    match place_of(mode, mpm) {
        0 => 2,
        1 => 3,
        2 => 3,
        _ => 6,
    }
}

/// The chroma mode that takes the luma mode over.
pub const CHROMA_DM_SYNTAX_IDX: u8 = 4;

/// Luma modes as chroma modes where the chroma samples are half as wide as high.
pub const MODE_422_MAP: [u8; 35] = [
    0, 1, 2, 2, 2, 2, 3, 5, 7, 8, 10, 12, 13, 15, 17, 18, 19, 20, 21, 22, 23, 23, 24, 24, 25, 25,
    26, 27, 27, 28, 28, 29, 29, 30, 31,
];

/// A mode as it is used on the chroma planes.
pub open spec fn mapped(mode: int, chroma: ChromaFormat) -> int {
    if chroma is Yuv422 {
        MODE_422_MAP@[mode] as int
    } else {
        mode
    }
}

fn map_mode(mode: u8, chroma: ChromaFormat) -> (r: u8)
    requires
        mode <= 34,
    ensures
        r == mapped(mode as int, chroma),
        r <= 34,
{
    assert(forall|i: int| 0 <= i < 35 ==> 0 <= #[trigger] MODE_422_MAP@[i] <= 34);
    if matches!(chroma, ChromaFormat::Yuv422) {
        MODE_422_MAP[mode as usize]
    } else {
        mode
    }
}

/// The mode that the explicit chroma choice `k` names, before mapping: planar,
/// vertical, horizontal or DC, and 34 in place of the luma mode itself; choice 4
/// is the luma mode.
pub open spec fn nominal_chroma(luma_mode: int, k: int) -> int {
    let named = if k == 0 {
        0int
    } else if k == 1 {
        26
    } else if k == 2 {
        10
    } else {
        1
    };
    if k == 4 {
        luma_mode
    } else if named == luma_mode {
        34
    } else {
        named
    }
}

/// The prediction mode of chroma choice `k`.
pub open spec fn chroma_mode_of(luma_mode: int, chroma: ChromaFormat, k: int) -> int {
    mapped(nominal_chroma(luma_mode, k), chroma)
}

/// Chroma modes are modes.
pub proof fn lemma_chroma_mode_range(luma_mode: int, chroma: ChromaFormat, k: int)
    requires
        0 <= luma_mode <= 34,
        0 <= k <= 4,
    ensures
        0 <= chroma_mode_of(luma_mode, chroma, k) <= 34,
{
    assert(forall|i: int| 0 <= i < 35 ==> 0 <= #[trigger] MODE_422_MAP@[i] <= 34);
    let n = nominal_chroma(luma_mode, k);
    assert(0 <= n < 35);
}

/// A chroma mode that can be chosen, and a number that ranks it.
#[derive(Clone, Copy)]
pub struct ChromaModeCandidate {
    pub pred_mode: u8,
    pub syntax_idx: u8,
    pub cost: u64,
}

/// The prediction mode of a chroma choice.
pub fn chroma_pred_mode(luma_mode: u8, chroma: ChromaFormat, k: u8) -> (r: u8)
    requires
        luma_mode <= 34,
        k <= 4,
    ensures
        r == chroma_mode_of(luma_mode as int, chroma, k as int),
        r <= 34,
{
    let named: u8 = if k == 0 {
        0
    } else if k == 1 {
        26
    } else if k == 2 {
        10
    } else {
        1
    };
    let nominal: u8 = if k == 4 {
        luma_mode
    } else if named == luma_mode {
        34
    } else {
        named
    };
    map_mode(nominal, chroma)
}

/// The five chroma choices, none of them ranked yet.
pub fn chroma_mode_candidates(luma_mode: u8, chroma: ChromaFormat) -> (r: [ChromaModeCandidate; 5])
    requires
        luma_mode <= 34,
    ensures
        forall|k: int|
            0 <= k < 5 ==> {
                &&& (#[trigger] r@[k]).pred_mode == chroma_mode_of(luma_mode as int, chroma, k)
                &&& r@[k].syntax_idx == k
                &&& r@[k].cost == u64::MAX
            },
{
    let mut r: [ChromaModeCandidate; 5] = [ChromaModeCandidate {
        pred_mode: 0,
        syntax_idx: 0,
        cost: u64::MAX,
    };5];
    for k in 0..5u8
        invariant
            luma_mode <= 34,
            forall|i: int|
                0 <= i < k ==> {
                    &&& (#[trigger] r@[i]).pred_mode == chroma_mode_of(luma_mode as int, chroma, i)
                    &&& r@[i].syntax_idx == i
                    &&& r@[i].cost == u64::MAX
                },
    {
        r[k as usize] = ChromaModeCandidate {
            pred_mode: chroma_pred_mode(luma_mode, chroma, k),
            syntax_idx: k,
            cost: u64::MAX,
        };
    }
    r
}

/// The five chroma choices name five different modes.
pub proof fn law_chroma_choices_are_distinct(luma_mode: int, i: int, j: int)
    requires
        0 <= luma_mode <= 34,
        0 <= i < j <= 4,
    ensures
        nominal_chroma(luma_mode, i) != nominal_chroma(luma_mode, j),
{
}

/// The bins of a chroma choice.
pub open spec fn chroma_mode_bins(k: int) -> Seq<bins::Bin> {
    if k == 4 {
        seq![bins::coded(coder::INTRA_CHROMA as int, false)]
    } else {
        seq![
            bins::coded(coder::INTRA_CHROMA as int, true),
            bins::plain(k >= 2),
            bins::plain(k % 2 == 1),
        ]
    }
}

/// Codes a chroma choice.
pub fn encode_chroma_mode<W: CabacWriter>(c: &mut Coder<W>, syntax_idx: u8)
    requires
        old(c).wf(),
        syntax_idx <= 4,
    ensures
        final(c).wf(),
        final(c).adds(*old(c), chroma_mode_bins(syntax_idx as int)),
{
    let ghost s0 = c.said();
    if syntax_idx == CHROMA_DM_SYNTAX_IDX {
        c.intra_chroma(false);
    } else {
        c.intra_chroma(true);
        c.plain(syntax_idx >= 2);
        c.plain(syntax_idx % 2 == 1);
        assert(c.said() =~= s0 + chroma_mode_bins(syntax_idx as int));
    }
}

/// Number of bins of a chroma choice.
pub fn estimated_chroma_mode_bins(syntax_idx: u8) -> (r: u32)
    ensures
        r == chroma_mode_bins(syntax_idx as int).len(),
{
    if syntax_idx == CHROMA_DM_SYNTAX_IDX {
        1
    } else {
        3
    }
}

/// Different chroma choices have different bins.
pub proof fn law_chroma_bins_identify_the_choice(i: int, j: int)
    requires
        0 <= i <= 4,
        0 <= j <= 4,
        chroma_mode_bins(i) == chroma_mode_bins(j),
    ensures
        i == j,
{
    let (a, b) = (chroma_mode_bins(i), chroma_mode_bins(j));
    if i != 4 && j != 4 {
        assert(a[1] == b[1] && a[2] == b[2]);
        assert(a[1] == bins::plain(i >= 2) && b[1] == bins::plain(j >= 2));
        assert(a[2] == bins::plain(i % 2 == 1) && b[2] == bins::plain(j % 2 == 1));
    }
}

/// The block with sample `(nr, nc)` is coded before the one with `(cur_r, cur_c)`,
/// in blocks of eight.
pub open spec fn decoded_before(
    nr: int,
    nc: int,
    cur_r: int,
    cur_c: int,
    ctb: int,
    width: int,
) -> bool {
    nc < width && refs::order_of(nr, nc, 8, ctb, width / ctb) < refs::order_of(
        cur_r,
        cur_c,
        8,
        ctb,
        width / ctb,
    )
}

/// Whether a neighbouring block is coded before the current one.
pub fn is_block_decoded(
    nr: usize,
    nc: usize,
    cur_r: usize,
    cur_c: usize,
    ctb: usize,
    width: usize,
) -> (r: bool)
    requires
        ctb == 8 || ctb == 16 || ctb == 32 || ctb == 64,
        width <= 0x1fff_ffff,
        nr <= 0x1fff_ffff,
        cur_r <= 0x1fff_ffff,
        cur_c <= 0x1fff_ffff,
    ensures
        r == decoded_before(
            nr as int,
            nc as int,
            cur_r as int,
            cur_c as int,
            ctb as int,
            width as int,
        ),
{
    if nc >= width {
        return false;
    }
    let ctus_x: usize = width / ctb;
    decode_order(nr, nc, 8, ctb, ctus_x) < decode_order(cur_r, cur_c, 8, ctb, ctus_x)
}

} // verus!
