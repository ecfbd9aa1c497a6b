//! How a coding unit is predicted and cut, and the transform blocks it has.
use crate::commit::{ChromaBlock, LumaBlock};
use crate::fmt::ChromaFormat;
use crate::frame;
use crate::frame::{chroma_qp_for, Frame};
use crate::modes;
use crate::modes::chroma_pred_mode;
use crate::tusyntax;
use crate::tusyntax::split_chroma_is_shared;
use vstd::prelude::*;

verus! {

/// How a coding unit is coded. Chroma modes are given by their places in the list
/// of choices.
#[derive(Clone, Copy)]
pub enum CuChoice {
    /// One prediction and one luma block.
    Whole { mode: u8, chroma: u8 },
    /// One prediction mode and four luma blocks.
    Split { mode: u8, chroma: u8 },
    /// Four predictions.
    Parts { modes: [u8; 4], chromas: [u8; 4] },
    /// No loss; the luma is cut as the flags of the nodes of a tree say.
    Lossless { mode: u8, chroma: u8, split: [bool; 85] },
}

impl CuChoice {
    /// The choice can be made for a unit.
    pub open spec fn ok(self, size: int, lossless: bool, chroma: ChromaFormat) -> bool {
        match self {
            CuChoice::Whole { mode, chroma: k } => !lossless && mode <= 34 && k <= 4,
            CuChoice::Split { mode, chroma: k } => !lossless && mode <= 34 && k <= 4,
            CuChoice::Parts { modes: m, chromas: k } => {
                &&& !lossless
                &&& size == 8
                &&& !(chroma is Yuv422)
                &&& forall|i: int| 0 <= i < 4 ==> #[trigger] m@[i] <= 34
                &&& forall|i: int| 0 <= i < 4 ==> #[trigger] k@[i] <= 4
            },
            CuChoice::Lossless { mode, chroma: k, .. } => lossless && mode <= 34 && k <= 4,
        }
    }

    /// The luma mode of quarter `i`.
    pub open spec fn luma_mode(self, i: int) -> u8 {
        match self {
            CuChoice::Whole { mode, .. } => mode,
            CuChoice::Split { mode, .. } => mode,
            CuChoice::Parts { modes: m, .. } => m@[i],
            CuChoice::Lossless { mode, .. } => mode,
        }
    }

    /// The luma is cut in four blocks.
    pub open spec fn quartered(self) -> bool {
        self is Split || self is Parts
    }

    /// Each quarter has a chroma mode of its own.
    pub open spec fn parted_chroma(self, chroma: ChromaFormat) -> bool {
        self is Parts && chroma is Yuv444
    }

    /// Which of the chroma choices quarter `i` has.
    pub open spec fn chroma_choice(self, i: int) -> u8 {
        match self {
            CuChoice::Whole { chroma: k, .. } => k,
            CuChoice::Split { chroma: k, .. } => k,
            CuChoice::Parts { chromas: k, .. } => k@[i],
            CuChoice::Lossless { chroma: k, .. } => k,
        }
    }

    /// The chroma mode of quarter `i`.
    pub open spec fn chroma_mode(self, chroma: ChromaFormat, i: int) -> u8 {
        let q = if self.parted_chroma(chroma) {
            i
        } else {
            0
        };
        modes::chroma_mode_of(self.luma_mode(q) as int, chroma, self.chroma_choice(q) as int) as u8
    }

    /// The quarters share the chroma blocks.
    pub open spec fn shared(self, size: int, chroma: ChromaFormat) -> bool {
        self.quartered() && !(chroma is Monochrome) && tusyntax::shares_chroma(size, chroma)
    }

    /// The chroma is cut in four.
    pub open spec fn chroma_quartered(self, size: int, chroma: ChromaFormat) -> bool {
        self.quartered() && !(chroma is Monochrome) && !tusyntax::shares_chroma(size, chroma)
    }

    /// The luma mode of quarter `i`.
    pub fn luma_mode_of(&self, i: usize) -> (r: u8)
        requires
            i < 4,
        ensures
            r == self.luma_mode(i as int),
    {
        match self {
            CuChoice::Whole { mode, .. } => *mode,
            CuChoice::Split { mode, .. } => *mode,
            CuChoice::Parts { modes: m, .. } => m[i],
            CuChoice::Lossless { mode, .. } => *mode,
        }
    }

    /// The chroma choice of quarter `i`.
    pub fn chroma_choice_of(&self, i: usize) -> (r: u8)
        requires
            i < 4,
        ensures
            r == self.chroma_choice(i as int),
    {
        match self {
            CuChoice::Whole { chroma: k, .. } => *k,
            CuChoice::Split { chroma: k, .. } => *k,
            CuChoice::Parts { chromas: k, .. } => k[i],
            CuChoice::Lossless { chroma: k, .. } => *k,
        }
    }

    /// The chroma mode of quarter `i`.
    pub fn chroma_mode_at(&self, chroma: ChromaFormat, i: usize) -> (r: u8)
        requires
            i < 4,
            exists|size: int, lossless: bool| self.ok(size, lossless, chroma),
        ensures
            r == self.chroma_mode(chroma, i as int),
            r <= 34,
    {
        let parted: bool = matches!(self, CuChoice::Parts { .. }) && matches!(
            chroma,
            ChromaFormat::Yuv444
        );
        let q: usize = if parted {
            i
        } else {
            0
        };
        chroma_pred_mode(self.luma_mode_of(q), chroma, self.chroma_choice_of(q))
    }

    /// Whether the luma is cut in four.
    pub fn is_quartered(&self) -> (r: bool)
        ensures
            r == self.quartered(),
    {
        matches!(self, CuChoice::Split { .. }) || matches!(self, CuChoice::Parts { .. })
    }
}

/// None or all of a length.
proof fn lemma_bit_times(b: int, x: int)
    requires
        0 <= b <= 1,
    ensures
        b * x == if b == 0 {
            0
        } else {
            x
        },
{
    if b == 0 {
        assert(0 * x == 0);
    } else {
        assert(1 * x == x);
    }
}

/// Where a coding unit is, and the parameter by which it is quantised.
#[derive(Clone, Copy)]
pub struct CuPlace {
    pub row: usize,
    pub col: usize,
    pub size: usize,
    pub qp: u8,
}

impl CuPlace {
    pub open spec fn ok(self, f: Frame) -> bool {
        &&& {
            ||| self.size == 8 && self.row % 8 == 0 && self.col % 8 == 0
            ||| self.size == 16 && self.row % 16 == 0 && self.col % 16 == 0
            ||| self.size == 32 && self.row % 32 == 0 && self.col % 32 == 0
        }
        &&& f.luma_fits(self.row as int, self.col as int, self.size as int)
        &&& self.qp <= 51
    }

    /// The parameter of the luma blocks.
    pub open spec fn luma_qp(self, f: Frame) -> int {
        self.qp + 6 * (f.bit_depth.spec_bits() - 8)
    }

    /// The parameter of the chroma blocks.
    pub open spec fn chroma_qp(self, f: Frame) -> int {
        frame::chroma_qp_of(self.qp as int, f.chroma) + 6 * (f.bit_depth.spec_bits() - 8)
    }

    /// The luma parameter of the unit, raised by the bit depth.
    pub fn luma_qp_of(&self, f: &Frame) -> (r: u8)
        requires
            self.qp <= 51,
        ensures
            r == self.luma_qp(*f),
            r <= 173,
    {
        self.qp + f.bit_depth.qp_bd_offset() as u8
    }

    /// The chroma parameter of the unit, raised by the bit depth.
    pub fn chroma_qp_of(&self, f: &Frame) -> (r: u8)
        requires
            self.qp <= 51,
        ensures
            r == self.chroma_qp(*f),
            r <= 173,
    {
        chroma_qp_for(self.qp, f.chroma) + f.bit_depth.qp_bd_offset() as u8
    }

    /// The luma block of a unit that is not cut.
    pub open spec fn luma_whole(self, f: Frame, mode: u8) -> LumaBlock {
        LumaBlock {
            row: self.row,
            col: self.col,
            n: self.size,
            min_pu: 8,
            mode,
            qp: self.luma_qp(f) as u8,
            lossless: false,
        }
    }

    /// The luma block of quarter `i`.
    pub open spec fn luma_quarter(self, f: Frame, mode: u8, i: int) -> LumaBlock {
        let h = self.size as int / 2;
        LumaBlock {
            row: (self.row + (i / 2) * h) as usize,
            col: (self.col + (i % 2) * h) as usize,
            n: h as usize,
            min_pu: h as usize,
            mode,
            qp: self.luma_qp(f) as u8,
            lossless: false,
        }
    }

    /// The luma blocks of a unit that is coded with loss.
    pub open spec fn luma_blocks(self, f: Frame, c: CuChoice) -> Seq<LumaBlock> {
        if c.quartered() {
            Seq::new(4, |i: int| self.luma_quarter(f, c.luma_mode(i), i))
        } else {
            seq![self.luma_whole(f, c.luma_mode(0))]
        }
    }

    /// Chroma block `t` of a unit whose chroma is not cut, counted downwards.
    pub open spec fn chroma_whole(self, f: Frame, mode: u8, t: int) -> ChromaBlock {
        let (sw, sh) = (f.chroma.spec_sub_w(), f.chroma.spec_sub_h());
        let side = self.size as int / sw;
        ChromaBlock {
            row: (self.row as int / sh + t * side) as usize,
            col: (self.col as int / sw) as usize,
            n: side as usize,
            min_pu: 8,
            lrow: (self.row + t * side * sh) as usize,
            lcol: self.col,
            mode,
            qp: self.chroma_qp(f) as u8,
            lossless: false,
            smooth: true,
        }
    }

    /// Chroma block `x` of a unit whose chroma is cut in four, the blocks of each
    /// quarter together, counted downwards.
    pub open spec fn chroma_quarter(self, f: Frame, mode: u8, x: int) -> ChromaBlock {
        let (sw, sh) = (f.chroma.spec_sub_w(), f.chroma.spec_sub_h());
        let k = tusyntax::stacked(f.chroma);
        let side = self.size as int / sw / 2;
        let (i, s) = (x / k, x % k);
        let row = self.row as int / sh + (i / 2) * side * k + s * side;
        let col = self.col as int / sw + (i % 2) * side;
        ChromaBlock {
            row: row as usize,
            col: col as usize,
            n: side as usize,
            min_pu: 4,
            lrow: (row * sh) as usize,
            lcol: (col * sw) as usize,
            mode,
            qp: self.chroma_qp(f) as u8,
            lossless: false,
            smooth: true,
        }
    }

    /// The chroma blocks of a plane of a unit that is coded with loss.
    pub open spec fn chroma_blocks(self, f: Frame, c: CuChoice) -> Seq<ChromaBlock> {
        let k = tusyntax::stacked(f.chroma);
        if c.chroma_quartered(self.size as int, f.chroma) {
            Seq::new(
                (4 * k) as nat,
                |x: int| self.chroma_quarter(f, c.chroma_mode(f.chroma, x / k), x),
            )
        } else {
            Seq::new(k as nat, |t: int| self.chroma_whole(f, c.chroma_mode(f.chroma, 0), t))
        }
    }

    /// Lists the luma blocks of a unit that is coded with loss.
    pub fn list_luma(&self, f: &Frame, c: &CuChoice) -> (r: Vec<LumaBlock>)
        requires
            f.wf(),
            self.ok(*f),
            c.ok(self.size as int, false, f.chroma),
        ensures
            r@ == self.luma_blocks(*f, *c),
            forall|i: int| 0 <= i < r@.len() ==> (#[trigger] r@[i]).ok(*f),
    {
        let qp: u8 = self.luma_qp_of(f);
        let mut r: Vec<LumaBlock> = Vec::new();
        if c.is_quartered() {
            let h: usize = self.size / 2;
            for i in 0..4usize
                invariant
                    f.wf(),
                    self.ok(*f),
                    c.ok(self.size as int, false, f.chroma),
                    c.quartered(),
                    qp == self.luma_qp(*f),
                    qp <= 173,
                    h == self.size as int / 2,
                    r@.len() == i,
                    forall|x: int|
                        0 <= x < i ==> {
                            &&& #[trigger] r@[x] == self.luma_quarter(*f, c.luma_mode(x), x)
                            &&& r@[x].ok(*f)
                        },
            {
                let mode: u8 = c.luma_mode_of(i);
                let (dy, dx): (usize, usize) = (i / 2, i % 2);
                assert(dy * h <= h && dx * h <= h) by (nonlinear_arith)
                    requires
                        dy <= 1,
                        dx <= 1,
                ;
                r.push(
                    LumaBlock {
                        row: self.row + dy * h,
                        col: self.col + dx * h,
                        n: h,
                        min_pu: h,
                        mode,
                        qp,
                        lossless: false,
                    },
                );
            }
        } else {
            r.push(
                LumaBlock {
                    row: self.row,
                    col: self.col,
                    n: self.size,
                    min_pu: 8,
                    mode: c.luma_mode_of(0),
                    qp,
                    lossless: false,
                },
            );
        }
        proof {
            assert(r@ =~= self.luma_blocks(*f, *c));
        }
        r
    }

    /// The chroma blocks lie inside the planes.
    proof fn lemma_chroma_ok(self, f: Frame, c: CuChoice, x: int)
        requires
            f.wf(),
            self.ok(f),
            c.ok(self.size as int, false, f.chroma),
            !(f.chroma is Monochrome),
            0 <= x < self.chroma_blocks(f, c).len(),
        ensures
            self.chroma_blocks(f, c)[x].ok(f),
    {
        let k = tusyntax::stacked(f.chroma);
        self.lemma_chroma_modes(f, c, 0);
        if c.chroma_quartered(self.size as int, f.chroma) {
            self.lemma_quarter_place(f, x);
            self.lemma_chroma_modes(f, c, x / k);
        } else {
            self.lemma_whole_place(f, x);
        }
    }

    /// Where a quarter of the chroma lies.
    pub proof fn lemma_quarter_place(self, f: Frame, x: int)
        requires
            f.wf(),
            self.ok(f),
            !(f.chroma is Monochrome),
            !tusyntax::shares_chroma(self.size as int, f.chroma),
            0 <= x < 4 * tusyntax::stacked(f.chroma),
        ensures
            ({
                let (sw, sh) = (f.chroma.spec_sub_w(), f.chroma.spec_sub_h());
                let k = tusyntax::stacked(f.chroma);
                let side = self.size as int / sw / 2;
                let (i, s) = (x / k, x % k);
                let row = self.row as int / sh + (i / 2) * side * k + s * side;
                let col = self.col as int / sw + (i % 2) * side;
                &&& side == 4 || side == 8 || side == 16
                &&& 0 <= i < 4
                &&& 0 <= (i / 2) * side <= side
                &&& 0 <= (i / 2) * side * k <= 32
                &&& 0 <= s * side <= side
                &&& 0 <= (i % 2) * side <= side
                &&& row + side <= f.ch
                &&& col + side <= f.cw
                &&& 0 <= row * sh < f.h
                &&& 0 <= col * sw < f.w
            }),
    {
        f.lemma_chroma_dims();
        let (sw, sh) = (f.chroma.spec_sub_w(), f.chroma.spec_sub_h());
        let k = tusyntax::stacked(f.chroma);
        let size = self.size as int;
        assert(self.row % 8 == 0 && self.col % 8 == 0);
        let side = size / sw / 2;
        let (i, s) = (x / k, x % k);
        if k == 1 {
            assert(x / 1 == x && x % 1 == 0);
        } else {
            assert(i == x / 2 && s == x % 2);
        }
        let (dy, dx) = (i / 2, i % 2);
        assert(0 <= dy <= 1 && 0 <= dx <= 1 && 0 <= s < k);
        lemma_bit_times(dy, side);
        lemma_bit_times(dx, side);
        lemma_bit_times(s, side);
        lemma_bit_times(dy, side * k);
        assert(dy * side * k == dy * (side * k)) by (nonlinear_arith);
        if k == 1 {
            assert(side * 1 == side);
        } else {
            assert(side * 2 == 2 * side);
        }
    }

    /// Where the chroma lies that is not cut.
    pub proof fn lemma_whole_place(self, f: Frame, t: int)
        requires
            f.wf(),
            self.ok(f),
            !(f.chroma is Monochrome),
            0 <= t < tusyntax::stacked(f.chroma),
        ensures
            ({
                let (sw, sh) = (f.chroma.spec_sub_w(), f.chroma.spec_sub_h());
                let side = self.size as int / sw;
                &&& side == 4 || side == 8 || side == 16 || side == 32
                &&& 0 <= t * side <= side
                &&& self.row as int / sh + t * side + side <= f.ch
                &&& self.col as int / sw + side <= f.cw
                &&& 0 <= t * side * sh <= 2 * side
                &&& self.row + t * side * sh < f.h
            }),
    {
        f.lemma_chroma_dims();
        let (sw, sh) = (f.chroma.spec_sub_w(), f.chroma.spec_sub_h());
        let side = self.size as int / sw;
        assert(self.row % 8 == 0 && self.col % 8 == 0);
        lemma_bit_times(t, side);
        if t == 0 {
            assert(0 * sh == 0);
        } else {
            assert(sh == 1);
            assert(side * 1 == side);
        }
    }

    proof fn lemma_chroma_modes(self, f: Frame, c: CuChoice, i: int)
        requires
            0 <= i < 4,
            c.ok(self.size as int, false, f.chroma),
        ensures
            c.chroma_mode(f.chroma, i) <= 34,
    {
        let q = if c.parted_chroma(f.chroma) {
            i
        } else {
            0
        };
        assert(c.luma_mode(q) <= 34);
        modes::lemma_chroma_mode_range(
            c.luma_mode(q) as int,
            f.chroma,
            c.chroma_choice(q) as int,
        );
    }

    /// Lists the chroma blocks of a unit that is coded with loss.
    pub fn list_chroma(&self, f: &Frame, c: &CuChoice) -> (r: Vec<ChromaBlock>)
        requires
            f.wf(),
            self.ok(*f),
            c.ok(self.size as int, false, f.chroma),
            !(f.chroma is Monochrome),
        ensures
            r@ == self.chroma_blocks(*f, *c),
            forall|i: int| 0 <= i < r@.len() ==> (#[trigger] r@[i]).ok(*f),
    {
        let qp: u8 = self.chroma_qp_of(f);
        let (sw, sh): (usize, usize) = (f.chroma.sub_w(), f.chroma.sub_h());
        let k: usize = f.chroma.chroma_tbs_per_cu();
        let cut: bool = c.is_quartered() && !split_chroma_is_shared(self.size, f.chroma);
        let mut r: Vec<ChromaBlock> = Vec::new();
        let count: usize = if cut {
            4 * k
        } else {
            k
        };
        for x in 0..count
            invariant
                f.wf(),
                self.ok(*f),
                c.ok(self.size as int, false, f.chroma),
                !(f.chroma is Monochrome),
                cut == c.chroma_quartered(self.size as int, f.chroma),
                qp == self.chroma_qp(*f),
                qp <= 173,
                sw == f.chroma.spec_sub_w(),
                sh == f.chroma.spec_sub_h(),
                k == tusyntax::stacked(f.chroma),
                count == self.chroma_blocks(*f, *c).len(),
                r@.len() == x,
                forall|i: int|
                    0 <= i < x ==> {
                        &&& #[trigger] r@[i] == self.chroma_blocks(*f, *c)[i]
                        &&& r@[i].ok(*f)
                    },
        {
            proof {
                self.lemma_chroma_ok(*f, *c, x as int);
            }
            if cut {
                proof {
                    self.lemma_quarter_place(*f, x as int);
                }
                let side: usize = self.size / sw / 2;
                let (i, s): (usize, usize) = (x / k, x % k);
                let mode: u8 = c.chroma_mode_at(f.chroma, i);
                let (dy, dx): (usize, usize) = (i / 2, i % 2);
                let row: usize = self.row / sh + dy * side * k + s * side;
                let col: usize = self.col / sw + dx * side;
                r.push(
                    ChromaBlock {
                        row,
                        col,
                        n: side,
                        min_pu: 4,
                        lrow: row * sh,
                        lcol: col * sw,
                        mode,
                        qp,
                        lossless: false,
                        smooth: true,
                    },
                );
            } else {
                proof {
                    self.lemma_whole_place(*f, x as int);
                }
                let side: usize = self.size / sw;
                let mode: u8 = c.chroma_mode_at(f.chroma, 0);
                r.push(
                    ChromaBlock {
                        row: self.row / sh + x * side,
                        col: self.col / sw,
                        n: side,
                        min_pu: 8,
                        lrow: self.row + x * side * sh,
                        lcol: self.col,
                        mode,
                        qp,
                        lossless: false,
                        smooth: true,
                    },
                );
            }
            assert(r@[x as int] == self.chroma_blocks(*f, *c)[x as int]);
        }
        proof {
            assert(r@ =~= self.chroma_blocks(*f, *c));
        }
        r
    }
}

} // verus!
