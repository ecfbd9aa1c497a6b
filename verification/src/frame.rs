//! The dimensions of a picture, its planes, and blocks in them.
use crate::fmt::{BitDepth, ChromaFormat};
use crate::planes;
use crate::planes::{extract_plane, Yuv};
use crate::refs;
use crate::refs::{ChromaRefGeometry, LumaRefGeometry};
use crate::tb;
use crate::transform;
use vstd::prelude::*;

verus! {

/// The dimensions of a picture: coded, in whole coding tree units, and of the
/// source.
#[derive(Clone, Copy)]
pub struct Frame {
    pub w: usize,
    pub h: usize,
    pub cw: usize,
    pub ch: usize,
    pub src_w: usize,
    pub src_h: usize,
    pub src_cw: usize,
    pub src_ch: usize,
    pub chroma: ChromaFormat,
    pub bit_depth: BitDepth,
}

/// The planes as they are reconstructed.
pub struct Picture {
    pub y: Vec<u16>,
    pub cb: Vec<u16>,
    pub cr: Vec<u16>,
}

impl Frame {
    pub open spec fn wf(self) -> bool {
        &&& self.w % 64 == 0
        &&& self.h % 64 == 0
        &&& 64 <= self.w <= 0x1fff_ffc0
        &&& 64 <= self.h <= 0x1fff_ffc0
        &&& self.cw * self.chroma.spec_sub_w() == self.w
        &&& self.ch * self.chroma.spec_sub_h() == self.h
        &&& 1 <= self.src_w
        &&& 1 <= self.src_h
        &&& 1 <= self.src_cw
        &&& 1 <= self.src_ch
    }

    /// Largest sample.
    pub open spec fn max(self) -> int {
        self.bit_depth.spec_max()
    }

    /// The planes of a source have the dimensions, and their samples the range.
    pub open spec fn source_ok(self, src: Yuv) -> bool {
        &&& src.y@.len() >= self.src_w * self.src_h
        &&& tb::samples_le(src.y@, self.max())
        &&& !(self.chroma is Monochrome) ==> {
            &&& src.cb@.len() >= self.src_cw * self.src_ch
            &&& src.cr@.len() >= self.src_cw * self.src_ch
            &&& tb::samples_le(src.cb@, self.max())
            &&& tb::samples_le(src.cr@, self.max())
        }
    }

    /// The planes of a picture have the dimensions, and their samples the range.
    pub open spec fn picture_ok(self, pic: Picture) -> bool {
        &&& pic.y@.len() == self.w * self.h
        &&& tb::samples_le(pic.y@, self.max())
        &&& !(self.chroma is Monochrome) ==> {
            &&& pic.cb@.len() == self.cw * self.ch
            &&& pic.cr@.len() == self.cw * self.ch
            &&& tb::samples_le(pic.cb@, self.max())
            &&& tb::samples_le(pic.cr@, self.max())
        }
    }

    /// A square of side `n` lies inside the luma plane.
    pub open spec fn luma_fits(self, row: int, col: int, n: int) -> bool {
        0 <= row && 0 <= col && row + n <= self.h && col + n <= self.w
    }

    /// A square of side `n` lies inside the chroma planes.
    pub open spec fn chroma_fits(self, row: int, col: int, n: int) -> bool {
        0 <= row && 0 <= col && row + n <= self.ch && col + n <= self.cw
    }

    /// The geometry of a luma block.
    pub open spec fn luma_geo_of(self, row: int, col: int, n: int, min_pu: int) -> LumaRefGeometry {
        LumaRefGeometry {
            stride: self.w,
            block_row: row as usize,
            block_col: col as usize,
            height: self.h,
            n: n as usize,
            ctu: 64,
            ctus_x: (self.w as int / 64) as usize,
            min_pu: min_pu as usize,
            neutral: ((self.max() + 1) / 2) as u16,
        }
    }

    /// Where a luma block finds its reference samples.
    pub fn luma_geo(&self, row: usize, col: usize, n: usize, min_pu: usize) -> (g: LumaRefGeometry)
        requires
            self.wf(),
            transform::is_size(n as int),
            4 <= min_pu <= 64,
            self.luma_fits(row as int, col as int, n as int),
        ensures
            g == self.luma_geo_of(row as int, col as int, n as int, min_pu as int),
            g.wf(),
            g.neutral <= self.max(),
    {
        LumaRefGeometry {
            stride: self.w,
            block_row: row,
            block_col: col,
            height: self.h,
            n,
            ctu: 64,
            ctus_x: self.w / 64,
            min_pu,
            neutral: self.bit_depth.neutral(),
        }
    }

    /// The geometry of a chroma block that stands for the luma at `(lrow, lcol)`.
    pub open spec fn chroma_geo_of(
        self,
        row: int,
        col: int,
        n: int,
        min_pu: int,
        lrow: int,
        lcol: int,
    ) -> ChromaRefGeometry {
        ChromaRefGeometry {
            stride: self.cw,
            block_row: row as usize,
            block_col: col as usize,
            chroma_h: self.ch,
            n: n as usize,
            sub_w: self.chroma.spec_sub_w() as usize,
            sub_h: self.chroma.spec_sub_h() as usize,
            luma_w: self.w,
            luma_h: self.h,
            luma_ctus_x: (self.w as int / 64) as usize,
            min_luma_pu: min_pu as usize,
            cur_luma_row: lrow as usize,
            cur_luma_col: lcol as usize,
            neutral: ((self.max() + 1) / 2) as u16,
        }
    }

    /// Where a chroma block finds its reference samples.
    pub fn chroma_geo(
        &self,
        row: usize,
        col: usize,
        n: usize,
        min_pu: usize,
        lrow: usize,
        lcol: usize,
    ) -> (g: ChromaRefGeometry)
        requires
            self.wf(),
            transform::is_size(n as int),
            4 <= min_pu <= 64,
            self.chroma_fits(row as int, col as int, n as int),
            lrow < self.h,
            lcol < self.w,
        ensures
            g == self.chroma_geo_of(
                row as int,
                col as int,
                n as int,
                min_pu as int,
                lrow as int,
                lcol as int,
            ),
            g.wf(),
            g.neutral <= self.max(),
    {
        proof {
            self.lemma_chroma_dims();
        }
        ChromaRefGeometry {
            stride: self.cw,
            block_row: row,
            block_col: col,
            chroma_h: self.ch,
            n,
            sub_w: self.chroma.sub_w(),
            sub_h: self.chroma.sub_h(),
            luma_w: self.w,
            luma_h: self.h,
            luma_ctus_x: self.w / 64,
            min_luma_pu: min_pu,
            cur_luma_row: lrow,
            cur_luma_col: lcol,
            neutral: self.bit_depth.neutral(),
        }
    }

    /// The chroma planes are as large as the luma plane or half as large along a
    /// side.
    pub proof fn lemma_chroma_dims(self)
        requires
            self.wf(),
        ensures
            self.cw == self.w as int / self.chroma.spec_sub_w(),
            self.ch == self.h as int / self.chroma.spec_sub_h(),
            32 <= self.cw <= self.w,
            32 <= self.ch <= self.h,
    {
        assert(self.chroma.spec_sub_w() == 1 || self.chroma.spec_sub_w() == 2);
        assert(self.chroma.spec_sub_h() == 1 || self.chroma.spec_sub_h() == 2);
        if self.chroma.spec_sub_w() == 1 {
            assert(self.cw * 1 == self.w);
        } else {
            assert(self.cw * 2 == self.w);
        }
        if self.chroma.spec_sub_h() == 1 {
            assert(self.ch * 1 == self.h);
        } else {
            assert(self.ch * 2 == self.h);
        }
    }
}

/// A block of a source plane, its last row and column going on past it.
pub open spec fn source_block(
    src: Seq<u16>,
    w: int,
    h: int,
    row: int,
    col: int,
    n: int,
) -> Seq<u16> {
    planes::window(src, w, h, col, row, n, n)
}

/// Copies a block of a source plane.
pub fn take_block(src: &Vec<u16>, w: usize, h: usize, row: usize, col: usize, n: usize, Ghost(
    max,
): Ghost<int>) -> (r: Vec<u16>)
    requires
        1 <= w,
        1 <= h,
        src@.len() >= w * h,
        row <= 0x1fff_ffff,
        col <= 0x1fff_ffff,
        n <= 64,
        tb::samples_le(src@, max),
    ensures
        r@ == source_block(src@, w as int, h as int, row as int, col as int, n as int),
        r@.len() == n * n,
        tb::samples_le(r@, max),
{
    assert(0 <= n * n <= 4096) by (nonlinear_arith)
        requires
            0 <= n <= 64,
    ;
    let r: Vec<u16> = extract_plane(src, w, h, col, row, n, n);
    proof {
        assert forall|x: int| 0 <= x < r@.len() implies #[trigger] r@[x] <= max by {
            let (a, b) = (
                planes::min(row + x / n as int, h - 1),
                planes::min(col + x % n as int, w - 1),
            );
            assert(0 <= x / n as int && 0 <= x % n as int) by (nonlinear_arith)
                requires
                    0 <= x < n * n,
            ;
            refs::lemma_inside(a, b, w as int, h as int);
            assert(h * w == w * h) by (nonlinear_arith);
        }
    }
    r
}

/// The chroma quantisation parameter that belongs to a luma one.
pub open spec fn chroma_qp_of(qp: int, chroma: ChromaFormat) -> int {
    let qpi = if qp < 57 {
        qp
    } else {
        57
    };
    if chroma is Yuv420 {
        if qpi < 30 {
            qpi
        } else if qpi > 43 {
            qpi - 6
        } else {
            QP_C@[qpi - 30] as int
        }
    } else if qpi < 51 {
        qpi
    } else {
        51
    }
}

/// Chroma parameters of the luma parameters 30 to 43 in 4:2:0.
pub const QP_C: [u8; 14] = [29, 30, 31, 32, 33, 33, 34, 34, 35, 35, 36, 36, 37, 37];

/// The chroma parameter that goes with a luma parameter.
pub fn chroma_qp_for(qp: u8, chroma: ChromaFormat) -> (r: u8)
    ensures
        r == chroma_qp_of(qp as int, chroma),
        r <= 51,
        r <= qp,
{
    assert(forall|i: int| 0 <= i < 14 ==> #[trigger] QP_C@[i] <= 29 + i);
    let qpi: u8 = if qp < 57 {
        qp
    } else {
        57
    };
    if matches!(chroma, ChromaFormat::Yuv420) {
        if qpi < 30 {
            qpi
        } else if qpi > 43 {
            qpi - 6
        } else {
            QP_C[(qpi - 30) as usize]
        }
    } else if qpi < 51 {
        qpi
    } else {
        51
    }
}

} // verus!
