//! Pixel formats: chroma subsampling and bit depth.
use vstd::prelude::*;

verus! {

/// Chroma subsampling.
#[derive(Clone, Copy, Debug, PartialEq, Eq, Structural)]
pub enum ChromaFormat {
    /// 4:0:0, luma only.
    Monochrome,
    /// 4:2:0, chroma of half width and half height.
    Yuv420,
    /// 4:2:2, chroma of half width and full height.
    Yuv422,
    /// 4:4:4, chroma of full width and full height.
    Yuv444,
}

impl ChromaFormat {
    pub open spec fn spec_idc(self) -> int {
        match self {
            ChromaFormat::Monochrome => 0,
            ChromaFormat::Yuv420 => 1,
            ChromaFormat::Yuv422 => 2,
            ChromaFormat::Yuv444 => 3,
        }
    }

    pub open spec fn spec_sub_w(self) -> int {
        if self is Yuv420 || self is Yuv422 {
            2
        } else {
            1
        }
    }

    pub open spec fn spec_sub_h(self) -> int {
        if self is Yuv420 {
            2
        } else {
            1
        }
    }

    /// The `chroma_format_idc` of the sequence parameter set.
    pub fn idc(self) -> (r: u32)
        ensures
            r == self.spec_idc(),
    {
        match self {
            ChromaFormat::Monochrome => 0,
            ChromaFormat::Yuv420 => 1,
            ChromaFormat::Yuv422 => 2,
            ChromaFormat::Yuv444 => 3,
        }
    }

    /// There is no chroma.
    pub fn is_monochrome(self) -> (r: bool)
        ensures
            r == (self is Monochrome),
    {
        matches!(self, ChromaFormat::Monochrome)
    }

    /// Luma width over chroma width (1 without chroma).
    pub fn sub_w(self) -> (r: usize)
        ensures
            r == self.spec_sub_w(),
    {
        match self {
            ChromaFormat::Yuv420 | ChromaFormat::Yuv422 => 2,
            ChromaFormat::Yuv444 | ChromaFormat::Monochrome => 1,
        }
    }

    /// Luma height over chroma height (1 without chroma).
    pub fn sub_h(self) -> (r: usize)
        ensures
            r == self.spec_sub_h(),
    {
        match self {
            ChromaFormat::Yuv420 => 2,
            ChromaFormat::Yuv422 | ChromaFormat::Yuv444 | ChromaFormat::Monochrome => 1,
        }
    }

    /// Side of each chroma transform block of an 8x8 luma block: the width of its
    /// chroma, or nothing without chroma.
    pub fn chroma_tb_size(self) -> (r: usize)
        ensures
            r == if self is Monochrome {
                0
            } else {
                8int / self.spec_sub_w()
            },
    {
        match self {
            ChromaFormat::Yuv420 | ChromaFormat::Yuv422 => 4,
            ChromaFormat::Yuv444 => 8,
            ChromaFormat::Monochrome => 0,
        }
    }

    /// Square chroma transform blocks, one above the other, of an 8x8 luma block.
    pub fn chroma_tbs_per_cu(self) -> (r: usize)
        ensures
            r == if self is Monochrome {
                0
            } else {
                self.spec_sub_w() / self.spec_sub_h()
            },
    {
        match self {
            ChromaFormat::Monochrome => 0,
            ChromaFormat::Yuv420 => 1,
            ChromaFormat::Yuv422 => 2,
            ChromaFormat::Yuv444 => 1,
        }
    }
}

/// Bits per sample.
#[derive(Clone, Copy, Debug, PartialEq, Eq, Structural)]
pub enum BitDepth {
    Eight,
    Ten,
    Twelve,
}

impl BitDepth {
    pub open spec fn spec_bits(self) -> int {
        match self {
            BitDepth::Eight => 8,
            BitDepth::Ten => 10,
            BitDepth::Twelve => 12,
        }
    }

    pub open spec fn spec_max(self) -> int {
        match self {
            BitDepth::Eight => 255,
            BitDepth::Ten => 1023,
            BitDepth::Twelve => 4095,
        }
    }

    /// Number of bits.
    pub fn bits(self) -> (r: u8)
        ensures
            r == self.spec_bits(),
    {
        match self {
            BitDepth::Eight => 8,
            BitDepth::Ten => 10,
            BitDepth::Twelve => 12,
        }
    }

    /// Bits beyond eight, as parameter sets give them.
    pub fn minus8(self) -> (r: u8)
        ensures
            r == self.spec_bits() - 8,
    {
        self.bits() - 8
    }

    /// How far the quantisation parameter may go below zero.
    pub fn qp_bd_offset(self) -> (r: i32)
        ensures
            r == 6 * (self.spec_bits() - 8),
    {
        6 * self.minus8() as i32
    }

    /// Largest sample.
    pub fn max_val(self) -> (r: u16)
        ensures
            r == self.spec_max(),
    {
        match self {
            BitDepth::Eight => 255,
            BitDepth::Ten => 1023,
            BitDepth::Twelve => 4095,
        }
    }

    /// Sample in the middle of the range.
    pub fn neutral(self) -> (r: u16)
        ensures
            r == (self.spec_max() + 1) / 2,
    {
        match self {
            BitDepth::Eight => 128,
            BitDepth::Ten => 512,
            BitDepth::Twelve => 2048,
        }
    }
}

/// A chroma format and a number of bits per sample.
#[derive(Clone, Copy, Debug)]
pub struct PixelFormat {
    pub chroma: ChromaFormat,
    pub bit_depth: u8,
}

impl PixelFormat {
    /// Eight-bit samples.
    pub fn new(chroma: ChromaFormat) -> (r: Self)
        ensures
            r == (PixelFormat { chroma, bit_depth: 8 }),
    {
        PixelFormat { chroma, bit_depth: 8 }
    }
}

} // verus!
