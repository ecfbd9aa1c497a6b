//! Colour description: coding-independent code points and ICC profiles.
use vstd::prelude::*;

verus! {

/// Colour primaries.
#[derive(Clone, Copy, Debug, PartialEq, Eq, Structural)]
pub enum Primaries {
    /// For future use.
    Reserved,
    /// BT.709, sRGB.
    Bt709,
    /// Unknown or determined by the application.
    Unspecified,
    /// BT.470 System M.
    Bt470M,
    /// BT.470 System B, G.
    Bt470Bg,
    /// BT.601 525 lines.
    Bt601,
    /// SMPTE 240M.
    Smpte240,
    /// Generic film.
    GenericFilm,
    /// BT.2020, BT.2100.
    Bt2020,
    /// CIE 1931 XYZ.
    Xyz,
    /// SMPTE RP 431-2.
    Smpte431,
    /// SMPTE EG 432-1.
    Smpte432,
    /// EBU Tech. 3213-E.
    Ebu3213,
}

impl Primaries {
    pub open spec fn spec_code(self) -> int {
        match self {
            Primaries::Reserved => 0,
            Primaries::Bt709 => 1,
            Primaries::Unspecified => 2,
            Primaries::Bt470M => 4,
            Primaries::Bt470Bg => 5,
            Primaries::Bt601 => 6,
            Primaries::Smpte240 => 7,
            Primaries::GenericFilm => 8,
            Primaries::Bt2020 => 9,
            Primaries::Xyz => 10,
            Primaries::Smpte431 => 11,
            Primaries::Smpte432 => 12,
            Primaries::Ebu3213 => 22,
        }
    }

    /// The number that stands for it in a stream.
    pub fn code(self) -> (r: u8)
        ensures
            r == self.spec_code(),
    {
        match self {
            Primaries::Reserved => 0,
            Primaries::Bt709 => 1,
            Primaries::Unspecified => 2,
            Primaries::Bt470M => 4,
            Primaries::Bt470Bg => 5,
            Primaries::Bt601 => 6,
            Primaries::Smpte240 => 7,
            Primaries::GenericFilm => 8,
            Primaries::Bt2020 => 9,
            Primaries::Xyz => 10,
            Primaries::Smpte431 => 11,
            Primaries::Smpte432 => 12,
            Primaries::Ebu3213 => 22,
        }
    }
}

/// Transfer characteristics.
#[derive(Clone, Copy, Debug, PartialEq, Eq, Structural)]
pub enum TransferFunction {
    /// For future use.
    Reserved,
    /// BT.709.
    Bt709,
    /// Unknown or determined by the application.
    Unspecified,
    /// BT.470 System M.
    Bt470M,
    /// BT.470 System B, G.
    Bt470Bg,
    /// BT.601.
    Bt601,
    /// SMPTE 240M.
    Smpte240,
    /// Linear.
    Linear,
    /// Logarithmic, 100:1.
    Log100,
    /// Logarithmic, 100 sqrt(10):1.
    Log100sqrt10,
    /// IEC 61966-2-4.
    Iec61966,
    /// BT.1361 extended gamut.
    Bt1361,
    /// sRGB, sYCC.
    Srgb,
    /// BT.2020, 10 bits.
    Bt202010bit,
    /// BT.2020, 12 bits.
    Bt202012bit,
    /// SMPTE ST 2084 (PQ).
    Smpte2084,
    /// SMPTE ST 428-1.
    Smpte428,
    /// Hybrid log-gamma.
    Hlg,
}

impl TransferFunction {
    pub open spec fn spec_code(self) -> int {
        match self {
            TransferFunction::Reserved => 0,
            TransferFunction::Bt709 => 1,
            TransferFunction::Unspecified => 2,
            TransferFunction::Bt470M => 4,
            TransferFunction::Bt470Bg => 5,
            TransferFunction::Bt601 => 6,
            TransferFunction::Smpte240 => 7,
            TransferFunction::Linear => 8,
            TransferFunction::Log100 => 9,
            TransferFunction::Log100sqrt10 => 10,
            TransferFunction::Iec61966 => 11,
            TransferFunction::Bt1361 => 12,
            TransferFunction::Srgb => 13,
            TransferFunction::Bt202010bit => 14,
            TransferFunction::Bt202012bit => 15,
            TransferFunction::Smpte2084 => 16,
            TransferFunction::Smpte428 => 17,
            TransferFunction::Hlg => 18,
        }
    }

    /// The number that stands for it in a stream.
    pub fn code(self) -> (r: u8)
        ensures
            r == self.spec_code(),
    {
        match self {
            TransferFunction::Reserved => 0,
            TransferFunction::Bt709 => 1,
            TransferFunction::Unspecified => 2,
            TransferFunction::Bt470M => 4,
            TransferFunction::Bt470Bg => 5,
            TransferFunction::Bt601 => 6,
            TransferFunction::Smpte240 => 7,
            TransferFunction::Linear => 8,
            TransferFunction::Log100 => 9,
            TransferFunction::Log100sqrt10 => 10,
            TransferFunction::Iec61966 => 11,
            TransferFunction::Bt1361 => 12,
            TransferFunction::Srgb => 13,
            TransferFunction::Bt202010bit => 14,
            TransferFunction::Bt202012bit => 15,
            TransferFunction::Smpte2084 => 16,
            TransferFunction::Smpte428 => 17,
            TransferFunction::Hlg => 18,
        }
    }
}

/// Matrix from RGB to luma and chroma.
#[derive(Clone, Copy, Debug, PartialEq, Eq, Structural)]
pub enum MatrixCoefficients {
    /// RGB.
    Identity,
    /// BT.709.
    Bt709,
    /// Unspecified.
    Unspecified,
    /// For future use.
    Reserved,
    /// FCC.
    Fcc,
    /// BT.470BG, BT.601 625 lines.
    Bt470Bg,
    /// SMPTE 170M, BT.601 525 lines.
    Smpte170m,
    /// SMPTE 240M.
    Smpte240m,
    /// YCgCo.
    YCgCo,
    /// BT.2020, non-constant luminance.
    Bt2020Ncl,
    /// BT.2020, constant luminance.
    Bt2020Cl,
    /// SMPTE ST 2085.
    Smpte2085,
    /// Derived from the chromaticities, non-constant luminance.
    ChromaticityDerivedNCL,
    /// Derived from the chromaticities, constant luminance.
    ChromaticityDerivedCL,
    /// ICtCp.
    ICtCp,
    /// IPT-PQ-C2.
    IPtC2,
    /// YCgCo-R, even.
    YCgCoRe,
    /// YCgCo-R, odd.
    YCgCoRo,
}

impl MatrixCoefficients {
    pub open spec fn spec_code(self) -> int {
        match self {
            MatrixCoefficients::Identity => 0,
            MatrixCoefficients::Bt709 => 1,
            MatrixCoefficients::Unspecified => 2,
            MatrixCoefficients::Reserved => 3,
            MatrixCoefficients::Fcc => 4,
            MatrixCoefficients::Bt470Bg => 5,
            MatrixCoefficients::Smpte170m => 6,
            MatrixCoefficients::Smpte240m => 7,
            MatrixCoefficients::YCgCo => 8,
            MatrixCoefficients::Bt2020Ncl => 9,
            MatrixCoefficients::Bt2020Cl => 10,
            MatrixCoefficients::Smpte2085 => 11,
            MatrixCoefficients::ChromaticityDerivedNCL => 12,
            MatrixCoefficients::ChromaticityDerivedCL => 13,
            MatrixCoefficients::ICtCp => 14,
            MatrixCoefficients::IPtC2 => 15,
            MatrixCoefficients::YCgCoRe => 16,
            MatrixCoefficients::YCgCoRo => 17,
        }
    }

    /// The number that stands for it in a stream.
    pub fn code(self) -> (r: u8)
        ensures
            r == self.spec_code(),
    {
        match self {
            MatrixCoefficients::Identity => 0,
            MatrixCoefficients::Bt709 => 1,
            MatrixCoefficients::Unspecified => 2,
            MatrixCoefficients::Reserved => 3,
            MatrixCoefficients::Fcc => 4,
            MatrixCoefficients::Bt470Bg => 5,
            MatrixCoefficients::Smpte170m => 6,
            MatrixCoefficients::Smpte240m => 7,
            MatrixCoefficients::YCgCo => 8,
            MatrixCoefficients::Bt2020Ncl => 9,
            MatrixCoefficients::Bt2020Cl => 10,
            MatrixCoefficients::Smpte2085 => 11,
            MatrixCoefficients::ChromaticityDerivedNCL => 12,
            MatrixCoefficients::ChromaticityDerivedCL => 13,
            MatrixCoefficients::ICtCp => 14,
            MatrixCoefficients::IPtC2 => 15,
            MatrixCoefficients::YCgCoRe => 16,
            MatrixCoefficients::YCgCoRo => 17,
        }
    }
}

/// A colour encoding as code points.
#[derive(Clone, Copy, Debug, PartialEq, Eq, Structural)]
pub struct Cicp {
    pub primaries: Primaries,
    pub transfer: TransferFunction,
    pub matrix: MatrixCoefficients,
    pub full_range: bool,
}

impl Cicp {
    pub open spec fn spec_srgb() -> Cicp {
        Cicp {
            primaries: Primaries::Bt709,
            transfer: TransferFunction::Srgb,
            matrix: MatrixCoefficients::Bt709,
            full_range: true,
        }
    }

    pub open spec fn spec_unspecified() -> Cicp {
        Cicp {
            primaries: Primaries::Unspecified,
            transfer: TransferFunction::Unspecified,
            matrix: MatrixCoefficients::Unspecified,
            full_range: true,
        }
    }

    /// sRGB in full range, the encoder's working space.
    pub fn srgb() -> (r: Self)
        ensures
            r == Cicp::spec_srgb(),
    {
        Cicp {
            primaries: Primaries::Bt709,
            transfer: TransferFunction::Srgb,
            matrix: MatrixCoefficients::Bt709,
            full_range: true,
        }
    }

    /// BT.709 video in full range.
    pub fn bt709() -> (r: Self)
        ensures
            r == (Cicp {
                primaries: Primaries::Bt709,
                transfer: TransferFunction::Bt709,
                matrix: MatrixCoefficients::Bt709,
                full_range: true,
            }),
    {
        Cicp {
            primaries: Primaries::Bt709,
            transfer: TransferFunction::Bt709,
            matrix: MatrixCoefficients::Bt709,
            full_range: true,
        }
    }

    /// BT.2020 with the PQ transfer (HDR10), in full range.
    pub fn bt2020_pq() -> (r: Self)
        ensures
            r == (Cicp {
                primaries: Primaries::Bt2020,
                transfer: TransferFunction::Smpte2084,
                matrix: MatrixCoefficients::Bt2020Ncl,
                full_range: true,
            }),
    {
        Cicp {
            primaries: Primaries::Bt2020,
            transfer: TransferFunction::Smpte2084,
            matrix: MatrixCoefficients::Bt2020Ncl,
            full_range: true,
        }
    }

    /// Nothing said but that the range is full.
    pub fn unspecified() -> (r: Self)
        ensures
            r == Cicp::spec_unspecified(),
    {
        Cicp {
            primaries: Primaries::Unspecified,
            transfer: TransferFunction::Unspecified,
            matrix: MatrixCoefficients::Unspecified,
            full_range: true,
        }
    }

    /// The payload of an `nclx` colour box: the tag, the three codes as 16-bit
    /// big-endian numbers, and the range flag in the top bit of the last byte.
    pub fn nclx_payload(&self) -> (r: Vec<u8>)
        ensures
            r@ == self.nclx_bytes(),
            read_nclx(r@) == Some(*self),
    {
        proof {
            self.law_the_payload_tells_the_colour();
        }
        let mut p: Vec<u8> = Vec::with_capacity(11);
        p.push(0x6e);
        p.push(0x63);
        p.push(0x6c);
        p.push(0x78);
        p.push(0);
        p.push(self.primaries.code());
        p.push(0);
        p.push(self.transfer.code());
        p.push(0);
        p.push(self.matrix.code());
        p.push(if self.full_range {
            0x80
        } else {
            0
        });
        assert(p@ =~= self.nclx_bytes());
        p
    }
}

/// The primaries that a reader takes a code for.
pub open spec fn primaries_of(code: int) -> Option<Primaries> {
    if code == 0 {
        Some(Primaries::Reserved)
    } else if code == 1 {
        Some(Primaries::Bt709)
    } else if code == 2 {
        Some(Primaries::Unspecified)
    } else if code == 4 {
        Some(Primaries::Bt470M)
    } else if code == 5 {
        Some(Primaries::Bt470Bg)
    } else if code == 6 {
        Some(Primaries::Bt601)
    } else if code == 7 {
        Some(Primaries::Smpte240)
    } else if code == 8 {
        Some(Primaries::GenericFilm)
    } else if code == 9 {
        Some(Primaries::Bt2020)
    } else if code == 10 {
        Some(Primaries::Xyz)
    } else if code == 11 {
        Some(Primaries::Smpte431)
    } else if code == 12 {
        Some(Primaries::Smpte432)
    } else if code == 22 {
        Some(Primaries::Ebu3213)
    } else {
        None
    }
}

/// A reader takes the code of primaries for these primaries.
pub proof fn law_codes_tell_the_primaries(p: Primaries)
    ensures
        primaries_of(p.spec_code()) == Some(p),
        0 <= p.spec_code() < 256,
{
}

/// The transfer characteristics that a reader takes a code for.
pub open spec fn transfer_of(code: int) -> Option<TransferFunction> {
    if code == 0 {
        Some(TransferFunction::Reserved)
    } else if code == 1 {
        Some(TransferFunction::Bt709)
    } else if code == 2 {
        Some(TransferFunction::Unspecified)
    } else if code == 4 {
        Some(TransferFunction::Bt470M)
    } else if code == 5 {
        Some(TransferFunction::Bt470Bg)
    } else if code == 6 {
        Some(TransferFunction::Bt601)
    } else if code == 7 {
        Some(TransferFunction::Smpte240)
    } else if code == 8 {
        Some(TransferFunction::Linear)
    } else if code == 9 {
        Some(TransferFunction::Log100)
    } else if code == 10 {
        Some(TransferFunction::Log100sqrt10)
    } else if code == 11 {
        Some(TransferFunction::Iec61966)
    } else if code == 12 {
        Some(TransferFunction::Bt1361)
    } else if code == 13 {
        Some(TransferFunction::Srgb)
    } else if code == 14 {
        Some(TransferFunction::Bt202010bit)
    } else if code == 15 {
        Some(TransferFunction::Bt202012bit)
    } else if code == 16 {
        Some(TransferFunction::Smpte2084)
    } else if code == 17 {
        Some(TransferFunction::Smpte428)
    } else if code == 18 {
        Some(TransferFunction::Hlg)
    } else {
        None
    }
}

/// A reader takes the code of a transfer function for this function.
pub proof fn law_codes_tell_the_transfer(t: TransferFunction)
    ensures
        transfer_of(t.spec_code()) == Some(t),
        0 <= t.spec_code() < 256,
{
}

/// The matrix that a reader takes a code for.
pub open spec fn matrix_of(code: int) -> Option<MatrixCoefficients> {
    if code == 0 {
        Some(MatrixCoefficients::Identity)
    } else if code == 1 {
        Some(MatrixCoefficients::Bt709)
    } else if code == 2 {
        Some(MatrixCoefficients::Unspecified)
    } else if code == 3 {
        Some(MatrixCoefficients::Reserved)
    } else if code == 4 {
        Some(MatrixCoefficients::Fcc)
    } else if code == 5 {
        Some(MatrixCoefficients::Bt470Bg)
    } else if code == 6 {
        Some(MatrixCoefficients::Smpte170m)
    } else if code == 7 {
        Some(MatrixCoefficients::Smpte240m)
    } else if code == 8 {
        Some(MatrixCoefficients::YCgCo)
    } else if code == 9 {
        Some(MatrixCoefficients::Bt2020Ncl)
    } else if code == 10 {
        Some(MatrixCoefficients::Bt2020Cl)
    } else if code == 11 {
        Some(MatrixCoefficients::Smpte2085)
    } else if code == 12 {
        Some(MatrixCoefficients::ChromaticityDerivedNCL)
    } else if code == 13 {
        Some(MatrixCoefficients::ChromaticityDerivedCL)
    } else if code == 14 {
        Some(MatrixCoefficients::ICtCp)
    } else if code == 15 {
        Some(MatrixCoefficients::IPtC2)
    } else if code == 16 {
        Some(MatrixCoefficients::YCgCoRe)
    } else if code == 17 {
        Some(MatrixCoefficients::YCgCoRo)
    } else {
        None
    }
}

/// A reader takes the code of a matrix for this matrix.
pub proof fn law_codes_tell_the_matrix(m: MatrixCoefficients)
    ensures
        matrix_of(m.spec_code()) == Some(m),
        0 <= m.spec_code() < 256,
{
}

/// The big-endian number of sixteen bits at `at`.
pub open spec fn word(b: Seq<u8>, at: int) -> int {
    256 * b[at] + b[at + 1]
}

/// The colour that a reader takes the payload of an `nclx` colour box for: behind the tag
/// the primaries, the transfer function and the matrix, each as a number of sixteen bits,
/// and the range in the top bit of the last byte.
pub open spec fn read_nclx(b: Seq<u8>) -> Option<Cicp> {
    let tag = seq!['n' as u8, 'c' as u8, 'l' as u8, 'x' as u8];
    if b.len() != 11 || b.take(4) != tag {
        None
    } else {
        match (primaries_of(word(b, 4)), transfer_of(word(b, 6)), matrix_of(word(b, 8))) {
            (Some(primaries), Some(transfer), Some(matrix)) => Some(
                Cicp { primaries, transfer, matrix, full_range: b[10] >= 128 },
            ),
            _ => None,
        }
    }
}

impl Cicp {
    /// The payload of an `nclx` colour box: the tag, the three codes as 16-bit
    /// big-endian numbers, and the range flag in the top bit of the last byte.
    pub open spec fn nclx_bytes(self) -> Seq<u8> {
        seq![
            0x6eu8,
            0x63u8,
            0x6cu8,
            0x78u8,
            0u8,
            self.primaries.spec_code() as u8,
            0u8,
            self.transfer.spec_code() as u8,
            0u8,
            self.matrix.spec_code() as u8,
            if self.full_range {
                0x80u8
            } else {
                0u8
            },
        ]
    }

    /// A reader of the payload finds the colour again.
    pub proof fn law_the_payload_tells_the_colour(self)
        ensures
            read_nclx(self.nclx_bytes()) == Some(self),
            self.nclx_bytes()[10] == 0 || self.nclx_bytes()[10] == 0x80,
    {
        law_codes_tell_the_primaries(self.primaries);
        law_codes_tell_the_transfer(self.transfer);
        law_codes_tell_the_matrix(self.matrix);
        let b = self.nclx_bytes();
        assert(b.take(4) =~= seq!['n' as u8, 'c' as u8, 'l' as u8, 'x' as u8]);
    }
}

impl Default for Cicp {
    fn default() -> (r: Self)
        ensures
            r == Cicp::spec_unspecified(),
    {
        Cicp::unspecified()
    }
}

/// How a file describes its colours.
#[derive(Clone, Debug)]
pub struct ColorMetadata {
    pub cicp: Option<Cicp>,
    pub icc: Option<Vec<u8>>,
}

impl ColorMetadata {
    /// Code points only.
    pub fn cicp(enc: Cicp) -> (r: Self)
        ensures
            r.cicp == Some(enc),
            r.icc is None,
    {
        ColorMetadata { cicp: Some(enc), icc: None }
    }

    /// An ICC profile only.
    pub fn icc(profile: Vec<u8>) -> (r: Self)
        ensures
            r.cicp is None,
            r.icc == Some(profile),
    {
        ColorMetadata { cicp: None, icc: Some(profile) }
    }

    /// Code points and an ICC profile.
    pub fn cicp_and_icc(enc: Cicp, profile: Vec<u8>) -> (r: Self)
        ensures
            r.cicp == Some(enc),
            r.icc == Some(profile),
    {
        ColorMetadata { cicp: Some(enc), icc: Some(profile) }
    }

    /// Sets the code points and keeps the profile.
    pub fn with_cicp(self, enc: Cicp) -> (r: Self)
        ensures
            r.cicp == Some(enc),
            r.icc == self.icc,
    {
        ColorMetadata { cicp: Some(enc), icc: self.icc }
    }

    /// Sets the profile and keeps the code points.
    pub fn with_icc(self, profile: Vec<u8>) -> (r: Self)
        ensures
            r.cicp == self.cicp,
            r.icc == Some(profile),
    {
        ColorMetadata { cicp: self.cicp, icc: Some(profile) }
    }

    /// The code points, or the working space where there is only a profile.
    pub fn color_encoding(&self) -> (r: Cicp)
        ensures
            r == match self.cicp {
                Some(c) => c,
                None => Cicp::spec_srgb(),
            },
    {
        match self.cicp {
            Some(c) => c,
            None => Cicp::srgb(),
        }
    }
}

impl Default for ColorMetadata {
    fn default() -> (r: Self)
        ensures
            r.cicp == Some(Cicp::spec_unspecified()),
            r.icc is None,
    {
        ColorMetadata::cicp(Cicp::unspecified())
    }
}

} // verus!
