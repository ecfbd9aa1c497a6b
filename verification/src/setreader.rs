//! What a reader finds in the parameter sets, field by field in the order of the syntax.
use crate::bitseq;
use crate::bitwriter;
use crate::color::Cicp;
use crate::fmt::{BitDepth, ChromaFormat};
use crate::params;
use crate::slice;
use vstd::arithmetic::power2::*;
use vstd::prelude::*;

verus! {

/// A reader of bits, and how far it has come.
pub struct Reader {
    pub bits: Seq<bool>,
    pub at: int,
}

impl Reader {
    /// The next bit.
    pub open spec fn flag(self) -> bool {
        self.bits[self.at]
    }

    /// The number that the next `n` bits spell.
    pub open spec fn u(self, n: int) -> int {
        bitseq::value(self.bits.subrange(self.at, self.at + n))
    }

    /// The number whose Exp-Golomb code comes next.
    pub open spec fn ue(self) -> int {
        bitwriter::read_ue(self.bits.skip(self.at)).0
    }

    /// The signed number whose Exp-Golomb code comes next.
    pub open spec fn se(self) -> int {
        let k = self.ue();
        if k % 2 == 1 {
            (k + 1) / 2
        } else {
            -(k / 2)
        }
    }

    /// Past `n` bits.
    pub open spec fn skip(self, n: int) -> Reader {
        Reader { bits: self.bits, at: self.at + n }
    }

    /// Past an Exp-Golomb code.
    pub open spec fn skip_ue(self) -> Reader {
        Reader { bits: self.bits, at: self.at + bitwriter::read_ue(self.bits.skip(self.at)).1 }
    }
}

/// The bits start with `b`.
#[verifier::opaque]
spec fn starts(bits: Seq<bool>, b: Seq<bool>) -> bool {
    b.is_prefix_of(bits)
}

proof fn lemma_front(bits: Seq<bool>, b: Seq<bool>, more: Seq<bool>)
    requires
        starts(bits, b + more),
    ensures
        starts(bits, b),
        bits.len() >= b.len() + more.len(),
        bits.subrange(b.len() as int, (b.len() + more.len()) as int) == more,
        bits.skip(b.len() as int) == more + bits.skip((b.len() + more.len()) as int),
{
    reveal(starts);
    let all = b + more;
    assert(bits.take(all.len() as int) == all);
    assert forall|i: int| 0 <= i < all.len() implies #[trigger] bits[i] == all[i] by {
        assert(bits.take(all.len() as int)[i] == bits[i]);
    }
    assert(bits.take(b.len() as int) =~= b);
    assert(bits.subrange(b.len() as int, (b.len() + more.len()) as int) =~= more);
    assert(bits.skip(b.len() as int) =~= more + bits.skip((b.len() + more.len()) as int));
}

proof fn lemma_flag(bits: Seq<bool>, b: Seq<bool>, v: bool)
    requires
        starts(bits, b.push(v)),
    ensures
        starts(bits, b),
        (Reader { bits, at: b.len() as int }).flag() == v,
        b.push(v).len() == b.len() + 1,
{
    assert(b.push(v) =~= b + seq![v]);
    lemma_front(bits, b, seq![v]);
    assert(bits.subrange(b.len() as int, (b.len() + 1) as int)[0] == v);
}

proof fn lemma_u(bits: Seq<bool>, b: Seq<bool>, x: int, n: int)
    requires
        starts(bits, b + bitseq::low_bits(x, n)),
        0 <= n,
        0 <= x < pow2(n as nat),
    ensures
        starts(bits, b),
        (Reader { bits, at: b.len() as int }).u(n) == x,
        (b + bitseq::low_bits(x, n)).len() == b.len() + n,
{
    lemma_front(bits, b, bitseq::low_bits(x, n));
    bitseq::lemma_value_low_bits(x, n);
}

proof fn lemma_ue(bits: Seq<bool>, b: Seq<bool>, v: int)
    requires
        starts(bits, b + bitwriter::ue_bits(v)),
        0 <= v,
    ensures
        starts(bits, b),
        (Reader { bits, at: b.len() as int }).ue() == v,
        (Reader { bits, at: b.len() as int }).skip_ue() == (Reader {
            bits,
            at: (b + bitwriter::ue_bits(v)).len() as int,
        }),
{
    let code = bitwriter::ue_bits(v);
    lemma_front(bits, b, code);
    bitwriter::law_ue_reads_back(v, bits.skip((b.len() + code.len()) as int));
}

proof fn lemma_se(bits: Seq<bool>, b: Seq<bool>, v: int)
    requires
        starts(bits, b + bitwriter::se_bits(v)),
    ensures
        starts(bits, b),
        (Reader { bits, at: b.len() as int }).se() == v,
        (Reader { bits, at: b.len() as int }).skip_ue() == (Reader {
            bits,
            at: (b + bitwriter::se_bits(v)).len() as int,
        }),
{
    lemma_ue(bits, b, bitwriter::se_code(v));
}

/// The usability information.
pub struct Vui {
    pub aspect_ratio: bool,
    pub overscan: bool,
    pub signal_type: bool,
    pub video_format: int,
    pub full_range: bool,
    pub described: bool,
    pub primaries: int,
    pub transfer: int,
    pub matrix: int,
    /// The presence flags that follow.
    pub more: int,
}

/// Reads the usability information as far as a signal type without an aspect ratio and an
/// overscan goes, and where it ends.
#[verifier::opaque]
pub open spec fn read_vui(r: Reader) -> (Vui, Reader) {
    let (aspect_ratio, r) = (r.flag(), r.skip(1));
    let (overscan, r) = (r.flag(), r.skip(1));
    let (signal_type, r) = (r.flag(), r.skip(1));
    let (video_format, r) = (r.u(3), r.skip(3));
    let (full_range, r) = (r.flag(), r.skip(1));
    let (described, r) = (r.flag(), r.skip(1));
    let (primaries, transfer, matrix, r) = if described {
        (r.u(8), r.skip(8).u(8), r.skip(16).u(8), r.skip(24))
    } else {
        (2, 2, 2, r)
    };
    let v = Vui {
        aspect_ratio,
        overscan,
        signal_type,
        video_format,
        full_range,
        described,
        primaries,
        transfer,
        matrix,
        more: r.u(7),
    };
    (v, r.skip(7))
}

/// Seven flags that are not set.
proof fn lemma_seven(bits: Seq<bool>, b: Seq<bool>)
    requires
        starts(
            bits,
            b.push(false).push(false).push(false).push(false).push(false).push(false).push(false),
        ),
    ensures
        starts(bits, b),
        (Reader { bits, at: b.len() as int }).u(7) == 0,
{
    let c = b.push(false).push(false).push(false).push(false).push(false).push(false).push(false);
    lemma2_to64();
    bitseq::lemma_low_bits_zero(7);
    assert(c =~= b + bitseq::low_bits(0, 7));
    lemma_u(bits, b, 0, 7);
}

/// What a reader finds of a colour, in its three roles.
proof fn lemma_colour(bits: Seq<bool>, b: Seq<bool>, c: Cicp)
    requires
        starts(
            bits,
            b + bitseq::low_bits(c.primaries.spec_code(), 8) + bitseq::low_bits(
                c.transfer.spec_code(),
                8,
            ) + bitseq::low_bits(c.matrix.spec_code(), 8),
        ),
    ensures
        starts(bits, b),
        ({
            let r = Reader { bits, at: b.len() as int };
            &&& r.u(8) == c.primaries.spec_code()
            &&& r.skip(8).u(8) == c.transfer.spec_code()
            &&& r.skip(16).u(8) == c.matrix.spec_code()
        }),
{
    lemma2_to64();
    let b1 = b + bitseq::low_bits(c.primaries.spec_code(), 8);
    let b2 = b1 + bitseq::low_bits(c.transfer.spec_code(), 8);
    lemma_u(bits, b2, c.matrix.spec_code(), 8);
    lemma_u(bits, b1, c.transfer.spec_code(), 8);
    lemma_u(bits, b, c.primaries.spec_code(), 8);
}

/// A reader of the usability information gets back the range and the primaries, transfer
/// and matrix codes of the colour, in these roles; without a colour it finds full range and
/// no description.
proof fn lemma_vui(bits: Seq<bool>, b: Seq<bool>, color: Option<Cicp>)
    requires
        starts(bits, params::vui_bits(b, color)),
    ensures
        starts(bits, b),
        ({
            let (v, r) = read_vui(Reader { bits, at: b.len() as int });
            &&& r == (Reader { bits, at: params::vui_bits(b, color).len() as int })
            &&& vui_says(v, color)
        }),
{
    reveal(read_vui);
    lemma2_to64();
    let b1 = b.push(false);
    let b2 = b1.push(false);
    let b3 = b2.push(true);
    let b4 = b3 + bitseq::low_bits(5, 3);
    match color {
        Some(c) => {
            let b5 = b4.push(c.full_range);
            let b6 = b5.push(true);
            let b7 = b6 + bitseq::low_bits(c.primaries.spec_code(), 8);
            let b8 = b7 + bitseq::low_bits(c.transfer.spec_code(), 8);
            let b9 = b8 + bitseq::low_bits(c.matrix.spec_code(), 8);
            lemma_seven(bits, b9);
            lemma_colour(bits, b6, c);
            lemma_flag(bits, b5, true);
            lemma_flag(bits, b4, c.full_range);
        },
        None => {
            let b5 = b4.push(true);
            lemma_seven(bits, b5.push(false));
            lemma_flag(bits, b5, false);
            lemma_flag(bits, b4, true);
        },
    }
    lemma_u(bits, b3, 5, 3);
    lemma_flag(bits, b2, true);
    lemma_flag(bits, b1, false);
    lemma_flag(bits, b, false);
}

/// The usability information says what the colour is, and nothing else.
pub open spec fn vui_says(v: Vui, color: Option<Cicp>) -> bool {
    &&& !v.aspect_ratio
    &&& !v.overscan
    &&& v.signal_type
    &&& v.video_format == 5
    &&& v.more == 0
    &&& match color {
        Some(c) => {
            &&& v.full_range == c.full_range
            &&& v.described
            &&& v.primaries == c.primaries.spec_code()
            &&& v.transfer == c.transfer.spec_code()
            &&& v.matrix == c.matrix.spec_code()
        },
        None => v.full_range && !v.described,
    }
}

/// Profile, tier, constraints and level.
pub struct Profile {
    pub space: int,
    pub high_tier: bool,
    pub idc: int,
    /// The compatibility flags, that of profile 0 first.
    pub compatible: int,
    pub progressive: bool,
    pub interlaced: bool,
    pub non_packed: bool,
    pub frame_only: bool,
    pub max_12_bits: bool,
    pub max_10_bits: bool,
    pub max_8_bits: bool,
    pub max_422: bool,
    pub max_420: bool,
    pub max_monochrome: bool,
    pub intra: bool,
    pub one_picture: bool,
    pub lower_rate: bool,
    pub max_14_bits: bool,
    pub reserved: (int, int),
    pub level: int,
}

/// Reads profile, tier and level.
#[verifier::opaque]
pub open spec fn read_profile(r: Reader) -> (Profile, Reader) {
    let c = r.skip(40);
    let p = Profile {
        space: r.u(2),
        high_tier: r.skip(2).flag(),
        idc: r.skip(3).u(5),
        compatible: r.skip(8).u(32),
        progressive: c.flag(),
        interlaced: c.skip(1).flag(),
        non_packed: c.skip(2).flag(),
        frame_only: c.skip(3).flag(),
        max_12_bits: c.skip(4).flag(),
        max_10_bits: c.skip(5).flag(),
        max_8_bits: c.skip(6).flag(),
        max_422: c.skip(7).flag(),
        max_420: c.skip(8).flag(),
        max_monochrome: c.skip(9).flag(),
        intra: c.skip(10).flag(),
        one_picture: c.skip(11).flag(),
        lower_rate: c.skip(12).flag(),
        max_14_bits: c.skip(13).flag(),
        reserved: (c.skip(14).u(32), c.skip(46).u(2)),
        level: c.skip(48).u(8),
    };
    (p, r.skip(96))
}

/// A profile says what a stream of this format needs: 4 where nothing is lost, where there
/// is more chroma than 4:2:0 or where there are more than ten bits; else 2 for ten bits and
/// 3 for eight. Only in profile 4 the constraints are told.
pub open spec fn profile_says(
    p: Profile,
    level: int,
    chroma: ChromaFormat,
    depth: BitDepth,
    lossless: bool,
) -> bool {
    let extended = lossless || chroma is Yuv422 || chroma is Yuv444 || depth is Twelve;
    &&& p.space == 0
    &&& !p.high_tier
    &&& p.idc == (if extended {
        4int
    } else if depth is Ten {
        2
    } else {
        3
    })
    &&& p.compatible == (if extended {
        0x0800_0000int
    } else if depth is Ten {
        0x2000_0000
    } else {
        0x7000_0000
    })
    &&& p.progressive && !p.interlaced && p.non_packed && p.frame_only
    &&& p.max_14_bits == extended
    &&& p.max_12_bits == extended
    &&& p.max_10_bits == (extended && !(depth is Twelve))
    &&& p.max_8_bits == (extended && depth is Eight)
    &&& p.max_422 == (extended && !lossless && !(chroma is Yuv444))
    &&& p.max_420 == (extended && !lossless && (chroma is Yuv420 || chroma is Monochrome))
    &&& p.max_monochrome == (extended && !lossless && chroma is Monochrome)
    &&& p.intra == extended
    &&& !p.one_picture
    &&& p.lower_rate == extended
    &&& p.reserved == (0int, 0int)
    &&& p.level == level
}

/// `b` with ten flags, and what is reserved behind them.
spec fn constraints(
    b: Seq<bool>,
    f: (bool, bool, bool, bool, bool),
    g: (bool, bool, bool, bool, bool),
) -> Seq<bool> {
    b.push(f.0).push(f.1).push(f.2).push(f.3).push(f.4).push(g.0).push(g.1).push(g.2).push(
        g.3,
    ).push(g.4) + bitseq::low_bits(0, 32) + bitseq::low_bits(0, 2)
}

proof fn lemma_constraints(
    bits: Seq<bool>,
    b: Seq<bool>,
    f: (bool, bool, bool, bool, bool),
    g: (bool, bool, bool, bool, bool),
)
    requires
        starts(bits, constraints(b, f, g)),
    ensures
        starts(bits, b),
        constraints(b, f, g).len() == b.len() + 44,
        ({
            let c = Reader { bits, at: b.len() as int };
            &&& f == (c.flag(), c.skip(1).flag(), c.skip(2).flag(), c.skip(3).flag(), c.skip(4).flag())
            &&& g == (
                c.skip(5).flag(),
                c.skip(6).flag(),
                c.skip(7).flag(),
                c.skip(8).flag(),
                c.skip(9).flag(),
            )
            &&& c.skip(10).u(32) == 0
            &&& c.skip(42).u(2) == 0
        }),
{
    lemma2_to64();
    lemma2_to64_rest();
    let b1 = b.push(f.0);
    let b2 = b1.push(f.1);
    let b3 = b2.push(f.2);
    let b4 = b3.push(f.3);
    let b5 = b4.push(f.4);
    let b6 = b5.push(g.0);
    let b7 = b6.push(g.1);
    let b8 = b7.push(g.2);
    let b9 = b8.push(g.3);
    let b10 = b9.push(g.4);
    lemma_u(bits, b10 + bitseq::low_bits(0, 32), 0, 2);
    lemma_u(bits, b10, 0, 32);
    lemma_flag(bits, b9, g.4);
    lemma_flag(bits, b8, g.3);
    lemma_flag(bits, b7, g.2);
    lemma_flag(bits, b6, g.1);
    lemma_flag(bits, b5, g.0);
    lemma_flag(bits, b4, f.4);
    lemma_flag(bits, b3, f.3);
    lemma_flag(bits, b2, f.2);
    lemma_flag(bits, b1, f.1);
    lemma_flag(bits, b, f.0);
}

proof fn lemma_profile(
    bits: Seq<bool>,
    b: Seq<bool>,
    level: int,
    chroma: ChromaFormat,
    depth: BitDepth,
    lossless: bool,
)
    requires
        starts(bits, params::profile_bits(b, level, chroma, depth, lossless)),
        0 <= level < 256,
    ensures
        starts(bits, b),
        ({
            let (p, r) = read_profile(Reader { bits, at: b.len() as int });
            &&& r == (Reader {
                bits,
                at: params::profile_bits(b, level, chroma, depth, lossless).len() as int,
            })
            &&& profile_says(p, level, chroma, depth, lossless)
        }),
{
    reveal(read_profile);
    lemma2_to64();
    lemma2_to64_rest();
    let n = depth.spec_bits();
    let rext = params::needs_rext(chroma, depth, lossless);
    let wide = lossless || chroma is Yuv444;
    let is_420 = chroma is Yuv420 || chroma is Monochrome;
    let profile = if rext {
        4int
    } else if n <= 8 {
        3
    } else {
        2
    };
    let compat = if rext {
        0x0800_0000int
    } else if n <= 8 {
        0x7000_0000
    } else {
        0x2000_0000
    };
    let b1 = b + bitseq::low_bits(0, 2);
    let b2 = b1.push(false);
    let b3 = b2 + bitseq::low_bits(profile, 5);
    let b4 = b3 + bitseq::low_bits(compat, 32);
    let b5 = b4.push(true);
    let b6 = b5.push(false);
    let b7 = b6.push(true);
    let b8 = b7.push(true);
    let (f, g) = if rext {
        (
            (
                n <= 12,
                n <= 10,
                n <= 8,
                !wide && (!(chroma is Yuv444) || chroma is Monochrome),
                !wide && (is_420 || chroma is Monochrome),
            ),
            (!wide && chroma is Monochrome, true, false, true, n <= 14),
        )
    } else {
        ((false, false, false, false, false), (false, false, false, false, false))
    };
    let b9 = constraints(b8, f, g);
    if !rext {
        bitseq::lemma_low_bits_zero(32);
        bitseq::lemma_low_bits_zero(12);
        bitseq::lemma_low_bits_zero(2);
        assert(b8 + bitseq::low_bits(0, 32) + bitseq::low_bits(0, 12) =~= b9);
    }
    assert(params::profile_bits(b, level, chroma, depth, lossless) == b9 + bitseq::low_bits(level, 8));
    lemma_u(bits, b9, level, 8);
    lemma_constraints(bits, b8, f, g);
    lemma_flag(bits, b7, true);
    lemma_flag(bits, b6, true);
    lemma_flag(bits, b5, false);
    lemma_flag(bits, b4, true);
    lemma_u(bits, b3, compat, 32);
    lemma_u(bits, b2, profile, 5);
    lemma_flag(bits, b1, false);
    lemma_u(bits, b, 0, 2);
}

/// The format and the size of the coded pictures, and the window that is shown.
pub struct Size {
    pub id: int,
    pub chroma_idc: int,
    pub separate_planes: bool,
    pub width: int,
    pub height: int,
    /// What is cut off left, right, top and bottom, in chroma samples.
    pub cut: (int, int, int, int),
    pub luma_depth: int,
    pub chroma_depth: int,
}

/// Reads the format and the size.
#[verifier::opaque]
pub open spec fn read_size(r: Reader) -> (Size, Reader) {
    let (id, r) = (r.ue(), r.skip_ue());
    let (chroma_idc, r) = (r.ue(), r.skip_ue());
    let (separate_planes, r) = if chroma_idc == 3 {
        (r.flag(), r.skip(1))
    } else {
        (false, r)
    };
    let (width, r) = (r.ue(), r.skip_ue());
    let (height, r) = (r.ue(), r.skip_ue());
    let (window, r) = (r.flag(), r.skip(1));
    let (cut, r) = if window {
        let (left, r) = (r.ue(), r.skip_ue());
        let (right, r) = (r.ue(), r.skip_ue());
        let (top, r) = (r.ue(), r.skip_ue());
        let (bottom, r) = (r.ue(), r.skip_ue());
        ((left, right, top, bottom), r)
    } else {
        ((0, 0, 0, 0), r)
    };
    let (luma, r) = (r.ue(), r.skip_ue());
    let (chroma, r) = (r.ue(), r.skip_ue());
    let s = Size {
        id,
        chroma_idc,
        separate_planes,
        width,
        height,
        cut,
        luma_depth: 8 + luma,
        chroma_depth: 8 + chroma,
    };
    (s, r)
}

/// `b` with the format and the size behind it.
#[verifier::opaque]
spec fn size_bits(b: Seq<bool>, idc: int, w: int, h: int, right: int, bottom: int, more: int) -> Seq<
    bool,
> {
    let window = right > 0 || bottom > 0;
    let b = b + bitwriter::ue_bits(0);
    let b = b + bitwriter::ue_bits(idc);
    let b = if idc == 3 {
        b.push(false)
    } else {
        b
    };
    let b = b + bitwriter::ue_bits(w);
    let b = b + bitwriter::ue_bits(h);
    let b = b.push(window);
    let b = if window {
        let b = b + bitwriter::ue_bits(0);
        let b = b + bitwriter::ue_bits(right);
        let b = b + bitwriter::ue_bits(0);
        let b = b + bitwriter::ue_bits(bottom);
        b
    } else {
        b
    };
    let b = b + bitwriter::ue_bits(more);
    b + bitwriter::ue_bits(more)
}

proof fn lemma_size(
    bits: Seq<bool>,
    b: Seq<bool>,
    idc: int,
    w: int,
    h: int,
    right: int,
    bottom: int,
    more: int,
)
    requires
        starts(bits, size_bits(b, idc, w, h, right, bottom, more)),
        0 <= idc,
        0 <= w,
        0 <= h,
        0 <= right,
        0 <= bottom,
        0 <= more,
    ensures
        starts(bits, b),
        read_size(Reader { bits, at: b.len() as int }) == (
            Size {
                id: 0,
                chroma_idc: idc,
                separate_planes: false,
                width: w,
                height: h,
                cut: (0, right, 0, bottom),
                luma_depth: 8 + more,
                chroma_depth: 8 + more,
            },
            Reader { bits, at: size_bits(b, idc, w, h, right, bottom, more).len() as int },
        ),
{
    reveal(read_size);
    reveal(size_bits);
    let window = right > 0 || bottom > 0;
    let b1 = b + bitwriter::ue_bits(0);
    let b2 = b1 + bitwriter::ue_bits(idc);
    let b3 = if idc == 3 {
        b2.push(false)
    } else {
        b2
    };
    let b4 = b3 + bitwriter::ue_bits(w);
    let b5 = b4 + bitwriter::ue_bits(h);
    let b6 = b5.push(window);
    let c1 = b6 + bitwriter::ue_bits(0);
    let c2 = c1 + bitwriter::ue_bits(right);
    let c3 = c2 + bitwriter::ue_bits(0);
    let c4 = c3 + bitwriter::ue_bits(bottom);
    let b7 = if window {
        c4
    } else {
        b6
    };
    let b8 = b7 + bitwriter::ue_bits(more);
    lemma_ue(bits, b8, more);
    lemma_ue(bits, b7, more);
    if window {
        lemma_ue(bits, c3, bottom);
        lemma_ue(bits, c2, 0);
        lemma_ue(bits, c1, right);
        lemma_ue(bits, b6, 0);
    }
    lemma_flag(bits, b5, window);
    lemma_ue(bits, b4, h);
    lemma_ue(bits, b3, w);
    if idc == 3 {
        lemma_flag(bits, b2, false);
    }
    lemma_ue(bits, b1, idc);
    lemma_ue(bits, b, 0);
}

/// The block sizes, and which tools are on.
pub struct Tools {
    pub poc_bits: int,
    pub ordering: bool,
    pub buffering: (int, int, int),
    /// Smallest and largest coding unit, smallest and largest transform block, as powers of
    /// two.
    pub unit: (int, int),
    pub block: (int, int),
    pub depth: (int, int),
    pub scaling: bool,
    pub amp: bool,
    pub sao: bool,
    pub pcm: bool,
    pub short_term: int,
    pub long_term: bool,
    pub temporal: bool,
    pub strong_smoothing: bool,
    pub usability: bool,
}

/// Reads the block sizes and the tools.
#[verifier::opaque]
pub open spec fn read_tools(r: Reader) -> (Tools, Reader) {
    let (poc, r) = (r.ue(), r.skip_ue());
    let (ordering, r) = (r.flag(), r.skip(1));
    let (x, r) = (r.ue(), r.skip_ue());
    let (y, r) = (r.ue(), r.skip_ue());
    let (z, r) = (r.ue(), r.skip_ue());
    let (unit, r) = (r.ue() + 3, r.skip_ue());
    let (units, r) = (r.ue() + unit, r.skip_ue());
    let (block, r) = (r.ue() + 2, r.skip_ue());
    let (blocks, r) = (r.ue() + block, r.skip_ue());
    let (inter, r) = (r.ue(), r.skip_ue());
    let (intra, r) = (r.ue(), r.skip_ue());
    let (scaling, r) = (r.flag(), r.skip(1));
    let (amp, r) = (r.flag(), r.skip(1));
    let (sao, r) = (r.flag(), r.skip(1));
    let (pcm, r) = (r.flag(), r.skip(1));
    let (short_term, r) = (r.ue(), r.skip_ue());
    let (long_term, r) = (r.flag(), r.skip(1));
    let (temporal, r) = (r.flag(), r.skip(1));
    let (strong_smoothing, r) = (r.flag(), r.skip(1));
    let (usability, r) = (r.flag(), r.skip(1));
    let t = Tools {
        poc_bits: poc + 4,
        ordering,
        buffering: (x, y, z),
        unit: (unit, units),
        block: (block, blocks),
        depth: (inter, intra),
        scaling,
        amp,
        sao,
        pcm,
        short_term,
        long_term,
        temporal,
        strong_smoothing,
        usability,
    };
    (t, r)
}

/// `b` with the block sizes behind it.
#[verifier::opaque]
spec fn block_bits(b: Seq<bool>) -> Seq<bool> {
    let b = b + bitwriter::ue_bits(4);
    let b = b.push(false);
    let b = b + bitwriter::ue_bits(0);
    let b = b + bitwriter::ue_bits(0);
    let b = b + bitwriter::ue_bits(0);
    let b = b + bitwriter::ue_bits(0);
    let b = b + bitwriter::ue_bits(3);
    let b = b + bitwriter::ue_bits(0);
    let b = b + bitwriter::ue_bits(3);
    let b = b + bitwriter::ue_bits(0);
    b + bitwriter::ue_bits(3)
}

/// `b` with the tools behind it.
#[verifier::opaque]
spec fn tool_bits(b: Seq<bool>) -> Seq<bool> {
    let b = b.push(false);
    let b = b.push(false);
    let b = b.push(true);
    let b = b.push(false);
    let b = b + bitwriter::ue_bits(0);
    let b = b.push(false);
    let b = b.push(true);
    let b = b.push(false);
    b.push(true)
}

/// What the parameter set says of blocks and tools: units from 8 to 64 samples, transform
/// blocks from 4 to 32, trees of transform blocks of depth three, and sample adaptive offset.
pub open spec fn tools_say(t: Tools) -> bool {
    &&& t.poc_bits == 8
    &&& !t.ordering
    &&& t.buffering == (0int, 0int, 0int)
    &&& t.unit == (3int, 6int)
    &&& t.block == (2int, 5int)
    &&& t.depth == (0int, 3int)
    &&& !t.scaling && !t.amp && t.sao && !t.pcm
    &&& t.short_term == 0
    &&& !t.long_term && t.temporal && !t.strong_smoothing && t.usability
}

proof fn lemma_tools(bits: Seq<bool>, b: Seq<bool>)
    requires
        starts(bits, tool_bits(block_bits(b))),
    ensures
        starts(bits, b),
        ({
            let (t, r) = read_tools(Reader { bits, at: b.len() as int });
            &&& r == (Reader { bits, at: tool_bits(block_bits(b)).len() as int })
            &&& tools_say(t)
        }),
{
    reveal(read_tools);
    reveal(block_bits);
    reveal(tool_bits);
    let b1 = b + bitwriter::ue_bits(4);
    let b2 = b1.push(false);
    let b3 = b2 + bitwriter::ue_bits(0);
    let b4 = b3 + bitwriter::ue_bits(0);
    let b5 = b4 + bitwriter::ue_bits(0);
    let b6 = b5 + bitwriter::ue_bits(0);
    let b7 = b6 + bitwriter::ue_bits(3);
    let b8 = b7 + bitwriter::ue_bits(0);
    let b9 = b8 + bitwriter::ue_bits(3);
    let b10 = b9 + bitwriter::ue_bits(0);
    let b11 = b10 + bitwriter::ue_bits(3);
    let c1 = b11.push(false);
    let c2 = c1.push(false);
    let c3 = c2.push(true);
    let c4 = c3.push(false);
    let c5 = c4 + bitwriter::ue_bits(0);
    let c6 = c5.push(false);
    let c7 = c6.push(true);
    let c8 = c7.push(false);
    lemma_flag(bits, c8, true);
    lemma_flag(bits, c7, false);
    lemma_flag(bits, c6, true);
    lemma_flag(bits, c5, false);
    lemma_ue(bits, c4, 0);
    lemma_flag(bits, c3, false);
    lemma_flag(bits, c2, true);
    lemma_flag(bits, c1, false);
    lemma_flag(bits, b11, false);
    lemma_ue(bits, b10, 3);
    lemma_ue(bits, b9, 0);
    lemma_ue(bits, b8, 3);
    lemma_ue(bits, b7, 0);
    lemma_ue(bits, b6, 3);
    lemma_ue(bits, b5, 0);
    lemma_ue(bits, b4, 0);
    lemma_ue(bits, b3, 0);
    lemma_ue(bits, b2, 0);
    lemma_flag(bits, b1, false);
    lemma_ue(bits, b, 4);
}

/// A sequence parameter set.
pub struct Sps {
    pub unit_type: int,
    pub video_set: int,
    pub sub_layers: int,
    pub nesting: bool,
    pub profile: Profile,
    pub size: Size,
    pub tools: Tools,
    pub vui: Vui,
    /// There is a range extension.
    pub extended: bool,
    /// The range extension infers differences of neighbours where nothing is lost.
    pub implicit_rdpcm: bool,
    /// The other tools of the range extension.
    pub other_tools: (int, int),
}

/// Reads a sequence parameter set.
#[verifier::opaque]
pub open spec fn read_sps(bits: Seq<bool>) -> Sps {
    let r = Reader { bits, at: 0 };
    let (unit_type, r) = (r.skip(1).u(6), r.skip(16));
    let (video_set, r) = (r.u(4), r.skip(4));
    let (sub_layers, r) = (r.u(3) + 1, r.skip(3));
    let (nesting, r) = (r.flag(), r.skip(1));
    let (profile, r) = read_profile(r);
    let (size, r) = read_size(r);
    let (tools, r) = read_tools(r);
    let (vui, r) = read_vui(r);
    let extension = r.flag();
    let extended = extension && r.skip(1).flag();
    let x = r.skip(9);
    Sps {
        unit_type,
        video_set,
        sub_layers,
        nesting,
        profile,
        size,
        tools,
        vui,
        extended,
        implicit_rdpcm: extended && x.skip(2).flag(),
        other_tools: if extended {
            (x.u(2), x.skip(3).u(6))
        } else {
            (0, 0)
        },
    }
}

/// What stands in front of the profile.
proof fn lemma_front_of_set(bits: Seq<bool>, nal_type: u8)
    requires
        starts(bits, params::header_bits(nal_type)),
        nal_type < 64,
    ensures
        params::header_bits(nal_type).len() == 16,
        (Reader { bits, at: 0 }).skip(1).u(6) == nal_type,
{
    lemma2_to64();
    let a = Seq::<bool>::empty().push(false);
    let b = a + bitseq::low_bits(nal_type as int, 6);
    let c = b + bitseq::low_bits(0, 6);
    lemma_u(bits, c, 1, 3);
    lemma_u(bits, b, 0, 6);
    lemma_u(bits, a, nal_type as int, 6);
}

/// `b` with the extension of a sequence parameter set behind it.
#[verifier::opaque]
spec fn extension_bits(b: Seq<bool>, rext: bool, lossless: bool) -> Seq<bool> {
    let b = b.push(rext);
    if rext {
        let b = b.push(true);
        let b = b.push(false);
        let b = b.push(false);
        let b = b.push(false);
        let b = b + bitseq::low_bits(0, 4);
        params::range_extension_bits(b, lossless)
    } else {
        b
    }
}

proof fn lemma_extension(bits: Seq<bool>, b: Seq<bool>, rext: bool, lossless: bool)
    requires
        starts(bits, extension_bits(b, rext, lossless)),
    ensures
        starts(bits, b),
        ({
            let r = Reader { bits, at: b.len() as int };
            let x = r.skip(9);
            &&& r.flag() == rext
            &&& rext ==> {
                &&& r.skip(1).flag()
                &&& x.u(2) == 0
                &&& x.skip(2).flag() == lossless
                &&& x.skip(3).u(6) == 0
            }
        }),
{
    reveal(extension_bits);
    lemma2_to64();
    let b1 = b.push(rext);
    if rext {
        let b2 = b1.push(true);
        let b3 = b2.push(false);
        let b4 = b3.push(false);
        let b5 = b4.push(false);
        let b6 = b5 + bitseq::low_bits(0, 4);
        let c2 = b6 + bitseq::low_bits(0, 2);
        let c3 = c2.push(lossless);
        let c4 = c3 + bitseq::low_bits(0, 6);
        bitseq::lemma_low_bits_zero(2);
        bitseq::lemma_low_bits_zero(6);
        assert(params::range_extension_bits(b6, lossless) =~= c4);
        lemma_u(bits, c3, 0, 6);
        lemma_flag(bits, c2, lossless);
        lemma_u(bits, b6, 0, 2);
        lemma_u(bits, b5, 0, 4);
        lemma_flag(bits, b4, false);
        lemma_flag(bits, b3, false);
        lemma_flag(bits, b2, false);
        lemma_flag(bits, b1, true);
    }
    lemma_flag(bits, b, rext);
}

proof fn lemma_trailed(b: Seq<bool>)
    ensures
        starts(bitwriter::trailed(b), b),
{
    reveal(starts);
    assert(bitwriter::trailed(b).take(b.len() as int) =~= b);
}

/// `b` with a profile behind it.
#[verifier::opaque]
spec fn profile_part(
    b: Seq<bool>,
    level: int,
    chroma: ChromaFormat,
    depth: BitDepth,
    lossless: bool,
) -> Seq<bool> {
    params::profile_bits(b, level, chroma, depth, lossless)
}

/// `b` with the usability information behind it.
#[verifier::opaque]
spec fn vui_part(b: Seq<bool>, color: Option<Cicp>) -> Seq<bool> {
    params::vui_bits(b, color)
}

proof fn lemma_profile_part(
    bits: Seq<bool>,
    b: Seq<bool>,
    level: int,
    chroma: ChromaFormat,
    depth: BitDepth,
    lossless: bool,
)
    requires
        starts(bits, profile_part(b, level, chroma, depth, lossless)),
        0 <= level < 256,
    ensures
        starts(bits, b),
        ({
            let (p, r) = read_profile(Reader { bits, at: b.len() as int });
            &&& r == (Reader {
                bits,
                at: profile_part(b, level, chroma, depth, lossless).len() as int,
            })
            &&& profile_says(p, level, chroma, depth, lossless)
        }),
{
    reveal(profile_part);
    lemma_profile(bits, b, level, chroma, depth, lossless);
}

proof fn lemma_vui_part(bits: Seq<bool>, b: Seq<bool>, color: Option<Cicp>)
    requires
        starts(bits, vui_part(b, color)),
    ensures
        starts(bits, b),
        ({
            let (v, r) = read_vui(Reader { bits, at: b.len() as int });
            &&& r == (Reader { bits, at: vui_part(b, color).len() as int })
            &&& vui_says(v, color)
        }),
{
    reveal(vui_part);
    lemma_vui(bits, b, color);
}

/// The sequence parameter set by its parts.
#[verifier::opaque]
spec fn sps_parts(
    width: int,
    height: int,
    chroma: ChromaFormat,
    depth: BitDepth,
    lossless: bool,
    color: Option<Cicp>,
) -> Seq<bool> {
    let (w, h) = (params::coded_size(width), params::coded_size(height));
    let (right, bottom) = (
        (w - width) / chroma.spec_sub_w(),
        (h - height) / chroma.spec_sub_h(),
    );
    let b = params::header_bits(33) + bitseq::low_bits(0, 4) + bitseq::low_bits(0, 3);
    let b = profile_part(b.push(true), params::level_of(w * h), chroma, depth, lossless);
    let b = size_bits(b, chroma.spec_idc(), w, h, right, bottom, depth.spec_bits() - 8);
    let b = vui_part(tool_bits(block_bits(b)), color);
    extension_bits(b, params::needs_rext(chroma, depth, lossless), lossless)
}

proof fn lemma_sps_bits(
    width: int,
    height: int,
    chroma: ChromaFormat,
    depth: BitDepth,
    lossless: bool,
    color: Option<Cicp>,
)
    ensures
        params::sps_bits(width, height, chroma, depth, lossless, color) == bitwriter::trailed(
            sps_parts(width, height, chroma, depth, lossless, color),
        ),
{
    reveal(sps_parts);
    reveal(profile_part);
    reveal(vui_part);
    reveal(size_bits);
    reveal(block_bits);
    reveal(tool_bits);
    reveal(extension_bits);
}

/// What a reader finds part by part.
proof fn lemma_sps_parts(
    bits: Seq<bool>,
    width: int,
    height: int,
    chroma: ChromaFormat,
    depth: BitDepth,
    lossless: bool,
    color: Option<Cicp>,
)
    requires
        starts(bits, sps_parts(width, height, chroma, depth, lossless, color)),
        0 <= width,
        0 <= height,
    ensures
        ({
            let (w, h) = (params::coded_size(width), params::coded_size(height));
            let s = read_sps(bits);
            &&& s.unit_type == 33
            &&& s.video_set == 0
            &&& s.sub_layers == 1
            &&& s.nesting
            &&& profile_says(s.profile, params::level_of(w * h), chroma, depth, lossless)
            &&& s.size == (Size {
                id: 0,
                chroma_idc: chroma.spec_idc(),
                separate_planes: false,
                width: w,
                height: h,
                cut: (
                    0,
                    (w - width) / chroma.spec_sub_w(),
                    0,
                    (h - height) / chroma.spec_sub_h(),
                ),
                luma_depth: depth.spec_bits(),
                chroma_depth: depth.spec_bits(),
            })
            &&& tools_say(s.tools)
            &&& vui_says(s.vui, color)
            &&& s.extended == params::needs_rext(chroma, depth, lossless)
            &&& s.extended ==> s.implicit_rdpcm == lossless
            &&& !s.extended ==> !s.implicit_rdpcm
            &&& s.other_tools == (0int, 0int)
        }),
{
    reveal(read_sps);
    lemma2_to64();
    reveal(sps_parts);
    let (w, h) = (params::coded_size(width), params::coded_size(height));
    let (sw, sh) = (chroma.spec_sub_w(), chroma.spec_sub_h());
    let (right, bottom) = ((w - width) / sw, (h - height) / sh);
    let rext = params::needs_rext(chroma, depth, lossless);
    assert(0 <= w * h) by (nonlinear_arith)
        requires
            0 <= w,
            0 <= h,
    ;
    let level = params::level_of(w * h);
    let b0 = params::header_bits(33);
    let b1 = b0 + bitseq::low_bits(0, 4);
    let b2 = b1 + bitseq::low_bits(0, 3);
    let b3 = b2.push(true);
    let b4 = profile_part(b3, level, chroma, depth, lossless);
    let b5 = size_bits(b4, chroma.spec_idc(), w, h, right, bottom, depth.spec_bits() - 8);
    let b6 = tool_bits(block_bits(b5));
    let b7 = vui_part(b6, color);
    lemma_extension(bits, b7, rext, lossless);
    lemma_vui_part(bits, b6, color);
    lemma_tools(bits, b5);
    lemma_crop(w - width, sw);
    lemma_crop(h - height, sh);
    lemma_size(bits, b4, chroma.spec_idc(), w, h, right, bottom, depth.spec_bits() - 8);
    lemma_profile_part(bits, b3, level, chroma, depth, lossless);
    lemma_flag(bits, b2, true);
    lemma_u(bits, b1, 0, 3);
    lemma_u(bits, b0, 0, 4);
    lemma_front_of_set(bits, 33);
}

/// What a sequence parameter set says of a picture: its size, its format, its depth and its
/// colour. The coded size is whole coding tree units of 64 samples, and the window leaves
/// the picture, to the chroma sample.
pub open spec fn sps_says(
    s: Sps,
    width: int,
    height: int,
    chroma: ChromaFormat,
    depth: BitDepth,
    lossless: bool,
    color: Option<Cicp>,
) -> bool {
    let (left, right, top, bottom) = s.size.cut;
    let wide = chroma is Yuv420 || chroma is Yuv422;
    let high = chroma is Yuv420;
    let shown_w = s.size.width - right - (if wide {
        right
    } else {
        0
    });
    let shown_h = s.size.height - bottom - (if high {
        bottom
    } else {
        0
    });
    &&& s.unit_type == 33
    &&& s.video_set == 0
    &&& s.sub_layers == 1
    &&& s.nesting
    &&& s.size.id == 0
    &&& s.size.chroma_idc == (match chroma {
        ChromaFormat::Monochrome => 0int,
        ChromaFormat::Yuv420 => 1,
        ChromaFormat::Yuv422 => 2,
        ChromaFormat::Yuv444 => 3,
    })
    &&& !s.size.separate_planes
    &&& s.size.width % 64 == 0
    &&& width <= s.size.width < width + 64
    &&& s.size.height % 64 == 0
    &&& height <= s.size.height < height + 64
    &&& left == 0 && top == 0
    &&& width <= shown_w <= width + 1
    &&& height <= shown_h <= height + 1
    &&& !wide ==> shown_w == width
    &&& !high ==> shown_h == height
    &&& s.size.luma_depth == (match depth {
        BitDepth::Eight => 8int,
        BitDepth::Ten => 10,
        BitDepth::Twelve => 12,
    })
    &&& s.size.chroma_depth == s.size.luma_depth
    &&& profile_says(s.profile, s.profile.level, chroma, depth, lossless)
    &&& params::level_fits(s.profile.level, s.size.width * s.size.height)
    &&& tools_say(s.tools)
    &&& !s.vui.aspect_ratio && !s.vui.overscan && s.vui.signal_type
    &&& s.vui.video_format == 5 && s.vui.more == 0
    &&& match color {
        Some(c) => {
            &&& s.vui.full_range == c.full_range
            &&& s.vui.described
            &&& s.vui.primaries == c.primaries.spec_code()
            &&& s.vui.transfer == c.transfer.spec_code()
            &&& s.vui.matrix == c.matrix.spec_code()
        },
        None => s.vui.full_range && !s.vui.described,
    }
    &&& s.extended == (s.profile.idc == 4)
    &&& s.implicit_rdpcm == lossless
    &&& s.other_tools == (0int, 0int)
}

proof fn lemma_sps_says(
    bits: Seq<bool>,
    width: int,
    height: int,
    chroma: ChromaFormat,
    depth: BitDepth,
    lossless: bool,
    color: Option<Cicp>,
)
    requires
        starts(bits, sps_parts(width, height, chroma, depth, lossless, color)),
        0 <= width,
        0 <= height,
    ensures
        sps_says(read_sps(bits), width, height, chroma, depth, lossless, color),
{
    let (w, h) = (params::coded_size(width), params::coded_size(height));
    assert(0 <= w * h) by (nonlinear_arith)
        requires
            0 <= w,
            0 <= h,
    ;
    params::law_levels_are_just_large_enough(w * h);
    lemma_crop(w - width, chroma.spec_sub_w());
    lemma_crop(h - height, chroma.spec_sub_h());
    lemma_sps_parts(bits, width, height, chroma, depth, lossless, color);
}

/// A reader of the sequence parameter set finds the picture again: its size, its format and
/// its depth, and the colour that was given, each code in its role.
pub proof fn law_the_sequence_set_tells_the_picture(
    width: int,
    height: int,
    chroma: ChromaFormat,
    depth: BitDepth,
    lossless: bool,
    color: Option<Cicp>,
)
    requires
        0 <= width,
        0 <= height,
    ensures
        sps_says(
            read_sps(params::sps_bits(width, height, chroma, depth, lossless, color)),
            width,
            height,
            chroma,
            depth,
            lossless,
            color,
        ),
{
    let parts = sps_parts(width, height, chroma, depth, lossless, color);
    lemma_sps_bits(width, height, chroma, depth, lossless, color);
    lemma_trailed(parts);
    lemma_sps_says(bitwriter::trailed(parts), width, height, chroma, depth, lossless, color);
}

/// What is cut off is cut to the chroma sample.
proof fn lemma_crop(x: int, s: int)
    requires
        0 <= x,
        s == 1 || s == 2,
    ensures
        0 <= x / s,
        s == 1 ==> x / s == x,
        s == 2 ==> x - 1 <= 2 * (x / s) <= x,
{
    if s == 1 {
        assert(x / s == x) by (nonlinear_arith)
            requires
                s == 1,
        ;
    }
}

/// A video parameter set.
pub struct Vps {
    pub unit_type: int,
    pub id: int,
    pub base_layer: (bool, bool),
    pub layers: int,
    pub sub_layers: int,
    pub nesting: bool,
    pub reserved: int,
    pub profile: Profile,
}

/// Reads a video parameter set as far as its profile.
#[verifier::opaque]
pub open spec fn read_vps(bits: Seq<bool>) -> Vps {
    let r = Reader { bits, at: 0 };
    let (unit_type, r) = (r.skip(1).u(6), r.skip(16));
    Vps {
        unit_type,
        id: r.u(4),
        base_layer: (r.skip(4).flag(), r.skip(5).flag()),
        layers: r.skip(6).u(6) + 1,
        sub_layers: r.skip(12).u(3) + 1,
        nesting: r.skip(15).flag(),
        reserved: r.skip(16).u(16),
        profile: read_profile(r.skip(32)).0,
    }
}

/// `b` with what stands between a profile and the end of a video parameter set.
#[verifier::opaque]
spec fn vps_tail(b: Seq<bool>) -> Seq<bool> {
    let b = b.push(false);
    let b = b + bitwriter::ue_bits(0);
    let b = b + bitwriter::ue_bits(0);
    let b = b + bitwriter::ue_bits(0);
    let b = b + bitseq::low_bits(0, 6);
    let b = b + bitwriter::ue_bits(0);
    let b = b.push(false);
    b.push(false)
}

proof fn lemma_vps_tail(bits: Seq<bool>, b: Seq<bool>)
    requires
        starts(bits, vps_tail(b)),
    ensures
        starts(bits, b),
{
    reveal(vps_tail);
    lemma2_to64();
    let b1 = b.push(false);
    let b2 = b1 + bitwriter::ue_bits(0);
    let b3 = b2 + bitwriter::ue_bits(0);
    let b4 = b3 + bitwriter::ue_bits(0);
    let b5 = b4 + bitseq::low_bits(0, 6);
    let b6 = b5 + bitwriter::ue_bits(0);
    lemma_flag(bits, b6.push(false), false);
    lemma_flag(bits, b6, false);
    lemma_ue(bits, b5, 0);
    lemma_u(bits, b4, 0, 6);
    lemma_ue(bits, b3, 0);
    lemma_ue(bits, b2, 0);
    lemma_ue(bits, b1, 0);
    lemma_flag(bits, b, false);
}

/// The video parameter set by its parts.
#[verifier::opaque]
spec fn vps_parts(
    width: int,
    height: int,
    chroma: ChromaFormat,
    depth: BitDepth,
    lossless: bool,
) -> Seq<bool> {
    let level = params::level_of(params::coded_size(width) * params::coded_size(height));
    let b = params::header_bits(32) + bitseq::low_bits(0, 4);
    let b = b.push(true).push(true) + bitseq::low_bits(0, 6) + bitseq::low_bits(0, 3);
    let b = b.push(true) + bitseq::low_bits(0xFFFF, 16);
    vps_tail(profile_part(b, level, chroma, depth, lossless))
}

proof fn lemma_vps_bits(
    width: int,
    height: int,
    chroma: ChromaFormat,
    depth: BitDepth,
    lossless: bool,
)
    ensures
        params::vps_bits(width, height, chroma, depth, lossless) == bitwriter::trailed(
            vps_parts(width, height, chroma, depth, lossless),
        ),
{
    reveal(vps_parts);
    reveal(vps_tail);
    reveal(profile_part);
}

proof fn lemma_vps_parts(
    bits: Seq<bool>,
    width: int,
    height: int,
    chroma: ChromaFormat,
    depth: BitDepth,
    lossless: bool,
)
    requires
        starts(bits, vps_parts(width, height, chroma, depth, lossless)),
        0 <= width,
        0 <= height,
    ensures
        ({
            let v = read_vps(bits);
            &&& v.unit_type == 32
            &&& v.id == 0
            &&& v.base_layer == (true, true)
            &&& v.layers == 1
            &&& v.sub_layers == 1
            &&& v.nesting
            &&& v.reserved == 0xFFFF
            &&& profile_says(
                v.profile,
                params::level_of(params::coded_size(width) * params::coded_size(height)),
                chroma,
                depth,
                lossless,
            )
        }),
{
    reveal(vps_parts);
    reveal(read_vps);
    lemma2_to64();
    let (w, h) = (params::coded_size(width), params::coded_size(height));
    assert(0 <= w * h) by (nonlinear_arith)
        requires
            0 <= w,
            0 <= h,
    ;
    let level = params::level_of(w * h);
    let b0 = params::header_bits(32);
    let b1 = b0 + bitseq::low_bits(0, 4);
    let b2 = b1.push(true);
    let b3 = b2.push(true);
    let b4 = b3 + bitseq::low_bits(0, 6);
    let b5 = b4 + bitseq::low_bits(0, 3);
    let b6 = b5.push(true);
    let b7 = b6 + bitseq::low_bits(0xFFFF, 16);
    lemma_vps_tail(bits, profile_part(b7, level, chroma, depth, lossless));
    lemma_profile_part(bits, b7, level, chroma, depth, lossless);
    lemma_u(bits, b6, 0xFFFF, 16);
    lemma_flag(bits, b5, true);
    lemma_u(bits, b4, 0, 3);
    lemma_u(bits, b3, 0, 6);
    lemma_flag(bits, b2, true);
    lemma_flag(bits, b1, true);
    lemma_u(bits, b0, 0, 4);
    lemma_front_of_set(bits, 32);
}

/// A reader of the video parameter set finds one layer, the profile that the format needs,
/// and the lowest level that the coded picture fits into.
pub proof fn law_the_video_set_tells_the_profile(
    width: int,
    height: int,
    chroma: ChromaFormat,
    depth: BitDepth,
    lossless: bool,
)
    requires
        0 <= width,
        0 <= height,
    ensures
        ({
            let v = read_vps(params::vps_bits(width, height, chroma, depth, lossless));
            let (w, h) = (params::coded_size(width), params::coded_size(height));
            &&& v.unit_type == 32
            &&& v.id == 0
            &&& v.base_layer == (true, true)
            &&& v.layers == 1
            &&& v.sub_layers == 1
            &&& v.nesting
            &&& v.reserved == 0xFFFF
            &&& profile_says(v.profile, v.profile.level, chroma, depth, lossless)
            &&& params::level_fits(v.profile.level, w * h)
        }),
{
    let parts = vps_parts(width, height, chroma, depth, lossless);
    let (w, h) = (params::coded_size(width), params::coded_size(height));
    assert(0 <= w * h) by (nonlinear_arith)
        requires
            0 <= w,
            0 <= h,
    ;
    params::law_levels_are_just_large_enough(w * h);
    lemma_vps_bits(width, height, chroma, depth, lossless);
    lemma_trailed(parts);
    lemma_vps_parts(bitwriter::trailed(parts), width, height, chroma, depth, lossless);
}

/// A picture parameter set.
pub struct Pps {
    pub unit_type: int,
    pub id: int,
    pub sequence_set: int,
    /// Dependent slices, an output flag, and extra bits in slice headers.
    pub slices: (bool, bool, int),
    pub sign_hiding: bool,
    pub init_present: bool,
    pub references: (int, int),
    pub qp: int,
    pub constrained: bool,
    pub transform_skip: bool,
    pub qp_delta: bool,
    pub qp_delta_depth: int,
    pub chroma_offsets: (int, int),
    /// Offsets in slices, and weighted prediction.
    pub weights: (bool, bool, bool),
    pub bypass: bool,
    pub tiles: bool,
    pub wavefront: bool,
    pub cols: int,
    pub rows: int,
    pub uniform: bool,
    pub filter_across_tiles: bool,
    pub filter_across_slices: bool,
}

/// Reads the quantisation parameter and what comes before it, and where that ends.
#[verifier::opaque]
pub open spec fn read_pps_front(r: Reader) -> (Pps, Reader) {
    let (unit_type, r) = (r.skip(1).u(6), r.skip(16));
    let (id, r) = (r.ue(), r.skip_ue());
    let (sequence_set, r) = (r.ue(), r.skip_ue());
    let (dependent, r) = (r.flag(), r.skip(1));
    let (output, r) = (r.flag(), r.skip(1));
    let (extra, r) = (r.u(3), r.skip(3));
    let (sign_hiding, r) = (r.flag(), r.skip(1));
    let (init_present, r) = (r.flag(), r.skip(1));
    let (x, r) = (r.ue(), r.skip_ue());
    let (y, r) = (r.ue(), r.skip_ue());
    let (qp, r) = (r.se() + 26, r.skip_ue());
    let p = Pps {
        unit_type,
        id,
        sequence_set,
        slices: (dependent, output, extra),
        sign_hiding,
        init_present,
        references: (x + 1, y + 1),
        qp,
        constrained: false,
        transform_skip: false,
        qp_delta: false,
        qp_delta_depth: 0,
        chroma_offsets: (0, 0),
        weights: (false, false, false),
        bypass: false,
        tiles: false,
        wavefront: false,
        cols: 1,
        rows: 1,
        uniform: true,
        filter_across_tiles: true,
        filter_across_slices: false,
    };
    (p, r)
}

/// Reads the tools and the tiles behind the quantisation parameter.
#[verifier::opaque]
pub open spec fn read_pps_tools(p: Pps, r: Reader) -> Pps {
    let (constrained, r) = (r.flag(), r.skip(1));
    let (transform_skip, r) = (r.flag(), r.skip(1));
    let (qp_delta, r) = (r.flag(), r.skip(1));
    let (qp_delta_depth, r) = if qp_delta {
        (r.ue(), r.skip_ue())
    } else {
        (0, r)
    };
    let (cb, r) = (r.se(), r.skip_ue());
    let (cr, r) = (r.se(), r.skip_ue());
    let (weights, r) = ((r.flag(), r.skip(1).flag(), r.skip(2).flag()), r.skip(3));
    let (bypass, r) = (r.flag(), r.skip(1));
    let (tiles, r) = (r.flag(), r.skip(1));
    let (wavefront, r) = (r.flag(), r.skip(1));
    let (cols, rows, uniform, filter_across_tiles, r) = if tiles {
        let (cols, r) = (r.ue() + 1, r.skip_ue());
        let (rows, r) = (r.ue() + 1, r.skip_ue());
        (cols, rows, r.flag(), r.skip(1).flag(), r.skip(2))
    } else {
        (1, 1, true, true, r)
    };
    Pps {
        constrained,
        transform_skip,
        qp_delta,
        qp_delta_depth,
        chroma_offsets: (cb, cr),
        weights,
        bypass,
        tiles,
        wavefront,
        cols,
        rows,
        uniform,
        filter_across_tiles,
        filter_across_slices: r.flag(),
        ..p
    }
}

/// Reads a picture parameter set as far as the filter across slices.
pub open spec fn read_pps(bits: Seq<bool>) -> Pps {
    let (p, r) = read_pps_front(Reader { bits, at: 0 });
    read_pps_tools(p, r)
}

#[verifier::opaque]
spec fn pps_front(qp: int, lossless: bool) -> Seq<bool> {
    let b = params::header_bits(34);
    let b = b + bitwriter::ue_bits(0);
    let b = b + bitwriter::ue_bits(0);
    let b = b.push(false);
    let b = b.push(false);
    let b = b + bitseq::low_bits(0, 3);
    let b = b.push(!lossless);
    let b = b.push(false);
    let b = b + bitwriter::ue_bits(0);
    let b = b + bitwriter::ue_bits(0);
    b + bitwriter::se_bits(qp - 26)
}

#[verifier::opaque]
spec fn pps_tools(
    b: Seq<bool>,
    aq: bool,
    lossless: bool,
    wpp: bool,
    cols: int,
    rows: int,
) -> Seq<bool> {
    let tiled = cols > 1 || rows > 1;
    let b = b.push(false);
    let b = b.push(false);
    let b = b.push(aq);
    let b = if aq {
        b + bitwriter::ue_bits(0)
    } else {
        b
    };
    let b = b + bitwriter::se_bits(0);
    let b = b + bitwriter::se_bits(0);
    let b = b.push(false);
    let b = b.push(false);
    let b = b.push(false);
    let b = b.push(lossless);
    let b = b.push(tiled);
    let b = b.push(wpp);
    let b = if tiled {
        let b = b + bitwriter::ue_bits(cols - 1);
        let b = b + bitwriter::ue_bits(rows - 1);
        let b = b.push(true);
        let b = b.push(false);
        b
    } else {
        b
    };
    b.push(true)
}

#[verifier::opaque]
spec fn pps_tail(b: Seq<bool>) -> Seq<bool> {
    let b = b.push(false);
    let b = b.push(false);
    let b = b.push(false);
    let b = b + bitwriter::ue_bits(0);
    let b = b.push(false);
    b.push(false)
}

proof fn lemma_pps_bits(qp: int, lossless: bool, wpp: bool, cols: int, rows: int)
    ensures
        params::pps_bits(qp, lossless, wpp, cols, rows) == bitwriter::trailed(
            pps_tail(
                pps_tools(
                    pps_front(qp, lossless),
                    params::aq_on(qp, lossless),
                    lossless,
                    wpp,
                    cols,
                    rows,
                ),
            ),
        ),
{
    reveal(pps_front);
    reveal(pps_tools);
    reveal(pps_tail);
}

proof fn lemma_pps_tail(bits: Seq<bool>, b: Seq<bool>)
    requires
        starts(bits, pps_tail(b)),
    ensures
        starts(bits, b),
{
    reveal(pps_tail);
    let b1 = b.push(false);
    let b2 = b1.push(false);
    let b3 = b2.push(false);
    let b4 = b3 + bitwriter::ue_bits(0);
    lemma_flag(bits, b4.push(false), false);
    lemma_flag(bits, b4, false);
    lemma_ue(bits, b3, 0);
    lemma_flag(bits, b2, false);
    lemma_flag(bits, b1, false);
    lemma_flag(bits, b, false);
}

proof fn lemma_pps_front(bits: Seq<bool>, qp: int, lossless: bool)
    requires
        starts(bits, pps_front(qp, lossless)),
    ensures
        ({
            let (p, r) = read_pps_front(Reader { bits, at: 0 });
            &&& r == (Reader { bits, at: pps_front(qp, lossless).len() as int })
            &&& p.unit_type == 34
            &&& p.id == 0
            &&& p.sequence_set == 0
            &&& p.slices == (false, false, 0int)
            &&& p.sign_hiding == !lossless
            &&& !p.init_present
            &&& p.references == (1int, 1int)
            &&& p.qp == qp
        }),
{
    reveal(pps_front);
    reveal(read_pps_front);
    lemma2_to64();
    let b0 = params::header_bits(34);
    let b1 = b0 + bitwriter::ue_bits(0);
    let b2 = b1 + bitwriter::ue_bits(0);
    let b3 = b2.push(false);
    let b4 = b3.push(false);
    let b5 = b4 + bitseq::low_bits(0, 3);
    let b6 = b5.push(!lossless);
    let b7 = b6.push(false);
    let b8 = b7 + bitwriter::ue_bits(0);
    let b9 = b8 + bitwriter::ue_bits(0);
    lemma_se(bits, b9, qp - 26);
    lemma_ue(bits, b8, 0);
    lemma_ue(bits, b7, 0);
    lemma_flag(bits, b6, false);
    lemma_flag(bits, b5, !lossless);
    lemma_u(bits, b4, 0, 3);
    lemma_flag(bits, b3, false);
    lemma_flag(bits, b2, false);
    lemma_ue(bits, b1, 0);
    lemma_ue(bits, b0, 0);
    lemma_front_of_set(bits, 34);
}

proof fn lemma_pps_tools(
    bits: Seq<bool>,
    b: Seq<bool>,
    p: Pps,
    aq: bool,
    lossless: bool,
    wpp: bool,
    cols: int,
    rows: int,
)
    requires
        starts(bits, pps_tools(b, aq, lossless, wpp, cols, rows)),
        1 <= cols,
        1 <= rows,
    ensures
        starts(bits, b),
        ({
            let tiled = cols > 1 || rows > 1;
            read_pps_tools(p, Reader { bits, at: b.len() as int }) == (Pps {
                constrained: false,
                transform_skip: false,
                qp_delta: aq,
                qp_delta_depth: 0,
                chroma_offsets: (0, 0),
                weights: (false, false, false),
                bypass: lossless,
                tiles: tiled,
                wavefront: wpp,
                cols,
                rows,
                uniform: true,
                filter_across_tiles: !tiled,
                filter_across_slices: true,
                ..p
            })
        }),
{
    reveal(pps_tools);
    reveal(read_pps_tools);
    let tiled = cols > 1 || rows > 1;
    let b1 = b.push(false);
    let b2 = b1.push(false);
    let b3 = b2.push(aq);
    let b4 = if aq {
        b3 + bitwriter::ue_bits(0)
    } else {
        b3
    };
    let b5 = b4 + bitwriter::se_bits(0);
    let b6 = b5 + bitwriter::se_bits(0);
    let b7 = b6.push(false);
    let b8 = b7.push(false);
    let b9 = b8.push(false);
    let b10 = b9.push(lossless);
    let b11 = b10.push(tiled);
    let b12 = b11.push(wpp);
    let c1 = b12 + bitwriter::ue_bits(cols - 1);
    let c2 = c1 + bitwriter::ue_bits(rows - 1);
    let c3 = c2.push(true);
    let c4 = c3.push(false);
    let b13 = if tiled {
        c4
    } else {
        b12
    };
    lemma_flag(bits, b13, true);
    if tiled {
        lemma_flag(bits, c3, false);
        lemma_flag(bits, c2, true);
        lemma_ue(bits, c1, rows - 1);
        lemma_ue(bits, b12, cols - 1);
    }
    lemma_flag(bits, b11, wpp);
    lemma_flag(bits, b10, tiled);
    lemma_flag(bits, b9, lossless);
    lemma_flag(bits, b8, false);
    lemma_flag(bits, b7, false);
    lemma_flag(bits, b6, false);
    lemma_se(bits, b5, 0);
    lemma_se(bits, b4, 0);
    if aq {
        lemma_ue(bits, b3, 0);
    }
    lemma_flag(bits, b2, aq);
    lemma_flag(bits, b1, false);
    lemma_flag(bits, b, false);
}

/// A reader of the picture parameter set finds the quantisation parameter, the grid of
/// tiles and the tools: signs are hidden where samples may be lost, transforms are bypassed
/// where they may not, and units may depart from the parameter in coarse lossy pictures.
pub proof fn law_the_picture_set_tells_the_tools(
    qp: int,
    lossless: bool,
    wpp: bool,
    cols: int,
    rows: int,
)
    requires
        1 <= cols,
        1 <= rows,
    ensures
        ({
            let p = read_pps(params::pps_bits(qp, lossless, wpp, cols, rows));
            &&& p.unit_type == 34
            &&& p.id == 0
            &&& p.sequence_set == 0
            &&& p.slices == (false, false, 0int)
            &&& p.sign_hiding == !lossless
            &&& !p.init_present
            &&& p.references == (1int, 1int)
            &&& p.qp == qp
            &&& !p.constrained
            &&& !p.transform_skip
            &&& p.qp_delta == (!lossless && qp >= 24)
            &&& p.qp_delta_depth == 0
            &&& p.chroma_offsets == (0int, 0int)
            &&& p.weights == (false, false, false)
            &&& p.bypass == lossless
            &&& p.tiles == (cols > 1 || rows > 1)
            &&& p.wavefront == wpp
            &&& p.cols == cols
            &&& p.rows == rows
            &&& p.uniform
            &&& p.filter_across_tiles == !p.tiles
            &&& p.filter_across_slices
        }),
{
    let aq = params::aq_on(qp, lossless);
    let front = pps_front(qp, lossless);
    let tools = pps_tools(front, aq, lossless, wpp, cols, rows);
    let bits = bitwriter::trailed(pps_tail(tools));
    lemma_pps_bits(qp, lossless, wpp, cols, rows);
    lemma_trailed(pps_tail(tools));
    lemma_pps_tail(bits, tools);
    let p = read_pps_front(Reader { bits, at: 0 }).0;
    lemma_pps_tools(bits, front, p, aq, lossless, wpp, cols, rows);
    lemma_pps_front(bits, qp, lossless);
}

/// What a slice header says, up to where its entry points stand.
pub struct SliceHeader {
    pub nal_type: int,
    pub first: bool,
    pub no_prior_output: bool,
    pub picture_set: int,
    pub slice_type: int,
    pub sao_luma: bool,
    pub sao_chroma: bool,
    pub qp_delta: int,
    pub filter_across: bool,
}

/// Reads the header of the first slice of a picture whose sets allow a sample offset, and
/// where its entry points stand.
pub open spec fn read_slice_header(r: Reader, monochrome: bool) -> (SliceHeader, Reader) {
    let (nal_type, r) = (r.skip(1).u(6), r.skip(16));
    let (first, r) = (r.flag(), r.skip(1));
    let (no_prior_output, r) = (r.flag(), r.skip(1));
    let (picture_set, r) = (r.ue(), r.skip_ue());
    let (slice_type, r) = (r.ue(), r.skip_ue());
    let (sao_luma, r) = (r.flag(), r.skip(1));
    let (sao_chroma, r) = if monochrome {
        (false, r)
    } else {
        (r.flag(), r.skip(1))
    };
    let (qp_delta, r) = (r.se(), r.skip_ue());
    let (filter_across, r) = (r.flag(), r.skip(1));
    (
        SliceHeader {
            nal_type,
            first,
            no_prior_output,
            picture_set,
            slice_type,
            sao_luma,
            sao_chroma,
            qp_delta,
            filter_across,
        },
        r,
    )
}

/// A reader of a slice finds an instantaneous refresh (type 20), the first slice of its
/// picture, of intra units alone (type 2), with the parameter of the picture, filtered across
/// its borders, and the sample offset of luma as asked for.
pub proof fn law_the_slice_header_tells_the_slice(bits: Seq<bool>, chroma: ChromaFormat, sao: bool)
    requires
        slice::slice_header_bits(chroma, sao).is_prefix_of(bits),
    ensures
        ({
            let (h, r) = read_slice_header(Reader { bits, at: 0 }, chroma is Monochrome);
            &&& h.nal_type == 20
            &&& h.first
            &&& !h.no_prior_output
            &&& h.picture_set == 0
            &&& h.slice_type == 2
            &&& h.sao_luma == sao
            &&& !h.sao_chroma
            &&& h.qp_delta == 0
            &&& h.filter_across
            &&& r.at == slice::slice_header_bits(chroma, sao).len()
        }),
{
    lemma2_to64();
    let b0 = Seq::<bool>::empty().push(false);
    let b1 = b0 + bitseq::low_bits(20, 6);
    let b2 = b1 + bitseq::low_bits(0, 6);
    let b3 = b2 + bitseq::low_bits(1, 3);
    let b4 = b3.push(true);
    let b5 = b4.push(false);
    let b6 = b5 + bitwriter::ue_bits(0);
    let b7 = b6 + bitwriter::ue_bits(2);
    let b8 = b7.push(sao);
    let b9 = if chroma is Monochrome {
        b8
    } else {
        b8.push(false)
    };
    let c = b9 + bitwriter::se_bits(0);
    assert(starts(bits, c.push(true))) by {
        reveal(starts);
    }
    lemma_flag(bits, c, true);
    lemma_se(bits, b9, 0);
    if !(chroma is Monochrome) {
        lemma_flag(bits, b8, false);
    }
    lemma_flag(bits, b7, sao);
    lemma_ue(bits, b6, 2);
    lemma_ue(bits, b5, 0);
    lemma_flag(bits, b4, false);
    lemma_flag(bits, b3, true);
    lemma_u(bits, b2, 1, 3);
    lemma_u(bits, b1, 0, 6);
    lemma_u(bits, b0, 20, 6);
}

/// The sizes that entry points give: a count, the number of bits of each less one, and each
/// size less one.
pub open spec fn read_entry(r: Reader, i: int) -> int {
    let r = r.skip_ue();
    let len = r.ue() + 1;
    r.skip_ue().skip(i * len).u(len) + 1
}

/// A reader of the entry points of several parts finds how many there are besides the first,
/// and the size of each part but the last.
pub proof fn law_entry_points_tell_the_sizes(
    bits: Seq<bool>,
    b: Seq<bool>,
    sizes: Seq<usize>,
    i: int,
)
    requires
        (b + slice::entry_bits(sizes)).is_prefix_of(bits),
        sizes.len() >= 2,
        forall|k: int| 0 <= k < sizes.len() ==> 1 <= #[trigger] sizes[k],
        0 <= i < sizes.len() - 1,
    ensures
        (Reader { bits, at: b.len() as int }).ue() == sizes.len() - 1,
        read_entry(Reader { bits, at: b.len() as int }, i) == sizes[i],
{
    let n = sizes.len() - 1;
    let most = slice::max_offset(sizes, n);
    let len = bitwriter::log2_floor(most) + 1;
    lemma_most(sizes, n, i);
    lemma_digits(most);
    let b1 = b + bitwriter::ue_bits(n);
    let b2 = b1 + bitwriter::ue_bits(len - 1);
    let offsets = slice::offsets_bits(sizes, len, n);
    assert(b + slice::entry_bits(sizes) =~= b2 + offsets);
    assert(starts(bits, b2 + offsets)) by {
        reveal(starts);
    }
    lemma_offset(bits, b2, sizes, len, n, i);
    lemma_ue(bits, b1, len - 1);
    lemma_ue(bits, b, n);
}

/// Every size less one is at most the largest.
proof fn lemma_most(sizes: Seq<usize>, n: int, i: int)
    requires
        0 <= i < n <= sizes.len(),
        forall|k: int| 0 <= k < sizes.len() ==> 1 <= #[trigger] sizes[k],
    ensures
        0 <= sizes[i] - 1 <= slice::max_offset(sizes, n),
    decreases n,
{
    assert(1 <= sizes[i]);
    if i < n - 1 {
        lemma_most(sizes, n - 1, i);
    }
}

/// A number is below two to the power of the number of its digits.
proof fn lemma_digits(x: int)
    requires
        0 <= x,
    ensures
        0 <= bitwriter::log2_floor(x),
        x < pow2((bitwriter::log2_floor(x) + 1) as nat),
{
    lemma2_to64();
    if x >= 1 {
        bitwriter::lemma_log2_floor(x);
        lemma_pow2_unfold((bitwriter::log2_floor(x) + 1) as nat);
    }
}

proof fn lemma_offset(bits: Seq<bool>, b: Seq<bool>, sizes: Seq<usize>, len: int, n: int, i: int)
    requires
        starts(bits, b + slice::offsets_bits(sizes, len, n)),
        0 <= i < n <= sizes.len(),
        0 < len,
        0 <= sizes[i] - 1 < pow2(len as nat),
    ensures
        starts(bits, b),
        (Reader { bits, at: b.len() as int }).skip(i * len).u(len) == sizes[i] - 1,
    decreases n,
{
    let front = slice::offsets_bits(sizes, len, n - 1);
    let last = bitseq::low_bits(sizes[n - 1] - 1, len);
    assert(b + slice::offsets_bits(sizes, len, n) =~= (b + front) + last);
    lemma_front(bits, b + front, last);
    lemma_front(bits, b, front);
    if i < n - 1 {
        lemma_offset(bits, b, sizes, len, n - 1, i);
    } else {
        lemma_offsets_len(sizes, len, n - 1);
        lemma_u(bits, b + front, sizes[i] - 1, len);
    }
}

proof fn lemma_offsets_len(sizes: Seq<usize>, len: int, n: int)
    requires
        0 <= n,
        0 <= len,
    ensures
        slice::offsets_bits(sizes, len, n).len() == n * len,
    decreases n,
{
    if n > 0 {
        lemma_offsets_len(sizes, len, n - 1);
        assert(n * len == (n - 1) * len + len) by (nonlinear_arith);
    } else {
        assert(0 * len == 0);
    }
}

} // verus!
