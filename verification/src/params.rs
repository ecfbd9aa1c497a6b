//! Video, sequence and picture parameter sets.
use crate::bitseq;
use crate::bitwriter;
use crate::bitwriter::BitWriter;
use crate::color::Cicp;
use crate::fmt::{BitDepth, ChromaFormat};
use crate::nal::Nalu;
use vstd::arithmetic::power2::*;
use vstd::prelude::*;

verus! {

/// The bits of a unit header.
pub open spec fn header_bits(nal_type: u8) -> Seq<bool> {
    let b = Seq::<bool>::empty();
    let b = b.push(false);
    let b = b + bitseq::low_bits(nal_type as int, 6);
    let b = b + bitseq::low_bits(0, 6);
    let b = b + bitseq::low_bits(1, 3);
    b
}

/// Writes a unit header.
pub fn nalu_header(bw: &mut BitWriter, nal_type: u8)
    requires
        old(bw).wf(),
        old(bw)@.len() == 0,
    ensures
        final(bw).wf(),
        final(bw)@ == header_bits(nal_type),
{
    assert(bw@ =~= Seq::empty());
    bw.write_bit(false); // forbidden_zero_bit
    bw.write_bits(nal_type as u32, 6); // nal_unit_type
    bw.write_bits(0, 6); // nuh_layer_id
    bw.write_bits(1, 3); // nuh_temporal_id_plus1
}

/// The coded size: whole 64x64 coding tree units.
pub open spec fn coded_size(n: int) -> int {
    (n + 63) / 64 * 64
}

/// The level whose largest picture is just large enough.
pub open spec fn level_of(samples: int) -> int {
    if samples <= 36864 {
        30
    } else if samples <= 122880 {
        60
    } else if samples <= 245760 {
        63
    } else if samples <= 552960 {
        90
    } else if samples <= 983040 {
        93
    } else if samples <= 2228224 {
        120
    } else if samples <= 8912896 {
        150
    } else if samples <= 35651584 {
        180
    } else {
        186
    }
}

/// The largest picture of a level, in samples.
pub open spec fn largest_picture(level: int) -> int {
    if level == 30 {
        36864
    } else if level == 60 {
        122880
    } else if level == 63 {
        245760
    } else if level == 90 {
        552960
    } else if level == 93 {
        983040
    } else if level == 120 {
        2228224
    } else if level == 150 {
        8912896
    } else if level == 180 {
        35651584
    } else {
        0
    }
}

/// A picture fits into a level, and into none below it; what is larger than every level has
/// the highest number.
pub open spec fn level_fits(level: int, samples: int) -> bool {
    &&& level == 186 || largest_picture(level) > 0
    &&& level == 186 || samples <= largest_picture(level)
    &&& forall|l: int|
        l < level && #[trigger] largest_picture(l) > 0 ==> largest_picture(l) < samples
}

/// The level of a picture is the lowest that it fits into.
pub proof fn law_levels_are_just_large_enough(samples: int)
    requires
        0 <= samples,
    ensures
        level_fits(level_of(samples), samples),
        0 < level_of(samples) < 256,
{
}

/// The level number of a picture of `w` by `h` samples.
pub fn level_idc_for(w: u32, h: u32) -> (r: u8)
    ensures
        r == level_of(w * h),
{
    assert(w * h <= 0xffff_ffff * 0xffff_ffff) by (nonlinear_arith)
        requires
            w <= 0xffff_ffff,
            h <= 0xffff_ffff,
    ;
    assert(0 <= w * h) by (nonlinear_arith)
        requires
            0 <= w,
            0 <= h,
    ;
    let ps: u64 = w as u64 * h as u64;
    if ps <= 36864 {
        30
    } else if ps <= 122880 {
        60
    } else if ps <= 245760 {
        63
    } else if ps <= 552960 {
        90
    } else if ps <= 983040 {
        93
    } else if ps <= 2228224 {
        120
    } else if ps <= 8912896 {
        150
    } else if ps <= 35651584 {
        180
    } else {
        186
    }
}

/// The stream needs a range-extensions profile: it is lossless, has more chroma
/// than 4:2:0, or more than ten bits.
pub open spec fn needs_rext(chroma: ChromaFormat, bit_depth: BitDepth, lossless: bool) -> bool {
    lossless || !(chroma is Yuv420 || chroma is Monochrome) || bit_depth.spec_bits() > 10
}

/// Whether the picture needs the range extensions profile.
pub fn uses_rext_profile(chroma: ChromaFormat, bit_depth: BitDepth, lossless: bool) -> (r: bool)
    ensures
        r == needs_rext(chroma, bit_depth, lossless),
{
    let is_420: bool = matches!(chroma, ChromaFormat::Yuv420 | ChromaFormat::Monochrome);
    lossless || !is_420 || bit_depth.bits() > 10
}

/// `b` followed by profile, tier, constraint flags and level.
pub open spec fn profile_bits(
    b: Seq<bool>,
    level_idc: int,
    chroma: ChromaFormat,
    bit_depth: BitDepth,
    lossless: bool,
) -> Seq<bool> {
    let bits = bit_depth.spec_bits();
    let is_420 = chroma is Yuv420 || chroma is Monochrome;
    let is_444 = chroma is Yuv444;
    let is_mono = chroma is Monochrome;
    let rext = needs_rext(chroma, bit_depth, lossless);
    let wide = lossless || is_444;
    let profile = if rext {
        4int
    } else if bits <= 8 {
        3
    } else {
        2
    };
    let compat = if rext {
        0x0800_0000int
    } else if bits <= 8 {
        0x7000_0000
    } else {
        0x2000_0000
    };
    let b = b + bitseq::low_bits(0, 2);
    let b = b.push(false);
    let b = b + bitseq::low_bits(profile, 5);
    let b = b + bitseq::low_bits(compat, 32);
    let b = b.push(true);
    let b = b.push(false);
    let b = b.push(true);
    let b = b.push(true);
    let b = if rext {
        let b = b.push(bits <= 12);
        let b = b.push(bits <= 10);
        let b = b.push(bits <= 8);
        let b = b.push(!wide && (!is_444 || is_mono));
        let b = b.push(!wide && (is_420 || is_mono));
        let b = b.push(!wide && is_mono);
        let b = b.push(true);
        let b = b.push(false);
        let b = b.push(true);
        let b = b.push(bits <= 14);
        let b = b + bitseq::low_bits(0, 32);
        let b = b + bitseq::low_bits(0, 2);
        b
    } else {
        let b = b + bitseq::low_bits(0, 32);
        let b = b + bitseq::low_bits(0, 12);
        b
    };
    b + bitseq::low_bits(level_idc, 8)
}

/// Writes the profile, tier and level.
pub fn write_profile_tier_level(
    bw: &mut BitWriter,
    level_idc: u8,
    chroma: ChromaFormat,
    bit_depth: BitDepth,
    lossless: bool,
)
    requires
        old(bw).wf(),
    ensures
        final(bw).wf(),
        final(bw)@ == profile_bits(old(bw)@, level_idc as int, chroma, bit_depth, lossless),
{
    let bits: u8 = bit_depth.bits();
    let is_mono: bool = chroma.is_monochrome();
    let is_420: bool = is_mono || matches!(chroma, ChromaFormat::Yuv420);
    let is_444: bool = matches!(chroma, ChromaFormat::Yuv444);
    let rext: bool = uses_rext_profile(chroma, bit_depth, lossless);
    let wide: bool = lossless || is_444;
    let profile: u32 = if rext {
        4
    } else if bits <= 8 {
        3
    } else {
        2
    };
    let compat: u32 = if rext {
        0x0800_0000
    } else if bits <= 8 {
        0x7000_0000
    } else {
        0x2000_0000
    };
    bw.write_bits(0, 2); // general_profile_space
    bw.write_bit(false); // general_tier_flag
    bw.write_bits(profile, 5); // general_profile_idc
    bw.write_bits(compat, 32); // general_profile_compatibility_flags
    bw.write_bit(true); // general_progressive_source_flag
    bw.write_bit(false); // general_interlaced_source_flag
    bw.write_bit(true); // general_non_packed_constraint_flag
    bw.write_bit(true); // general_frame_only_constraint_flag
    if rext {
        bw.write_bit(bits <= 12); // max_12bit_constraint_flag
        bw.write_bit(bits <= 10); // max_10bit_constraint_flag
        bw.write_bit(bits <= 8); // max_8bit_constraint_flag
        bw.write_bit(!wide && (!is_444 || is_mono)); // max_422chroma_constraint_flag
        bw.write_bit(!wide && (is_420 || is_mono)); // max_420chroma_constraint_flag
        bw.write_bit(!wide && is_mono); // max_monochrome_constraint_flag
        bw.write_bit(true); // intra_constraint_flag
        bw.write_bit(false); // one_picture_only_constraint_flag
        bw.write_bit(true); // lower_bit_rate_constraint_flag
        bw.write_bit(bits <= 14); // max_14bit_constraint_flag
        bw.write_bits(0, 32); // reserved zero bits
        bw.write_bits(0, 2); // reserved zero bits
    } else {
        bw.write_bits(0, 32); // reserved zero bits
        bw.write_bits(0, 12); // reserved zero bits
    }
    bw.write_bits(level_idc as u32, 8);
}

/// The bits of the video parameter set.
pub open spec fn vps_bits(
    width: int,
    height: int,
    chroma: ChromaFormat,
    bit_depth: BitDepth,
    lossless: bool,
) -> Seq<bool> {
    let level = level_of(coded_size(width) * coded_size(height));
    let b = header_bits(32);
    let b = b + bitseq::low_bits(0, 4);
    let b = b.push(true);
    let b = b.push(true);
    let b = b + bitseq::low_bits(0, 6);
    let b = b + bitseq::low_bits(0, 3);
    let b = b.push(true);
    let b = b + bitseq::low_bits(0xFFFF, 16);
    let b = profile_bits(b, level, chroma, bit_depth, lossless);
    let b = b.push(false);
    let b = b + bitwriter::ue_bits(0);
    let b = b + bitwriter::ue_bits(0);
    let b = b + bitwriter::ue_bits(0);
    let b = b + bitseq::low_bits(0, 6);
    let b = b + bitwriter::ue_bits(0);
    let b = b.push(false);
    let b = b.push(false);
    bitwriter::trailed(b)
}

/// The unit holds exactly these bits, which make up whole bytes.
pub open spec fn holds(n: Nalu, nal_type: u8, bits: Seq<bool>) -> bool {
    &&& n.nal_type == nal_type
    &&& bitseq::of_bytes(n.data@) == bits
}

/// A byte that spells the bits of a number is that number.
proof fn lemma_byte(b: u8, x: int)
    requires
        0 <= x < 256,
        forall|i: int|
            0 <= i < 8 ==> #[trigger] bitseq::bit_of(b as int, 7 - i) == bitseq::bit_of(x, 7 - i),
    ensures
        b == x,
{
    lemma2_to64();
    bitseq::lemma_value_low_bits(b as int, 8);
    bitseq::lemma_value_low_bits(x, 8);
    assert(bitseq::low_bits(b as int, 8) =~= bitseq::low_bits(x, 8));
}

/// The bits of a unit header are those of its two bytes.
proof fn lemma_header_bytes(nal_type: u8)
    requires
        nal_type < 64,
    ensures
        header_bits(nal_type).len() == 16,
        forall|i: int|
            0 <= i < 8 ==> #[trigger] header_bits(nal_type)[i] == bitseq::bit_of(
                2 * nal_type,
                7 - i,
            ),
        forall|i: int|
            8 <= i < 16 ==> #[trigger] header_bits(nal_type)[i] == bitseq::bit_of(1, 15 - i),
{
    lemma2_to64();
    let h = header_bits(nal_type);
    let t = nal_type as int;
    assert forall|i: int| 0 <= i < 8 implies #[trigger] h[i] == bitseq::bit_of(2 * t, 7 - i) by {
        if i == 0 {
            assert(!bitseq::bit_of(2 * t, 7)) by {
                assert(2 * t / 128 == 0);
            }
        } else if i < 7 {
            assert(h[i] == bitseq::low_bits(t, 6)[i - 1]);
            assert(bitseq::low_bits(t, 6)[i - 1] == bitseq::bit_of(t, 6 - i));
            bitseq::lemma_bit_of_half(2 * t, 6 - i);
            assert(2 * t / 2 == t);
        } else {
            assert(h[7] == bitseq::low_bits(0, 6)[0]);
            assert(!bitseq::bit_of(0, 5));
            assert(!bitseq::bit_of(2 * t, 0)) by {
                assert(2 * t / 1 == 2 * t);
            }
        }
    }
    assert forall|i: int| 8 <= i < 16 implies #[trigger] h[i] == bitseq::bit_of(1, 15 - i) by {
        if i < 13 {
            assert(h[i] == bitseq::low_bits(0, 6)[i - 7]);
            assert(i == 8 || i == 9 || i == 10 || i == 11 || i == 12);
            vstd::arithmetic::div_mod::lemma_basic_div(0, pow2((12 - i) as nat) as int);
            vstd::arithmetic::div_mod::lemma_basic_div(1, pow2((15 - i) as nat) as int);
        } else {
            assert(h[i] == bitseq::low_bits(1, 3)[i - 13]);
        }
    }
}

/// A unit starts with its type.
pub proof fn law_units_start_with_their_type(n: Nalu, nal_type: u8, bits: Seq<bool>)
    requires
        nal_type < 64,
        holds(n, nal_type, bits),
        header_bits(nal_type).is_prefix_of(bits),
    ensures
        n.data@.len() >= 2,
        n.data@[0] == 2 * nal_type,
        n.data@[1] == 1,
{
    let h = header_bits(nal_type);
    lemma_header_bytes(nal_type);
    assert(bits.len() >= 16);
    let d = n.data@;
    assert forall|i: int| 0 <= i < 8 implies #[trigger] bitseq::bit_of(d[0] as int, 7 - i)
        == bitseq::bit_of(2 * nal_type, 7 - i) by {
        assert(bits[i] == h[i] && bitseq::of_bytes(d)[i] == bits[i]);
    }
    lemma_byte(d[0], 2 * nal_type);
    assert forall|i: int| 0 <= i < 8 implies #[trigger] bitseq::bit_of(d[1] as int, 7 - i)
        == bitseq::bit_of(1, 7 - i) by {
        assert(bits[8 + i] == h[8 + i] && bitseq::of_bytes(d)[8 + i] == bits[8 + i]);
        assert((8 + i) / 8 == 1 && 7 - (8 + i) % 8 == 7 - i);
    }
    lemma_byte(d[1], 1);
}

/// Rounds a size up to whole coding tree units.
pub fn round_up_64(n: u32) -> (r: u32)
    requires
        n <= 0xffff_ffc0,
    ensures
        r == coded_size(n as int),
        n <= r < n + 64,
        r <= 0xffff_ffc0,
{
    (n + 63) / 64 * 64
}

/// Completes a unit.
fn close_unit(bw: BitWriter, nal_type: u8) -> (r: Nalu)
    requires
        bw.wf(),
        bw@.len() > 0,
    ensures
        holds(r, nal_type, bitwriter::trailed(bw@)),
        r.data@.len() > 0,
{
    let mut bw = bw;
    bw.rbsp_trailing_bits();
    let ghost bits = bw@;
    assert(bits + bitwriter::padding(bits.len() as int) =~= bits);
    let data = bw.finish();
    assert(bitseq::of_bytes(data@).len() == 8 * data@.len());
    Nalu { nal_type, data }
}

/// The video parameter set.
pub fn build_vps(
    width: u32,
    height: u32,
    chroma: ChromaFormat,
    bit_depth: BitDepth,
    lossless: bool,
) -> (r: Nalu)
    requires
        width <= 0xffff_ffc0,
        height <= 0xffff_ffc0,
    ensures
        holds(r, 32, vps_bits(width as int, height as int, chroma, bit_depth, lossless)),
{
    let level: u8 = level_idc_for(round_up_64(width), round_up_64(height));
    let mut bw = BitWriter::new();
    nalu_header(&mut bw, 32);
    bw.write_bits(0, 4); // vps_video_parameter_set_id
    bw.write_bit(true); // vps_base_layer_internal_flag
    bw.write_bit(true); // vps_base_layer_available_flag
    bw.write_bits(0, 6); // vps_max_layers_minus1
    bw.write_bits(0, 3); // vps_max_sub_layers_minus1
    bw.write_bit(true); // vps_temporal_id_nesting_flag
    bw.write_bits(0xFFFF, 16); // vps_reserved_0xffff_16bits
    write_profile_tier_level(&mut bw, level, chroma, bit_depth, lossless);
    bw.write_bit(false); // vps_sub_layer_ordering_info_present_flag
    bw.write_ue(0); // vps_max_dec_pic_buffering_minus1
    bw.write_ue(0); // vps_max_num_reorder_pics
    bw.write_ue(0); // vps_max_latency_increase_plus1
    bw.write_bits(0, 6); // vps_max_layer_id
    bw.write_ue(0); // vps_num_layer_sets_minus1
    bw.write_bit(false); // vps_timing_info_present_flag
    bw.write_bit(false); // vps_extension_flag
    close_unit(bw, 32)
}

/// `b` followed by the range extension of the sequence parameter set.
pub open spec fn range_extension_bits(b: Seq<bool>, lossless: bool) -> Seq<bool> {
    let b = b.push(false);
    let b = b.push(false);
    let b = b.push(lossless);
    let b = b.push(false);
    let b = b.push(false);
    let b = b.push(false);
    let b = b.push(false);
    let b = b.push(false);
    let b = b.push(false);
    b
}

/// Writes the range extension of a sequence parameter set.
pub fn write_sps_range_extension(bw: &mut BitWriter, lossless: bool)
    requires
        old(bw).wf(),
    ensures
        final(bw).wf(),
        final(bw)@ == range_extension_bits(old(bw)@, lossless),
{
    bw.write_bit(false); // transform_skip_rotation_enabled_flag
    bw.write_bit(false); // transform_skip_context_enabled_flag
    bw.write_bit(lossless); // implicit_rdpcm_enabled_flag
    bw.write_bit(false); // explicit_rdpcm_enabled_flag
    bw.write_bit(false); // extended_precision_processing_flag
    bw.write_bit(false); // intra_smoothing_disabled_flag
    bw.write_bit(false); // high_precision_offsets_enabled_flag
    bw.write_bit(false); // persistent_rice_adaptation_enabled_flag
    bw.write_bit(false); // cabac_bypass_alignment_enabled_flag
}

/// `b` followed by the usability information: the range flag, and the code points
/// where they are given. Without them the range is full.
pub open spec fn vui_bits(b: Seq<bool>, color: Option<Cicp>) -> Seq<bool> {
    let b = b.push(false);
    let b = b.push(false);
    let b = b.push(true);
    let b = b + bitseq::low_bits(5, 3);
    let b = match color {
        Some(c) => {
            let b = b.push(c.full_range);
            let b = b.push(true);
            let b = b + bitseq::low_bits(c.primaries.spec_code(), 8);
            let b = b + bitseq::low_bits(c.transfer.spec_code(), 8);
            b + bitseq::low_bits(c.matrix.spec_code(), 8)
        },
        None => b.push(true).push(false),
    };
    let b = b.push(false);
    let b = b.push(false);
    let b = b.push(false);
    let b = b.push(false);
    let b = b.push(false);
    let b = b.push(false);
    let b = b.push(false);
    b
}

fn write_vui(bw: &mut BitWriter, color: Option<Cicp>)
    requires
        old(bw).wf(),
    ensures
        final(bw).wf(),
        final(bw)@ == vui_bits(old(bw)@, color),
{
    bw.write_bit(false); // aspect_ratio_info_present_flag
    bw.write_bit(false); // overscan_info_present_flag
    bw.write_bit(true); // video_signal_type_present_flag
    bw.write_bits(5, 3); // video_format
    match color {
        Some(c) => {
            bw.write_bit(c.full_range); // video_full_range_flag
            bw.write_bit(true); // colour_description_present_flag
            bw.write_bits(c.primaries.code() as u32, 8);
            bw.write_bits(c.transfer.code() as u32, 8);
            bw.write_bits(c.matrix.code() as u32, 8);
        },
        None => {
            bw.write_bit(true); // video_full_range_flag
            bw.write_bit(false); // colour_description_present_flag
        },
    }
    bw.write_bit(false); // chroma_loc_info_present_flag
    bw.write_bit(false); // neutral_chroma_indication_flag
    bw.write_bit(false); // field_seq_flag
    bw.write_bit(false); // frame_field_info_present_flag
    bw.write_bit(false); // default_display_window_flag
    bw.write_bit(false); // vui_timing_info_present_flag
    bw.write_bit(false); // bitstream_restriction_flag
}

/// The bits of the sequence parameter set: the coded size in whole coding tree
/// units, and the window that crops it to the picture.
pub open spec fn sps_bits(
    width: int,
    height: int,
    chroma: ChromaFormat,
    bit_depth: BitDepth,
    lossless: bool,
    color: Option<Cicp>,
) -> Seq<bool> {
    let coded_w = coded_size(width);
    let coded_h = coded_size(height);
    let crop_right = (coded_w - width) / chroma.spec_sub_w();
    let crop_bottom = (coded_h - height) / chroma.spec_sub_h();
    let window = crop_right > 0 || crop_bottom > 0;
    let rext = needs_rext(chroma, bit_depth, lossless);
    let b = header_bits(33);
    let b = b + bitseq::low_bits(0, 4);
    let b = b + bitseq::low_bits(0, 3);
    let b = b.push(true);
    let b = profile_bits(b, level_of(coded_w * coded_h), chroma, bit_depth, lossless);
    let b = b + bitwriter::ue_bits(0);
    let b = b + bitwriter::ue_bits(chroma.spec_idc());
    let b = if chroma is Yuv444 {
        b.push(false)
    } else {
        b
    };
    let b = b + bitwriter::ue_bits(coded_w);
    let b = b + bitwriter::ue_bits(coded_h);
    let b = b.push(window);
    let b = if window {
        let b = b + bitwriter::ue_bits(0);
        let b = b + bitwriter::ue_bits(crop_right);
        let b = b + bitwriter::ue_bits(0);
        let b = b + bitwriter::ue_bits(crop_bottom);
        b
    } else {
        b
    };
    let b = b + bitwriter::ue_bits(bit_depth.spec_bits() - 8);
    let b = b + bitwriter::ue_bits(bit_depth.spec_bits() - 8);
    let b = b + bitwriter::ue_bits(4);
    let b = b.push(false);
    let b = b + bitwriter::ue_bits(0);
    let b = b + bitwriter::ue_bits(0);
    let b = b + bitwriter::ue_bits(0);
    let b = b + bitwriter::ue_bits(0);
    let b = b + bitwriter::ue_bits(3);
    let b = b + bitwriter::ue_bits(0);
    let b = b + bitwriter::ue_bits(3);
    let b = b + bitwriter::ue_bits(0);
    let b = b + bitwriter::ue_bits(3);
    let b = b.push(false);
    let b = b.push(false);
    let b = b.push(true);
    let b = b.push(false);
    let b = b + bitwriter::ue_bits(0);
    let b = b.push(false);
    let b = b.push(true);
    let b = b.push(false);
    let b = b.push(true);
    let b = vui_bits(b, color);
    let b = b.push(rext);
    let b = if rext {
        let b = b.push(true);
        let b = b.push(false);
        let b = b.push(false);
        let b = b.push(false);
        let b = b + bitseq::low_bits(0, 4);
        range_extension_bits(b, lossless)
    } else {
        b
    };
    bitwriter::trailed(b)
}

/// The sequence parameter set.
pub fn build_sps(
    width: u32,
    height: u32,
    chroma: ChromaFormat,
    bit_depth: BitDepth,
    lossless: bool,
    color: Option<Cicp>,
) -> (r: Nalu)
    requires
        width <= 0xffff_ffc0,
        height <= 0xffff_ffc0,
    ensures
        holds(r, 33, sps_bits(width as int, height as int, chroma, bit_depth, lossless, color)),
{
    let coded_w: u32 = round_up_64(width);
    let coded_h: u32 = round_up_64(height);
    let crop_right: u32 = (coded_w - width) / chroma.sub_w() as u32;
    let crop_bottom: u32 = (coded_h - height) / chroma.sub_h() as u32;
    let window: bool = crop_right > 0 || crop_bottom > 0;
    let rext: bool = uses_rext_profile(chroma, bit_depth, lossless);
    let mut bw = BitWriter::new();
    nalu_header(&mut bw, 33);
    bw.write_bits(0, 4); // sps_video_parameter_set_id
    bw.write_bits(0, 3); // sps_max_sub_layers_minus1
    bw.write_bit(true); // sps_temporal_id_nesting_flag
    write_profile_tier_level(
        &mut bw,
        level_idc_for(coded_w, coded_h),
        chroma,
        bit_depth,
        lossless,
    );
    bw.write_ue(0); // sps_seq_parameter_set_id
    bw.write_ue(chroma.idc()); // chroma_format_idc
    if matches!(chroma, ChromaFormat::Yuv444) {
        bw.write_bit(false); // separate_colour_plane_flag
    }
    bw.write_ue(coded_w); // pic_width_in_luma_samples
    bw.write_ue(coded_h); // pic_height_in_luma_samples
    bw.write_bit(window); // conformance_window_flag
    if window {
        bw.write_ue(0); // conf_win_left_offset
        bw.write_ue(crop_right); // conf_win_right_offset
        bw.write_ue(0); // conf_win_top_offset
        bw.write_ue(crop_bottom); // conf_win_bottom_offset
    }
    bw.write_ue(bit_depth.minus8() as u32); // bit_depth_luma_minus8
    bw.write_ue(bit_depth.minus8() as u32); // bit_depth_chroma_minus8
    bw.write_ue(4); // log2_max_pic_order_cnt_lsb_minus4
    bw.write_bit(false); // sps_sub_layer_ordering_info_present_flag
    bw.write_ue(0); // sps_max_dec_pic_buffering_minus1
    bw.write_ue(0); // sps_max_num_reorder_pics
    bw.write_ue(0); // sps_max_latency_increase_plus1
    bw.write_ue(0); // log2_min_luma_coding_block_size_minus3
    bw.write_ue(3); // log2_diff_max_min_luma_coding_block_size
    bw.write_ue(0); // log2_min_luma_transform_block_size_minus2
    bw.write_ue(3); // log2_diff_max_min_luma_transform_block_size
    bw.write_ue(0); // max_transform_hierarchy_depth_inter
    bw.write_ue(3); // max_transform_hierarchy_depth_intra
    bw.write_bit(false); // scaling_list_enabled_flag
    bw.write_bit(false); // amp_enabled_flag
    bw.write_bit(true); // sample_adaptive_offset_enabled_flag
    bw.write_bit(false); // pcm_enabled_flag
    bw.write_ue(0); // num_short_term_ref_pic_sets
    bw.write_bit(false); // long_term_ref_pics_present_flag
    bw.write_bit(true); // sps_temporal_mvp_enabled_flag
    bw.write_bit(false); // strong_intra_smoothing_enabled_flag
    bw.write_bit(true); // vui_parameters_present_flag
    write_vui(&mut bw, color);
    bw.write_bit(rext); // sps_extension_present_flag
    if rext {
        bw.write_bit(true); // sps_range_extension_flag
        bw.write_bit(false); // sps_multilayer_extension_flag
        bw.write_bit(false); // sps_3d_extension_flag
        bw.write_bit(false); // sps_scc_extension_flag
        bw.write_bits(0, 4); // sps_extension_4bits
        write_sps_range_extension(&mut bw, lossless);
    }
    close_unit(bw, 33)
}

/// Adaptive quantisation is on: the stream is lossy and coarse enough for it.
pub open spec fn aq_on(qp: int, lossless: bool) -> bool {
    !lossless && qp >= 24
}

/// Whether units may depart from the parameter of the picture.
pub fn activity_aq_enabled(qp: u8, lossless: bool) -> (r: bool)
    ensures
        r == aq_on(qp as int, lossless),
{
    !lossless && qp >= 24
}

/// The bits of the picture parameter set. The slice parameter is carried whole;
/// tile fields are there only where there is more than one tile.
pub open spec fn pps_bits(
    qp: int,
    lossless: bool,
    wpp: bool,
    tile_cols: int,
    tile_rows: int,
) -> Seq<bool> {
    let aq = aq_on(qp, lossless);
    let tiled = tile_cols > 1 || tile_rows > 1;
    let b = header_bits(34);
    let b = b + bitwriter::ue_bits(0);
    let b = b + bitwriter::ue_bits(0);
    let b = b.push(false);
    let b = b.push(false);
    let b = b + bitseq::low_bits(0, 3);
    let b = b.push(!lossless);
    let b = b.push(false);
    let b = b + bitwriter::ue_bits(0);
    let b = b + bitwriter::ue_bits(0);
    let b = b + bitwriter::se_bits(qp - 26);
    let b = b.push(false);
    let b = b.push(false);
    let b = b.push(aq);
    let b = if aq {
        b + bitwriter::ue_bits(0)
    } else {
        b
    };
    let b = b + bitwriter::se_bits(0);
    let b = b + bitwriter::se_bits(0);
    let b = b.push(false);
    let b = b.push(false);
    let b = b.push(false);
    let b = b.push(lossless);
    let b = b.push(tiled);
    let b = b.push(wpp);
    let b = if tiled {
        let b = b + bitwriter::ue_bits(tile_cols - 1);
        let b = b + bitwriter::ue_bits(tile_rows - 1);
        let b = b.push(true);
        let b = b.push(false);
        b
    } else {
        b
    };
    let b = b.push(true);
    let b = b.push(false);
    let b = b.push(false);
    let b = b.push(false);
    let b = b + bitwriter::ue_bits(0);
    let b = b.push(false);
    let b = b.push(false);
    bitwriter::trailed(b)
}

/// The picture parameter set of a picture in one tile.
pub fn build_pps(qp: u8, lossless: bool, wpp: bool) -> (r: Nalu)
    ensures
        holds(r, 34, pps_bits(qp as int, lossless, wpp, 1, 1)),
{
    build_pps_tiled(qp, lossless, wpp, 1, 1)
}

/// The picture parameter set, with a uniform grid of tiles.
pub fn build_pps_tiled(
    qp: u8,
    lossless: bool,
    wpp: bool,
    tile_cols: usize,
    tile_rows: usize,
) -> (r: Nalu)
    requires
        tile_cols > 1 || tile_rows > 1 ==> 1 <= tile_cols <= u32::MAX && 1 <= tile_rows <= u32::MAX,
    ensures
        holds(r, 34, pps_bits(qp as int, lossless, wpp, tile_cols as int, tile_rows as int)),
{
    let aq: bool = activity_aq_enabled(qp, lossless);
    let tiled: bool = tile_cols > 1 || tile_rows > 1;
    let mut bw = BitWriter::new();
    nalu_header(&mut bw, 34);
    bw.write_ue(0); // pps_pic_parameter_set_id
    bw.write_ue(0); // pps_seq_parameter_set_id
    bw.write_bit(false); // dependent_slice_segments_enabled_flag
    bw.write_bit(false); // output_flag_present_flag
    bw.write_bits(0, 3); // num_extra_slice_header_bits
    bw.write_bit(!lossless); // sign_data_hiding_enabled_flag
    bw.write_bit(false); // cabac_init_present_flag
    bw.write_ue(0); // num_ref_idx_l0_default_active_minus1
    bw.write_ue(0); // num_ref_idx_l1_default_active_minus1
    bw.write_se(qp as i32 - 26); // init_qp_minus26
    bw.write_bit(false); // constrained_intra_pred_flag
    bw.write_bit(false); // transform_skip_enabled_flag
    bw.write_bit(aq); // cu_qp_delta_enabled_flag
    if aq {
        bw.write_ue(0); // diff_cu_qp_delta_depth
    }
    bw.write_se(0); // pps_cb_qp_offset
    bw.write_se(0); // pps_cr_qp_offset
    bw.write_bit(false); // pps_slice_chroma_qp_offsets_present_flag
    bw.write_bit(false); // weighted_pred_flag
    bw.write_bit(false); // weighted_bipred_flag
    bw.write_bit(lossless); // transquant_bypass_enabled_flag
    bw.write_bit(tiled); // tiles_enabled_flag
    bw.write_bit(wpp); // entropy_coding_sync_enabled_flag
    if tiled {
        bw.write_ue(tile_cols as u32 - 1); // num_tile_columns_minus1
        bw.write_ue(tile_rows as u32 - 1); // num_tile_rows_minus1
        bw.write_bit(true); // uniform_spacing_flag
        bw.write_bit(false); // loop_filter_across_tiles_enabled_flag
    }
    bw.write_bit(true); // pps_loop_filter_across_slices_enabled_flag
    bw.write_bit(false); // deblocking_filter_control_present_flag
    bw.write_bit(false); // pps_scaling_list_data_present_flag
    bw.write_bit(false); // lists_modification_present_flag
    bw.write_ue(0); // log2_parallel_merge_level_minus2
    bw.write_bit(false); // slice_segment_header_extension_present_flag
    bw.write_bit(false); // pps_extension_present_flag
    close_unit(bw, 34)
}

} // verus!
