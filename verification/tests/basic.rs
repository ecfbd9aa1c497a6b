use hpvca::bitwriter::BitWriter;
use hpvca::color::{Cicp, ColorMetadata};
use hpvca::error::EncodeError;
use hpvca::fmt::{BitDepth, ChromaFormat, PixelFormat};
use hpvca::nal::{escaped, Nalu, NaluStream};
use hpvca::params::{
    build_pps, build_pps_tiled, build_sps, build_vps, level_idc_for, write_profile_tier_level,
    write_sps_range_extension,
};
use hpvca::scratch::fill_resize;
use hpvca::slice::{assemble_substreams, build_slice, epb_substream_lengths, qp_for_quality};

#[test]
fn bit_writer_basic() {
    let mut bw = BitWriter::new();
    bw.write_bits(0b10110, 5);
    bw.rbsp_trailing_bits();
    assert_eq!(bw.finish()[0], 0b1011_0100);
}

#[test]
fn ue_coding() {
    let mut bw = BitWriter::new();
    bw.write_ue(0);
    bw.rbsp_trailing_bits();
    assert_eq!(bw.finish()[0] >> 7, 1);
}

#[test]
fn golomb_codes_have_their_bits() {
    let mut bw = BitWriter::new();
    bw.write_ue(3);
    bw.write_se(-2);
    bw.write_se(1);
    bw.rbsp_trailing_bits();
    // 00100 00101 010 1 00
    assert_eq!(bw.finish(), vec![0b0010_0001, 0b0101_0100]);
}

#[test]
fn vps_starts_with_nalu_header() {
    let vps = build_vps(256, 256, ChromaFormat::Yuv420, BitDepth::Eight, false);
    assert_eq!(vps.data[0], 0x40, "VPS first byte should be 0x40");
}

#[test]
fn sps_conformance_window() {
    let sps = build_sps(64, 48, ChromaFormat::Yuv420, BitDepth::Eight, false, Some(Cicp::srgb()));
    assert!(sps.data.len() > 10);
}

#[test]
fn pps_builds_cleanly() {
    let pps = build_pps(30, false, false);
    assert_eq!(pps.data[0], 0x44, "PPS first byte should be 0x44");
}

#[test]
fn tiles_and_wavefronts_change_the_picture_parameters() {
    let plain = build_pps(30, false, false);
    assert_ne!(plain.data, build_pps(30, false, true).data);
    assert_ne!(plain.data, build_pps(30, true, false).data);
    assert_eq!(plain.data, build_pps_tiled(30, false, false, 1, 1).data);
    assert_ne!(plain.data, build_pps_tiled(30, false, false, 2, 2).data);
}

#[test]
fn levels_grow_with_the_picture() {
    assert!(level_idc_for(64, 64) <= level_idc_for(1920, 1088));
    assert!(level_idc_for(1920, 1088) < level_idc_for(8192, 4352));
}

#[test]
fn lossless_profile_enables_rext() {
    let mut lossy = BitWriter::new();
    write_profile_tier_level(&mut lossy, 93, ChromaFormat::Yuv420, BitDepth::Eight, false);
    let lossy = lossy.finish();
    assert_eq!(lossy[0] & 0x1f, 3);

    let mut lossless = BitWriter::new();
    write_profile_tier_level(&mut lossless, 93, ChromaFormat::Yuv420, BitDepth::Eight, true);
    let lossless = lossless.finish();
    assert_eq!(lossless[0] & 0x1f, 4);
    assert_eq!(lossless[5] & 0x01, 0);
    assert_eq!(lossless[6] & 0xc0, 0);
    assert_ne!(lossless[6] & 0x20, 0);
}

#[test]
fn lossless_range_extension_sets_only_implicit_rdpcm() {
    let mut enabled = BitWriter::new();
    write_sps_range_extension(&mut enabled, true);
    assert_eq!(enabled.finish().as_slice(), &[0x20, 0x00]);

    let mut disabled = BitWriter::new();
    write_sps_range_extension(&mut disabled, false);
    assert_eq!(disabled.finish().as_slice(), &[0x00, 0x00]);
}

#[test]
fn fill_resize_overwrites_previous_contents() {
    let mut v = vec![9u8; 16];
    fill_resize(&mut v, 8, 3);
    assert_eq!(v, vec![3u8; 8]);
    fill_resize(&mut v, 12, 0);
    assert_eq!(v, vec![0u8; 12]);
}

#[test]
fn nclx_payload_layout() {
    let p = Cicp::bt709().nclx_payload();
    assert_eq!(&p[0..4], b"nclx");
    assert_eq!(u16::from_be_bytes([p[4], p[5]]), 1);
    assert_eq!(u16::from_be_bytes([p[6], p[7]]), 1);
    assert_eq!(u16::from_be_bytes([p[8], p[9]]), 1);
    assert_eq!(p[10] >> 7, 1);
    assert_eq!(p.len(), 11);
}

#[test]
fn pq_encoding_values() {
    let e = Cicp::bt2020_pq();
    assert_eq!(e.primaries.code(), 9);
    assert_eq!(e.transfer.code(), 16);
    assert_eq!(e.matrix.code(), 9);
}

#[test]
fn color_metadata_keeps_what_it_is_given() {
    let both = ColorMetadata::icc(vec![1, 2, 3]).with_cicp(Cicp::bt709());
    assert_eq!(both.color_encoding().primaries.code(), 1);
    assert_eq!(both.icc, Some(vec![1, 2, 3]));
    let profile_only = ColorMetadata::icc(vec![1, 2, 3]);
    assert!(profile_only.cicp.is_none());
}

#[test]
fn formats_have_their_dimensions() {
    assert_eq!(ChromaFormat::Yuv420.idc(), 1);
    assert_eq!((ChromaFormat::Yuv422.sub_w(), ChromaFormat::Yuv422.sub_h()), (2, 1));
    assert_eq!(ChromaFormat::Yuv422.chroma_tbs_per_cu(), 2);
    assert!(ChromaFormat::Monochrome.is_monochrome());
    assert_eq!(BitDepth::Eight.max_val(), 255);
    assert_eq!(BitDepth::Eight.neutral(), 128);
    let p = PixelFormat::new(ChromaFormat::Yuv444);
    assert!(matches!(p.chroma, ChromaFormat::Yuv444));
}

#[test]
fn every_error_has_its_data() {
    let errors = [
        EncodeError::InvalidDimensions { width: 3, height: 4 },
        EncodeError::DctError("a".to_string()),
        EncodeError::BitstreamError("b".to_string()),
        EncodeError::IsobmffError("c".to_string()),
        EncodeError::Io("d".to_string()),
    ];
    assert!(matches!(errors[0], EncodeError::InvalidDimensions { width: 3, height: 4 }));
    assert!(matches!(&errors[2], EncodeError::BitstreamError(s) if s == "b"));
    assert!(matches!(&errors[4], EncodeError::Io(s) if s == "d"));
}

#[test]
fn escaping_breaks_up_start_codes() {
    assert_eq!(escaped(&[0, 0, 0, 0, 0, 1]), vec![0, 0, 3, 0, 0, 3, 0, 1]);
    assert_eq!(escaped(&[0, 0, 4]), vec![0, 0, 4]);
}

#[test]
fn units_are_framed_by_their_lengths() {
    let stream = NaluStream {
        nalus: vec![
            Nalu { nal_type: 32, data: vec![0x40, 1, 9] },
            Nalu { nal_type: 20, data: vec![0x28, 1, 0, 0, 1] },
        ],
    };
    assert_eq!(
        stream.to_length_prefixed_slices(),
        vec![0, 0, 0, 6, 0x28, 1, 0, 0, 3, 1]
    );
}

#[test]
fn substream_lengths_count_escapes() {
    let parts = [vec![5u8, 0], vec![0u8, 1, 7], vec![9u8]];
    assert_eq!(epb_substream_lengths(&parts), vec![2, 4, 1]);
    let mut hdr = BitWriter::new();
    let data = assemble_substreams(&mut hdr, &parts);
    assert_eq!(data, vec![5, 0, 0, 1, 7, 9]);
    // ue(2) entry points, ue(1) for two bits each, 01, 11
    hdr.rbsp_trailing_bits();
    assert_eq!(hdr.finish(), vec![0b0110_1001, 0b1110_0000]);
}

#[test]
fn a_slice_starts_with_its_header() {
    let n = build_slice(ChromaFormat::Yuv420, false, false, &vec![vec![0xaa, 0xbb]]);
    assert_eq!(n.nal_type, 20);
    assert_eq!(n.data[0], 0x28);
    assert_eq!(&n.data[n.data.len() - 2..], &[0xaa, 0xbb]);
}

#[test]
fn quality_maps_to_the_parameter() {
    assert_eq!(qp_for_quality(100), 10);
    assert_eq!(qp_for_quality(1), 51);
    assert_eq!(qp_for_quality(0), 51);
    assert_eq!(qp_for_quality(50), 30);
    assert_eq!(qp_for_quality(200), 10);
}

#[test]
fn sizes_do_not_depend_on_the_cut() {
    let data = [7u8, 0, 0, 2, 0, 0, 0, 0, 1, 9, 0, 0, 3];
    let whole = escaped(&data).len();
    for cut in 0..=data.len() {
        let parts = [data[..cut].to_vec(), data[cut..].to_vec()];
        assert_eq!(epb_substream_lengths(&parts).iter().sum::<usize>(), whole);
    }
    let single: Vec<Vec<u8>> = data.iter().map(|&b| vec![b]).collect();
    assert_eq!(epb_substream_lengths(&single).iter().sum::<usize>(), whole);
    // An escape belongs to the part of the byte behind it.
    assert_eq!(epb_substream_lengths(&[data[..3].to_vec(), data[3..].to_vec()])[0], 3);
}
