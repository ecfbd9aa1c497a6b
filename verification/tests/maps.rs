use hpvca::candidates::{
    full_rdo_candidate_count, full_rdo_chroma_count, update_intra_candidate, IntraModeCandidate,
};
use hpvca::cumaps::{
    fill_cu_depth, fill_cu_qp, mark_deblock_edges, split_cu_context, split_transform_context,
    TuLayout,
};
use hpvca::deblock::{deblock, deblock_with_qp_map};
use hpvca::edgefilter::chroma_qp;
use hpvca::fmt::{BitDepth, ChromaFormat};
use hpvca::frame::chroma_qp_for;
use hpvca::modes::{
    chroma_mode_candidates, estimated_chroma_mode_bins, estimated_luma_mode_bins, is_block_decoded,
    mpm_list, ChromaModeCandidate, CHROMA_DM_SYNTAX_IDX, MODE_422_MAP,
};
use hpvca::tiles::{ceil_sqrt, choose_tile_grid, tile_rects};
use hpvca::tusyntax::split_chroma_is_shared;

#[test]
fn luma_filters_only_marked_segments() {
    let w = 16;
    let h = 8;
    let mut y = vec![0u16; w * h];
    for row in y.chunks_exact_mut(w) {
        row[..8].fill(96);
        row[8..].fill(104);
    }
    let before = y.clone();
    let mut edge_v = vec![false; (w / 4) * (h / 4)];
    let edge_h = edge_v.clone();
    edge_v[2] = true;
    deblock(
        &mut y,
        w,
        h,
        &mut [],
        &mut [],
        0,
        0,
        40,
        BitDepth::Eight,
        ChromaFormat::Monochrome,
        &edge_v,
        &edge_h,
    );
    assert_ne!(&y[..4 * w], &before[..4 * w]);
    assert_eq!(&y[4 * w..], &before[4 * w..]);
}

#[test]
fn a_map_of_one_parameter_filters_alike() {
    let (w, h) = (16usize, 16usize);
    let mut a: Vec<u16> = (0..w * h).map(|i| (100 + (i % w) / 8 * 6 + (i / w) / 8 * 5) as u16).collect();
    let mut b = a.clone();
    let before = a.clone();
    let edges = vec![true; (w / 4) * (h / 4)];
    let map = vec![37u8; (w / 4) * (h / 4)];
    deblock(
        &mut a,
        w,
        h,
        &mut [],
        &mut [],
        0,
        0,
        37,
        BitDepth::Eight,
        ChromaFormat::Monochrome,
        &edges,
        &edges,
    );
    deblock_with_qp_map(
        &mut b,
        w,
        h,
        &mut [],
        &mut [],
        0,
        0,
        37,
        BitDepth::Eight,
        ChromaFormat::Monochrome,
        &edges,
        &edges,
        &map,
        w / 4,
    );
    assert_eq!(a, b);
    assert_ne!(a, before);
}

#[test]
fn chroma_qp_mapping_matches_format_rules() {
    assert_eq!(chroma_qp(35, ChromaFormat::Yuv420), 33);
    assert_eq!(chroma_qp(35, ChromaFormat::Yuv422), 35);
    assert_eq!(chroma_qp(35, ChromaFormat::Yuv444), 35);
}

#[test]
fn chroma_blocks_have_their_parameters() {
    assert_eq!(chroma_qp_for(29, ChromaFormat::Yuv420), 29);
    assert_eq!(chroma_qp_for(43, ChromaFormat::Yuv420), 37);
    assert_eq!(chroma_qp_for(51, ChromaFormat::Yuv420), 45);
    assert_eq!(chroma_qp_for(43, ChromaFormat::Yuv444), 43);
}

#[test]
fn cu_depth_map_drives_split_context() {
    let stride = 8;
    let mut depths = vec![0u8; 64];
    fill_cu_depth(&mut depths, 0, 0, 32, 1, stride);
    assert!(depths[..4].iter().all(|&depth| depth == 1));
    fill_cu_depth(&mut depths, 0, 0, 16, 2, stride);
    assert_eq!(split_cu_context(&depths, 0, 16, 1, stride), 1);
    assert_eq!(split_cu_context(&depths, 16, 0, 1, stride), 1);
}

#[test]
fn parameters_are_recorded_where_there_is_a_map() {
    let mut none: Vec<u8> = Vec::new();
    fill_cu_qp(&mut none, 4, 0, 0, 8, 9);
    assert!(none.is_empty());
    let mut map = vec![30u8; 16];
    fill_cu_qp(&mut map, 4, 8, 0, 8, 33);
    assert_eq!(map, vec![30, 30, 30, 30, 30, 30, 30, 30, 33, 33, 30, 30, 33, 33, 30, 30]);
}

#[test]
fn deblock_map_contains_cu_and_selected_tu_edges() {
    let stride = 16;
    let mut v = vec![false; stride * stride];
    let mut h = v.clone();
    mark_deblock_edges(&mut v, &mut h, stride, 8, 8, 16, TuLayout::Split, &[false; 85]);
    assert!(v[(8 / 4) * stride + 8 / 4]);
    assert!(h[(8 / 4) * stride + 8 / 4]);
    assert!(v[(8 / 4) * stride + 16 / 4]);
    assert!(h[(16 / 4) * stride + 8 / 4]);
    assert!(!v[(8 / 4) * stride + 12 / 4]);
}

#[test]
fn luma_mode_bin_estimate_matches_mpm_binarization() {
    let mpm = [0, 1, 26];
    assert_eq!(estimated_luma_mode_bins(0, &mpm), 2);
    assert_eq!(estimated_luma_mode_bins(1, &mpm), 3);
    assert_eq!(estimated_luma_mode_bins(26, &mpm), 3);
    assert_eq!(estimated_luma_mode_bins(17, &mpm), 6);
}

#[test]
fn probable_modes_follow_the_neighbours() {
    assert_eq!(mpm_list(1, 1), [0, 1, 26]);
    assert_eq!(mpm_list(10, 10), [10, 9, 11]);
    assert_eq!(mpm_list(10, 26), [10, 26, 0]);
    assert_eq!(mpm_list(0, 26), [0, 26, 1]);
    assert_eq!(mpm_list(0, 1), [0, 1, 26]);
}

#[test]
fn coding_order_is_nested() {
    assert!(is_block_decoded(0, 7, 0, 8, 64, 128));
    assert!(!is_block_decoded(8, 7, 0, 8, 64, 128));
    assert!(is_block_decoded(63, 63, 0, 64, 64, 128));
    assert!(!is_block_decoded(0, 128, 64, 0, 64, 128));
}

#[test]
fn chroma_candidates_replace_the_dm_duplicate() {
    let modes = chroma_mode_candidates(26, ChromaFormat::Yuv444);
    assert_eq!(modes.map(|candidate| candidate.pred_mode), [0, 34, 10, 1, 26]);
    assert_eq!(modes.map(|candidate| candidate.syntax_idx), [0, 1, 2, 3, 4]);

    let mapped = chroma_mode_candidates(26, ChromaFormat::Yuv422);
    assert_eq!(mapped[1].pred_mode, MODE_422_MAP[34]);
    assert_eq!(mapped[4].pred_mode, MODE_422_MAP[26]);
    for i in 0..mapped.len() {
        for j in i + 1..mapped.len() {
            assert_ne!(mapped[i].pred_mode, mapped[j].pred_mode);
        }
    }
}

#[test]
fn chroma_mode_bin_estimate_matches_binarization() {
    assert_eq!(estimated_chroma_mode_bins(CHROMA_DM_SYNTAX_IDX), 1);
    for syntax_idx in 0..CHROMA_DM_SYNTAX_IDX {
        assert_eq!(estimated_chroma_mode_bins(syntax_idx), 3);
    }
}

#[test]
fn intra_candidate_list_keeps_best_costs_sorted() {
    let mut candidates = vec![
        IntraModeCandidate { mode: u8::MAX, cost: u64::MAX },
        IntraModeCandidate { mode: u8::MAX, cost: u64::MAX },
        IntraModeCandidate { mode: u8::MAX, cost: u64::MAX },
    ];
    update_intra_candidate(&mut candidates, 10, 10);
    update_intra_candidate(&mut candidates, 20, 4);
    update_intra_candidate(&mut candidates, 30, 7);
    update_intra_candidate(&mut candidates, 40, 12);
    update_intra_candidate(&mut candidates, 50, 5);
    let modes: Vec<u8> = candidates.iter().map(|c| c.mode).collect();
    assert_eq!(modes, [20, 50, 30]);
    assert!(candidates.windows(2).all(|pair| pair[0].cost <= pair[1].cost));
}

fn list(costs: &[u64]) -> Vec<IntraModeCandidate> {
    costs.iter().enumerate().map(|(i, &cost)| IntraModeCandidate { mode: i as u8, cost }).collect()
}

#[test]
fn full_rdo_candidate_budget_is_bounded() {
    let close = list(&[100, 105, 115, 150]);
    assert_eq!(full_rdo_candidate_count(&close, 8, 120), 3);
    assert_eq!(full_rdo_candidate_count(&close, 16, 120), 2);
    let separated = list(&[100, 130, 140]);
    assert_eq!(full_rdo_candidate_count(&separated, 8, 120), 2);
}

#[test]
fn chroma_full_rdo_is_only_expanded_for_close_proxy_modes() {
    let make = |first: u64, second: u64| {
        let mut candidates = vec![
            ChromaModeCandidate { pred_mode: 0, syntax_idx: 0, cost: u64::MAX };
            5
        ];
        candidates[0].cost = first;
        candidates[1].cost = second;
        candidates
    };
    assert_eq!(full_rdo_chroma_count(&make(100, 102), ChromaFormat::Yuv420, 103), 2);
    assert_eq!(full_rdo_chroma_count(&make(100, 104), ChromaFormat::Yuv420, 103), 1);
    assert_eq!(full_rdo_chroma_count(&make(100, 107), ChromaFormat::Yuv444, 108), 2);
    assert_eq!(full_rdo_chroma_count(&make(100, 109), ChromaFormat::Yuv444, 108), 1);
}

#[test]
fn split_transform_context_matches_hevc_size_context() {
    assert_eq!(split_transform_context(32), 0);
    assert_eq!(split_transform_context(16), 1);
    assert_eq!(split_transform_context(8), 2);
}

#[test]
fn split_chroma_sharing_stops_below_minimum_tb() {
    assert!(split_chroma_is_shared(8, ChromaFormat::Yuv420));
    assert!(split_chroma_is_shared(8, ChromaFormat::Yuv422));
    assert!(!split_chroma_is_shared(8, ChromaFormat::Yuv444));
    assert!(!split_chroma_is_shared(16, ChromaFormat::Yuv420));
}

#[test]
fn grids_share_out_the_picture() {
    assert_eq!(ceil_sqrt(1), 1);
    assert_eq!(ceil_sqrt(10), 4);
    assert_eq!(choose_tile_grid(30, 17, 1), (1, 1));
    let (cols, rows) = choose_tile_grid(30, 17, 4);
    assert_eq!(cols * rows, 4);
    assert_eq!(choose_tile_grid(3, 3, 4), (1, 1));
    let rects = tile_rects(10, 5, 3, 1);
    assert_eq!(rects.len(), 3);
    assert_eq!((rects[0].x0, rects[0].w), (0, 192));
    assert_eq!((rects[1].x0, rects[1].w), (192, 192));
    assert_eq!((rects[2].x0, rects[2].w), (384, 256));
    assert!(rects.iter().all(|r| r.y0 == 0 && r.h == 320));
}

#[test]
fn a_map_of_one_parameter_filters_chroma_alike() {
    let (w, h) = (32usize, 32usize);
    let plane = |k: usize| -> Vec<u16> {
        (0..w * h).map(|i| (90 + (i % w) / 8 * k + (i / w) / 8 * 4) as u16).collect()
    };
    let (mut y, mut cb, mut cr) = (plane(3), plane(5), plane(7));
    let (mut y2, mut cb2, mut cr2) = (y.clone(), cb.clone(), cr.clone());
    let before = cb.clone();
    let edges = vec![true; (w / 4) * (h / 4)];
    let map = vec![33u8; (w / 4) * (h / 4)];
    let depth = BitDepth::Eight;
    let chroma = ChromaFormat::Yuv444;
    deblock(&mut y, w, h, &mut cb, &mut cr, w, h, 33, depth, chroma, &edges, &edges);
    deblock_with_qp_map(
        &mut y2, w, h, &mut cb2, &mut cr2, w, h, 33, depth, chroma, &edges, &edges, &map, w / 4,
    );
    assert_eq!((&y, &cb, &cr), (&y2, &cb2, &cr2));
    assert_ne!(cb, before);
}

#[test]
fn the_best_grid_is_full_and_square() {
    for (x, y) in [(30usize, 17usize), (8, 64), (100, 100), (5, 3)] {
        let (most_x, most_y) = ((x / 4).max(1), (y / 4).max(1));
        for par in [2usize, 3, 7, 16, 1000, 1 << 40] {
            let (cols, rows) = choose_tile_grid(x, y, par);
            assert!(cols <= most_x && rows <= most_y && cols * rows <= par);
            let far = |c: usize, r: usize| (x / c).abs_diff(y / r);
            for c in 1..=most_x {
                for r in 1..=most_y {
                    if c * r <= par {
                        assert!(c * r <= cols * rows);
                        assert!(c * r < cols * rows || far(cols, rows) <= far(c, r));
                    }
                }
            }
        }
    }
    assert_eq!(ceil_sqrt(1 << 40), 1 << 20);
    assert_eq!(ceil_sqrt((1 << 40) + 1), (1 << 20) + 1);
}
