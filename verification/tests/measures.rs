use hpvca::activity::{level_offsets, octile_ranks, samples_of};
use hpvca::cabac::engine::{CabacContextUpdater, CabacEncoder, CabacWriter, CtxModel};
use hpvca::cabac::levelstate::GroupState;
use hpvca::cabac::levelrate::last_sig_bits;
use hpvca::cabac::rate::CabacEstimator;
use hpvca::cabac::single::{add_single, MOST, ONE};
use hpvca::cabac::contexts::{ContextSet, IntraModeContexts};
use hpvca::fmt::{BitDepth, ChromaFormat};
use hpvca::frame::Picture;
use hpvca::losstree::choose_lossless_luma_tree;
use hpvca::nxn::{choose_nxn_proxy, measure};
use hpvca::planes::Yuv;
use hpvca::region::frame_for;
use hpvca::split::{cu_region_sse, split_stats};

#[test]
fn fractional_estimator_matches_context_transitions() {
    let bins = [0u8, 0, 1, 0, 1, 1, 0, 0, 1];
    let mut real_ctx = CtxModel::fixed(20, 0);
    let mut estimated_ctx = real_ctx;
    let mut enc = CabacEncoder::new();
    let mut est = CabacEstimator::new();
    for bin in bins {
        enc.encode_bin(bin, &mut real_ctx);
        est.encode_bin(bin, &mut estimated_ctx);
    }
    assert_eq!(real_ctx.p_state_idx, estimated_ctx.p_state_idx);
    assert_eq!(real_ctx.val_mps, estimated_ctx.val_mps);
    assert!(est.bits() > 0);
}

#[test]
fn context_only_updater_matches_fractional_estimator_state() {
    let bins = [1u8, 0, 1, 1, 0, 0, 1, 0, 1, 1, 1];
    let mut estimated_ctx = CtxModel::fixed(13, 1);
    let mut updated_ctx = estimated_ctx;
    let mut est = CabacEstimator::new();
    let mut updater = CabacContextUpdater::new();
    for bin in bins {
        est.encode_bin(bin, &mut estimated_ctx);
        updater.encode_bin(bin, &mut updated_ctx);
    }
    assert_eq!(estimated_ctx.p_state_idx, updated_ctx.p_state_idx);
    assert_eq!(estimated_ctx.val_mps, updated_ctx.val_mps);
}

/// Bits from steps of two to the power of -30; nothing is lost.
fn single(steps: u64) -> f32 {
    let bits = steps as f32 / (1u64 << 30) as f32;
    assert_eq!((f64::from(bits) * (1u64 << 30) as f64) as u64, steps);
    bits
}

#[test]
fn rates_add_up() {
    let mut ctx = CtxModel::fixed(0, 0);
    let mut est = CabacEstimator::new();
    est.encode_bin(0, &mut ctx);
    assert_eq!(single(est.bits()), 0.962303);
    est.encode_bin(1, &mut ctx);
    assert_eq!(single(est.bits()), 0.962303 + 1.098613);
    est.encode_bypass(1);
    assert_eq!(single(est.bits()), 0.962303 + 1.098613 + 1.0);
    assert_eq!(single(CtxModel::fixed(63, 1).estimated_bits(1)), 0.007823);
    assert_eq!(single(CtxModel::fixed(63, 1).estimated_bits(0)), 7.530762);
    assert_eq!(single(CtxModel::fixed(39, 0).estimated_bits(1)), 3.937_03);
}

#[test]
fn long_sums_are_rounded_as_single_precision_rounds_them() {
    let mut est = CabacEstimator::new();
    let mut sum = 0f32;
    let mut seed = 1u32;
    let mut exact = 0u64;
    for i in 0..200_000u32 {
        seed = seed.wrapping_mul(1_664_525).wrapping_add(1_013_904_223);
        if i % 5 == 4 {
            est.encode_bypass(0);
            sum += 1.0;
            exact += 1 << 30;
        } else {
            let mut ctx = CtxModel::fixed((seed >> 26) as u8, 1);
            let bin = (seed >> 20 & 1) as u8;
            let bits = ctx.estimated_bits(bin);
            est.encode_bin(bin, &mut ctx);
            sum += single(bits);
            exact += bits;
        }
        assert_eq!(single(est.bits()), sum, "after {i}");
    }
    assert_ne!(est.bits(), exact);
}

#[test]
fn sums_take_the_even_neighbour() {
    let top = 1u64 << 24;
    assert_eq!(add_single(top, 1), top);
    assert_eq!(add_single(top + 2, 1), top + 4);
    assert_eq!(add_single(2 * top - 1, 1), 2 * top);
    assert_eq!(add_single(2 * top, 3), 2 * top + 4);
    assert_eq!(add_single(2 * top, 2), 2 * top);
    assert_eq!(add_single(5, 7), 12);
    assert_eq!(add_single(MOST, 8 * ONE), MOST);
}

#[test]
fn the_less_probable_value_costs_more() {
    for state in 0..64 {
        let m = CtxModel::fixed(state, 1);
        assert!(m.estimated_bits(1) < m.estimated_bits(0));
    }
}

#[test]
fn nxn_proxy_rejects_flat_and_accepts_piecewise_residual() {
    let flat = [96u16; 64];
    // The floors that a multiplier of four gives.
    let (satd_floor, gain_floor) = (64, 36);
    assert!(!choose_nxn_proxy(&flat, &flat, satd_floor, gain_floor, 8));

    let mut piecewise = [0u16; 64];
    for row in 0..8 {
        for col in 0..8 {
            piecewise[row * 8 + col] = match (row >= 4, col >= 4) {
                (false, false) => 48,
                (false, true) => 112,
                (true, false) => 176,
                (true, true) => 240,
            };
        }
    }
    let parent = [128u16; 64];
    assert!(choose_nxn_proxy(&piecewise, &parent, satd_floor, gain_floor, 8));
    // A floor that the block does not reach.
    assert!(!choose_nxn_proxy(&piecewise, &parent, 1 << 40, gain_floor, 8));
    assert!(!choose_nxn_proxy(&piecewise, &parent, satd_floor, 1 << 40, 8));
}

#[test]
fn quarters_are_measured_on_their_own() {
    let mut orig = [100u16; 64];
    orig[3 * 8 + 3] = 132;
    let q = measure(&orig, &[100; 64], 0);
    assert_eq!((q.total, q.mean, q.centred), (32, 2, 60));
    assert_eq!((q.across, q.down), (32, 32));
    let q = measure(&orig, &[101; 64], 3);
    assert_eq!((q.total, q.mean, q.centred, q.across, q.down), (16, -1, 0, 0, 0));
}

#[test]
fn cells_are_summed() {
    let src: Vec<u16> = (0..20 * 12).map(|i| (i % 256) as u16).collect();
    let b = samples_of(&src, 20, 12, 0, 0, 12, 20, 0);
    let cells = b.measure_cells();
    assert_eq!(cells.len(), 6);
    assert_eq!(cells.iter().map(|c| c.count).sum::<u64>(), 240);
    assert_eq!(cells.iter().map(|c| c.sum).sum::<u64>(), (0..240).sum::<u64>());
    assert_eq!(cells[5].count, 16);
    let c = b.measure_cell(0, 0, 1, 4);
    assert_eq!((c.sum, c.squares, c.count), (6, 14, 4));
    // Two bits less, past the edge.
    let b = samples_of(&src, 20, 12, 11, 19, 2, 2, 2);
    assert_eq!(b.get(1, 1), 239 / 4);
}

#[test]
fn bends_vanish_on_a_ramp() {
    let ramp: Vec<u16> = (0..64).map(|i| (3 * (i % 8) + 5 * (i / 8)) as u16).collect();
    let b = samples_of(&ramp, 8, 8, 0, 0, 8, 8, 0);
    assert_eq!(b.laplacian_energy(), (0, 36));
    let mut spike = vec![10u16; 9];
    spike[4] = 20;
    let b = samples_of(&spike, 3, 3, 0, 0, 3, 3, 0);
    assert_eq!(b.laplacian_energy(), (40, 1));
    let c = b.coarse();
    assert_eq!((c.rows, c.cols), (2, 2));
    assert_eq!((c.get(0, 0), c.get(1, 1)), (50, 40));
    assert_eq!(c.laplacian_energy(), (0, 0));
}

#[test]
fn octiles_are_ranks() {
    assert_eq!(octile_ranks(64, 6), (39, 47, 55));
    assert_eq!(octile_ranks(64, 8), (55, 63, 63));
    assert_eq!(octile_ranks(1, 0), (0, 0, 0));
}

#[test]
fn a_common_offset_is_taken_off() {
    let mut offsets = vec![2i8; 7];
    level_offsets(&mut offsets);
    assert_eq!(offsets, vec![0i8; 7]);
    let mut offsets = vec![-3i8, -3, 3, -1];
    level_offsets(&mut offsets);
    assert_eq!(offsets, vec![-2i8, -2, 3, 0]);
    let mut none: Vec<i8> = Vec::new();
    level_offsets(&mut none);
    assert!(none.is_empty());
}

#[test]
fn an_edge_through_the_middle_shows() {
    let src: Vec<u16> = (0..256).map(|i| if i % 16 < 8 { 10 } else { 30 }).collect();
    let s = split_stats(&samples_of(&src, 16, 16, 0, 0, 16, 16, 0));
    assert_eq!((s.lowest, s.highest), (10, 30));
    assert_eq!((s.steps, s.slope_x, s.slope_y), (320, 320, 0));
    assert_eq!(s.midline, 16 * 400);
    assert_eq!((s.quarters[0].sum, s.quarters[1].sum), (640, 1920));
}

#[test]
fn an_exact_unit_has_lost_nothing() {
    let yuv = Yuv {
        y: (0..64 * 64).map(|i| (i % 251) as u16).collect(),
        cb: vec![7; 32 * 32],
        cr: vec![9; 32 * 32],
        width: 64,
        height: 64,
        display_w: 64,
        display_h: 64,
        chroma: ChromaFormat::Yuv420,
        bit_depth: BitDepth::Eight,
    };
    let f = frame_for(&yuv, 64, 64);
    let mut pic = Picture { y: yuv.y.clone(), cb: yuv.cb.clone(), cr: yuv.cr.clone() };
    assert_eq!(cu_region_sse(&f, &yuv, &pic, 0, 0, 64), 0);
    pic.y[10 * 64 + 9] += 3;
    pic.cb[5 * 32 + 4] += 2;
    assert_eq!(cu_region_sse(&f, &yuv, &pic, 8, 8, 8), 9 + 4);
    assert_eq!(cu_region_sse(&f, &yuv, &pic, 16, 8, 8), 0);
}

#[test]
fn a_square_is_cut_where_that_takes_fewer_bits() {
    let pick = |y: Vec<u16>| -> [bool; 85] {
        let yuv = Yuv {
            y: y.clone(),
            cb: Vec::new(),
            cr: Vec::new(),
            width: 64,
            height: 64,
            display_w: 64,
            display_h: 64,
            chroma: ChromaFormat::Monochrome,
            bit_depth: BitDepth::Eight,
        };
        let f = frame_for(&yuv, 64, 64);
        let pic = Picture { y, cb: Vec::new(), cr: Vec::new() };
        let (ctx, ictx) = (ContextSet::init_islice(30), IntraModeContexts::init_islice(30));
        choose_lossless_luma_tree(&f, &yuv, &pic, 0, 0, 32, 1, 30, &ctx, &ictx).0
    };
    // Nothing is gained where the prediction is exact.
    assert!(pick(vec![128; 4096]).iter().all(|&cut| !cut));
    // What is coded of the first corner predicts the rest.
    let cut = pick(vec![200; 4096]);
    assert!(cut[0] && cut[1] && cut[5]);
    assert_eq!(cut.iter().filter(|&&c| c).count(), 3);
}

#[test]
fn levels_weigh_what_they_take() {
    let ctx = ContextSet::init_islice(30);
    let (one, two) = (&ctx.coeff_abs_level_greater1, &ctx.coeff_abs_level_greater2);
    let mut s = GroupState::start(true, true, 1);
    assert_eq!((s.ctx_set, s.c1, s.rice), (0, 1, 0));
    assert_eq!(
        single(s.level_bits(3, true, &ctx)),
        1.0 + 1.0 + single(one[1].estimated_bits(1)) + single(two[0].estimated_bits(1))
    );
    s.advance(3);
    assert_eq!((s.c1, s.c1_idx, s.c2_idx, s.rice), (0, 1, 1, 0));
    assert_eq!(single(s.level_bits(1, true, &ctx)), 1.0 + single(one[0].estimated_bits(0)));
    s.advance(1);
    assert_eq!(single(s.level_bits(2, true, &ctx)), 1.0 + 1.0 + single(one[0].estimated_bits(1)));
    s.advance(7);
    assert_eq!((s.c1, s.c1_idx, s.c2_idx, s.rice), (0, 3, 2, 1));
    // The first sub-block has contexts of its own, and so has one after a large level.
    assert_eq!(GroupState::start(false, true, 0).ctx_set, 3);
    assert_eq!(GroupState::start(false, true, 2).ctx_set, 2);
    assert_eq!(GroupState::start(false, false, 0).ctx_set, 1);
    // A ninth level has no flags.
    let mut s = GroupState::start(true, false, 1);
    for _ in 0..8 {
        s.advance(1);
    }
    assert_eq!(s.c1, 3);
    assert_eq!(single(s.level_bits(1, false, &ctx)), 2.0);
}

#[test]
fn the_last_place_takes_its_bits() {
    let ctx = ContextSet::init_islice(30);
    let m = &ctx.last_sig_coeff_x_prefix;
    let zero = single(m[0].estimated_bits(0));
    assert_eq!(single(last_sig_bits(&ctx, 0, 0, 2, 0, true)), zero + zero);
    // Column 6 of a block of side eight: five ones of five, two to a context from the
    // fourth on, and one bit of suffix.
    let mut x = 0f32;
    for i in 0..5 {
        x += single(m[3 + i / 2].estimated_bits(1));
    }
    x += 1.0;
    let y = single(m[3].estimated_bits(0));
    assert_eq!(single(last_sig_bits(&ctx, 6, 0, 3, 0, true)), x + y);
    assert_eq!(single(last_sig_bits(&ctx, 0, 6, 3, 2, true)), x + y);
}
