use hpvca::commit::{LevelChooser, LevelJob, PlainLevels};
use hpvca::cabac::contexts::ContextSet;
use hpvca::intra::{
    predict_angular, predict_dc, predict_planar, should_filter_refs, DC, PLANAR,
};
use hpvca::planes::{block_sse, extract_block_dyn_into, pad_plane, sse_plane};
use hpvca::refs::{
    compute_residual_i32, filter_references, get_reference_samples, reconstruct, LumaRefGeometry,
};

#[test]
fn angular_mode18_negative_diagonal() {
    let mut above = [0u16; 33];
    let mut left = [0u16; 33];
    for i in 0..8 {
        above[i] = (10 * (i + 1)) as u16;
        left[i] = (50 + 10 * i) as u16;
    }
    let corner = 5;
    let p = predict_angular(corner, &above, &left, 4, 18, false, 255);
    let expect = [5, 10, 20, 30, 50, 5, 10, 20, 60, 50, 5, 10, 70, 60, 50, 5];
    assert_eq!(&p[..16], &expect, "mode-18 negative diagonal");
}

#[test]
fn dc_of_flat_is_flat() {
    let above = [100u16; 33];
    let left = [100u16; 33];
    let p = predict_dc(&above, &left, 8, false);
    assert!(p[..64].iter().all(|&v| v == 100));
}

#[test]
fn dc_value_is_average() {
    let mut above = [0u16; 33];
    let mut left = [0u16; 33];
    for i in 0..8 {
        above[i] = 80;
        left[i] = 120;
    }
    let p = predict_dc(&above, &left, 8, false);
    assert_eq!(p[63], 100);
}

#[test]
fn vertical_mode_copies_above_row() {
    let mut above = [0u16; 33];
    let left = [50u16; 33];
    for i in 0..8 {
        above[i] = (10 * i) as u16;
    }
    let p = predict_angular(50, &above, &left, 8, 26, false, 255);
    for r in 0..8 {
        for c in 0..8 {
            assert_eq!(p[r * 8 + c], above[c], "row {r} col {c}");
        }
    }
}

#[test]
fn horizontal_mode_copies_left_col() {
    let above = [50u16; 33];
    let mut left = [0u16; 33];
    for i in 0..8 {
        left[i] = (10 * i) as u16;
    }
    let p = predict_angular(50, &above, &left, 8, 10, false, 255);
    for r in 0..8 {
        for c in 0..8 {
            assert_eq!(p[r * 8 + c], left[r], "row {r} col {c}");
        }
    }
}

#[test]
fn angular_45_diagonal_shifts() {
    let mut above = [0u16; 33];
    let left = [0u16; 33];
    for i in 0..16 {
        above[i] = (i + 1) as u16;
    }
    let p = predict_angular(0, &above, &left, 8, 34, false, 255);
    for y in 0..8 {
        for x in 0..8 {
            assert_eq!(p[y * 8 + x], above[x + y + 1], "y{y} x{x}");
        }
    }
}

#[test]
fn ref_filter_decision() {
    assert!(!should_filter_refs(DC, 8));
    assert!(!should_filter_refs(0, 4));
    assert!(should_filter_refs(PLANAR, 8));
    assert!(!should_filter_refs(26, 8));
    assert!(!should_filter_refs(10, 16));
    assert!(should_filter_refs(2, 8));
    assert!(should_filter_refs(18, 16));
}

#[test]
fn planar_corners() {
    let mut above = vec![0u16; 9];
    let mut left = vec![0u16; 9];
    above[8] = 255;
    left[8] = 255;
    let pred = predict_planar(&above, &left, 8);
    assert!(pred[7] > 100);
    assert!(pred[8 * 7] > 100);
}

#[test]
fn residual_zero_when_perfect() {
    let pixels = vec![128u16; 64];
    let pred = vec![128u16; 64];
    let res = compute_residual_i32(&pixels, &pred, 8);
    assert!(res.iter().all(|&r| r == 0));
}

#[test]
fn residuals_bring_samples_back() {
    let orig: Vec<u16> = (0..16).map(|i| (i * 13 % 256) as u16).collect();
    let pred = vec![100u16; 16];
    let res = compute_residual_i32(&orig, &pred, 4);
    assert_eq!(reconstruct(&pred, &res, 4, 255), orig);
    let big = vec![1000i32; 16];
    assert_eq!(reconstruct(&pred, &big, 4, 255), vec![255u16; 16]);
}

#[test]
fn missing_references_are_filled_in() {
    let plane = vec![77u16; 64 * 64];
    let g = LumaRefGeometry {
        stride: 64,
        block_row: 0,
        block_col: 0,
        height: 64,
        n: 8,
        ctu: 64,
        ctus_x: 1,
        min_pu: 8,
        neutral: 128,
    };
    let (corner, above, left) = get_reference_samples(&plane, g);
    assert_eq!(corner, 128);
    assert!(above.iter().chain(left.iter()).all(|&v| v == 128));
    let g = LumaRefGeometry { block_row: 8, block_col: 8, ..g };
    let (corner, above, left) = get_reference_samples(&plane, g);
    assert_eq!(corner, 77);
    assert!(above.iter().chain(left.iter()).all(|&v| v == 77));
    let (fa, fl) = filter_references(corner, &above, &left, 8);
    assert!(fa.iter().chain(fl.iter()).all(|&v| v == 77));
}

#[test]
fn planes_are_extended_by_their_last_samples() {
    let src = [1u16, 2, 3, 4];
    assert_eq!(pad_plane(&src, 2, 2, 4, 3), vec![1, 2, 2, 2, 3, 4, 4, 4, 3, 4, 4, 4]);
    let mut out = [0u16; 4];
    extract_block_dyn_into(&src, 2, 2, 1, 1, 2, &mut out);
    assert_eq!(out, [4, 4, 4, 4]);
    assert_eq!(block_sse(&[1, 2, 3, 4], &[1, 0, 3, 7], 2), 13);
    assert_eq!(sse_plane(&[1, 2, 3, 4], &[9, 9, 9, 9, 1, 0, 9, 3, 7], 1, 1, 3, 2, 3), 4 + 9);
}

#[test]
fn plain_levels_quantise_and_hide() {
    let job = LevelJob { n: 4, qp: 22, bit_depth: 8, scan_idx: 0, is_luma: true, depth: 0 };
    let mut coeff = vec![0i32; 16];
    coeff[0] = 640;
    let levels = PlainLevels {}.pick(job, &coeff, &ContextSet::init_islice(22));
    assert_eq!(levels.len(), 16);
    assert!(levels[0] > 0);
    assert!(levels[1..].iter().all(|&v| v == 0));
}

#[test]
fn swapped_edges_transpose_the_block() {
    let n = 8usize;
    let above: Vec<u16> = (0..2 * n).map(|i| (i * 37 % 256) as u16).collect();
    let left: Vec<u16> = (0..2 * n).map(|i| (200 + i * 53) as u16 % 256).collect();
    for mode in 2..=34u8 {
        for edge in [false, true] {
            let a = predict_angular(90, &above, &left, n, mode, edge, 255);
            let b = predict_angular(90, &left, &above, n, 36 - mode, edge, 255);
            for row in 0..n {
                for col in 0..n {
                    assert_eq!(a[row * n + col], b[col * n + row], "mode {mode}");
                }
            }
        }
    }
}
