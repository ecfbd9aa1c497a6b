use hpvca::basis::{DST4, T16, T32, T4, T8};
use hpvca::butterfly::{fwd_transform_1d_32, inv_transform_1d_32};
use hpvca::cost::satd_scalar;
use hpvca::dct::{hevc_inverse_8x8, scaled_quant_matrix, zigzag_scan, LUMA_QUANT_MATRIX};
use hpvca::quant::{dequantize_into, quantize_plain_into};
use hpvca::rdoq::{
    apply_sign_hiding_to_levels, coefficient_error, finish_selected_levels, quantize_impl_into,
    quantize_with_sign_hiding_into, rdoq_max_level,
};
use hpvca::rdpcm::{
    forward_lossless_rdpcm_into, implicit_rdpcm_mode, inverse_lossless_rdpcm_into, ImplicitRdpcm,
};
use hpvca::scan::{coeff_scan, scan_idx_for};
use hpvca::signhide::sign_bit_hiding_hdq;
use hpvca::transform::{fwd_transform_n, inv_transform_n, MAX_TB};
use hpvca::transform2d::{
    fwd_transform_into, fwd_transform_intra_luma_into, fwd_transform_scalar, inv_transform_into,
    inv_transform_intra_luma_into, inv_transform_scalar,
};

fn check_orthogonal<const N: usize>(t: &[[i32; N]; N]) {
    let ideal = (N as i64) * 64 * 64;
    for (i, row) in t.iter().enumerate() {
        let ni: i64 = row.iter().map(|&v| (v as i64) * (v as i64)).sum();
        assert!((ni - ideal).abs() <= ideal / 500, "row {i} norm {ni} too far from {ideal}");
        for j in (i + 1)..N {
            let dot: i64 = (0..N).map(|k| (t[i][k] as i64) * (t[j][k] as i64)).sum();
            assert!(dot.abs() < ideal / 50, "rows {i},{j} insufficiently orthogonal: dot={dot}");
        }
    }
}

#[test]
fn t16_is_orthogonal() {
    check_orthogonal(&T16);
    check_orthogonal(&T8);
    check_orthogonal(&T4);
}

fn fwd_transform(res: &[i32], n: usize, bit_depth: u8) -> [i32; MAX_TB] {
    let mut out = [0i32; MAX_TB];
    let mut tmp = [0i32; MAX_TB];
    fwd_transform_into(res, n, bit_depth, &mut out, &mut tmp);
    out
}

fn inv_transform(coeff: &[i32], n: usize, bit_depth: u8) -> [i32; MAX_TB] {
    let mut out = [0i32; MAX_TB];
    let mut tmp = [0i32; MAX_TB];
    inv_transform_into(coeff, n, bit_depth, &mut out, &mut tmp);
    out
}

fn flat_is_dc_only(n: usize) {
    let res = vec![100i32; n * n];
    let coeff = fwd_transform(&res, n, 8);
    assert_ne!(coeff[0], 0, "N={n}: DC should be non-zero");
    for (i, &v) in coeff[..n * n].iter().enumerate().skip(1) {
        assert_eq!(v, 0, "N={n}: AC coeff {i} should be zero, got {v}");
    }
}

#[test]
fn flat_residual_dc_only() {
    flat_is_dc_only(4);
    flat_is_dc_only(8);
    flat_is_dc_only(16);
    flat_is_dc_only(32);
}

fn basis(n: usize, sine: bool, i: usize, k: usize) -> i64 {
    (match n {
        4 if sine => DST4[i][k],
        4 => T4[i][k],
        8 => T8[i][k],
        16 => T16[i][k],
        _ => T32[i][k],
    }) as i64
}

fn rounded(v: i64, shift: u32) -> i64 {
    if shift == 0 {
        v
    } else {
        (v + (1 << (shift - 1))) >> shift
    }
}

#[test]
fn forward_transform_avx2_matches_scalar() {
    for sine in [false, true] {
        let mut residual = [0i32; MAX_TB];
        for (i, value) in residual.iter_mut().enumerate() {
            *value = ((i * 127 + i / 3 * 29 + 17) as i32 & 8191) - 4095;
        }
        for bit_depth in [8u8, 10, 12] {
            for n in [4usize, 8, 16, 32] {
                let log2 = n.trailing_zeros();
                let mut rows = vec![0i64; n * n];
                for j in 0..n {
                    for i in 0..n {
                        let s: i64 =
                            (0..n).map(|k| basis(n, sine, i, k) * residual[j * n + k] as i64).sum();
                        rows[j * n + i] = rounded(s, log2 + bit_depth as u32 - 9);
                    }
                }
                let mut expected = vec![0i32; n * n];
                for i in 0..n {
                    for j in 0..n {
                        let s: i64 = (0..n).map(|k| basis(n, sine, i, k) * rows[k * n + j]).sum();
                        expected[i * n + j] = rounded(s, log2 + 6) as i32;
                    }
                }
                let mut actual = [0i32; MAX_TB];
                let mut tmp = [0i32; MAX_TB];
                fwd_transform_scalar(&residual, n, bit_depth, &mut actual, &mut tmp, sine);
                assert_eq!(&actual[..n * n], &expected[..], "n={n}, depth={bit_depth}");
            }
        }
    }
}

#[test]
fn inverse_transform_avx2_matches_scalar() {
    for sine in [false, true] {
        let mut coefficient = [0i32; MAX_TB];
        for (i, value) in coefficient.iter_mut().enumerate() {
            *value = ((i * 509 + i / 7 * 131 + 29) as i32 & 65535) - 32768;
        }
        for bit_depth in [8u8, 10, 12] {
            for n in [4usize, 8, 16, 32] {
                let mut cols = vec![0i64; n * n];
                for m in 0..n {
                    for c in 0..n {
                        let s: i64 = (0..n)
                            .map(|k| basis(n, sine, k, m) * coefficient[k * n + c] as i64)
                            .sum();
                        cols[m * n + c] = rounded(s, 7).clamp(-32768, 32767);
                    }
                }
                let mut expected = vec![0i32; n * n];
                for r in 0..n {
                    for m in 0..n {
                        let s: i64 = (0..n).map(|k| basis(n, sine, k, m) * cols[r * n + k]).sum();
                        expected[r * n + m] = rounded(s, 20 - bit_depth as u32) as i32;
                    }
                }
                let mut actual = [0i32; MAX_TB];
                let mut tmp = [0i32; MAX_TB];
                inv_transform_scalar(&coefficient, n, bit_depth, &mut actual, &mut tmp, sine);
                assert_eq!(&actual[..n * n], &expected[..], "n={n}, depth={bit_depth}");
            }
        }
    }
}

fn roundtrip_bounded(n: usize, qp: u8, max_mean_abs: f32) {
    let mut res = vec![0i32; n * n];
    for r in 0..n {
        for col in 0..n {
            res[r * n + col] = 8 * (r as i32 + col as i32) + 20 * (((r + col) % 4) as i32) - 60;
        }
    }
    let coeff = fwd_transform(&res, n, 8);
    let mut level = [0i16; MAX_TB];
    quantize_plain_into(&coeff[..n * n], n, qp, 8, &mut level);
    let mut dq = [0i32; MAX_TB];
    dequantize_into(&level[..n * n], n, qp, 8, &mut dq);
    let rec = inv_transform(&dq[..n * n], n, 8);
    let mean_abs: f32 =
        (0..n * n).map(|i| (res[i] - rec[i]).unsigned_abs() as f32).sum::<f32>() / (n * n) as f32;
    assert!(mean_abs <= max_mean_abs, "N={n} qp={qp}: mean {mean_abs} exceeds {max_mean_abs}");
}

#[test]
fn pipeline_roundtrip_low_qp() {
    for &n in &[4usize, 8, 16, 32] {
        roundtrip_bounded(n, 4, 3.0);
    }
}

#[test]
fn pipeline_roundtrip_scales_with_qp() {
    for &n in &[4usize, 8, 16, 32] {
        roundtrip_bounded(n, 22, 12.0);
    }
}

#[test]
fn zigzag16_is_permutation() {
    let mut seen = [false; 256];
    for &(r, c) in coeff_scan(4, 0).iter() {
        assert!(r < 16 && c < 16);
        let idx = r * 16 + c;
        assert!(!seen[idx], "duplicate scan position ({r},{c})");
        seen[idx] = true;
    }
    assert!(seen.iter().all(|&b| b), "scan does not cover all positions");
}

#[test]
fn scans_depend_on_the_mode() {
    assert_eq!(scan_idx_for(26, 2, true, false), 1);
    assert_eq!(scan_idx_for(10, 2, true, false), 2);
    assert_eq!(scan_idx_for(18, 2, true, false), 0);
    assert_eq!(scan_idx_for(26, 4, true, false), 0);
    assert_eq!(&coeff_scan(2, 0)[..4], &[(0, 0), (1, 0), (0, 1), (2, 0)]);
}

#[test]
fn t32_partial_butterfly_matches_matrix_transform() {
    let mut residual = [0i32; MAX_TB];
    for (i, value) in residual.iter_mut().enumerate() {
        let mixed = (i as i32 * 73 + (i / 32) as i32 * 19) & 511;
        *value = mixed - 256;
    }
    let mut expected = [0i32; MAX_TB];
    let mut tmp = [0i32; MAX_TB];
    fwd_transform_n::<32>(&residual, &T32, 8, &mut expected, &mut tmp);
    let actual = fwd_transform(&residual, 32, 8);
    assert_eq!(actual, expected);
}

#[test]
fn t32_partial_butterfly_matches_sparse_inverse() {
    let mut coeff = [0i32; MAX_TB];
    for i in 0..MAX_TB {
        if i % 7 != 0 {
            coeff[i] = ((i as i32 * 41 + 17) & 1023) - 512;
        }
    }
    let mut expected = [0i32; MAX_TB];
    let mut tmp = [0i32; MAX_TB];
    inv_transform_n::<32>(&coeff, &T32, 10, &mut expected, &mut tmp);
    let actual = inv_transform(&coeff, 32, 10);
    assert_eq!(actual, expected);

    coeff.fill(0);
    for (index, value) in [(0usize, 1200), (32, -900), (97, 700), (511, -300)] {
        coeff[index] = value;
    }
    inv_transform_n::<32>(&coeff, &T32, 8, &mut expected, &mut tmp);
    let actual = inv_transform(&coeff, 32, 8);
    assert_eq!(actual, expected);
}

#[test]
fn butterflies_of_one_value() {
    let mut v = [0i32; 32];
    v[0] = 2;
    let up = fwd_transform_1d_32(&v, 0);
    for (k, row) in T32.iter().enumerate() {
        assert_eq!(up[k], 2 * row[0]);
    }
    let down = inv_transform_1d_32(&v, 0, i32::MIN, i32::MAX);
    assert_eq!(down, vec![128; 32]);
}

#[test]
fn post_rdoq_sign_hiding_matches_direct_quantizer() {
    let scan = coeff_scan(3, 0);
    let mut coeff = [0i32; MAX_TB];
    for (i, &(row, col)) in scan.iter().enumerate().take(32) {
        let magnitude = 80 + (i as i32 * 37) % 900;
        coeff[row * 8 + col] = if i % 3 == 0 { -magnitude } else { magnitude };
    }
    let mut direct = [0i16; MAX_TB];
    quantize_with_sign_hiding_into(&coeff, 8, 22, 8, &scan, &mut direct);
    let mut split = [0i16; MAX_TB];
    quantize_impl_into(&coeff, 8, 22, 8, None, &mut split);
    apply_sign_hiding_to_levels(&mut split, &coeff, 8, 22, 8, &scan);
    assert_eq!(split, direct);
}

#[test]
fn sign_hiding_fixes_group_parity() {
    let scan = coeff_scan(2, 0);
    let mut levels = [0i16; MAX_TB];
    let mut coeff = [0i32; MAX_TB];
    let (r0, c0) = scan[0];
    let (r4, c4) = scan[4];
    let p0 = r0 * 4 + c0;
    let p4 = r4 * 4 + c4;
    levels[p0] = -1;
    levels[p4] = 3;
    coeff[p0] = -100;
    coeff[p4] = 300;
    sign_bit_hiding_hdq(&mut levels, &coeff, 4, &scan, 22, 8, false);
    assert_ne!(levels[p0], 0);
    let parity: u32 =
        scan[..16].iter().map(|&(row, col)| levels[row * 4 + col].unsigned_abs() as u32).sum();
    assert_eq!((parity & 1) as i32, (levels[p0] < 0) as i32);
}

#[test]
fn sign_hiding_uses_each_coefficient_group_independently() {
    let scan = coeff_scan(3, 0);
    let mut levels = [0i16; MAX_TB];
    let mut coeff = [0i32; MAX_TB];
    for group in 0..4 {
        let first = group * 16;
        let last = first + 4;
        let (r0, c0) = scan[first];
        let (r4, c4) = scan[last];
        let p0 = r0 * 8 + c0;
        let p4 = r4 * 8 + c4;
        levels[p0] = -1;
        levels[p4] = 3;
        coeff[p0] = -100;
        coeff[p4] = 300;
    }
    sign_bit_hiding_hdq(&mut levels, &coeff, 8, &scan, 22, 8, false);
    for group in 0..4 {
        let start = group * 16;
        let group_scan = &scan[start..start + 16];
        let first = (0..16)
            .find(|&i| {
                let (r, c) = group_scan[i];
                levels[r * 8 + c] != 0
            })
            .unwrap();
        let last = (0..16)
            .rev()
            .find(|&i| {
                let (r, c) = group_scan[i];
                levels[r * 8 + c] != 0
            })
            .unwrap();
        assert!(last - first >= 4, "group {group}");
        let sum: u32 = (first..=last)
            .map(|i| {
                let (r, c) = group_scan[i];
                levels[r * 8 + c].unsigned_abs() as u32
            })
            .sum();
        let (r, c) = group_scan[first];
        assert_eq!((sum & 1) as i32, (levels[r * 8 + c] < 0) as i32, "group {group}");
    }
}

#[test]
fn intra_luma_4x4_uses_dst_not_dct() {
    let residual = [31, 12, -7, -19, 24, 8, -11, -27, 15, 2, -13, -22, 5, -3, -9, -16];
    let mut dct = [0i32; MAX_TB];
    let mut dst = [0i32; MAX_TB];
    let mut tmp = [0i32; MAX_TB];
    fwd_transform_into(&residual, 4, 8, &mut dct, &mut tmp);
    fwd_transform_intra_luma_into(&residual, 4, 8, &mut dst, &mut tmp);
    assert_ne!(&dct[..16], &dst[..16]);
    let mut reconstructed = [0i32; MAX_TB];
    inv_transform_intra_luma_into(&dst, 4, 8, &mut reconstructed, &mut tmp);
    assert!(reconstructed[..16].iter().zip(residual).all(|(&a, b)| (a - b).abs() <= 1));
}

#[test]
fn quantising_exact_values() {
    let mut level = [0i16; 16];
    let coeff = [640i32, -640, 100, 0, 0, 0, 0, 0, 0, 0, 0, 0, 0, 0, 0, 0];
    quantize_plain_into(&coeff, 4, 22, 8, &mut level);
    // A step of 256 at this parameter and size.
    assert_eq!(&level[..4], &[2, -2, 0, 0]);
    let mut back = [0i32; 16];
    dequantize_into(&level, 4, 22, 8, &mut back);
    assert_eq!(&back[..4], &[512, -512, 0, 0]);
    assert_eq!(rdoq_max_level(640, 4, 22, 8), 3);
    assert_eq!(rdoq_max_level(-100, 4, 22, 8), 0);
    assert_eq!(coefficient_error(640, 0, 4, 22, 8), 640 * 640);
    assert_eq!(coefficient_error(640, 2, 4, 22, 8), 128 * 128);
    assert_eq!(coefficient_error(640, 3, 4, 22, 8), 128 * 128);
}

#[test]
fn implicit_rdpcm_mode_is_inferred_from_final_intra_mode() {
    assert_eq!(implicit_rdpcm_mode(10), ImplicitRdpcm::Horizontal);
    assert_eq!(implicit_rdpcm_mode(26), ImplicitRdpcm::Vertical);
    assert_eq!(implicit_rdpcm_mode(0), ImplicitRdpcm::Off);
    assert_eq!(implicit_rdpcm_mode(34), ImplicitRdpcm::Off);
}

#[test]
fn implicit_rdpcm_roundtrips_all_supported_tb_sizes() {
    for n in [4usize, 8, 16, 32] {
        let mut residual = [0i32; 1024];
        for (index, sample) in residual[..n * n].iter_mut().enumerate() {
            let row = index / n;
            let col = index % n;
            *sample = (((row * 977 + col * 613 + row * col * 29) % 8191) as i32) - 4095;
        }
        for mode in [ImplicitRdpcm::Off, ImplicitRdpcm::Horizontal, ImplicitRdpcm::Vertical] {
            let mut levels = [0i16; 1024];
            let mut decoded = [0i32; 1024];
            forward_lossless_rdpcm_into(&residual, n, mode, &mut levels);
            inverse_lossless_rdpcm_into(&levels, n, mode, &mut decoded);
            assert_eq!(
                &decoded[..n * n],
                &residual[..n * n],
                "roundtrip failed for {n}x{n} {mode:?}"
            );
            assert!(levels[..n * n].iter().all(|&level| (-8190..=8190).contains(&(level as i32))));
        }
    }
}

#[test]
fn implicit_rdpcm_differences_the_expected_axis() {
    let residual = [1, 3, 6, 10, 2, 5, 9, 14, 4, 8, 13, 19, 7, 12, 18, 25];
    let mut levels = [0i16; 1024];
    forward_lossless_rdpcm_into(&residual, 4, ImplicitRdpcm::Horizontal, &mut levels);
    assert_eq!(&levels[..16], &[1, 2, 3, 4, 2, 3, 4, 5, 4, 4, 5, 6, 7, 5, 6, 7]);
    forward_lossless_rdpcm_into(&residual, 4, ImplicitRdpcm::Vertical, &mut levels);
    assert_eq!(&levels[..16], &[1, 3, 6, 10, 1, 2, 3, 4, 2, 3, 4, 5, 3, 4, 5, 6]);
}

#[test]
fn satd_known_4x4_dc_difference() {
    let orig = [12u16; 16];
    let pred = [4u16; 16];
    assert_eq!(satd_scalar(&orig, &pred, 4), 64);
}

fn hadamard_cost(orig: &[u16], pred: &[u16], n: usize) -> u32 {
    let side = 4;
    let mut total = 0u32;
    for by in (0..n).step_by(side) {
        for bx in (0..n).step_by(side) {
            let mut sum = 0i64;
            for u in 0..side {
                for v in 0..side {
                    let mut s = 0i64;
                    for y in 0..side {
                        for x in 0..side {
                            let at = (by + y) * n + bx + x;
                            let d = orig[at] as i64 - pred[at] as i64;
                            let sign = ((u & y).count_ones() + (v & x).count_ones()) % 2;
                            s += if sign == 0 { d } else { -d };
                        }
                    }
                    sum += s.abs();
                }
            }
            total += ((sum + 1) / 2) as u32;
        }
    }
    total
}

#[test]
fn resolved_satd_matches_scalar() {
    let mut orig = [0u16; 1024];
    let mut pred = [0u16; 1024];
    for i in 0..orig.len() {
        orig[i] = ((i * 67 + i / 7 * 131) & 4095) as u16;
        pred[i] = ((i * 29 + i / 3 * 47 + 11) & 4095) as u16;
    }
    for n in [4usize, 8, 16, 32] {
        let a = satd_scalar(&orig[..n * n], &pred[..n * n], n);
        let b = hadamard_cost(&orig[..n * n], &pred[..n * n], n);
        assert_eq!(a, b, "n={n}");
    }
}

#[test]
fn quality_scales_the_matrix() {
    let half = scaled_quant_matrix(&LUMA_QUANT_MATRIX, 50);
    assert_eq!(half, LUMA_QUANT_MATRIX);
    let best = scaled_quant_matrix(&LUMA_QUANT_MATRIX, 100);
    assert!(best.iter().flatten().all(|&v| v == 1));
    let mut block = [[0i16; 8]; 8];
    block[0][1] = 7;
    block[1][0] = 9;
    let z = zigzag_scan(&block);
    assert_eq!(&z[..4], &[0, 9, 7, 0]);
    let out = hevc_inverse_8x8(&[[0i16; 8]; 8], 30);
    assert!(out.iter().flatten().all(|&v| v == 0));
}

#[test]
fn costs_are_symmetric_and_tell_blocks_apart() {
    let a: Vec<u16> = (0..70).map(|i| (i * 37 % 251) as u16).collect();
    let mut b = a.clone();
    assert_eq!(satd_scalar(&a, &b, 8), 0);
    // Past the block.
    b[64] += 9;
    assert_eq!(satd_scalar(&a, &b, 8), 0);
    for at in [0usize, 7, 31, 63] {
        let mut c = a.clone();
        c[at] += 1;
        assert!(satd_scalar(&a, &c, 8) > 0);
        assert_eq!(satd_scalar(&a, &c, 8), satd_scalar(&c, &a, 8));
    }
    assert_eq!(satd_scalar(&a, &a[1..], 4), satd_scalar(&a[1..], &a, 4));
}

#[test]
fn completed_levels_carry_their_signs() {
    let scan = coeff_scan(3, 0);
    let mut coeff = [0i32; MAX_TB];
    let mut levels = [0i16; MAX_TB];
    for (i, &(row, col)) in scan.iter().enumerate() {
        let magnitude = 60 + (i as i32 * 53) % 700;
        coeff[row * 8 + col] = if i % 5 < 2 { -magnitude } else { magnitude };
        levels[row * 8 + col] = (magnitude / 100) as i16;
    }
    let last = 40;
    finish_selected_levels(&mut levels, &coeff, 8, 27, 8, &scan, last);
    let at = |k: usize| scan[k].0 * 8 + scan[k].1;
    for group in 0..4 {
        let set: Vec<usize> = (16 * group..16 * group + 16).filter(|&k| levels[at(k)] != 0).collect();
        for &k in &set {
            assert_eq!(levels[at(k)] < 0, coeff[at(k)] < 0);
        }
        if set.len() > 1 && set[set.len() - 1] - set[0] > 3 {
            let sum: i32 = set.iter().map(|&k| i32::from(levels[at(k)]).abs()).sum();
            assert_eq!(sum % 2 == 1, levels[at(set[0])] < 0, "group {group}");
        }
    }
    // Nothing from the end on, but for what hiding a sign may have added there.
    assert!((48..64).all(|k| levels[at(k)] == 0));
}

#[test]
fn quality_refines_the_steps() {
    let at = |q: u8| scaled_quant_matrix(&LUMA_QUANT_MATRIX, q);
    assert_eq!(at(0), at(1));
    assert_eq!(at(100), [[1; 8]; 8]);
    assert_eq!(at(255), [[1; 8]; 8]);
    assert_eq!(at(50), LUMA_QUANT_MATRIX);
    for q in 0..100u8 {
        let (a, b) = (at(q), at(q + 1));
        for r in 0..8 {
            for c in 0..8 {
                assert!(1 <= b[r][c] && b[r][c] <= a[r][c] && a[r][c] <= 255);
            }
        }
    }
}
