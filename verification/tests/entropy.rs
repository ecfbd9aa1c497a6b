use hpvca::cabac::coder::Coder;
use hpvca::cabac::contexts::{ContextSet, IntraModeContexts};
use hpvca::cabac::engine::{CabacContextUpdater, CabacEncoder, CabacWriter, CtxModel};
use hpvca::cabac::recorder::CabacRecorder;
use hpvca::cabac::residual::{encode_residual, encode_residual_scan};
use hpvca::cuqp::{encode_cu_qp_delta, target_qp, AqCtuState};
use hpvca::modes::{encode_chroma_mode, encode_luma_mode, CHROMA_DM_SYNTAX_IDX};

fn coder(qp: u8) -> Coder<CabacRecorder> {
    Coder::new(
        CabacRecorder::new(),
        ContextSet::init_islice(qp),
        IntraModeContexts::init_islice(qp),
    )
}

#[test]
fn intra_mode_contexts() {
    let ictx = IntraModeContexts::init_islice(26);
    assert!(ictx.prev_intra_luma_pred_flag.p_state_idx < 64);
    assert!(ictx.intra_chroma_pred_mode.p_state_idx < 64);
}

#[test]
fn contexts_start_from_their_values() {
    // 111 is six sixteens and fifteen: a slope of 6 * 5 - 45 = -15 over sixteen steps of the
    // parameter, down from 15 * 8 - 16 = 104. At 26 that is 104 - 25 = 79, above the middle.
    let ctx = ContextSet::init_islice(26);
    let direct = CtxModel::init(111, 26);
    assert_eq!(ctx.cbf_luma[0].p_state_idx, direct.p_state_idx);
    assert_eq!(ctx.cbf_luma[0].val_mps, direct.val_mps);
    assert_eq!((direct.p_state_idx, direct.val_mps), (15, 1));
    let low = CtxModel::init(154, 30);
    assert_eq!((low.p_state_idx, low.val_mps), (0, 1));
}

#[test]
fn terminate_produces_output() {
    let mut enc = CabacEncoder::new();
    enc.encode_terminate(1);
    let out = enc.finish();
    assert!(!out.is_empty(), "Termination should produce output");
}

#[test]
fn ctx_model_init_valid() {
    let ctx = CtxModel::init(111, 26);
    assert!(ctx.p_state_idx < 64);
    assert!(ctx.val_mps <= 1);
}

#[test]
fn bypass_zero() {
    let mut enc = CabacEncoder::new();
    for _ in 0..8 {
        enc.encode_bypass(0);
    }
    enc.encode_terminate(1);
    let out = enc.finish();
    assert!(!out.is_empty());
}

#[test]
fn mps_sequence_then_terminate() {
    let mut enc = CabacEncoder::new();
    let mut ctx = CtxModel::fixed(20, 0);
    for _ in 0..16 {
        enc.encode_bin(0, &mut ctx);
    }
    enc.encode_terminate(1);
    let out = enc.finish();
    assert!(!out.is_empty());
}

#[test]
fn lps_produces_output() {
    let mut enc = CabacEncoder::new();
    let mut ctx = CtxModel::fixed(0, 1);
    enc.encode_bin(0, &mut ctx);
    enc.encode_terminate(1);
    let out = enc.finish();
    assert!(!out.is_empty(), "LPS should produce output bytes");
}

#[test]
fn updater_follows_the_encoder() {
    let bins = [1u8, 0, 1, 1, 0, 0, 1, 0, 1, 1, 1];
    let mut a = CtxModel::fixed(13, 1);
    let mut b = CtxModel::fixed(13, 1);
    let mut enc = CabacEncoder::new();
    let mut updater = CabacContextUpdater::new();
    for bin in bins {
        enc.encode_bin(bin, &mut a);
        updater.encode_bin(bin, &mut b);
    }
    assert_eq!(a.p_state_idx, b.p_state_idx);
    assert_eq!(a.val_mps, b.val_mps);
}

/// Reads bins back, told how each is coded.
struct Reader<'a> {
    bytes: &'a [u8],
    at: usize,
    range: u32,
    value: u32,
}

impl<'a> Reader<'a> {
    fn new(bytes: &'a [u8]) -> Self {
        let mut r = Reader { bytes, at: 0, range: 510, value: 0 };
        for _ in 0..9 {
            r.value = 2 * r.value + r.bit();
        }
        r
    }

    fn bit(&mut self) -> u32 {
        let byte = self.bytes.get(self.at / 8).copied().unwrap_or(0);
        let bit = (byte >> (7 - self.at % 8)) & 1;
        self.at += 1;
        bit as u32
    }

    fn renorm(&mut self) {
        while self.range < 256 {
            self.range *= 2;
            self.value = 2 * self.value + self.bit();
        }
    }

    fn regular(&mut self, ctx: &mut CtxModel) -> u8 {
        let lps = hpvca::cabac::engine::RANGE_TAB_LPS[ctx.p_state_idx as usize]
            [((self.range >> 6) & 3) as usize] as u32;
        self.range -= lps;
        let bin = if self.value < self.range {
            ctx.val_mps
        } else {
            self.value -= self.range;
            self.range = lps;
            1 - ctx.val_mps
        };
        ctx.update(bin);
        self.renorm();
        bin
    }

    fn bypass(&mut self) -> u8 {
        self.value = 2 * self.value + self.bit();
        if self.value < self.range {
            0
        } else {
            self.value -= self.range;
            1
        }
    }

    fn terminate(&mut self) -> u8 {
        self.range -= 2;
        if self.value < self.range {
            self.renorm();
            0
        } else {
            1
        }
    }
}

#[test]
fn a_decoder_reads_every_bin_back() {
    let mut seed = 7u32;
    let mut ctx = [CtxModel::fixed(20, 0), CtxModel::fixed(0, 1), CtxModel::fixed(62, 1)];
    let mut plan: Vec<(usize, u8)> = Vec::new();
    let mut enc = CabacEncoder::new();
    for _ in 0..2000 {
        seed = seed.wrapping_mul(1_664_525).wrapping_add(1_013_904_223);
        let kind = (seed >> 28) as usize % 5;
        let bin = ((seed >> 20) & 1) as u8;
        match kind {
            0..=2 => enc.encode_bin(bin, &mut ctx[kind]),
            3 => enc.encode_bypass(bin),
            _ => enc.encode_terminate(0),
        }
        plan.push((kind, if kind == 4 { 0 } else { bin }));
    }
    enc.encode_terminate(1);
    let bytes = enc.finish();

    let mut ctx = [CtxModel::fixed(20, 0), CtxModel::fixed(0, 1), CtxModel::fixed(62, 1)];
    let mut reader = Reader::new(&bytes);
    for (kind, bin) in plan {
        let got = match kind {
            0..=2 => reader.regular(&mut ctx[kind]),
            3 => reader.bypass(),
            _ => reader.terminate(),
        };
        assert_eq!(got, bin);
    }
    assert_eq!(reader.terminate(), 1);
}

fn make_coeffs(vals: &[(usize, i16)], len: usize) -> Vec<i16> {
    let mut c = vec![0i16; len];
    for &(i, v) in vals {
        c[i] = v;
    }
    c
}

#[test]
fn encode_single_dc_8x8() {
    let mut enc = CabacEncoder::new();
    let mut ctx = ContextSet::init_islice(26);
    let coeffs = make_coeffs(&[(0, 8)], 64);
    encode_residual(&mut enc, &mut ctx, &coeffs, 3, true);
    enc.encode_terminate(1);
    let out = enc.finish();
    assert!(!out.is_empty());
}

#[test]
fn encode_single_dc_4x4() {
    let mut enc = CabacEncoder::new();
    let mut ctx = ContextSet::init_islice(26);
    let coeffs = make_coeffs(&[(0, 5)], 16);
    encode_residual(&mut enc, &mut ctx, &coeffs, 2, false);
    enc.encode_terminate(1);
    let out = enc.finish();
    assert!(!out.is_empty());
}

#[test]
fn encode_multiple_coeffs() {
    let mut enc = CabacEncoder::new();
    let mut ctx = ContextSet::init_islice(26);
    let coeffs = make_coeffs(&[(0, 12), (1, -3), (2, 1), (8, 5)], 64);
    encode_residual(&mut enc, &mut ctx, &coeffs, 3, true);
    enc.encode_terminate(1);
    let out = enc.finish();
    assert!(!out.is_empty());
}

#[test]
fn encode_all_zero_does_nothing() {
    let mut enc = CabacEncoder::new();
    let mut ctx = ContextSet::init_islice(26);
    let coeffs = vec![0i16; 64];
    encode_residual(&mut enc, &mut ctx, &coeffs, 3, true);
    enc.encode_terminate(1);
    let out = enc.finish();
    assert!(out.len() < 4);
}

#[test]
fn one_level_has_its_bins() {
    let mut t = CabacRecorder::new();
    let mut ctx = ContextSet::init_islice(26);
    let coeffs = make_coeffs(&[(0, -1)], 16);
    encode_residual_scan(&mut t, &mut ctx, &coeffs, 2, true, 0, false);
    // The last position is (0, 0); the level is not greater than one; it is negative.
    assert_eq!(*t.regular(), [0, 0, 0]);
    assert_eq!(*t.bypass(), [1]);
}

#[test]
fn cu_qp_delta_uses_truncated_unary_and_sign_bypass() {
    let mut c = coder(38);
    let mut aq = AqCtuState { enabled: true, predictor: 38, target: 35, coded: false };
    encode_cu_qp_delta(&mut c, &mut aq);
    assert_eq!(*c.enc.regular(), [1, 1, 1, 0]);
    assert_eq!(*c.enc.bypass(), [1]);
    assert!(aq.coded);
}

#[test]
fn parameters_are_predicted_until_one_is_coded() {
    let mut aq = AqCtuState { enabled: true, predictor: 30, target: 33, coded: false };
    assert_eq!(aq.resolved_qp(), 30);
    let mut c = coder(30);
    encode_cu_qp_delta(&mut c, &mut aq);
    assert_eq!(aq.resolved_qp(), 33);
    assert_eq!(target_qp(50, 3, false), 51);
    assert_eq!(target_qp(30, -2, false), 28);
    assert_eq!(target_qp(20, 3, false), 20);
    assert_eq!(target_qp(30, 3, true), 30);
}

#[test]
fn chroma_mode_binarization_uses_dm_flag_then_two_bypass_bits() {
    let mut dm = coder(26);
    encode_chroma_mode(&mut dm, CHROMA_DM_SYNTAX_IDX);
    assert_eq!(*dm.enc.regular(), [0]);
    assert!(dm.enc.bypass().is_empty());

    let mut explicit = coder(26);
    encode_chroma_mode(&mut explicit, 2);
    assert_eq!(*explicit.enc.regular(), [1]);
    assert_eq!(*explicit.enc.bypass(), [1, 0]);
}

#[test]
fn luma_modes_have_their_bins() {
    let mpm = [0u8, 1, 26];
    let mut c = coder(26);
    encode_luma_mode(&mut c, 26, &mpm);
    assert_eq!(*c.enc.regular(), [1]);
    assert_eq!(*c.enc.bypass(), [1, 1]);
    let mut c = coder(26);
    encode_luma_mode(&mut c, 30, &mpm);
    assert_eq!(*c.enc.regular(), [0]);
    // 30 is number 27 among the modes that are not probable.
    assert_eq!(*c.enc.bypass(), [1, 1, 0, 1, 1]);
}

/// The bins of a block, with signs hidden or not.
fn bins_of(coeffs: &[i16], log2: u32, scan_idx: u8, hide: bool) -> (Vec<u8>, Vec<u8>) {
    let mut t = CabacRecorder::new();
    let mut ctx = ContextSet::init_islice(26);
    encode_residual_scan(&mut t, &mut ctx, coeffs, log2, true, scan_idx, hide);
    (t.regular().to_vec(), t.bypass().to_vec())
}

#[test]
fn bins_tell_the_levels() {
    let base = make_coeffs(&[(0, 5), (3, -2), (17, 1), (20, 40)], 64);
    let bins = bins_of(&base, 3, 0, false);
    assert_eq!(bins, bins_of(&base.clone(), 3, 0, false));
    for change in [(0, -5), (0, 6), (3, 0), (16, 1), (20, 41), (20, 72), (33, -1), (63, 1)] {
        let mut other = base.clone();
        other[change.0] = change.1;
        assert_ne!(bins, bins_of(&other, 3, 0, false), "{change:?}");
    }
    // The sign of the level at 0 follows from the parity of its sub-block.
    let plus = make_coeffs(&[(0, 1), (5, 3)], 16);
    let minus = make_coeffs(&[(0, -1), (5, 2)], 16);
    assert_ne!(bins_of(&plus, 2, 0, true), bins_of(&minus, 2, 0, true));
    let other = make_coeffs(&[(0, -1), (5, 3)], 16);
    assert_eq!(bins_of(&plus, 2, 0, true), bins_of(&other, 2, 0, true));
}

#[test]
fn contexts_start_in_range() {
    let states = |c: &ContextSet| -> Vec<(u8, u8)> {
        let mut all = Vec::new();
        for group in [
            &c.split_cu_flag[..],
            &c.cbf_luma[..],
            &c.cbf_chroma[..],
            &c.last_sig_coeff_x_prefix[..],
            &c.last_sig_coeff_y_prefix[..],
            &c.sig_coeff_flag[..],
            &c.coeff_abs_level_greater1[..],
            &c.coeff_abs_level_greater2[..],
        ] {
            all.extend(group.iter().map(|m| (m.p_state_idx, m.val_mps)));
        }
        all
    };
    let top = states(&ContextSet::init_islice(51));
    for qp in 0..=255u8 {
        let c = ContextSet::init_islice(qp);
        assert_eq!(c.qp, qp);
        let all = states(&c);
        assert!(all.iter().all(|&(state, mps)| state <= 62 && mps <= 1));
        assert!(qp < 51 || all == top);
        for (x, y) in c.last_sig_coeff_x_prefix.iter().zip(&c.last_sig_coeff_y_prefix) {
            assert_eq!((x.p_state_idx, x.val_mps), (y.p_state_idx, y.val_mps));
        }
    }
}
