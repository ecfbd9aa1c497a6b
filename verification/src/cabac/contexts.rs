//! The contexts of intra slices and their initial states.
use crate::cabac::bins;
use crate::cabac::engine::{CabacWriter, CtxModel};
use vstd::prelude::*;

verus! {

/// Table entries of the contexts of a [`ContextSet`], in the order of its view.
pub const INIT_VALUES: [u8; 132] = [
    139, 141, 157,
    153, 138, 138,
    111, 141,
    94, 138, 182, 154, 154,
    110, 110, 124, 125, 140, 153, 125, 127, 140, 109, 111, 143, 127, 111, 79, 108, 123, 63,
    110, 110, 124, 125, 140, 153, 125, 127, 140, 109, 111, 143, 127, 111, 79, 108, 123, 63,
    111, 111, 125, 110, 110, 94, 124, 108, 124, 107, 125, 141, 179, 153, 125, 107, 125, 141, 179, 153,
    125, 107, 125, 141, 179, 153, 125, 140, 139, 182, 182, 152, 136, 152, 136, 153, 136, 139, 111, 136,
    139, 111, 141, 111,
    91, 171, 134, 141,
    140, 92, 137, 138, 140, 152, 138, 139, 153, 74, 149, 92, 139, 107, 122, 152, 140, 179, 166, 182,
    140, 227, 122, 197,
    138, 153, 136, 167, 152, 152,
    153,
    200,
    154, 154,
    154,
];

/// Where each group of contexts starts in the view of a [`ContextSet`].
pub const SPLIT_CU_FLAG: usize = 0;
pub const SPLIT_TRANSFORM_FLAG: usize = 3;
pub const CBF_LUMA: usize = 6;
pub const CBF_CHROMA: usize = 8;
pub const LAST_X_PREFIX: usize = 13;
pub const LAST_Y_PREFIX: usize = 31;
pub const SIG_COEFF: usize = 49;
pub const CODED_SUB_BLOCK: usize = 93;
pub const GREATER1: usize = 97;
pub const GREATER2: usize = 121;
pub const SAO_MERGE: usize = 127;
pub const SAO_TYPE: usize = 128;
pub const CU_QP_DELTA: usize = 129;
pub const TRANSQUANT_BYPASS: usize = 131;
pub const NUM_CONTEXTS: usize = 132;

/// The contexts of residual coding, of the coding tree and of sample-adaptive
/// offset.
#[derive(Clone, Copy)]
pub struct ContextSet {
    pub qp: u8,
    pub split_cu_flag: [CtxModel; 3],
    pub split_transform_flag: [CtxModel; 3],
    pub cbf_luma: [CtxModel; 2],
    pub cbf_chroma: [CtxModel; 5],
    pub last_sig_coeff_x_prefix: [CtxModel; 18],
    pub last_sig_coeff_y_prefix: [CtxModel; 18],
    pub sig_coeff_flag: [CtxModel; 44],
    pub coded_sub_block_flag: [CtxModel; 4],
    pub coeff_abs_level_greater1: [CtxModel; 24],
    pub coeff_abs_level_greater2: [CtxModel; 6],
    pub sao_merge_flag: CtxModel,
    pub sao_type_idx: CtxModel,
    pub cu_qp_delta_abs: [CtxModel; 2],
    pub cu_transquant_bypass_flag: CtxModel,
}

impl View for ContextSet {
    type V = Seq<CtxModel>;

    open spec fn view(&self) -> Seq<CtxModel> {
        Seq::new(
            132,
            |i: int|
                if i < 3 {
                    self.split_cu_flag@[i]
                } else if i < 6 {
                    self.split_transform_flag@[i - 3]
                } else if i < 8 {
                    self.cbf_luma@[i - 6]
                } else if i < 13 {
                    self.cbf_chroma@[i - 8]
                } else if i < 31 {
                    self.last_sig_coeff_x_prefix@[i - 13]
                } else if i < 49 {
                    self.last_sig_coeff_y_prefix@[i - 31]
                } else if i < 93 {
                    self.sig_coeff_flag@[i - 49]
                } else if i < 97 {
                    self.coded_sub_block_flag@[i - 93]
                } else if i < 121 {
                    self.coeff_abs_level_greater1@[i - 97]
                } else if i < 127 {
                    self.coeff_abs_level_greater2@[i - 121]
                } else if i < 128 {
                    self.sao_merge_flag
                } else if i < 129 {
                    self.sao_type_idx
                } else if i < 131 {
                    self.cu_qp_delta_abs@[i - 129]
                } else {
                    self.cu_transquant_bypass_flag
                },
        )
    }
}

/// Every context of the bank is in range.
pub open spec fn bank_wf(bank: Seq<CtxModel>) -> bool {
    forall|i: int| 0 <= i < bank.len() ==> (#[trigger] bank[i]).wf()
}

/// The contexts at the start of an intra slice.
pub open spec fn islice_bank(qp: u8) -> Seq<CtxModel> {
    Seq::new(132, |i: int| CtxModel::initial(INIT_VALUES@[i], qp))
}

/// All contexts start where they can adapt, those of the column of the last coefficient as
/// those of its row, and every parameter from 51 on as 51.
pub proof fn law_contexts_start_in_range(qp: u8)
    ensures
        bank_wf(islice_bank(qp)),
        forall|i: int| 0 <= i < 132 ==> (#[trigger] islice_bank(qp)[i]).p_state_idx <= 62,
        forall|k: int|
            0 <= k < 18 ==> #[trigger] islice_bank(qp)[LAST_X_PREFIX + k] == islice_bank(
                qp,
            )[LAST_Y_PREFIX + k],
        qp >= 51 ==> islice_bank(qp) == islice_bank(51),
{
    assert(forall|k: int|
        0 <= k < 18 ==> #[trigger] INIT_VALUES@[LAST_X_PREFIX + k] == INIT_VALUES@[LAST_Y_PREFIX
            + k]);
    assert forall|k: int| 0 <= k < 18 implies #[trigger] islice_bank(qp)[LAST_X_PREFIX + k]
        == islice_bank(qp)[LAST_Y_PREFIX + k] by {
        assert(INIT_VALUES@[LAST_X_PREFIX + k] == INIT_VALUES@[LAST_Y_PREFIX + k]);
    }
    if qp >= 51 {
        assert(islice_bank(qp) =~= islice_bank(51));
    }
}

impl ContextSet {
    /// Every context is in range.
    pub open spec fn wf(&self) -> bool {
        bank_wf(self@)
    }

    fn filled<const N: usize>(at: usize, qp: u8) -> (r: [CtxModel; N])
        requires
            at + N <= 132,
        ensures
            forall|i: int|
                0 <= i < N ==> #[trigger] r@[i] == CtxModel::initial(INIT_VALUES@[at + i], qp) && r@[i].wf(),
    {
        let mut r: [CtxModel; N] = [CtxModel { p_state_idx: 0, val_mps: 0 };N];
        for i in 0..N
            invariant
                at + N <= 132,
                forall|k: int|
                    0 <= k < i ==> #[trigger] r@[k] == CtxModel::initial(INIT_VALUES@[at + k], qp)
                        && r@[k].wf(),
        {
            r[i] = CtxModel::init(INIT_VALUES[at + i], qp);
        }
        r
    }

    /// The contexts at the start of an intra slice.
    pub fn init_islice(qp: u8) -> (r: ContextSet)
        ensures
            r.qp == qp,
            r.wf(),
            r@ == islice_bank(qp),
            r.last_sig_coeff_x_prefix@ == r.last_sig_coeff_y_prefix@,
    {
        let r = ContextSet {
            qp,
            split_cu_flag: ContextSet::filled::<3>(0, qp),
            split_transform_flag: ContextSet::filled::<3>(3, qp),
            cbf_luma: ContextSet::filled::<2>(6, qp),
            cbf_chroma: ContextSet::filled::<5>(8, qp),
            last_sig_coeff_x_prefix: ContextSet::filled::<18>(13, qp),
            last_sig_coeff_y_prefix: ContextSet::filled::<18>(31, qp),
            sig_coeff_flag: ContextSet::filled::<44>(49, qp),
            coded_sub_block_flag: ContextSet::filled::<4>(93, qp),
            coeff_abs_level_greater1: ContextSet::filled::<24>(97, qp),
            coeff_abs_level_greater2: ContextSet::filled::<6>(121, qp),
            sao_merge_flag: CtxModel::init(153, qp),
            sao_type_idx: CtxModel::init(200, qp),
            cu_qp_delta_abs: ContextSet::filled::<2>(129, qp),
            cu_transquant_bypass_flag: CtxModel::init(154, qp),
        };
        assert(r@ =~= islice_bank(qp));
        proof {
            law_contexts_start_in_range(qp);
            assert forall|k: int| 0 <= k < 18 implies #[trigger] r.last_sig_coeff_x_prefix@[k]
                == r.last_sig_coeff_y_prefix@[k] by {
                assert(r@[LAST_X_PREFIX + k] == r@[LAST_Y_PREFIX + k]);
            }
            assert(r.last_sig_coeff_x_prefix@ =~= r.last_sig_coeff_y_prefix@);
        }
        r
    }

    /// Codes one bin of split_cu_flag.
    pub fn code_split_cu_flag<W: CabacWriter>(&mut self, w: &mut W, idx: usize, bit: bool)
        requires
            old(self).wf(),
            old(w).ready(),
            idx < 3,
        ensures
            final(self).wf(),
            final(w).ready(),
            final(self).qp == old(self).qp,
            bins::wrote(
                old(w).log(),
                old(self)@,
                final(w).log(),
                final(self)@,
                seq![bins::coded(SPLIT_CU_FLAG + idx, bit)],
            ),
    {
        let ghost bank = self@;
        assert(bank[0 + idx].wf());
        let mut m = self.split_cu_flag[idx];
        w.encode_bin(if bit { 1 } else { 0 }, &mut m);
        self.split_cu_flag[idx] = m;
        proof {
            bins::lemma_wrote_coded(old(w).log(), bank, 0 + idx, bit);
            assert(self@ =~= bank.update(0 + idx, bank[0 + idx].after(bit)));
        }
    }

    /// Codes one bin of split_transform_flag.
    pub fn code_split_transform_flag<W: CabacWriter>(&mut self, w: &mut W, idx: usize, bit: bool)
        requires
            old(self).wf(),
            old(w).ready(),
            idx < 3,
        ensures
            final(self).wf(),
            final(w).ready(),
            final(self).qp == old(self).qp,
            bins::wrote(
                old(w).log(),
                old(self)@,
                final(w).log(),
                final(self)@,
                seq![bins::coded(SPLIT_TRANSFORM_FLAG + idx, bit)],
            ),
    {
        let ghost bank = self@;
        assert(bank[3 + idx].wf());
        let mut m = self.split_transform_flag[idx];
        w.encode_bin(if bit { 1 } else { 0 }, &mut m);
        self.split_transform_flag[idx] = m;
        proof {
            bins::lemma_wrote_coded(old(w).log(), bank, 3 + idx, bit);
            assert(self@ =~= bank.update(3 + idx, bank[3 + idx].after(bit)));
        }
    }

    /// Codes one bin of cbf_luma.
    pub fn code_cbf_luma<W: CabacWriter>(&mut self, w: &mut W, idx: usize, bit: bool)
        requires
            old(self).wf(),
            old(w).ready(),
            idx < 2,
        ensures
            final(self).wf(),
            final(w).ready(),
            final(self).qp == old(self).qp,
            bins::wrote(
                old(w).log(),
                old(self)@,
                final(w).log(),
                final(self)@,
                seq![bins::coded(CBF_LUMA + idx, bit)],
            ),
    {
        let ghost bank = self@;
        assert(bank[6 + idx].wf());
        let mut m = self.cbf_luma[idx];
        w.encode_bin(if bit { 1 } else { 0 }, &mut m);
        self.cbf_luma[idx] = m;
        proof {
            bins::lemma_wrote_coded(old(w).log(), bank, 6 + idx, bit);
            assert(self@ =~= bank.update(6 + idx, bank[6 + idx].after(bit)));
        }
    }

    /// Codes one bin of cbf_cb or cbf_cr.
    pub fn code_cbf_chroma<W: CabacWriter>(&mut self, w: &mut W, idx: usize, bit: bool)
        requires
            old(self).wf(),
            old(w).ready(),
            idx < 5,
        ensures
            final(self).wf(),
            final(w).ready(),
            final(self).qp == old(self).qp,
            bins::wrote(
                old(w).log(),
                old(self)@,
                final(w).log(),
                final(self)@,
                seq![bins::coded(CBF_CHROMA + idx, bit)],
            ),
    {
        let ghost bank = self@;
        assert(bank[8 + idx].wf());
        let mut m = self.cbf_chroma[idx];
        w.encode_bin(if bit { 1 } else { 0 }, &mut m);
        self.cbf_chroma[idx] = m;
        proof {
            bins::lemma_wrote_coded(old(w).log(), bank, 8 + idx, bit);
            assert(self@ =~= bank.update(8 + idx, bank[8 + idx].after(bit)));
        }
    }

    /// Codes one bin of last_sig_coeff_x_prefix.
    pub fn code_last_x<W: CabacWriter>(&mut self, w: &mut W, idx: usize, bit: bool)
        requires
            old(self).wf(),
            old(w).ready(),
            idx < 18,
        ensures
            final(self).wf(),
            final(w).ready(),
            final(self).qp == old(self).qp,
            bins::wrote(
                old(w).log(),
                old(self)@,
                final(w).log(),
                final(self)@,
                seq![bins::coded(LAST_X_PREFIX + idx, bit)],
            ),
    {
        let ghost bank = self@;
        assert(bank[13 + idx].wf());
        let mut m = self.last_sig_coeff_x_prefix[idx];
        w.encode_bin(if bit { 1 } else { 0 }, &mut m);
        self.last_sig_coeff_x_prefix[idx] = m;
        proof {
            bins::lemma_wrote_coded(old(w).log(), bank, 13 + idx, bit);
            assert(self@ =~= bank.update(13 + idx, bank[13 + idx].after(bit)));
        }
    }

    /// Codes one bin of last_sig_coeff_y_prefix.
    pub fn code_last_y<W: CabacWriter>(&mut self, w: &mut W, idx: usize, bit: bool)
        requires
            old(self).wf(),
            old(w).ready(),
            idx < 18,
        ensures
            final(self).wf(),
            final(w).ready(),
            final(self).qp == old(self).qp,
            bins::wrote(
                old(w).log(),
                old(self)@,
                final(w).log(),
                final(self)@,
                seq![bins::coded(LAST_Y_PREFIX + idx, bit)],
            ),
    {
        let ghost bank = self@;
        assert(bank[31 + idx].wf());
        let mut m = self.last_sig_coeff_y_prefix[idx];
        w.encode_bin(if bit { 1 } else { 0 }, &mut m);
        self.last_sig_coeff_y_prefix[idx] = m;
        proof {
            bins::lemma_wrote_coded(old(w).log(), bank, 31 + idx, bit);
            assert(self@ =~= bank.update(31 + idx, bank[31 + idx].after(bit)));
        }
    }

    /// Codes one bin of sig_coeff_flag.
    pub fn code_sig_coeff<W: CabacWriter>(&mut self, w: &mut W, idx: usize, bit: bool)
        requires
            old(self).wf(),
            old(w).ready(),
            idx < 44,
        ensures
            final(self).wf(),
            final(w).ready(),
            final(self).qp == old(self).qp,
            bins::wrote(
                old(w).log(),
                old(self)@,
                final(w).log(),
                final(self)@,
                seq![bins::coded(SIG_COEFF + idx, bit)],
            ),
    {
        let ghost bank = self@;
        assert(bank[49 + idx].wf());
        let mut m = self.sig_coeff_flag[idx];
        w.encode_bin(if bit { 1 } else { 0 }, &mut m);
        self.sig_coeff_flag[idx] = m;
        proof {
            bins::lemma_wrote_coded(old(w).log(), bank, 49 + idx, bit);
            assert(self@ =~= bank.update(49 + idx, bank[49 + idx].after(bit)));
        }
    }

    /// Codes one bin of coded_sub_block_flag.
    pub fn code_coded_sub_block<W: CabacWriter>(&mut self, w: &mut W, idx: usize, bit: bool)
        requires
            old(self).wf(),
            old(w).ready(),
            idx < 4,
        ensures
            final(self).wf(),
            final(w).ready(),
            final(self).qp == old(self).qp,
            bins::wrote(
                old(w).log(),
                old(self)@,
                final(w).log(),
                final(self)@,
                seq![bins::coded(CODED_SUB_BLOCK + idx, bit)],
            ),
    {
        let ghost bank = self@;
        assert(bank[93 + idx].wf());
        let mut m = self.coded_sub_block_flag[idx];
        w.encode_bin(if bit { 1 } else { 0 }, &mut m);
        self.coded_sub_block_flag[idx] = m;
        proof {
            bins::lemma_wrote_coded(old(w).log(), bank, 93 + idx, bit);
            assert(self@ =~= bank.update(93 + idx, bank[93 + idx].after(bit)));
        }
    }

    /// Codes one bin of coeff_abs_level_greater1_flag.
    pub fn code_greater1<W: CabacWriter>(&mut self, w: &mut W, idx: usize, bit: bool)
        requires
            old(self).wf(),
            old(w).ready(),
            idx < 24,
        ensures
            final(self).wf(),
            final(w).ready(),
            final(self).qp == old(self).qp,
            bins::wrote(
                old(w).log(),
                old(self)@,
                final(w).log(),
                final(self)@,
                seq![bins::coded(GREATER1 + idx, bit)],
            ),
    {
        let ghost bank = self@;
        assert(bank[97 + idx].wf());
        let mut m = self.coeff_abs_level_greater1[idx];
        w.encode_bin(if bit { 1 } else { 0 }, &mut m);
        self.coeff_abs_level_greater1[idx] = m;
        proof {
            bins::lemma_wrote_coded(old(w).log(), bank, 97 + idx, bit);
            assert(self@ =~= bank.update(97 + idx, bank[97 + idx].after(bit)));
        }
    }

    /// Codes one bin of coeff_abs_level_greater2_flag.
    pub fn code_greater2<W: CabacWriter>(&mut self, w: &mut W, idx: usize, bit: bool)
        requires
            old(self).wf(),
            old(w).ready(),
            idx < 6,
        ensures
            final(self).wf(),
            final(w).ready(),
            final(self).qp == old(self).qp,
            bins::wrote(
                old(w).log(),
                old(self)@,
                final(w).log(),
                final(self)@,
                seq![bins::coded(GREATER2 + idx, bit)],
            ),
    {
        let ghost bank = self@;
        assert(bank[121 + idx].wf());
        let mut m = self.coeff_abs_level_greater2[idx];
        w.encode_bin(if bit { 1 } else { 0 }, &mut m);
        self.coeff_abs_level_greater2[idx] = m;
        proof {
            bins::lemma_wrote_coded(old(w).log(), bank, 121 + idx, bit);
            assert(self@ =~= bank.update(121 + idx, bank[121 + idx].after(bit)));
        }
    }

    /// Codes one bin of cu_qp_delta_abs.
    pub fn code_cu_qp_delta<W: CabacWriter>(&mut self, w: &mut W, idx: usize, bit: bool)
        requires
            old(self).wf(),
            old(w).ready(),
            idx < 2,
        ensures
            final(self).wf(),
            final(w).ready(),
            final(self).qp == old(self).qp,
            bins::wrote(
                old(w).log(),
                old(self)@,
                final(w).log(),
                final(self)@,
                seq![bins::coded(CU_QP_DELTA + idx, bit)],
            ),
    {
        let ghost bank = self@;
        assert(bank[129 + idx].wf());
        let mut m = self.cu_qp_delta_abs[idx];
        w.encode_bin(if bit { 1 } else { 0 }, &mut m);
        self.cu_qp_delta_abs[idx] = m;
        proof {
            bins::lemma_wrote_coded(old(w).log(), bank, 129 + idx, bit);
            assert(self@ =~= bank.update(129 + idx, bank[129 + idx].after(bit)));
        }
    }

    /// Codes one bin of sao_merge_left_flag or sao_merge_up_flag.
    pub fn code_sao_merge<W: CabacWriter>(&mut self, w: &mut W, bit: bool)
        requires
            old(self).wf(),
            old(w).ready(),
        ensures
            final(self).wf(),
            final(w).ready(),
            final(self).qp == old(self).qp,
            bins::wrote(
                old(w).log(),
                old(self)@,
                final(w).log(),
                final(self)@,
                seq![bins::coded(SAO_MERGE as int, bit)],
            ),
    {
        let ghost bank = self@;
        assert(bank[127].wf());
        let mut m = self.sao_merge_flag;
        w.encode_bin(if bit { 1 } else { 0 }, &mut m);
        self.sao_merge_flag = m;
        proof {
            bins::lemma_wrote_coded(old(w).log(), bank, 127, bit);
            assert(self@ =~= bank.update(127, bank[127].after(bit)));
        }
    }

    /// Codes one bin of sao_type_idx.
    pub fn code_sao_type<W: CabacWriter>(&mut self, w: &mut W, bit: bool)
        requires
            old(self).wf(),
            old(w).ready(),
        ensures
            final(self).wf(),
            final(w).ready(),
            final(self).qp == old(self).qp,
            bins::wrote(
                old(w).log(),
                old(self)@,
                final(w).log(),
                final(self)@,
                seq![bins::coded(SAO_TYPE as int, bit)],
            ),
    {
        let ghost bank = self@;
        assert(bank[128].wf());
        let mut m = self.sao_type_idx;
        w.encode_bin(if bit { 1 } else { 0 }, &mut m);
        self.sao_type_idx = m;
        proof {
            bins::lemma_wrote_coded(old(w).log(), bank, 128, bit);
            assert(self@ =~= bank.update(128, bank[128].after(bit)));
        }
    }

    /// Codes one bin of cu_transquant_bypass_flag.
    pub fn code_transquant_bypass<W: CabacWriter>(&mut self, w: &mut W, bit: bool)
        requires
            old(self).wf(),
            old(w).ready(),
        ensures
            final(self).wf(),
            final(w).ready(),
            final(self).qp == old(self).qp,
            bins::wrote(
                old(w).log(),
                old(self)@,
                final(w).log(),
                final(self)@,
                seq![bins::coded(TRANSQUANT_BYPASS as int, bit)],
            ),
    {
        let ghost bank = self@;
        assert(bank[131].wf());
        let mut m = self.cu_transquant_bypass_flag;
        w.encode_bin(if bit { 1 } else { 0 }, &mut m);
        self.cu_transquant_bypass_flag = m;
        proof {
            bins::lemma_wrote_coded(old(w).log(), bank, 131, bit);
            assert(self@ =~= bank.update(131, bank[131].after(bit)));
        }
    }
}

/// The contexts of the intra prediction modes and of the partitioning.
#[derive(Clone, Copy)]
pub struct IntraModeContexts {
    pub part_mode: CtxModel,
    pub prev_intra_luma_pred_flag: CtxModel,
    pub intra_chroma_pred_mode: CtxModel,
}

impl View for IntraModeContexts {
    type V = Seq<CtxModel>;

    open spec fn view(&self) -> Seq<CtxModel> {
        seq![self.part_mode, self.prev_intra_luma_pred_flag, self.intra_chroma_pred_mode]
    }
}

impl IntraModeContexts {
    /// Every context is in range.
    pub open spec fn wf(&self) -> bool {
        bank_wf(self@)
    }

    /// The contexts at the start of an intra slice.
    pub fn init_islice(qp: u8) -> (r: IntraModeContexts)
        ensures
            r.wf(),
            r.part_mode == CtxModel::initial(184, qp),
            r.prev_intra_luma_pred_flag == CtxModel::initial(184, qp),
            r.intra_chroma_pred_mode == CtxModel::initial(63, qp),
    {
        IntraModeContexts {
            part_mode: CtxModel::init(184, qp),
            prev_intra_luma_pred_flag: CtxModel::init(184, qp),
            intra_chroma_pred_mode: CtxModel::init(63, qp),
        }
    }
}

} // verus!
