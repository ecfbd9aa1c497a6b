//! How the settings of a picture follow from what was asked for.
use crate::cabac::bins::Bin;
use crate::color::Cicp;
use crate::cuqp;
use crate::cuqp::AqCtuState;
use crate::deblock::EdgeInfo;
use crate::fmt::{BitDepth, ChromaFormat};
use crate::frame;
use crate::params;
use crate::slice;
use crate::tiles;
use vstd::arithmetic::power2::*;
use vstd::prelude::*;

verus! {

/// Units depart from the parameter of the picture up to quality 66, and never without loss.
pub proof fn law_lower_qualities_adapt(quality: int)
    requires
        1 <= quality <= 100,
    ensures
        params::aq_on(slice::quality_qp(quality), false) <==> quality <= 66,
        !params::aq_on(slice::quality_qp(quality), true),
{
}

/// The main profiles hold lossy pictures of eight or ten bits without chroma or with chroma of
/// a quarter of the samples; all others need the extensions.
pub proof fn law_main_profiles_hold_the_common_formats(
    chroma: ChromaFormat,
    depth: BitDepth,
    lossless: bool,
)
    ensures
        !params::needs_rext(chroma, depth, lossless) <==> {
            &&& !lossless
            &&& chroma is Monochrome || chroma is Yuv420
            &&& depth.spec_bits() == 8 || depth.spec_bits() == 10
        },
{
}

/// A unit's parameter is that of the picture moved by its offset, held in range; where units do
/// not adapt it is that of the picture.
pub proof fn law_a_target_is_the_parameter_and_its_offset(qp: int, offset: int, lossless: bool)
    requires
        0 <= qp <= 51,
    ensures
        ({
            let t = cuqp::target_of(qp, offset, lossless);
            &&& 0 <= t <= 51
            &&& lossless || qp < 24 ==> t == qp
            &&& !lossless && qp >= 24 && 0 <= qp + offset <= 51 ==> t - qp == offset
            &&& !lossless && qp >= 24 && qp + offset > 51 ==> t == 51
            &&& !lossless && qp >= 24 && qp + offset < 0 ==> t == 0
        }),
{
}

/// Once a unit's change was coded, or where nothing adapts, the parameter is the target; until
/// then it is the predicted one. Coding happens once.
pub proof fn law_a_parameter_is_coded_once(aq: AqCtuState, needed: bool)
    ensures
        ({
            let after = cuqp::qp_after(aq, needed);
            &&& aq.enabled && needed ==> after.resolved() == aq.target
            &&& aq.enabled && !aq.coded && !needed ==> after.resolved() == aq.predictor
            &&& !aq.enabled ==> after == aq && after.resolved() == aq.target
            &&& after.target == aq.target && after.predictor == aq.predictor
            &&& needed || !aq.enabled || aq.coded ==> cuqp::qp_bins(after, true)
                == Seq::<Bin>::empty()
        }),
{
    reveal(cuqp::qp_bins);
}

/// The chroma parameter of a unit in 4:2:0 follows the luma parameter up to 29, falls one
/// behind at 30, grows by one for each two from 34 to 43, is six behind from there on, and
/// stays from 57 on. In the other formats it is the luma parameter, at most 51.
pub proof fn law_the_chroma_parameter_follows_luma(q: int)
    requires
        0 <= q <= 255,
    ensures
        ({
            let c = frame::chroma_qp_of(q, ChromaFormat::Yuv420);
            &&& q <= 29 ==> c == q
            &&& 30 <= q <= 34 ==> c == q - 1
            &&& 34 <= q <= 43 ==> q + 31 <= 2 * c <= q + 32
            &&& 43 <= q <= 57 ==> c == q - 6
            &&& 57 <= q ==> c == 51
        }),
        forall|f: ChromaFormat|
            !(f is Yuv420) ==> #[trigger] frame::chroma_qp_of(q, f) == (if q <= 51 {
                q
            } else {
                51
            }),
{
    if 30 <= q <= 43 {
        let k = q - 30;
        assert(k == 0 || k == 1 || k == 2 || k == 3 || k == 4 || k == 5 || k == 6 || k == 7 || k
            == 8 || k == 9 || k == 10 || k == 11 || k == 12 || k == 13);
    }
}

/// The working space is that of the common displays: BT.709 primaries (code 1) and matrix (1),
/// the sRGB curve (13), in full range. What is not specified has the code 2 throughout.
pub proof fn law_the_working_space_has_its_codes()
    ensures
        ({
            let (s, u) = (Cicp::spec_srgb(), Cicp::spec_unspecified());
            &&& s.primaries.spec_code() == 1
            &&& s.transfer.spec_code() == 13
            &&& s.matrix.spec_code() == 1
            &&& s.full_range
            &&& u.primaries.spec_code() == 2
            &&& u.transfer.spec_code() == 2
            &&& u.matrix.spec_code() == 2
            &&& u.full_range
        }),
{
}

/// Samples of a depth are those below two to its power.
pub proof fn law_depths_bound_the_samples(depth: BitDepth)
    ensures
        depth.spec_max() + 1 == pow2(depth.spec_bits() as nat),
        depth.spec_bits() == 8 || depth.spec_bits() == 10 || depth.spec_bits() == 12,
{
    lemma2_to64();
}

/// The code of a chroma format tells how many luma samples there are to a chroma sample: four
/// for the code 1, two side by side for 2, one for 3; without chroma the code is 0.
pub proof fn law_format_codes_tell_the_chroma(chroma: ChromaFormat)
    ensures
        0 <= chroma.spec_idc() <= 3,
        chroma.spec_idc() == 0 <==> chroma is Monochrome,
        chroma.spec_idc() == 1 <==> chroma.spec_sub_w() == 2 && chroma.spec_sub_h() == 2,
        chroma.spec_idc() == 2 <==> chroma.spec_sub_w() == 2 && chroma.spec_sub_h() == 1,
        chroma.spec_idc() == 3 ==> chroma.spec_sub_w() == 1 && chroma.spec_sub_h() == 1,
        chroma.spec_idc() == 0 ==> chroma.spec_sub_w() == 1 && chroma.spec_sub_h() == 1,
{
}

/// Border `i` of `n` tiles is the last whole tree unit before its share of the side: the first
/// is at the start and the last at the end.
pub proof fn law_tile_borders_round_down(ctus: int, n: int, i: int)
    requires
        1 <= n,
        0 <= ctus,
        0 <= i <= n,
    ensures
        ({
            let b = tiles::boundary(ctus, n, i);
            &&& n * b <= i * ctus < n * b + n
            &&& i == 0 ==> b == 0
            &&& i == n ==> b == ctus
        }),
{
    let b = tiles::boundary(ctus, n, i);
    vstd::arithmetic::div_mod::lemma_fundamental_div_mod(i * ctus, n);
    vstd::arithmetic::div_mod::lemma_mod_bound(i * ctus, n);
    if i == 0 {
        assert(0 * ctus == 0);
        assert(b == 0) by (nonlinear_arith)
            requires
                n * b <= 0 < n * b + n,
                1 <= n,
        ;
    }
    if i == n {
        assert(b == ctus) by (nonlinear_arith)
            requires
                n * b <= n * ctus < n * b + n,
                1 <= n,
        ;
    }
}

/// An edge between blocks of different parameters is filtered by their mean, halves going up.
pub proof fn law_edges_take_the_mean_parameter(info: EdgeInfo, lx: int, ly: int, vertical: bool)
    requires
        0 <= lx,
        0 <= ly,
        info.map is Some,
    ensures
        ({
            let m = info.map->0;
            let here = m[(ly / 4) * info.map_stride + lx / 4] as int;
            let there = (if vertical {
                m[(ly / 4) * info.map_stride + (lx / 4 - 1)]
            } else {
                m[(ly / 4 - 1) * info.map_stride + lx / 4]
            }) as int;
            here + there <= 2 * info.qp_at(lx, ly, vertical) <= here + there + 1
        }),
{
}

} // verus!
