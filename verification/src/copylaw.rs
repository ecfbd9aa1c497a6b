//! What the search for copied blocks keeps to: which sources may be read, which vectors are
//! predicted, and what a hash tells apart.
use crate::blockhash;
use crate::blockhash::HASH_PRIME;
use crate::ibc;
use crate::ibc::CuGeom;
use vstd::arithmetic::power2::pow2;
use vstd::prelude::*;

verus! {

/// Two copied blocks side by side are smoothed where their vectors differ and left where they
/// agree; a block that is not copied is always smoothed the most.
pub proof fn law_strength_compares_the_vectors(x: int, y: int, x2: int, y2: int, other: int)
    requires
        -32768 <= x <= 32767,
        -32768 <= y <= 32767,
        -32768 <= x2 <= 32767,
        -32768 <= y2 <= 32767,
        ibc::packed(x, y) != ibc::BV_INTRA,
        ibc::packed(x2, y2) != ibc::BV_INTRA,
    ensures
        ibc::strength(ibc::packed(x, y), ibc::packed(x2, y2)) == (if x == x2 && y == y2 {
            0int
        } else {
            1
        }),
        ibc::strength(ibc::BV_INTRA as int, other) == 2,
        ibc::strength(other, ibc::BV_INTRA as int) == 2,
{
    let (e, e2) = (ibc::packed(x, y), ibc::packed(x2, y2));
    assert(e / 65536 == x && e % 65536 == y % 65536);
    assert(e2 / 65536 == x2 && e2 % 65536 == y2 % 65536);
}

/// A source may be read exactly where it lies in the picture, wholly to the left of the block
/// or wholly above it, and its last tree unit, in column `sx` and row `sy`, is on no later
/// diagonal than the tree unit of the block, in column `cx` and row `cy`.
pub proof fn law_sources_lie_behind_the_wavefront(
    cu: CuGeom,
    bvx: int,
    bvy: int,
    sx: int,
    sy: int,
    cx: int,
    cy: int,
)
    requires
        ({
            let ctb = pow2(cu.ctb_log2 as nat) as int;
            &&& ctb * sx <= cu.x + bvx + cu.size - 1 < ctb * sx + ctb
            &&& ctb * sy <= cu.y + bvy + cu.size - 1 < ctb * sy + ctb
            &&& ctb * cx <= cu.x < ctb * cx + ctb
            &&& ctb * cy <= cu.y < ctb * cy + ctb
        }),
    ensures
        cu.allows(bvx, bvy) <==> {
            &&& 0 <= cu.x + bvx
            &&& cu.x + bvx + cu.size <= cu.pic_w
            &&& 0 <= cu.y + bvy
            &&& cu.y + bvy + cu.size <= cu.pic_h
            &&& cu.x + bvx + cu.size <= cu.x || cu.y + bvy + cu.size <= cu.y
            &&& sx + sy <= cx + cy
        },
{
    let ctb = pow2(cu.ctb_log2 as nat) as int;
    lemma_unit_of(cu.x + bvx + cu.size - 1, ctb, sx);
    lemma_unit_of(cu.y + bvy + cu.size - 1, ctb, sy);
    lemma_unit_of(cu.x as int, ctb, cx);
    lemma_unit_of(cu.y as int, ctb, cy);
}

proof fn lemma_unit_of(x: int, ctb: int, k: int)
    requires
        ctb * k <= x < ctb * k + ctb,
    ensures
        x / ctb == k,
{
    assert(k * ctb == ctb * k) by (nonlinear_arith);
    vstd::arithmetic::div_mod::lemma_fundamental_div_mod_converse(x, ctb, k, x - ctb * k);
}

/// The vector of the lower left block is predicted first, that of the left one in its place;
/// of those above the one to the right comes before the one above and the one to the left;
/// nothing is predicted twice, and what is missing is no motion.
pub proof fn law_predictors_go_by_their_order(
    a0: Option<(i16, i16)>,
    a1: Option<(i16, i16)>,
    b0: Option<(i16, i16)>,
    b1: Option<(i16, i16)>,
    b2: Option<(i16, i16)>,
)
    ensures
        ({
            let p = ibc::predictors(a0, a1, b0, b1, b2);
            let left = a0 is Some || a1 is Some;
            let up = b0 is Some || b1 is Some || b2 is Some;
            let second = if left {
                p.1
            } else {
                p.0
            };
            &&& a0 matches Some(v) ==> p.0 == v
            &&& a0 is None ==> (a1 matches Some(v) ==> p.0 == v)
            &&& b0 matches Some(v) ==> second == v || (left && p.0 == v)
            &&& b0 is None ==> (b1 matches Some(v) ==> second == v || (left && p.0 == v))
            &&& b0 is None && b1 is None ==> (b2 matches Some(v) ==> second == v || (left && p.0
                == v))
            &&& !left ==> p.1 == (0i16, 0i16)
            &&& !up ==> p.1 == (0i16, 0i16)
            &&& !left && !up ==> p.0 == (0i16, 0i16)
            &&& p.0 == p.1 ==> p.0 == (0i16, 0i16)
        }),
{
}

/// Mixing a value in multiplies by the prime, in 64 bits.
pub proof fn law_mixing_multiplies(h: u64, v: u64)
    ensures
        blockhash::mix(h, v) == ((h ^ v) as int * 1099511628211) % 0x1_0000_0000_0000_0000,
{
    assert(HASH_PRIME == 1099511628211);
}

/// What is mixed into different states, or two different values into the same one, differs.
pub proof fn law_mixing_tells_apart(h: u64, v: u64, h2: u64, v2: u64)
    requires
        blockhash::mix(h, v) == blockhash::mix(h2, v2),
    ensures
        h == h2 <==> v == v2,
{
    let (a, b) = (h ^ v, h2 ^ v2);
    law_mixing_multiplies(h, v);
    law_mixing_multiplies(h2, v2);
    lemma_product(a as int, b as int);
    assert((h ^ v) == (h2 ^ v2) ==> (h == h2 <==> v == v2)) by (bit_vector);
}

/// The prime has an inverse.
proof fn lemma_product(a: int, b: int)
    requires
        0 <= a < 0x1_0000_0000_0000_0000,
        0 <= b < 0x1_0000_0000_0000_0000,
        (a * 1099511628211) % 0x1_0000_0000_0000_0000 == (b * 1099511628211)
            % 0x1_0000_0000_0000_0000,
    ensures
        a == b,
{
    lemma_back(a);
    lemma_back(b);
}

/// Multiplying by the inverse gives the number back.
proof fn lemma_back(a: int)
    requires
        0 <= a < 0x1_0000_0000_0000_0000,
    ensures
        (((a * 1099511628211) % 0x1_0000_0000_0000_0000) * 14886173955864302971) % 0x1_0000_0000_0000_0000 == a,
{
    let (p, q, m): (int, int, int) = (1099511628211, 14886173955864302971, 0x1_0000_0000_0000_0000);
    let r = (a * p) % m;
    let d = (a * p) / m;
    vstd::arithmetic::div_mod::lemma_fundamental_div_mod(a * p, m);
    assert(p * q == 887285111055 * m + 1);
    assert(r * q == (887285111055 * a - d * q) * m + a) by (nonlinear_arith)
        requires
            a * p == m * d + r,
            p * q == 887285111055 * m + 1,
    ;
    vstd::arithmetic::div_mod::lemma_fundamental_div_mod_converse(
        r * q,
        m,
        887285111055 * a - d * q,
        a,
    );
}

/// Sequences of the same length that differ in one place have different hashes.
pub proof fn law_one_change_changes_the_hash(s: Seq<u64>, i: int, v: u64)
    requires
        0 <= i < s.len(),
        s[i] != v,
    ensures
        blockhash::hash_of(s.update(i, v)) != blockhash::hash_of(s),
    decreases s.len(),
{
    let t = s.update(i, v);
    if blockhash::hash_of(t) == blockhash::hash_of(s) {
        law_mixing_tells_apart(
            blockhash::hash_of(s.drop_last()),
            s.last(),
            blockhash::hash_of(t.drop_last()),
            t.last(),
        );
        if i == s.len() - 1 {
            assert(t.drop_last() =~= s.drop_last());
        } else {
            assert(t.drop_last() =~= s.drop_last().update(i, v));
            law_one_change_changes_the_hash(s.drop_last(), i, v);
        }
    }
}

} // verus!
