//! Residual coding loses nothing: different blocks have different bins.
use crate::bitseq;
use crate::cabac::bins;
use crate::cabac::residual;
use crate::cabac::residual::Block;
use crate::scan;
use vstd::arithmetic::power2::*;
use vstd::prelude::*;

verus! {

/// Equal sequences have equal fronts of the same length, and equal rests.
proof fn lemma_cut(a: Seq<bins::Bin>, x: Seq<bins::Bin>, b: Seq<bins::Bin>, y: Seq<bins::Bin>)
    requires
        a + x == b + y,
        a.len() == b.len(),
    ensures
        a == b,
        x == y,
{
    let (s, t) = (a + x, b + y);
    assert(a =~= s.take(a.len() as int));
    assert(b =~= t.take(a.len() as int));
    assert(x =~= s.skip(a.len() as int));
    assert(y =~= t.skip(a.len() as int));
}

proof fn lemma_join(a: Seq<bins::Bin>, b: Seq<bins::Bin>, c: Seq<bins::Bin>)
    ensures
        (a + b) + c == a + (b + c),
{
    assert((a + b) + c =~= a + (b + c));
}

proof fn lemma_join_four(
    a: Seq<bins::Bin>,
    b: Seq<bins::Bin>,
    c: Seq<bins::Bin>,
    d: Seq<bins::Bin>,
    r: Seq<bins::Bin>,
)
    ensures
        (a + b + c + d) + r == a + (b + (c + (d + r))),
{
    assert((a + b + c + d) + r =~= a + (b + (c + (d + r))));
}

/// A unary prefix tells its length.
proof fn lemma_unary(
    p: int,
    la: Seq<bool>,
    ra: Seq<bins::Bin>,
    q: int,
    lb: Seq<bool>,
    rb: Seq<bins::Bin>,
)
    requires
        0 <= p,
        0 <= q,
        bins::plain_bits(bitseq::run(true, p) + seq![false] + la) + ra == bins::plain_bits(
            bitseq::run(true, q) + seq![false] + lb,
        ) + rb,
    ensures
        p == q,
{
    let (a, b) = (
        bitseq::run(true, p) + seq![false] + la,
        bitseq::run(true, q) + seq![false] + lb,
    );
    let (x, y) = (bins::plain_bits(a) + ra, bins::plain_bits(b) + rb);
    if p < q {
        assert(x[p] == bins::plain(a[p]) && !a[p]);
        assert(y[p] == bins::plain(b[p]) && b[p]);
    } else if q < p {
        assert(x[q] == bins::plain(a[q]) && a[q]);
        assert(y[q] == bins::plain(b[q]) && !b[q]);
    }
}

/// Low bits of the same number of bits that are equal spell equal numbers.
proof fn lemma_low_bits_tell(a: int, b: int, n: int)
    requires
        0 <= n,
        0 <= a < pow2(n as nat),
        0 <= b < pow2(n as nat),
        bitseq::low_bits(a, n) == bitseq::low_bits(b, n),
    ensures
        a == b,
{
    bitseq::lemma_value_low_bits(a, n);
    bitseq::lemma_value_low_bits(b, n);
}

/// A quotient below four and the low bits tell a number.
proof fn lemma_small_tell(a: int, b: int, rice: int)
    requires
        0 <= rice,
        0 <= a < 4 * pow2(rice as nat),
        0 <= b < 4 * pow2(rice as nat),
        a / pow2(rice as nat) as int == b / pow2(rice as nat) as int,
        bitseq::low_bits(a, rice) == bitseq::low_bits(b, rice),
    ensures
        a == b,
{
    let p = pow2(rice as nat) as int;
    lemma_pow2_pos(rice as nat);
    lemma_pow2_unfold((rice + 1) as nat);
    lemma_pow2_unfold((rice + 2) as nat);
    let n = rice + 2;
    vstd::arithmetic::div_mod::lemma_div_denominator(a, p, 2);
    vstd::arithmetic::div_mod::lemma_div_denominator(b, p, 2);
    let (x, y) = (bitseq::low_bits(a, n), bitseq::low_bits(b, n));
    assert forall|i: int| 0 <= i < n implies #[trigger] x[i] == y[i] by {
        if i >= 2 {
            assert(x[i] == bitseq::low_bits(a, rice)[i - 2]);
            assert(y[i] == bitseq::low_bits(b, rice)[i - 2]);
        } else if i == 1 {
            assert(n - 1 - i == rice);
        } else {
            assert(n - 1 - i == rice + 1);
            assert(pow2((rice + 1) as nat) == p * 2);
        }
    }
    assert(x =~= y);
    lemma_low_bits_tell(a, b, n);
}

/// Between which numbers a long prefix is used.
proof fn lemma_long(value: int, rice: int, p: int)
    requires
        0 <= rice,
        4 <= p,
        0 <= value,
        (pow2((p - 3) as nat) + 2) * pow2(rice as nat) <= value,
    ensures
        ({
            let r = residual::long_prefix(value, rice, p);
            &&& p <= r
            &&& (pow2((r - 3) as nat) + 2) * pow2(rice as nat) <= value
            &&& value < (pow2((r - 2) as nat) + 2) * pow2(rice as nat)
        }),
    decreases value + 4 - p,
{
    let k = pow2(rice as nat) as int;
    lemma_pow2_pos(rice as nat);
    if p > value + 3 {
        residual::lemma_below_pow2((p - 2) as nat);
        let m = pow2((p - 2) as nat) as int;
        assert(value < (m + 2) * k) by (nonlinear_arith)
            requires
                value < m,
                k >= 1,
                m >= 0,
        ;
    } else if value < (pow2((p - 2) as nat) + 2) * pow2(rice as nat) {
    } else {
        assert(p + 1 - 3 == p - 2);
        lemma_long(value, rice, p + 1);
    }
}

/// The bins of a remaining level tell the level, and where they end.
proof fn lemma_remaining(va: int, vb: int, rice: int, ra: Seq<bins::Bin>, rb: Seq<bins::Bin>)
    requires
        0 <= va,
        0 <= vb,
        0 <= rice,
        residual::remaining_bins(va, rice) + ra == residual::remaining_bins(vb, rice) + rb,
    ensures
        va == vb,
        ra == rb,
{
    let k = pow2(rice as nat) as int;
    lemma_pow2_pos(rice as nat);
    lemma2_to64();
    let (sa, sb) = (va < 4 * k, vb < 4 * k);
    let pa = if sa {
        va / k
    } else {
        residual::long_prefix(va, rice, 4)
    };
    let pb = if sb {
        vb / k
    } else {
        residual::long_prefix(vb, rice, 4)
    };
    lemma_prefix_range(va, rice);
    lemma_prefix_range(vb, rice);
    let la = if sa {
        bitseq::low_bits(va, rice)
    } else {
        bitseq::low_bits(va - (pow2((pa - 3) as nat) + 2) * k, pa - 3 + rice)
    };
    let lb = if sb {
        bitseq::low_bits(vb, rice)
    } else {
        bitseq::low_bits(vb - (pow2((pb - 3) as nat) + 2) * k, pb - 3 + rice)
    };
    let (xa, xb) = (
        bitseq::run(true, pa) + seq![false] + la,
        bitseq::run(true, pb) + seq![false] + lb,
    );
    assert(residual::remaining_bins(va, rice) == bins::plain_bits(xa));
    assert(residual::remaining_bins(vb, rice) == bins::plain_bits(xb));
    lemma_unary(pa, la, ra, pb, lb, rb);
    assert(sa == sb);
    assert(la.len() == lb.len());
    lemma_cut(bins::plain_bits(xa), ra, bins::plain_bits(xb), rb);
    assert forall|i: int| 0 <= i < la.len() implies #[trigger] la[i] == lb[i] by {
        let j = pa + 1 + i;
        assert(xa[j] == la[i] && xb[j] == lb[i]);
        assert(bins::plain_bits(xa)[j] == bins::plain(xa[j]));
        assert(bins::plain_bits(xb)[j] == bins::plain(xb[j]));
    }
    assert(la =~= lb);
    if sa {
        lemma_small_tell(va, vb, rice);
    } else {
        let m = (pow2((pa - 3) as nat) + 2) * k;
        lemma_low_bits_tell(va - m, vb - m, pa - 3 + rice);
    }
}

/// How long the prefix of a remaining level is, and what is left for its low bits.
pub proof fn lemma_prefix_range(v: int, rice: int)
    requires
        0 <= v,
        0 <= rice,
    ensures
        ({
            let k = pow2(rice as nat) as int;
            if v < 4 * k {
                0 <= v / k < 4
            } else {
                let p = residual::long_prefix(v, rice, 4);
                let m = (pow2((p - 3) as nat) + 2) * k;
                &&& 4 <= p
                &&& 0 <= v - m < pow2((p - 3 + rice) as nat)
            }
        }),
{
    let k = pow2(rice as nat) as int;
    lemma_pow2_pos(rice as nat);
    lemma2_to64();
    if v < 4 * k {
        assert(0 <= v / k < 4) by (nonlinear_arith)
            requires
                0 <= v < 4 * k,
                0 < k,
        ;
    } else {
        lemma_long(v, rice, 4);
        let p = residual::long_prefix(v, rice, 4);
        let (a, b) = (pow2((p - 3) as nat) as int, pow2((p - 2) as nat) as int);
        lemma_pow2_unfold((p - 2) as nat);
        lemma_pow2_adds((p - 3) as nat, rice as nat);
        assert((b + 2) * k == (a + 2) * k + a * k) by (nonlinear_arith)
            requires
                b == 2 * a,
        ;
    }
}

/// Levels are told apart from each other by their flags alike.
spec fn same_flags(a: Seq<int>, b: Seq<int>) -> bool {
    &&& a.len() == b.len()
    &&& forall|c: int|
        0 <= c < residual::flagged(a) ==> (residual::mag(#[trigger] a[c]) > 1) == (residual::mag(
            b[c],
        ) > 1)
}

proof fn lemma_first_big(a: Seq<int>, b: Seq<int>, c: int)
    requires
        same_flags(a, b),
        0 <= c,
    ensures
        residual::first_big(a, c) == residual::first_big(b, c),
        residual::first_big(a, c) >= 0 ==> c <= residual::first_big(a, c) < residual::flagged(a)
            && residual::mag(a[residual::first_big(a, c)]) > 1,
    decreases residual::flagged(a) - c,
{
    if c < residual::flagged(a) {
        assert((residual::mag(a[c]) > 1) == (residual::mag(b[c]) > 1));
        if residual::mag(a[c]) <= 1 {
            lemma_first_big(a, b, c + 1);
        }
    }
}

/// The remaining levels tell the magnitudes that the flags leave open.
proof fn lemma_rest(
    a: Seq<int>,
    b: Seq<int>,
    c: int,
    rice: int,
    ra: Seq<bins::Bin>,
    rb: Seq<bins::Bin>,
)
    requires
        same_flags(a, b),
        forall|i: int| 0 <= i < a.len() ==> residual::mag(#[trigger] a[i]) >= 1,
        forall|i: int| 0 <= i < b.len() ==> residual::mag(#[trigger] b[i]) >= 1,
        ({
            let f = residual::first_big(a, 0);
            f >= 0 ==> (residual::mag(a[f]) > 2) == (residual::mag(b[f]) > 2)
        }),
        0 <= c <= a.len(),
        0 <= rice,
        residual::rest_bins(a, c, rice) + ra == residual::rest_bins(b, c, rice) + rb,
    ensures
        forall|i: int|
            c <= i < a.len() ==> residual::mag(#[trigger] a[i]) == residual::mag(b[i]),
        ra == rb,
    decreases a.len() - c,
{
    if c < a.len() {
        let f = residual::first_big(a, 0);
        lemma_first_big(a, b, 0);
        let (m, n) = (residual::mag(a[c]), residual::mag(b[c]));
        assert(m >= 1 && n >= 1);
        if c < 8 {
            assert((m > 1) == (n > 1));
        }
        assert(residual::has_rest(a, c) == residual::has_rest(b, c));
        assert(residual::base_level(a, c) == residual::base_level(b, c));
        if residual::has_rest(a, c) {
            let base = residual::base_level(a, c);
            let (ta, tb) = (
                residual::rest_bins(a, c + 1, residual::rice_next(rice, m)),
                residual::rest_bins(b, c + 1, residual::rice_next(rice, n)),
            );
            let (pa, pb) = (
                residual::remaining_bins(m - base, rice),
                residual::remaining_bins(n - base, rice),
            );
            lemma_join(pa, ta, ra);
            lemma_join(pb, tb, rb);
            lemma_remaining(m - base, n - base, rice, ta + ra, tb + rb);
            lemma_rest(a, b, c + 1, residual::rice_next(rice, m), ra, rb);
        } else {
            assert(m == n);
            lemma_rest(a, b, c + 1, rice, ra, rb);
        }
        assert forall|i: int| c <= i < a.len() implies residual::mag(#[trigger] a[i])
            == residual::mag(b[i]) by {
            if i > c {
                assert(residual::mag(a[i]) == residual::mag(b[i]));
            }
        }
    } else {
        assert(residual::rest_bins(a, c, rice) + ra =~= ra);
        assert(residual::rest_bins(b, c, rice) + rb =~= rb);
    }
}

/// Sum of the magnitudes of levels.
pub open spec fn total(v: Seq<int>) -> int
    decreases v.len(),
{
    if v.len() == 0 {
        0
    } else {
        total(v.drop_last()) + residual::mag(v.last())
    }
}

/// The sum of the magnitudes says whether the last level is negative: it is where the
/// sum is odd.
pub open spec fn carries_sign(v: Seq<int>) -> bool {
    (total(v) % 2 == 1) == (v.last() < 0)
}

/// Every sign that is left out of the bins is the one that its sub-block carries.
pub open spec fn signs_carried(b: Block) -> bool {
    b.hide ==> forall|sb: int|
        0 <= sb <= b.last() / 16 ==> {
            let pos = #[trigger] b.positions(sb, b.top(sb));
            pos.len() > 0 && pos[0] - pos.last() > 3 ==> carries_sign(
                residual::levels_at(b.coeffs, pos),
            )
        }
}

proof fn lemma_total(a: Seq<int>, b: Seq<int>)
    requires
        a.len() == b.len(),
        forall|i: int|
            0 <= i < a.len() ==> residual::mag(#[trigger] a[i]) == residual::mag(b[i]),
    ensures
        total(a) == total(b),
    decreases a.len(),
{
    if a.len() > 0 {
        let (x, y) = (a.drop_last(), b.drop_last());
        assert forall|i: int| 0 <= i < x.len() implies residual::mag(#[trigger] x[i])
            == residual::mag(y[i]) by {
            assert(residual::mag(a[i]) == residual::mag(b[i]));
        }
        lemma_total(x, y);
        assert(residual::mag(a[a.len() - 1]) == residual::mag(b[a.len() - 1]));
    }
}

/// The bins of as many levels tell the levels, and where they end.
proof fn lemma_levels(
    a: Seq<int>,
    b: Seq<int>,
    sa: int,
    sb: int,
    is_luma: bool,
    hidden: bool,
    ra: Seq<bins::Bin>,
    rb: Seq<bins::Bin>,
)
    requires
        a.len() == b.len(),
        forall|i: int| 0 <= i < a.len() ==> residual::mag(#[trigger] a[i]) >= 1,
        forall|i: int| 0 <= i < b.len() ==> residual::mag(#[trigger] b[i]) >= 1,
        hidden ==> a.len() > 0 && carries_sign(a) && carries_sign(b),
        residual::level_bins(a, sa, is_luma, hidden) + ra == residual::level_bins(
            b,
            sb,
            is_luma,
            hidden,
        ) + rb,
    ensures
        a == b,
        ra == rb,
{
    let n = a.len() - (if hidden {
        1int
    } else {
        0
    });
    let (g1, h1) = (
        residual::greater1_bins(a, sa, is_luma),
        residual::greater1_bins(b, sb, is_luma),
    );
    let (g2, h2) = (
        residual::greater2_bins(a, sa, is_luma),
        residual::greater2_bins(b, sb, is_luma),
    );
    let (g3, h3) = (residual::sign_bins(a, n), residual::sign_bins(b, n));
    let (g4, h4) = (residual::rest_bins(a, 0, 0), residual::rest_bins(b, 0, 0));
    lemma_join_four(g1, g2, g3, g4, ra);
    lemma_join_four(h1, h2, h3, h4, rb);
    lemma_cut(g1, g2 + (g3 + (g4 + ra)), h1, h2 + (h3 + (h4 + rb)));
    assert forall|c: int| 0 <= c < residual::flagged(a) implies (residual::mag(#[trigger] a[c]) > 1)
        == (residual::mag(b[c]) > 1) by {
        assert(g1[c].bit == (residual::mag(a[c]) > 1));
        assert(h1[c].bit == (residual::mag(b[c]) > 1));
    }
    lemma_first_big(a, b, 0);
    lemma_cut(g2, g3 + (g4 + ra), h2, h3 + (h4 + rb));
    let f = residual::first_big(a, 0);
    if f >= 0 {
        assert(g2[0].bit == (residual::mag(a[f]) > 2));
        assert(h2[0].bit == (residual::mag(b[f]) > 2));
    }
    lemma_cut(g3, g4 + ra, h3, h4 + rb);
    lemma_rest(a, b, 0, 0, ra, rb);
    lemma_total(a, b);
    assert forall|i: int| 0 <= i < a.len() implies #[trigger] a[i] == b[i] by {
        if i < n {
            assert(g3[i] == bins::plain(a[i] < 0));
            assert(h3[i] == bins::plain(b[i] < 0));
        }
        assert(residual::mag(a[i]) == residual::mag(b[i]));
    }
    assert(a =~= b);
}

/// Two blocks that are coded in the same way, with their last level at the same place.
spec fn alike(a: Block, b: Block) -> bool {
    &&& a.log2 == b.log2
    &&& a.is_luma == b.is_luma
    &&& a.scan_idx == b.scan_idx
    &&& a.hide == b.hide
    &&& signs_carried(a)
    &&& signs_carried(b)
    &&& a.last() == b.last()
    &&& a.last() >= 0
    &&& a.coeffs[a.last()] != 0
    &&& b.coeffs[a.last()] != 0
}

/// Position `k` of sub-block `sb` has a level in both blocks or in neither.
spec fn same_sig(a: Block, b: Block, sb: int, k: int) -> bool {
    (a.coeffs[16 * sb + k] != 0) == (b.coeffs[16 * sb + k] != 0)
}

/// The significance flags tell which levels are there, and where they end.
proof fn lemma_sig(
    a: Block,
    b: Block,
    sb: int,
    k: int,
    ra: Seq<bins::Bin>,
    rb: Seq<bins::Bin>,
)
    requires
        alike(a, b),
        0 <= sb,
        -1 <= k < 16,
        a.has_flag(sb) ==> a.nonzero(sb) && b.nonzero(sb),
        forall|i: int| k < i < 16 ==> #[trigger] same_sig(a, b, sb, i),
        a.sig_bins(sb, k) + ra == b.sig_bins(sb, k) + rb,
    ensures
        forall|i: int| 0 <= i < 16 ==> #[trigger] same_sig(a, b, sb, i),
        ra == rb,
    decreases k + 1,
{
    if k < 0 {
        assert(a.sig_bins(sb, k) + ra =~= ra);
        assert(b.sig_bins(sb, k) + rb =~= rb);
    } else {
        assert(a.inferred(sb, k) == b.inferred(sb, k)) by {
            if k == 0 {
                assert forall|i: int| 1 <= i < 16 implies (#[trigger] a.coeffs[16 * sb + i] == 0)
                    == (b.coeffs[16 * sb + i] == 0) by {
                    assert(same_sig(a, b, sb, i));
                }
                assert forall|i: int| 1 <= i < 16 implies (#[trigger] b.coeffs[16 * sb + i] == 0)
                    == (a.coeffs[16 * sb + i] == 0) by {
                    assert(same_sig(a, b, sb, i));
                }
            }
        }
        if a.inferred(sb, k) {
            assert(same_sig(a, b, sb, k)) by {
                if 16 * sb + k != a.last() {
                    let i = choose|i: int| 0 <= i < 16 && #[trigger] a.coeffs[16 * sb + i] != 0;
                    let j = choose|j: int| 0 <= j < 16 && #[trigger] b.coeffs[16 * sb + j] != 0;
                    assert(i == 0 && j == 0);
                }
            }
            lemma_sig(a, b, sb, k - 1, ra, rb);
        } else {
            let (x, y) = (seq![a.sig_bin(sb, k)], seq![b.sig_bin(sb, k)]);
            let (ta, tb) = (a.sig_bins(sb, k - 1), b.sig_bins(sb, k - 1));
            lemma_join(x, ta, ra);
            lemma_join(y, tb, rb);
            lemma_cut(x, ta + ra, y, tb + rb);
            assert(x[0] == y[0]);
            assert(same_sig(a, b, sb, k));
            lemma_sig(a, b, sb, k - 1, ra, rb);
        }
    }
}

/// Where the same levels are there, they are listed at the same places.
proof fn lemma_positions(a: Block, b: Block, sb: int, k: int)
    requires
        0 <= sb,
        -1 <= k < 16,
        16 * sb + 16 <= a.coeffs.len(),
        16 * sb + 16 <= usize::MAX,
        forall|i: int| 0 <= i < 16 ==> #[trigger] same_sig(a, b, sb, i),
    ensures
        a.positions(sb, k) == b.positions(sb, k),
        forall|i: int|
            0 <= i < a.positions(sb, k).len() ==> {
                let p = #[trigger] a.positions(sb, k)[i] as int;
                &&& 16 * sb <= p <= 16 * sb + k
                &&& a.coeffs[p] != 0
                &&& b.coeffs[p] != 0
            },
        forall|j: int|
            0 <= j <= k && a.coeffs[16 * sb + j] != 0 ==> #[trigger] a.positions(sb, k).contains(
                (16 * sb + j) as usize,
            ),
    decreases k + 1,
{
    if k >= 0 {
        lemma_positions(a, b, sb, k - 1);
        assert(same_sig(a, b, sb, k));
        let rest = a.positions(sb, k - 1);
        let all = a.positions(sb, k);
        if a.coeffs[16 * sb + k] != 0 {
            let p = (16 * sb + k) as usize;
            assert(all == seq![p] + rest);
            assert forall|i: int| 0 <= i < all.len() implies {
                let p = #[trigger] all[i] as int;
                &&& 16 * sb <= p <= 16 * sb + k
                &&& a.coeffs[p] != 0
                &&& b.coeffs[p] != 0
            } by {
                if i > 0 {
                    assert(all[i] == rest[i - 1]);
                }
            }
            assert forall|j: int| 0 <= j <= k && a.coeffs[16 * sb + j] != 0 implies #[trigger] all.contains(
                (16 * sb + j) as usize,
            ) by {
                if j == k {
                    assert(all[0] == p);
                } else {
                    let q = (16 * sb + j) as usize;
                    assert(rest.contains(q));
                    let i = choose|i: int| 0 <= i < rest.len() && rest[i] == q;
                    assert(all[i + 1] == q);
                }
            }
        }
    }
}

/// The levels of sub-block `sb` are equal.
spec fn same_levels(a: Block, b: Block, sb: int) -> bool {
    forall|k: int| 0 <= k < 16 ==> #[trigger] a.coeffs[16 * sb + k] == b.coeffs[16 * sb + k]
}

/// Bins of the levels of a coded sub-block.
spec fn levels_of(b: Block, sb: int, c1: int) -> Seq<bins::Bin> {
    let pos = b.positions(sb, b.top(sb));
    if pos.len() == 0 {
        Seq::empty()
    } else {
        residual::level_bins(
            residual::levels_at(b.coeffs, pos),
            b.set(sb, c1),
            b.is_luma,
            b.hide && pos[0] - pos.last() > 3,
        )
    }
}

/// The bins of a coded sub-block tell its levels, and where they end.
proof fn lemma_coded(
    a: Block,
    b: Block,
    sb: int,
    ca: int,
    cb: int,
    ra: Seq<bins::Bin>,
    rb: Seq<bins::Bin>,
)
    requires
        alike(a, b),
        0 <= sb <= a.last() / 16,
        16 * sb + 16 <= a.coeffs.len(),
        16 * sb + 16 <= b.coeffs.len(),
        16 * sb + 16 <= usize::MAX,
        forall|i: int|
            a.last() < i < 16 * sb + 16 ==> #[trigger] a.coeffs[i] == 0 && b.coeffs[i] == 0,
        forall|i: int| 0 <= i < 16 ==> #[trigger] same_sig(a, b, sb, i),
        levels_of(a, sb, ca) + ra == levels_of(b, sb, cb) + rb,
    ensures
        same_levels(a, b, sb),
        ra == rb,
{
    let top = a.top(sb);
    let (pa, pb) = (a.positions(sb, top), b.positions(sb, top));
    let (va, vb) = (residual::levels_at(a.coeffs, pa), residual::levels_at(b.coeffs, pb));
    lemma_positions(a, b, sb, top);
    if pa.len() == 0 {
        assert(levels_of(a, sb, ca) + ra =~= ra && levels_of(b, sb, cb) + rb =~= rb);
    } else {
        assert forall|i: int| 0 <= i < va.len() implies residual::mag(#[trigger] va[i]) >= 1 by {
            assert(a.coeffs[pa[i] as int] != 0);
        }
        assert forall|i: int| 0 <= i < vb.len() implies residual::mag(#[trigger] vb[i]) >= 1 by {
            assert(b.coeffs[pa[i] as int] != 0);
        }
        lemma_levels(
            va,
            vb,
            a.set(sb, ca),
            b.set(sb, cb),
            a.is_luma,
            a.hide && pa[0] - pa.last() > 3,
            ra,
            rb,
        );
    }
    assert forall|k: int| 0 <= k < 16 implies #[trigger] a.coeffs[16 * sb + k] == b.coeffs[16 * sb
        + k] by {
        assert(same_sig(a, b, sb, k));
        if k <= top && a.coeffs[16 * sb + k] != 0 {
            let p = (16 * sb + k) as usize;
            assert(pa.contains(p));
            let i = choose|i: int| 0 <= i < pa.len() && pa[i] == p;
            assert(va[i] == a.coeffs[p as int] && vb[i] == b.coeffs[p as int]);
        } else if k > top {
            assert(a.coeffs[16 * sb + k] == 0 && b.coeffs[16 * sb + k] == 0);
        }
    }
}

/// The bins of a sub-block tell its levels, and where they end.
proof fn lemma_sub_block(
    a: Block,
    b: Block,
    sb: int,
    ca: int,
    cb: int,
    ra: Seq<bins::Bin>,
    rb: Seq<bins::Bin>,
)
    requires
        alike(a, b),
        0 <= sb <= a.last() / 16,
        16 * sb + 16 <= a.coeffs.len(),
        16 * sb + 16 <= b.coeffs.len(),
        16 * sb + 16 <= usize::MAX,
        forall|i: int|
            a.last() < i < 16 * sb + 16 ==> #[trigger] a.coeffs[i] == 0 && b.coeffs[i] == 0,
        a.sb_bins(sb, ca) + ra == b.sb_bins(sb, cb) + rb,
    ensures
        same_levels(a, b, sb),
        ra == rb,
{
    let top = a.top(sb);
    let (fa, fb) = (flag_of(a, sb), flag_of(b, sb));
    let (na, nb) = (
        a.sb_bins(sb, ca).skip(fa.len() as int),
        b.sb_bins(sb, cb).skip(fb.len() as int),
    );
    lemma_flag(a, sb, ca);
    lemma_flag(b, sb, cb);
    lemma_join(fa, na, ra);
    lemma_join(fb, nb, rb);
    lemma_cut(fa, na + ra, fb, nb + rb);
    if a.has_flag(sb) && !a.nonzero(sb) {
        assert(na + ra =~= ra && nb + rb =~= rb);
        assert forall|k: int| 0 <= k < 16 implies #[trigger] a.coeffs[16 * sb + k] == b.coeffs[16
            * sb + k] by {
            assert(!(a.coeffs[16 * sb + k] != 0));
            assert(!(b.coeffs[16 * sb + k] != 0));
        }
    } else {
        let (ga, gb) = (a.sig_bins(sb, top), b.sig_bins(sb, top));
        let (ta, tb) = (levels_of(a, sb, ca), levels_of(b, sb, cb));
        lemma_join(ga, ta, ra);
        lemma_join(gb, tb, rb);
        assert forall|i: int| top < i < 16 implies #[trigger] same_sig(a, b, sb, i) by {
            assert(a.coeffs[16 * sb + i] == 0 && b.coeffs[16 * sb + i] == 0);
        }
        lemma_sig(a, b, sb, top, ta + ra, tb + rb);
        lemma_coded(a, b, sb, ca, cb, ra, rb);
    }
}

/// The flag that says whether a sub-block is coded, where there is one.
spec fn flag_of(b: Block, sb: int) -> Seq<bins::Bin> {
    if b.has_flag(sb) {
        b.sb_bins(sb, 0).take(1)
    } else {
        Seq::empty()
    }
}

/// The bins of a sub-block start with its flag, and what follows is about its levels.
proof fn lemma_flag(b: Block, sb: int, c1: int)
    ensures
        ({
            let f = flag_of(b, sb);
            let rest = b.sb_bins(sb, c1).skip(f.len() as int);
            &&& b.sb_bins(sb, c1) == f + rest
            &&& f.len() == (if b.has_flag(sb) {
                1int
            } else {
                0
            })
            &&& b.has_flag(sb) ==> f[0].bit == b.nonzero(sb)
            &&& rest == (if b.has_flag(sb) && !b.nonzero(sb) {
                Seq::empty()
            } else {
                b.sig_bins(sb, b.top(sb)) + levels_of(b, sb, c1)
            })
        }),
{
    let f = flag_of(b, sb);
    let s = b.sb_bins(sb, c1);
    let rest = s.skip(f.len() as int);
    if b.has_flag(sb) {
        assert(b.sb_bins(sb, 0).len() >= 1 && s.len() >= 1);
        assert(b.sb_bins(sb, 0)[0] == s[0]);
        assert(f =~= s.take(1));
    }
    assert(s =~= f + rest);
    if b.has_flag(sb) && !b.nonzero(sb) {
        assert(rest =~= Seq::empty());
    } else {
        assert(rest =~= b.sig_bins(sb, b.top(sb)) + levels_of(b, sb, c1));
    }
}

/// The bins of the sub-blocks from one down tell their levels.
proof fn lemma_walk(
    a: Block,
    b: Block,
    sb: int,
    ca: int,
    cb: int,
)
    requires
        alike(a, b),
        -1 <= sb <= a.last() / 16,
        16 * sb + 16 <= a.coeffs.len(),
        16 * sb + 16 <= b.coeffs.len(),
        16 * sb + 16 <= usize::MAX,
        forall|i: int|
            a.last() < i < 16 * sb + 16 ==> #[trigger] a.coeffs[i] == 0 && b.coeffs[i] == 0,
        a.walk_bins(sb, ca) == b.walk_bins(sb, cb),
    ensures
        forall|s: int| 0 <= s <= sb ==> #[trigger] same_levels(a, b, s),
    decreases sb + 1,
{
    if sb >= 0 {
        let (na, nb) = (a.c1_after(sb, ca), b.c1_after(sb, cb));
        lemma_sub_block(
            a,
            b,
            sb,
            ca,
            cb,
            a.walk_bins(sb - 1, na),
            b.walk_bins(sb - 1, nb),
        );
        lemma_walk(a, b, sb - 1, na, nb);
    }
}

/// A coordinate of the last level is told by its group and its place in it.
proof fn lemma_group(v: int, w: int)
    requires
        0 <= v < 32,
        0 <= w < 32,
        residual::GROUP_IDX@[v] == residual::GROUP_IDX@[w],
        residual::last_suffix_bins(v) == residual::last_suffix_bins(w),
    ensures
        v == w,
{
    let g = residual::GROUP_IDX@[v] as int;
    let n = (g - 2) / 2;
    let m = residual::MIN_IN_GROUP@[g] as int;
    lemma2_to64();
    assert(forall|i: int|
        0 <= i < 32 ==> {
            let h = #[trigger] residual::GROUP_IDX@[i] as int;
            &&& 0 <= h < 10
            &&& h <= 3 ==> i == h
            &&& h == 4 ==> i == 4 || i == 5
            &&& h == 5 ==> i == 6 || i == 7
            &&& h == 6 ==> 8 <= i < 12
            &&& h == 7 ==> 12 <= i < 16
            &&& h == 8 ==> 16 <= i < 24
            &&& h == 9 ==> 24 <= i < 32
        });
    assert(residual::GROUP_IDX@[w] == g);
    if g > 3 {
        assert(0 <= v - m < pow2(n as nat) && 0 <= w - m < pow2(n as nat));
        let (x, y) = (bitseq::low_bits(v - m, n), bitseq::low_bits(w - m, n));
        let (p, q) = (bins::plain_bits(x), bins::plain_bits(y));
        assert(p == q);
        assert forall|i: int| 0 <= i < x.len() implies #[trigger] x[i] == y[i] by {
            assert(p[i] == bins::plain(x[i]));
            assert(q[i] == bins::plain(y[i]));
        }
        assert(x =~= y);
        lemma_low_bits_tell(v - m, w - m, n);
    }
}

/// The suffix of a coordinate of a known group tells the coordinate, and where it ends.
proof fn lemma_suffix(v: int, w: int, ra: Seq<bins::Bin>, rb: Seq<bins::Bin>)
    requires
        0 <= v < 32,
        0 <= w < 32,
        residual::GROUP_IDX@[v] == residual::GROUP_IDX@[w],
        residual::last_suffix_bins(v) + ra == residual::last_suffix_bins(w) + rb,
    ensures
        v == w,
        ra == rb,
{
    lemma_cut(residual::last_suffix_bins(v), ra, residual::last_suffix_bins(w), rb);
    lemma_group(v, w);
}

/// The prefix of a coordinate tells its group, and where it ends.
proof fn lemma_prefix(
    first: int,
    v: int,
    w: int,
    log2: int,
    is_luma: bool,
    ra: Seq<bins::Bin>,
    rb: Seq<bins::Bin>,
)
    requires
        2 <= log2 <= 5,
        0 <= v < scan::side(log2),
        0 <= w < scan::side(log2),
        residual::last_prefix_bins(first, v, log2, is_luma) + ra == residual::last_prefix_bins(
            first,
            w,
            log2,
            is_luma,
        ) + rb,
    ensures
        residual::GROUP_IDX@[v] == residual::GROUP_IDX@[w],
        ra == rb,
{
    let (g, h) = (residual::GROUP_IDX@[v] as int, residual::GROUP_IDX@[w] as int);
    let (x, y) = (
        residual::last_prefix_bins(first, v, log2, is_luma),
        residual::last_prefix_bins(first, w, log2, is_luma),
    );
    let top = residual::GROUP_IDX@[scan::side(log2) - 1] as int;
    lemma_groups_grow(v, scan::side(log2) - 1);
    lemma_groups_grow(w, scan::side(log2) - 1);
    let (s, t) = (x + ra, y + rb);
    if g < h {
        assert(s[g] == x[g] && !x[g].bit);
        assert(t[g] == y[g] && y[g].bit);
    } else if h < g {
        assert(s[h] == x[h] && x[h].bit);
        assert(t[h] == y[h] && !y[h].bit);
    }
    lemma_cut(x, ra, y, rb);
}

proof fn lemma_groups_grow(v: int, w: int)
    requires
        0 <= v <= w < 32,
    ensures
        residual::GROUP_IDX@[v] <= residual::GROUP_IDX@[w],
{
    assert(forall|i: int, j: int|
        0 <= i <= j < 32 ==> #[trigger] residual::GROUP_IDX@[i] <= #[trigger] residual::GROUP_IDX@[j]);
}

/// The bins of the place of the last level tell the place, and where they end.
proof fn lemma_place(
    x: int,
    y: int,
    u: int,
    v: int,
    log2: int,
    is_luma: bool,
    ra: Seq<bins::Bin>,
    rb: Seq<bins::Bin>,
)
    requires
        2 <= log2 <= 5,
        0 <= x < scan::side(log2),
        0 <= y < scan::side(log2),
        0 <= u < scan::side(log2),
        0 <= v < scan::side(log2),
        residual::last_bins(x, y, log2, is_luma) + ra == residual::last_bins(u, v, log2, is_luma)
            + rb,
    ensures
        x == u,
        y == v,
        ra == rb,
{
    let (fx, fy) = (
        crate::cabac::contexts::LAST_X_PREFIX as int,
        crate::cabac::contexts::LAST_Y_PREFIX as int,
    );
    let (a1, b1) = (
        residual::last_prefix_bins(fx, x, log2, is_luma),
        residual::last_prefix_bins(fx, u, log2, is_luma),
    );
    let (a2, b2) = (
        residual::last_prefix_bins(fy, y, log2, is_luma),
        residual::last_prefix_bins(fy, v, log2, is_luma),
    );
    let (a3, b3) = (residual::last_suffix_bins(x), residual::last_suffix_bins(u));
    let (a4, b4) = (residual::last_suffix_bins(y), residual::last_suffix_bins(v));
    lemma_join_four(a1, a2, a3, a4, ra);
    lemma_join_four(b1, b2, b3, b4, rb);
    lemma_prefix(fx, x, u, log2, is_luma, a2 + (a3 + (a4 + ra)), b2 + (b3 + (b4 + rb)));
    lemma_prefix(fy, y, v, log2, is_luma, a3 + (a4 + ra), b3 + (b4 + rb));
    lemma_suffix(x, u, a4 + ra, b4 + rb);
    lemma_suffix(y, v, ra, rb);
}

/// Two blocks that are coded in the same way, that each have a level, and whose hidden
/// signs are the ones that their sub-blocks carry, have the same bins exactly where their
/// levels are the same. What stands behind the levels of a block does not matter.
pub proof fn law_bins_tell_the_levels(a: Block, b: Block)
    requires
        scan::scan_ok(a.log2, a.scan_idx),
        a.log2 == b.log2,
        a.is_luma == b.is_luma,
        a.scan_idx == b.scan_idx,
        a.hide == b.hide,
        signs_carried(a),
        signs_carried(b),
        a.coeffs.len() >= scan::area(a.log2),
        b.coeffs.len() >= scan::area(a.log2),
        a.last() >= 0,
        b.last() >= 0,
    ensures
        a.bins() == b.bins() <==> forall|k: int|
            0 <= k < scan::area(a.log2) ==> #[trigger] a.coeffs[k] == b.coeffs[k],
{
    let n = scan::area(a.log2);
    let log2 = a.log2;
    residual::lemma_last_nonzero(a.coeffs, n);
    residual::lemma_last_nonzero(b.coeffs, n);
    if a.bins() == b.bins() {
        let (p, q) = (
            scan::scan_pos(log2, a.scan_idx, a.last()),
            scan::scan_pos(log2, a.scan_idx, b.last()),
        );
        scan::law_scan_is_a_bijection(log2, a.scan_idx);
        let (wa, wb) = (a.walk_bins(a.last() / 16, 1), b.walk_bins(b.last() / 16, 1));
        if a.scan_idx == 2 {
            lemma_place(p.0, p.1, q.0, q.1, log2, a.is_luma, wa, wb);
        } else {
            lemma_place(p.1, p.0, q.1, q.0, log2, a.is_luma, wa, wb);
        }
        assert(a.last() == b.last());
        let sb = a.last() / 16;
        assert(16 * sb + 16 <= n);
        lemma_walk(a, b, sb, 1, 1);
        assert forall|k: int| 0 <= k < n implies #[trigger] a.coeffs[k] == b.coeffs[k] by {
            if k <= a.last() {
                assert(same_levels(a, b, k / 16));
                assert(16 * (k / 16) + k % 16 == k);
            }
        }
    }
    if forall|k: int| 0 <= k < n ==> #[trigger] a.coeffs[k] == b.coeffs[k] {
        lemma_same_bins(a, b);
    }
}

/// The bins depend on the levels alone.
proof fn lemma_same_bins(a: Block, b: Block)
    requires
        scan::scan_ok(a.log2, a.scan_idx),
        a.log2 == b.log2,
        a.is_luma == b.is_luma,
        a.scan_idx == b.scan_idx,
        a.hide == b.hide,
        a.coeffs.len() >= scan::area(a.log2),
        b.coeffs.len() >= scan::area(a.log2),
        forall|k: int|
            0 <= k < scan::area(a.log2) ==> #[trigger] a.coeffs[k] == b.coeffs[k],
    ensures
        a.bins() == b.bins(),
{
    let n = scan::area(a.log2);
    lemma_same_last(a.coeffs, b.coeffs, n);
    residual::lemma_last_nonzero(a.coeffs, n);
    if a.last() >= 0 {
        lemma_same_walk(a, b, a.last() / 16, 1);
    }
}

proof fn lemma_same_last(a: Seq<i16>, b: Seq<i16>, n: int)
    requires
        forall|k: int| 0 <= k < n ==> #[trigger] a[k] == b[k],
    ensures
        residual::last_nonzero(a, n) == residual::last_nonzero(b, n),
    decreases n,
{
    if n > 0 {
        assert(a[n - 1] == b[n - 1]);
        lemma_same_last(a, b, n - 1);
    }
}

proof fn lemma_same_nonzero(a: Block, b: Block, sb: int)
    requires
        0 <= sb,
        16 * sb + 16 <= scan::area(a.log2),
        forall|k: int|
            0 <= k < scan::area(a.log2) ==> #[trigger] a.coeffs[k] == b.coeffs[k],
    ensures
        a.nonzero(sb) == b.nonzero(sb),
{
    if a.nonzero(sb) {
        let k = choose|k: int| 0 <= k < 16 && #[trigger] a.coeffs[16 * sb + k] != 0;
        assert(b.coeffs[16 * sb + k] != 0);
    }
    if b.nonzero(sb) {
        let k = choose|k: int| 0 <= k < 16 && #[trigger] b.coeffs[16 * sb + k] != 0;
        assert(a.coeffs[16 * sb + k] != 0);
    }
}

proof fn lemma_same_nonzero_at(a: Block, b: Block, x: int, y: int)
    requires
        scan::scan_ok(a.log2, a.scan_idx),
        a.log2 == b.log2,
        a.scan_idx == b.scan_idx,
        forall|k: int|
            0 <= k < scan::area(a.log2) ==> #[trigger] a.coeffs[k] == b.coeffs[k],
    ensures
        a.nonzero_at(x, y) == b.nonzero_at(x, y),
{
    assert forall|sb: int| 0 <= sb < scan::num_sb(a.log2) implies #[trigger] a.nonzero(sb)
        == b.nonzero(sb) by {
        lemma_same_nonzero(a, b, sb);
    }
    if a.nonzero_at(x, y) {
        let sb = choose|sb: int|
            0 <= sb < scan::num_sb(a.log2) && #[trigger] scan::sb_pos(a.log2, a.scan_idx, sb) == (
                x,
                y,
            ) && a.nonzero(sb);
        assert(b.nonzero(sb));
        assert(scan::sb_pos(b.log2, b.scan_idx, sb) == (x, y));
    }
    if b.nonzero_at(x, y) {
        let sb = choose|sb: int|
            0 <= sb < scan::num_sb(b.log2) && #[trigger] scan::sb_pos(b.log2, b.scan_idx, sb) == (
                x,
                y,
            ) && b.nonzero(sb);
        assert(a.nonzero(sb));
        assert(scan::sb_pos(a.log2, a.scan_idx, sb) == (x, y));
    }
}

proof fn lemma_same_sig_bins(a: Block, b: Block, sb: int, k: int)
    requires
        a.log2 == b.log2,
        a.is_luma == b.is_luma,
        a.scan_idx == b.scan_idx,
        a.last() == b.last(),
        a.prev_csbf(sb) == b.prev_csbf(sb),
        same_levels(a, b, sb),
        -1 <= k < 16,
    ensures
        a.sig_bins(sb, k) == b.sig_bins(sb, k),
        a.positions(sb, k) == b.positions(sb, k),
    decreases k + 1,
{
    if k >= 0 {
        assert(a.coeffs[16 * sb + k] == b.coeffs[16 * sb + k]);
        assert(a.inferred(sb, k) == b.inferred(sb, k)) by {
            assert forall|i: int| 1 <= i < 16 implies #[trigger] a.coeffs[16 * sb + i]
                == b.coeffs[16 * sb + i] by {}
            assert forall|i: int| 1 <= i < 16 implies #[trigger] b.coeffs[16 * sb + i]
                == a.coeffs[16 * sb + i] by {
                assert(a.coeffs[16 * sb + i] == b.coeffs[16 * sb + i]);
            }
        }
        lemma_same_sig_bins(a, b, sb, k - 1);
    }
}

proof fn lemma_same_walk(a: Block, b: Block, sb: int, c1: int)
    requires
        scan::scan_ok(a.log2, a.scan_idx),
        a.log2 == b.log2,
        a.is_luma == b.is_luma,
        a.scan_idx == b.scan_idx,
        a.hide == b.hide,
        a.last() == b.last(),
        -1 <= sb,
        16 * sb + 16 <= scan::area(a.log2) <= usize::MAX,
        a.coeffs.len() >= scan::area(a.log2),
        b.coeffs.len() >= scan::area(a.log2),
        forall|k: int|
            0 <= k < scan::area(a.log2) ==> #[trigger] a.coeffs[k] == b.coeffs[k],
    ensures
        a.walk_bins(sb, c1) == b.walk_bins(sb, c1),
    decreases sb + 1,
{
    if sb >= 0 {
        let p = scan::sb_pos(a.log2, a.scan_idx, sb);
        lemma_same_nonzero_at(a, b, p.0 + 1, p.1);
        lemma_same_nonzero_at(a, b, p.0, p.1 + 1);
        lemma_same_nonzero(a, b, sb);
        assert(same_levels(a, b, sb));
        let top = a.top(sb);
        lemma_same_sig_bins(a, b, sb, top);
        let pos = a.positions(sb, top);
        assert forall|i: int| 0 <= i < 16 implies #[trigger] same_sig(a, b, sb, i) by {
            assert(a.coeffs[16 * sb + i] == b.coeffs[16 * sb + i]);
        }
        lemma_positions(a, b, sb, top);
        assert(residual::levels_at(a.coeffs, pos) =~= residual::levels_at(b.coeffs, pos));
        assert(a.sb_bins(sb, c1) == b.sb_bins(sb, c1));
        lemma_same_walk(a, b, sb - 1, a.c1_after(sb, c1));
    }
}

} // verus!
