//! What a reader finds in the bins of numbers: it counts the set bins in front, and reads as
//! many more as that count asks for.
use crate::bitseq;
use crate::bitwriter;
use crate::cabac::bins::Bin;
use crate::cabac::{bins, faithful, residual};
use crate::cuqp;
use vstd::arithmetic::power2::*;
use vstd::prelude::*;

verus! {

/// How many bins in front are set.
pub open spec fn set_in_front(b: Seq<Bin>) -> int
    decreases b.len(),
{
    if b.len() == 0 || !b[0].bit {
        0
    } else {
        1 + set_in_front(b.skip(1))
    }
}

/// The number that `n` bins from `at` on spell.
pub open spec fn number(b: Seq<Bin>, at: int, n: int) -> int {
    bitseq::value(Seq::new(n as nat, |i: int| b[at + i].bit))
}

/// Reads the rest of a level: up to three set bins are the quotient by two to `rice`, and
/// each one more doubles the range. Gives the number and how many bins it took.
pub open spec fn read_remaining(b: Seq<Bin>, rice: int) -> (int, int) {
    let p = set_in_front(b);
    let unit = pow2(rice as nat) as int;
    if p <= 3 {
        (p * unit + number(b, p + 1, rice), p + 1 + rice)
    } else {
        let more = p - 3 + rice;
        (
            (pow2((p - 3) as nat) + 2) * unit + number(b, p + 1, more),
            p + 1 + more,
        )
    }
}

/// Reads the change of a quantisation parameter: up to five set bins count, an Exp-Golomb
/// number goes on from five, and a sign follows what is not nothing.
pub open spec fn read_change(b: Seq<Bin>) -> (int, int) {
    let p = set_in_front(b);
    let (size, used) = if p < 5 {
        (p, p + 1)
    } else {
        let q = p - 5;
        (5 + pow2(q as nat) - 1 + number(b, p + 1, q), p + 1 + q)
    };
    if size == 0 {
        (0, used)
    } else if b[used].bit {
        (-size, used + 1)
    } else {
        (size, used + 1)
    }
}

proof fn lemma_set(b: Seq<Bin>, n: int)
    requires
        0 <= n < b.len(),
        forall|i: int| 0 <= i < n ==> (#[trigger] b[i]).bit,
        !b[n].bit,
    ensures
        set_in_front(b) == n,
    decreases n,
{
    if n > 0 {
        let c = b.skip(1);
        assert(b[0].bit);
        assert forall|i: int| 0 <= i < n - 1 implies (#[trigger] c[i]).bit by {
            assert(b[i + 1].bit);
        }
        assert(!c[n - 1].bit);
        lemma_set(c, n - 1);
    }
}

/// The low bits of a number spell its remainder.
proof fn lemma_low(x: int, n: int)
    requires
        0 <= n,
        0 <= x,
    ensures
        bitseq::value(bitseq::low_bits(x, n)) == x % pow2(n as nat) as int,
    decreases n,
{
    lemma2_to64();
    if n == 0 {
        assert(bitseq::low_bits(x, n) =~= Seq::empty());
    } else {
        let b = x % 2 == 1;
        let m = pow2((n - 1) as nat) as int;
        lemma_pow2_unfold(n as nat);
        lemma_pow2_pos((n - 1) as nat);
        bitseq::lemma_low_bits_push(x / 2, n - 1, b);
        assert(2 * (x / 2) + bitseq::bit(b) == x);
        lemma_low(x / 2, n - 1);
        bitseq::lemma_value_push(bitseq::low_bits(x / 2, n - 1), b);
        assert(2 * ((x / 2) % m) + x % 2 == x % (2 * m)) by (nonlinear_arith)
            requires
                0 < m,
                0 <= x,
        {
            let h = x / 2;
            let (d, e) = (h / m, h % m);
            assert(h == m * d + e && 0 <= e < m);
            assert(x == (2 * m) * d + (2 * e + x % 2));
            vstd::arithmetic::div_mod::lemma_fundamental_div_mod_converse(
                x,
                2 * m,
                d,
                2 * e + x % 2,
            );
        }
    }
}

/// Bits that stand from `at` on are read as they are.
proof fn lemma_number(b: Seq<Bin>, at: int, bits: Seq<bool>)
    requires
        0 <= at,
        at + bits.len() <= b.len(),
        forall|i: int| 0 <= i < bits.len() ==> (#[trigger] b[at + i]).bit == bits[i],
    ensures
        number(b, at, bits.len() as int) == bitseq::value(bits),
{
    assert(Seq::new(bits.len(), |i: int| b[at + i].bit) =~= bits);
}

/// The bins of the rest of a level tell it, whatever follows.
pub proof fn law_remaining_reads_back(value: int, rice: int, more: Seq<Bin>)
    requires
        0 <= value,
        0 <= rice,
    ensures
        read_remaining(residual::remaining_bins(value, rice) + more, rice) == (
            value,
            residual::remaining_bins(value, rice).len() as int,
        ),
{
    let k = pow2(rice as nat) as int;
    lemma_pow2_pos(rice as nat);
    faithful::lemma_prefix_range(value, rice);
    let short = value < 4 * k;
    let p = if short {
        value / k
    } else {
        residual::long_prefix(value, rice, 4)
    };
    let (rest, width) = if short {
        (value, rice)
    } else {
        (value - (pow2((p - 3) as nat) + 2) * k, p - 3 + rice)
    };
    let low = bitseq::low_bits(rest, width);
    let bits = bitseq::run(true, p) + seq![false] + low;
    let b = residual::remaining_bins(value, rice) + more;
    assert(residual::remaining_bins(value, rice) == bins::plain_bits(bits));
    assert forall|i: int| 0 <= i < bits.len() implies (#[trigger] b[i]).bit == bits[i] by {}
    assert forall|i: int| 0 <= i < p implies (#[trigger] b[i]).bit by {
        assert(b[i].bit == bits[i]);
    }
    assert(b[p].bit == bits[p]);
    lemma_set(b, p);
    assert forall|i: int| 0 <= i < low.len() implies (#[trigger] b[p + 1 + i]).bit == low[i] by {
        assert(b[p + 1 + i].bit == bits[p + 1 + i]);
    }
    lemma_number(b, p + 1, low);
    lemma_low(rest, width);
    if short {
        vstd::arithmetic::div_mod::lemma_fundamental_div_mod(value, k);
        assert(k * (value / k) == (value / k) * k) by (nonlinear_arith);
    } else {
        vstd::arithmetic::div_mod::lemma_small_mod(rest as nat, pow2(width as nat));
    }
}

/// The bins of a change of the quantisation parameter tell it, whatever follows.
pub proof fn law_a_change_reads_back(delta: int, more: Seq<Bin>)
    ensures
        read_change(cuqp::delta_bins(delta) + more) == (
            delta,
            cuqp::delta_bins(delta).len() as int,
        ),
{
    let size = cuqp::abs(delta);
    let b = cuqp::delta_bins(delta) + more;
    let front = cuqp::abs_bins(size);
    assert forall|i: int| 0 <= i < front.len() implies #[trigger] b[i] == front[i] by {}
    if size < 5 {
        assert(front.len() == size + 1);
        assert forall|i: int| 0 <= i < size implies (#[trigger] b[i]).bit by {
            assert(b[i] == front[i]);
        }
        assert(b[size] == front[size]);
        lemma_set(b, size);
        if delta != 0 {
            assert(b[size + 1].bit == (delta < 0));
        }
    } else {
        let value = size - 4;
        let q = bitwriter::log2_floor(value);
        bitwriter::lemma_log2_floor(value);
        let low = bitseq::low_bits(value, q);
        assert(front.len() == 5 + q + 1 + q);
        let p = 5 + q;
        assert forall|i: int| 0 <= i < p implies (#[trigger] b[i]).bit by {
            assert(b[i] == front[i]);
        }
        assert(b[p] == front[p]);
        lemma_set(b, p);
        assert forall|i: int| 0 <= i < low.len() implies (#[trigger] b[p + 1 + i]).bit
            == low[i] by {
            assert(b[p + 1 + i] == front[p + 1 + i]);
        }
        lemma_number(b, p + 1, low);
        lemma_low(value, q);
        lemma_pow2_unfold((q + 1) as nat);
        let m = pow2(q as nat) as int;
        vstd::arithmetic::div_mod::lemma_fundamental_div_mod_converse(value, m, 1, value - m);
        assert(b[p + 1 + q].bit == (delta < 0));
    }
}

} // verus!
