//! Sequences of bits, the numbers they spell, and the bytes that carry them.
use vstd::arithmetic::power2::*;
use vstd::prelude::*;

verus! {

/// One bit as a number.
pub open spec fn bit(b: bool) -> int {
    if b {
        1
    } else {
        0
    }
}

/// The number that `bits` spells, most significant bit first.
pub open spec fn value(bits: Seq<bool>) -> int
    decreases bits.len(),
{
    if bits.len() == 0 {
        0
    } else {
        2 * value(bits.drop_last()) + bit(bits.last())
    }
}

/// Bit `k` of `x`, where bit 0 is the least significant one.
pub open spec fn bit_of(x: int, k: int) -> bool {
    (x / pow2(k as nat) as int) % 2 == 1
}

/// The `n` low bits of `x`, most significant bit first.
pub open spec fn low_bits(x: int, n: int) -> Seq<bool> {
    Seq::new(n as nat, |i: int| bit_of(x, n - 1 - i))
}

/// The bits of a byte string, each byte most significant bit first.
pub open spec fn of_bytes(bytes: Seq<u8>) -> Seq<bool> {
    Seq::new(8 * bytes.len(), |i: int| bit_of(bytes[i / 8] as int, 7 - i % 8))
}

/// `n` copies of the bit `b`.
pub open spec fn run(b: bool, n: int) -> Seq<bool> {
    Seq::new(n as nat, |i: int| b)
}

pub proof fn lemma_value_push(bits: Seq<bool>, b: bool)
    ensures
        value(bits.push(b)) == 2 * value(bits) + bit(b),
{
    assert(bits.push(b).drop_last() =~= bits);
}

/// Appending shifts the first number up by the length of the second.
pub proof fn lemma_value_add(a: Seq<bool>, b: Seq<bool>)
    ensures
        value(a + b) == value(a) * pow2(b.len()) + value(b),
    decreases b.len(),
{
    lemma2_to64();
    if b.len() == 0 {
        assert(a + b =~= a);
        assert(value(a) * 1 == value(a));
    } else {
        assert((a + b).drop_last() =~= a + b.drop_last());
        lemma_value_add(a, b.drop_last());
        lemma_pow2_unfold(b.len());
        let p = pow2((b.len() - 1) as nat) as int;
        assert(2 * (value(a) * p) == value(a) * (2 * p)) by (nonlinear_arith);
    }
}

/// A number of `n` bits is below `2^n`.
pub proof fn lemma_value_bounds(bits: Seq<bool>)
    ensures
        0 <= value(bits) < pow2(bits.len()),
    decreases bits.len(),
{
    lemma2_to64();
    if bits.len() > 0 {
        lemma_value_bounds(bits.drop_last());
        lemma_pow2_unfold(bits.len());
    }
}

/// A run of equal bits spells zero, or one less than a power of two.
pub proof fn lemma_value_run(b: bool, n: int)
    requires
        0 <= n,
    ensures
        value(run(b, n)) == if b { pow2(n as nat) - 1 } else { 0 },
    decreases n,
{
    lemma2_to64();
    if n > 0 {
        lemma_value_run(b, n - 1);
        assert(run(b, n).drop_last() =~= run(b, n - 1));
        lemma_pow2_unfold(n as nat);
    } else {
        assert(run(b, n) =~= Seq::empty());
    }
}

/// Dropping the last bit of `x` moves every other bit down one place.
pub proof fn lemma_bit_of_half(x: int, k: int)
    requires
        0 <= k,
        0 <= x,
    ensures
        bit_of(x, k + 1) == bit_of(x / 2, k),
{
    lemma_pow2_unfold((k + 1) as nat);
    lemma_pow2_pos(k as nat);
    vstd::arithmetic::div_mod::lemma_div_denominator(x, 2, pow2(k as nat) as int);
}

/// Shifting one bit into a number appends it to the number's low bits.
pub proof fn lemma_low_bits_push(x: int, n: int, b: bool)
    requires
        0 <= n,
        0 <= x,
    ensures
        low_bits(2 * x + bit(b), n + 1) == low_bits(x, n).push(b),
{
    lemma2_to64();
    let y = 2 * x + bit(b);
    assert forall|i: int| 0 <= i < n + 1 implies #[trigger] low_bits(y, n + 1)[i] == low_bits(
        x,
        n,
    ).push(b)[i] by {
        if i < n {
            lemma_bit_of_half(y, n - 1 - i);
            assert(y / 2 == x);
            assert(n + 1 - 1 - i == n - 1 - i + 1);
        } else {
            assert(n + 1 - 1 - i == 0);
            assert(y / 1 == y);
            assert(bit_of(y, 0) == b);
        }
    }
    assert(low_bits(y, n + 1) =~= low_bits(x, n).push(b));
}

/// A number below `2^n` is spelled by its `n` low bits.
pub proof fn lemma_value_low_bits(x: int, n: int)
    requires
        0 <= n,
        0 <= x < pow2(n as nat),
    ensures
        value(low_bits(x, n)) == x,
    decreases n,
{
    lemma2_to64();
    if n == 0 {
        assert(low_bits(x, n) =~= Seq::empty());
    } else {
        lemma_pow2_unfold(n as nat);
        lemma_value_low_bits(x / 2, n - 1);
        lemma_low_bits_push(x / 2, n - 1, x % 2 == 1);
        lemma_value_push(low_bits(x / 2, n - 1), x % 2 == 1);
    }
}

pub proof fn lemma_low_bits_zero(n: int)
    requires
        0 <= n,
    ensures
        low_bits(0, n) == run(false, n),
{
    assert forall|k: int| 0 <= k implies !#[trigger] bit_of(0, k) by {
        lemma_pow2_pos(k as nat);
        assert(0int / pow2(k as nat) as int == 0) by (nonlinear_arith)
            requires
                pow2(k as nat) > 0,
        ;
    }
    assert(low_bits(0, n) =~= run(false, n));
}

/// Bits are the low bits of the number that they spell.
pub proof fn lemma_bits_value(bits: Seq<bool>)
    ensures
        low_bits(value(bits), bits.len() as int) == bits,
    decreases bits.len(),
{
    if bits.len() == 0 {
        assert(low_bits(value(bits), 0) =~= bits);
    } else {
        lemma_bits_value(bits.drop_last());
        lemma_value_bounds(bits.drop_last());
        lemma_low_bits_push(value(bits.drop_last()), bits.len() - 1, bits.last());
        assert(bits.drop_last().push(bits.last()) =~= bits);
    }
}

/// Appending a byte appends its eight bits.
pub proof fn lemma_of_bytes_push(bytes: Seq<u8>, b: u8)
    ensures
        of_bytes(bytes.push(b)) == of_bytes(bytes) + low_bits(b as int, 8),
{
    assert(of_bytes(bytes.push(b)) =~= of_bytes(bytes) + low_bits(b as int, 8));
}

pub proof fn lemma_of_bytes_add(a: Seq<u8>, b: Seq<u8>)
    ensures
        of_bytes(a + b) == of_bytes(a) + of_bytes(b),
{
    assert(of_bytes(a + b) =~= of_bytes(a) + of_bytes(b));
}

/// Appending zero bits multiplies by a power of two.
pub proof fn lemma_low_bits_pad(x: int, n: int, z: int)
    requires
        0 <= n,
        0 <= z,
        0 <= x,
    ensures
        low_bits(x * pow2(z as nat), n + z) == low_bits(x, n) + run(false, z),
    decreases z,
{
    lemma2_to64();
    if z == 0 {
        assert(low_bits(x, n) + run(false, z) =~= low_bits(x, n));
        assert(x * 1 == x);
    } else {
        lemma_low_bits_pad(x, n, z - 1);
        lemma_pow2_unfold(z as nat);
        let p = pow2((z - 1) as nat) as int;
        assert(2 * (x * p) == x * (2 * p)) by (nonlinear_arith);
        assert(0 <= x * p) by (nonlinear_arith) requires 0 <= x, 0 <= p;
        lemma_low_bits_push(x * p, n + z - 1, false);
        assert((low_bits(x, n) + run(false, z - 1)).push(false) =~= low_bits(x, n) + run(false, z));
    }
}

} // verus!
