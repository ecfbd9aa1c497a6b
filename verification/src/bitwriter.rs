//! Writing fixed-length and Exp-Golomb codes bit by bit.
use crate::bitseq;
use vstd::arithmetic::power2::*;
use vstd::prelude::*;

verus! {

/// How many binary digits `v` has beyond the first.
pub open spec fn log2_floor(v: int) -> int
    decreases v,
{
    if v <= 1 {
        0
    } else {
        1 + log2_floor(v / 2)
    }
}

/// The unsigned Exp-Golomb code of `v`: as many zeros as `v + 1` has binary
/// digits beyond the first, and `v + 1` itself.
pub open spec fn ue_bits(v: int) -> Seq<bool> {
    let k = log2_floor(v + 1);
    bitseq::run(false, k) + bitseq::low_bits(v + 1, k + 1)
}

/// The unsigned number that stands for a signed one: positive numbers are odd.
pub open spec fn se_code(v: int) -> int {
    if v > 0 {
        2 * v - 1
    } else {
        -2 * v
    }
}

/// The signed Exp-Golomb code of `v`.
pub open spec fn se_bits(v: int) -> Seq<bool> {
    ue_bits(se_code(v))
}

/// Zero bits up to the next byte boundary after `n` bits.
pub open spec fn padding(n: int) -> Seq<bool> {
    bitseq::run(false, (8 - n % 8) % 8)
}

/// The stop bit and the zero bits that complete the last byte.
pub open spec fn trailed(bits: Seq<bool>) -> Seq<bool> {
    bits.push(true) + padding(bits.len() as int + 1)
}

/// `log2_floor` brackets its argument between powers of two.
pub proof fn lemma_log2_floor(v: int)
    requires
        v >= 1,
    ensures
        0 <= log2_floor(v),
        pow2(log2_floor(v) as nat) <= v < 2 * pow2(log2_floor(v) as nat),
    decreases v,
{
    lemma2_to64();
    if v > 1 {
        lemma_log2_floor(v / 2);
        lemma_pow2_unfold(log2_floor(v) as nat);
    }
}

/// Collects bits into bytes, most significant bit first.
pub struct BitWriter {
    buf: Vec<u8>,
    bit_pos: u32,
    cur_byte: u8,
}

impl View for BitWriter {
    type V = Seq<bool>;

    /// The bits written so far.
    closed spec fn view(&self) -> Seq<bool> {
        bitseq::of_bytes(self.buf@) + bitseq::low_bits(self.cur_byte as int, self.bit_pos as int)
    }
}

impl BitWriter {
    /// The partial byte is in range.
    pub closed spec fn wf(&self) -> bool {
        self.bit_pos < 8 && self.cur_byte < pow2(self.bit_pos as nat)
    }

    /// A writer without bits.
    pub fn new() -> (r: Self)
        ensures
            r.wf(),
            r@ == Seq::<bool>::empty(),
    {
        proof {
            lemma2_to64();
        }
        let r = BitWriter { buf: Vec::new(), bit_pos: 0, cur_byte: 0 };
        assert(r@ =~= Seq::empty());
        r
    }

    /// Appends one bit.
    pub fn write_bit(&mut self, v: bool)
        requires
            old(self).wf(),
        ensures
            final(self).wf(),
            final(self)@ == old(self)@.push(v),
    {
        proof {
            lemma_pow2_unfold((self.bit_pos + 1) as nat);
            lemma2_to64();
            if self.bit_pos < 7 {
                lemma_pow2_strictly_increases(self.bit_pos as nat, 7);
            }
            bitseq::lemma_low_bits_push(self.cur_byte as int, self.bit_pos as int, v);
        }
        let ghost all = self@.push(v);
        self.cur_byte = self.cur_byte * 2 + (if v {
            1
        } else {
            0
        });
        self.bit_pos = self.bit_pos + 1;
        assert(self@ =~= all);
        if self.bit_pos == 8 {
            proof {
                bitseq::lemma_of_bytes_push(self.buf@, self.cur_byte);
            }
            self.buf.push(self.cur_byte);
            self.cur_byte = 0;
            self.bit_pos = 0;
            assert(bitseq::low_bits(0, 0) =~= Seq::empty());
            assert(self@ =~= all);
        }
    }

    /// Appends the `n` low bits of `v`.
    pub fn write_bits(&mut self, v: u32, n: u32)
        requires
            old(self).wf(),
            n <= 32,
        ensures
            final(self).wf(),
            final(self)@ == old(self)@ + bitseq::low_bits(v as int, n as int),
    {
        let ghost low = bitseq::low_bits(v as int, n as int);
        assert(self@ + low.take(0) =~= self@);
        for i in 0..n
            invariant
                self.wf(),
                n <= 32,
                low == bitseq::low_bits(v as int, n as int),
                self@ == old(self)@ + low.take(i as int),
        {
            let k: u32 = n - 1 - i;
            proof {
                vstd::bits::lemma_u32_shr_is_div(v, k);
            }
            self.write_bit((v >> k) % 2 == 1);
            assert(self@ =~= old(self)@ + low.take(i + 1));
        }
        assert(low.take(n as int) =~= low);
    }

    /// Appends the unsigned Exp-Golomb code of `v`.
    pub fn write_ue(&mut self, v: u32)
        requires
            old(self).wf(),
            v < u32::MAX,
        ensures
            final(self).wf(),
            final(self)@ == old(self)@ + ue_bits(v as int),
    {
        let ghost start = self@;
        proof {
            lemma2_to64();
        }
        let x: u32 = v + 1;
        let mut k: u32 = 0;
        let mut y: u32 = x;
        while y > 1
            invariant
                1 <= y,
                k + log2_floor(y as int) == log2_floor(x as int),
                k <= 31,
                y * pow2(k as nat) <= x,
            decreases y,
        {
            proof {
                lemma_pow2_unfold((k + 1) as nat);
                let p = pow2(k as nat) as int;
                assert((y / 2) * (2 * p) <= y * p) by (nonlinear_arith)
                    requires
                        0 <= p,
                        0 <= y,
                ;
                lemma2_to64();
                if k == 31 {
                    assert(y * p >= 2 * 0x8000_0000) by (nonlinear_arith)
                        requires
                            y >= 2,
                            p == 0x8000_0000,
                    ;
                }
            }
            y = y / 2;
            k = k + 1;
        }
        proof {
            bitseq::lemma_low_bits_zero(k as int);
        }
        self.write_bits(0, k);
        self.write_bits(x, k + 1);
        assert(self@ =~= start + ue_bits(v as int));
    }

    /// Appends the signed Exp-Golomb code of `v`.
    pub fn write_se(&mut self, v: i32)
        requires
            old(self).wf(),
            -0x4000_0000 < v,
        ensures
            final(self).wf(),
            final(self)@ == old(self)@ + se_bits(v as int),
    {
        let u: u32 = if v > 0 {
            2 * (v as u32) - 1
        } else {
            (-(2 * v)) as u32
        };
        self.write_ue(u);
    }

    /// Appends a one bit and completes the byte with zero bits.
    pub fn rbsp_trailing_bits(&mut self)
        requires
            old(self).wf(),
        ensures
            final(self).wf(),
            final(self)@ == trailed(old(self)@),
            final(self)@.len() % 8 == 0,
    {
        self.write_bit(true);
        let ghost start = self@;
        assert(start + bitseq::run(false, 0) =~= start);
        let ghost mut n: int = 0;
        while self.bit_pos != 0
            invariant
                self.wf(),
                n >= 0,
                n < 8,
                (start.len() + n) % 8 == 0 ==> n == (8 - start.len() % 8) % 8,
                forall|m: int| 0 <= m < n ==> #[trigger] ((start.len() + m) % 8) != 0,
                self@ == start + bitseq::run(false, n),
            decreases 8 - n,
        {
            assert(self@.len() == 8 * self.buf@.len() + self.bit_pos);
            assert((start.len() + n) % 8 != 0);
            self.write_bit(false);
            proof {
                n = n + 1;
                assert(self@ =~= start + bitseq::run(false, n));
                if n == 8 {
                    assert((start.len() + (8 - start.len() % 8) % 8) % 8 == 0);
                    assert(false);
                }
            }
        }
        assert(self@.len() == 8 * self.buf@.len());
    }

    /// The bytes, the last one filled up with zero bits.
    pub fn finish(self) -> (r: Vec<u8>)
        requires
            self.wf(),
        ensures
            bitseq::of_bytes(r@) == self@ + padding(self@.len() as int),
    {
        let mut buf = self.buf;
        if self.bit_pos > 0 {
            let pad: u8 = 8 - self.bit_pos as u8;
            proof {
                lemma2_to64();
                lemma_pow2_adds(self.bit_pos as nat, pad as nat);
                lemma_pow2_pos(pad as nat);
                assert(self.cur_byte * pow2(pad as nat) <= 255) by (nonlinear_arith)
                    requires
                        self.cur_byte < pow2(self.bit_pos as nat),
                        pow2(self.bit_pos as nat) * pow2(pad as nat) == 256,
                        pow2(pad as nat) > 0,
                ;
                vstd::bits::lemma_u8_shl_is_mul(self.cur_byte, pad);
                bitseq::lemma_low_bits_pad(self.cur_byte as int, self.bit_pos as int, pad as int);
                bitseq::lemma_of_bytes_push(buf@, self.cur_byte << pad);
            }
            buf.push(self.cur_byte << pad);
        }
        assert(bitseq::of_bytes(buf@) =~= self@ + padding(self@.len() as int));
        buf
    }
}

/// Reads an Exp-Golomb code at the front of `bits`: its value and its length.
pub open spec fn read_ue(bits: Seq<bool>) -> (int, int) {
    let k = leading_zeros(bits);
    (bitseq::value(bits.subrange(k, 2 * k + 1)) - 1, 2 * k + 1)
}

/// Number of zero bits before the first one bit.
pub open spec fn leading_zeros(bits: Seq<bool>) -> int
    decreases bits.len(),
{
    if bits.len() == 0 || bits[0] {
        0
    } else {
        1 + leading_zeros(bits.drop_first())
    }
}

proof fn lemma_leading_zeros(k: int, tail: Seq<bool>)
    requires
        0 <= k,
        tail.len() > 0,
        tail[0],
    ensures
        leading_zeros(bitseq::run(false, k) + tail) == k,
    decreases k,
{
    if k == 0 {
        assert(bitseq::run(false, k) + tail =~= tail);
    } else {
        lemma_leading_zeros(k - 1, tail);
        assert((bitseq::run(false, k) + tail).drop_first() =~= bitseq::run(false, k - 1) + tail);
    }
}

/// A reader finds an unsigned number again from its code, whatever follows.
pub proof fn law_ue_reads_back(v: int, tail: Seq<bool>)
    requires
        v >= 0,
    ensures
        read_ue(ue_bits(v) + tail) == (v, ue_bits(v).len() as int),
{
    let k = log2_floor(v + 1);
    lemma_log2_floor(v + 1);
    lemma_pow2_unfold((k + 1) as nat);
    let code = bitseq::low_bits(v + 1, k + 1);
    bitseq::lemma_value_low_bits(v + 1, k + 1);
    assert(code[0]) by {
        let p = pow2(k as nat) as int;
        assert((v + 1) / p == 1) by {
            vstd::arithmetic::div_mod::lemma_fundamental_div_mod_converse(
                v + 1,
                p,
                1,
                v + 1 - p,
            );
        }
    }
    assert(ue_bits(v) + tail =~= bitseq::run(false, k) + (code + tail));
    lemma_leading_zeros(k, code + tail);
    assert((ue_bits(v) + tail).subrange(k, 2 * k + 1) =~= code);
}

/// The mapping of signed numbers to unsigned ones loses nothing.
pub proof fn law_se_code_is_injective(a: int, b: int)
    requires
        se_code(a) == se_code(b),
    ensures
        a == b,
{
}

} // verus!
