//! The arithmetic code as mathematics: a log of coded symbols narrows an
//! interval of unbounded integers, and a decoder finds the symbols again from
//! any code value inside that interval.
use crate::bitseq;
use crate::cabac::engine::RANGE_TAB_LPS;
use vstd::arithmetic::power2::*;
use vstd::prelude::*;

verus! {

/// How one symbol is coded.
pub enum Kind {
    /// Context-coded, with the probability state and the more probable value.
    Regular { state: u8, mps: bool },
    /// Both values equally probable.
    Bypass,
    /// End-of-data flag, of fixed small probability.
    Terminate,
}

/// One coded symbol: how it is coded, and its value.
pub struct Symbol {
    pub kind: Kind,
    pub bin: bool,
}

/// The symbol can be coded: its probability state is one of the 64.
pub open spec fn legal(s: Symbol) -> bool {
    s.kind matches Kind::Regular { state, mps } ==> state < 64
}

/// Every symbol can be coded, and none follows a set end-of-data flag.
pub open spec fn legal_log(log: Seq<Symbol>) -> bool {
    &&& forall|i: int| 0 <= i < log.len() ==> legal(#[trigger] log[i])
    &&& forall|i: int| 0 <= i < log.len() - 1 ==> !ends(#[trigger] log[i])
}

/// The symbol is a set end-of-data flag.
pub open spec fn ends(s: Symbol) -> bool {
    s.kind is Terminate && s.bin
}

/// The interval `[low, low + range)` after `shifts` doublings.
pub struct Interval {
    pub low: int,
    pub range: int,
    pub shifts: nat,
}

/// The interval that stands for the empty log.
pub open spec fn start() -> Interval {
    Interval { low: 0, range: 510, shifts: 0 }
}

/// Width given to the less probable value in state `state`.
pub open spec fn lps_width(state: u8, range: int) -> int {
    RANGE_TAB_LPS@[state as int]@[(range / 64) % 4] as int
}

/// The part of the interval that a symbol selects, before renormalisation.
pub open spec fn narrow(iv: Interval, s: Symbol) -> Interval {
    match s.kind {
        Kind::Regular { state, mps } => {
            let lps = lps_width(state, iv.range);
            if s.bin == mps {
                Interval { range: iv.range - lps, ..iv }
            } else {
                Interval { low: iv.low + iv.range - lps, range: lps, ..iv }
            }
        },
        Kind::Bypass => Interval {
            low: 2 * iv.low + bitseq::bit(s.bin) * iv.range,
            range: iv.range,
            shifts: iv.shifts + 1,
        },
        Kind::Terminate => {
            if s.bin {
                Interval { low: iv.low + iv.range - 2, range: 2, ..iv }
            } else {
                Interval { range: iv.range - 2, ..iv }
            }
        },
    }
}

/// Doubles the interval until it is at least 256 wide.
pub open spec fn renorm(iv: Interval) -> Interval
    decreases (if iv.range < 256 { 256 - iv.range } else { 0 }),
{
    if 0 < iv.range < 256 {
        renorm(Interval { low: 2 * iv.low, range: 2 * iv.range, shifts: iv.shifts + 1 })
    } else {
        iv
    }
}

/// The interval after one more symbol.
pub open spec fn step(iv: Interval, s: Symbol) -> Interval {
    renorm(narrow(iv, s))
}

/// The interval that stands for a log of symbols.
pub open spec fn encode(log: Seq<Symbol>) -> Interval
    decreases log.len(),
{
    if log.len() == 0 {
        start()
    } else {
        step(encode(log.drop_last()), log.last())
    }
}

/// A renormalised interval inside the starting one.
pub open spec fn normal(iv: Interval) -> bool {
    &&& 256 <= iv.range <= 510
    &&& fits(iv)
}

/// The interval lies inside the starting one.
pub open spec fn fits(iv: Interval) -> bool {
    &&& 0 <= iv.low
    &&& 0 < iv.range
    &&& iv.low + iv.range <= 510 * pow2(iv.shifts)
}

/// The code bits of a log that ends with a set end-of-data flag: the last two
/// code values of the interval before the flag select the flag, and the odd one
/// of them is written.
pub open spec fn codeword(log: Seq<Symbol>) -> Seq<bool> {
    let iv = encode(log.drop_last());
    let code = iv.low + iv.range - 2;
    bitseq::low_bits(if code % 2 == 0 { code + 1 } else { code }, iv.shifts as int + 9)
}

pub proof fn lemma_lps_width(state: u8, range: int)
    requires
        state < 64,
        256 <= range <= 510,
    ensures
        2 <= lps_width(state, range) <= 240,
        lps_width(state, range) <= range - 128,
{
    let q = (range / 64) % 4;
    assert(range / 64 == 4 + q);
    assert(RANGE_TAB_LPS@[state as int]@[q] >= 2);
    assert(RANGE_TAB_LPS@[state as int]@[0] <= 128);
    assert(RANGE_TAB_LPS@[state as int]@[1] <= 176);
    assert(RANGE_TAB_LPS@[state as int]@[2] <= 208);
    assert(RANGE_TAB_LPS@[state as int]@[3] <= 240);
}

/// Doubling keeps an interval inside the starting one and ends between 256 and
/// 510 wide.
pub proof fn lemma_renorm(iv: Interval)
    requires
        fits(iv),
        iv.range <= 510,
    ensures
        normal(renorm(iv)),
        renorm(iv).shifts >= iv.shifts,
    decreases (if iv.range < 256 { 256 - iv.range } else { 0 }),
{
    if iv.range < 256 {
        lemma_pow2_unfold(iv.shifts + 1);
        lemma_renorm(Interval { low: 2 * iv.low, range: 2 * iv.range, shifts: iv.shifts + 1 });
    }
}

/// A symbol selects a part of the interval.
pub proof fn lemma_narrow(iv: Interval, s: Symbol)
    requires
        normal(iv),
        legal(s),
    ensures
        fits(narrow(iv, s)),
        0 < narrow(iv, s).range <= 510,
{
    match s.kind {
        Kind::Regular { state, mps } => {
            lemma_lps_width(state, iv.range);
        },
        Kind::Bypass => {
            lemma_pow2_unfold(iv.shifts + 1);
            assert(bitseq::bit(s.bin) * iv.range == if s.bin { iv.range } else { 0 });
        },
        Kind::Terminate => {},
    }
}

/// Every log of legal symbols stands for a renormalised interval.
pub proof fn lemma_encode_normal(log: Seq<Symbol>)
    requires
        forall|i: int| 0 <= i < log.len() ==> legal(#[trigger] log[i]),
    ensures
        normal(encode(log)),
    decreases log.len(),
{
    lemma2_to64();
    if log.len() > 0 {
        assert forall|i: int| 0 <= i < log.drop_last().len() implies legal(
            #[trigger] log.drop_last()[i],
        ) by {
            assert(legal(log[i]));
        }
        lemma_encode_normal(log.drop_last());
        lemma_narrow(encode(log.drop_last()), log.last());
        lemma_renorm(narrow(encode(log.drop_last()), log.last()));
    }
}

pub proof fn lemma_encode_push(log: Seq<Symbol>, s: Symbol)
    ensures
        encode(log.push(s)) == step(encode(log), s),
{
    assert(log.push(s).drop_last() =~= log);
}

pub proof fn lemma_legal_push(log: Seq<Symbol>, s: Symbol)
    requires
        legal_log(log),
        legal(s),
        log.len() > 0 ==> !ends(log.last()),
    ensures
        legal_log(log.push(s)),
{
    assert forall|i: int| 0 <= i < log.push(s).len() implies legal(#[trigger] log.push(s)[i]) by {
        assert(i < log.len() ==> legal(log[i]));
    }
    assert forall|i: int| 0 <= i < log.push(s).len() - 1 implies !ends(#[trigger] log.push(s)[i]) by {
        assert(i < log.len() - 1 ==> !ends(log[i]));
        assert(log.push(s)[i] == log[i]);
    }
}

/// The arithmetic decoder: the interval's width, the offset of the code value
/// inside it, and how many code bits have been read.
pub struct Decoder {
    pub range: int,
    pub offset: int,
    pub pos: int,
}

/// The decoder after its first nine bits.
pub open spec fn decoder_start(bits: Seq<bool>) -> Decoder {
    Decoder { range: 510, offset: bitseq::value(bits.take(9)), pos: 9 }
}

/// Reads bits until the interval is at least 256 wide.
pub open spec fn decoder_renorm(d: Decoder, bits: Seq<bool>) -> Decoder
    decreases (if d.range < 256 { 256 - d.range } else { 0 }),
{
    if 0 < d.range < 256 {
        decoder_renorm(
            Decoder {
                range: 2 * d.range,
                offset: 2 * d.offset + bitseq::bit(bits[d.pos]),
                pos: d.pos + 1,
            },
            bits,
        )
    } else {
        d
    }
}

/// Decodes one symbol of a given kind.
pub open spec fn decode(d: Decoder, kind: Kind, bits: Seq<bool>) -> (bool, Decoder) {
    match kind {
        Kind::Regular { state, mps } => {
            let lps = lps_width(state, d.range);
            let rest = d.range - lps;
            if d.offset < rest {
                (mps, decoder_renorm(Decoder { range: rest, ..d }, bits))
            } else {
                (!mps, decoder_renorm(Decoder { range: lps, offset: d.offset - rest, ..d }, bits))
            }
        },
        Kind::Bypass => {
            let offset = 2 * d.offset + bitseq::bit(bits[d.pos]);
            if offset < d.range {
                (false, Decoder { offset, pos: d.pos + 1, ..d })
            } else {
                (true, Decoder { offset: offset - d.range, pos: d.pos + 1, ..d })
            }
        },
        Kind::Terminate => {
            let rest = d.range - 2;
            if d.offset < rest {
                (false, decoder_renorm(Decoder { range: rest, ..d }, bits))
            } else {
                (true, d)
            }
        },
    }
}

/// Decodes a symbol of each of the given kinds in turn.
pub open spec fn decode_all(d: Decoder, kinds: Seq<Kind>, bits: Seq<bool>) -> Seq<bool>
    decreases kinds.len(),
{
    if kinds.len() == 0 {
        Seq::empty()
    } else {
        let (bin, next) = decode(d, kinds[0], bits);
        seq![bin] + decode_all(next, kinds.drop_first(), bits)
    }
}

/// How each symbol of a log is coded.
pub open spec fn kinds(log: Seq<Symbol>) -> Seq<Kind> {
    Seq::new(log.len(), |i: int| log[i].kind)
}

/// The value of each symbol of a log.
pub open spec fn bins(log: Seq<Symbol>) -> Seq<bool> {
    Seq::new(log.len(), |i: int| log[i].bin)
}

/// The decoder whose interval is `iv`.
spec fn decoder_at(iv: Interval, bits: Seq<bool>) -> Decoder {
    Decoder {
        range: iv.range,
        offset: bitseq::value(bits.take(9 + iv.shifts as int)) - iv.low,
        pos: 9 + iv.shifts as int,
    }
}

/// The code value lies in the interval.
spec fn contains(iv: Interval, bits: Seq<bool>) -> bool {
    &&& 9 + iv.shifts <= bits.len()
    &&& 0 <= decoder_at(iv, bits).offset < iv.range
}

/// One more bit doubles the code value and adds the bit.
proof fn lemma_read(bits: Seq<bool>, n: int)
    requires
        0 <= n < bits.len(),
    ensures
        bitseq::value(bits.take(n + 1)) == 2 * bitseq::value(bits.take(n)) + bitseq::bit(bits[n]),
{
    assert(bits.take(n + 1) =~= bits.take(n).push(bits[n]));
    bitseq::lemma_value_push(bits.take(n), bits[n]);
}

proof fn lemma_renorm_decodes(iv: Interval, bits: Seq<bool>)
    requires
        0 < iv.range,
        contains(renorm(iv), bits),
    ensures
        contains(iv, bits),
        decoder_renorm(decoder_at(iv, bits), bits) == decoder_at(renorm(iv), bits),
    decreases (if iv.range < 256 { 256 - iv.range } else { 0 }),
{
    if iv.range < 256 {
        let next = Interval { low: 2 * iv.low, range: 2 * iv.range, shifts: iv.shifts + 1 };
        lemma_renorm_decodes(next, bits);
        lemma_read(bits, 9 + iv.shifts as int);
    }
}

proof fn lemma_step_decodes(iv: Interval, s: Symbol, bits: Seq<bool>)
    requires
        normal(iv),
        legal(s),
        !ends(s),
        contains(step(iv, s), bits),
    ensures
        contains(iv, bits),
        decode(decoder_at(iv, bits), s.kind, bits) == (s.bin, decoder_at(step(iv, s), bits)),
{
    lemma_narrow(iv, s);
    lemma_renorm_decodes(narrow(iv, s), bits);
    match s.kind {
        Kind::Regular { state, mps } => {
            lemma_lps_width(state, iv.range);
        },
        Kind::Bypass => {
            lemma_read(bits, 9 + iv.shifts as int);
            assert(bitseq::bit(s.bin) * iv.range == if s.bin { iv.range } else { 0 });
        },
        Kind::Terminate => {},
    }
}

proof fn lemma_decodes_from(log: Seq<Symbol>, bits: Seq<bool>, k: int)
    requires
        legal_log(log),
        0 <= k < log.len(),
        ends(log.last()),
        codeword(log).is_prefix_of(bits),
    ensures
        contains(encode(log.take(k)), bits),
        decode_all(decoder_at(encode(log.take(k)), bits), kinds(log.skip(k)), bits) == bins(
            log.skip(k),
        ),
    decreases log.len() - k,
{
    let iv = encode(log.take(k));
    assert forall|i: int| 0 <= i < log.take(k).len() implies legal(#[trigger] log.take(k)[i]) by {
        assert(legal(log[i]));
    }
    lemma_encode_normal(log.take(k));
    assert(legal(log[k]));
    assert(kinds(log.skip(k)).drop_first() =~= kinds(log.skip(k + 1)));
    assert(bins(log.skip(k)) =~= seq![log[k].bin] + bins(log.skip(k + 1)));
    if k == log.len() - 1 {
        assert(log.take(k) =~= log.drop_last());
        let code = iv.low + iv.range - 2;
        let odd = if code % 2 == 0 {
            code + 1
        } else {
            code
        };
        lemma_pow2_adds(iv.shifts, 9);
        lemma2_to64();
        assert(pow2(iv.shifts) * 512 == pow2(iv.shifts + 9));
        bitseq::lemma_value_low_bits(odd, iv.shifts as int + 9);
        assert(bits.take(9 + iv.shifts as int) =~= codeword(log));
        assert(decode_all(decoder_at(iv, bits), kinds(log.skip(k)).drop_first(), bits)
            =~= Seq::empty());
        assert(kinds(log.skip(k))[0] == log[k].kind);
        assert(decode_all(decoder_at(iv, bits), kinds(log.skip(k)), bits) =~= seq![true]);
    } else {
        lemma_decodes_from(log, bits, k + 1);
        assert(log.take(k + 1) =~= log.take(k).push(log[k]));
        lemma_encode_push(log.take(k), log[k]);
        assert(!ends(log[k]));
        lemma_step_decodes(iv, log[k], bits);
        assert(kinds(log.skip(k))[0] == log[k].kind);
    }
}

/// A decoder that is told how each symbol is coded finds every symbol of a
/// completed log again, whatever follows the code bits.
pub proof fn law_decoder_recovers_symbols(log: Seq<Symbol>, bits: Seq<bool>)
    requires
        legal_log(log),
        log.len() > 0,
        ends(log.last()),
        codeword(log).is_prefix_of(bits),
    ensures
        decode_all(decoder_start(bits), kinds(log), bits) == bins(log),
{
    lemma_decodes_from(log, bits, 0);
    assert(log.take(0) =~= Seq::empty());
    assert(log.skip(0) =~= log);
}

} // verus!
