//! Network abstraction layer units: emulation prevention and length-prefixed
//! framing.
use vstd::prelude::*;

verus! {

/// One unit: its type, and its bytes without emulation prevention.
#[derive(Debug)]
pub struct Nalu {
    pub nal_type: u8,
    pub data: Vec<u8>,
}

/// The units of a coded picture.
pub struct NaluStream {
    pub nalus: Vec<Nalu>,
}

/// The last two bytes are zero.
pub open spec fn ends_in_zeros(s: Seq<u8>) -> bool {
    s.len() >= 2 && s[s.len() - 2] == 0 && s[s.len() - 1] == 0
}

/// `data` with a byte 3 put before each byte up to 3 that would follow two zero
/// bytes.
pub open spec fn escape(data: Seq<u8>) -> Seq<u8>
    decreases data.len(),
{
    if data.len() == 0 {
        Seq::empty()
    } else {
        let e = escape(data.drop_last());
        if ends_in_zeros(e) && data.last() <= 3 {
            e.push(3).push(data.last())
        } else {
            e.push(data.last())
        }
    }
}

/// `bytes` without each byte 3 that follows two zero bytes.
pub open spec fn unescape(bytes: Seq<u8>) -> Seq<u8>
    decreases bytes.len(),
{
    if bytes.len() == 0 {
        Seq::empty()
    } else if bytes.last() == 3 && ends_in_zeros(bytes.drop_last()) {
        unescape(bytes.drop_last())
    } else {
        unescape(bytes.drop_last()).push(bytes.last())
    }
}

/// A reader that drops the inserted bytes finds the data again.
pub proof fn law_unescape_undoes_escape(data: Seq<u8>)
    ensures
        unescape(escape(data)) == data,
    decreases data.len(),
{
    reveal_with_fuel(unescape, 3);
    if data.len() == 0 {
        assert(unescape(escape(data)) =~= data);
    } else {
        let e = escape(data.drop_last());
        law_unescape_undoes_escape(data.drop_last());
        let b = data.last();
        assert(data.drop_last().push(b) =~= data);
        if ends_in_zeros(e) && b <= 3 {
            assert(e.push(3).push(b).drop_last() =~= e.push(3));
            assert(e.push(3).drop_last() =~= e);
        } else {
            assert(e.push(b).drop_last() =~= e);
        }
    }
}

/// Escaped data holds no start code and no other reserved pattern: what follows
/// two zero bytes is at least 3.
pub proof fn law_escape_hides_start_codes(data: Seq<u8>, i: int)
    requires
        0 <= i,
        i + 2 < escape(data).len(),
        escape(data)[i] == 0,
        escape(data)[i + 1] == 0,
    ensures
        escape(data)[i + 2] >= 3,
    decreases data.len(),
{
    if data.len() > 0 {
        let e = escape(data.drop_last());
        if i + 2 < e.len() {
            law_escape_hides_start_codes(data.drop_last(), i);
        }
    }
}

/// The 32-bit big-endian form of `n`.
pub open spec fn be32(n: int) -> Seq<u8> {
    seq![
        (n / 0x100_0000) as u8,
        (n / 0x1_0000 % 0x100) as u8,
        (n / 0x100 % 0x100) as u8,
        (n % 0x100) as u8,
    ]
}

/// The unit carries a parameter set.
pub open spec fn is_parameter_set(data: Seq<u8>) -> bool {
    32 <= data[0] as int / 2 % 64 <= 34
}

/// One unit as a length and its escaped bytes; a parameter set is left out.
pub open spec fn framed(data: Seq<u8>) -> Seq<u8> {
    if is_parameter_set(data) {
        Seq::empty()
    } else {
        be32(escape(data).len() as int % 0x1_0000_0000) + escape(data)
    }
}

/// The first `n` units, framed.
pub open spec fn framed_units(nalus: Seq<Nalu>, n: int) -> Seq<u8>
    decreases n,
{
    if n <= 0 {
        Seq::empty()
    } else {
        framed_units(nalus, n - 1) + framed(nalus[n - 1].data@)
    }
}

/// Appends the bytes of `more`.
pub fn append_bytes(out: &mut Vec<u8>, more: &[u8])
    ensures
        final(out)@ == old(out)@ + more@,
{
    assert(out@ + more@.take(0) =~= out@);
    for i in 0..more.len()
        invariant
            out@ == old(out)@ + more@.take(i as int),
    {
        out.push(more[i]);
        assert(out@ =~= old(out)@ + more@.take(i + 1));
    }
    assert(more@.take(more@.len() as int) =~= more@);
}

/// `data` with emulation prevention.
pub fn escaped(data: &[u8]) -> (r: Vec<u8>)
    ensures
        r@ == escape(data@),
{
    let mut r: Vec<u8> = Vec::new();
    let mut zeros: u8 = 0;
    for i in 0..data.len()
        invariant
            r@ == escape(data@.take(i as int)),
            zeros == 2 <==> ends_in_zeros(r@),
            zeros <= 2,
            zeros >= 1 <==> r@.len() >= 1 && r@.last() == 0,
    {
        let b: u8 = data[i];
        assert(data@.take(i + 1).drop_last() =~= data@.take(i as int));
        if zeros == 2 && b <= 3 {
            r.push(3);
            zeros = 0;
        }
        r.push(b);
        if b != 0 {
            zeros = 0;
        } else if zeros < 2 {
            zeros = zeros + 1;
        }
    }
    assert(data@.take(data@.len() as int) =~= data@);
    r
}

/// A length as a 32-bit number; only its low 32 bits count.
pub fn low32(n: usize) -> (r: u32)
    ensures
        r as int == n as int % 0x1_0000_0000,
{
    let w: u64 = n as u64;
    (w % 0x1_0000_0000) as u32
}

/// Appends a 32-bit big-endian number.
pub fn append_be32(out: &mut Vec<u8>, n: u32)
    ensures
        final(out)@ == old(out)@ + be32(n as int),
{
    out.push((n / 0x100_0000) as u8);
    out.push((n / 0x1_0000 % 0x100) as u8);
    out.push((n / 0x100 % 0x100) as u8);
    out.push((n % 0x100) as u8);
    assert(out@ =~= old(out)@ + be32(n as int));
}

impl NaluStream {
    /// Every unit but the parameter sets, each with its length in front, as the
    /// image item of a file holds them.
    pub fn to_length_prefixed_slices(&self) -> (r: Vec<u8>)
        requires
            forall|i: int| 0 <= i < self.nalus@.len() ==> #[trigger] self.nalus@[i].data@.len() > 0,
        ensures
            r@ == framed_units(self.nalus@, self.nalus@.len() as int),
    {
        let mut out: Vec<u8> = Vec::new();
        for i in 0..self.nalus.len()
            invariant
                forall|i: int| 0 <= i < self.nalus@.len() ==> #[trigger] self.nalus@[i].data@.len() > 0,
                out@ == framed_units(self.nalus@, i as int),
        {
            let ghost before = out@;
            let data: &Vec<u8> = &self.nalus[i].data;
            assert(self.nalus@[i as int].data@.len() > 0);
            let nal_type: u8 = data[0] / 2 % 64;
            if !(32 <= nal_type && nal_type <= 34) {
                let e = escaped(data.as_slice());
                append_be32(&mut out, low32(e.len()));
                append_bytes(&mut out, e.as_slice());
            }
            assert(out@ =~= before + framed(data@));
        }
        out
    }
}

} // verus!
