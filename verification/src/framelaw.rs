//! What a reader finds in a stream of units that are prefixed by their lengths.
use crate::nal;
use crate::nal::Nalu;
use vstd::prelude::*;

verus! {

/// The number that four bytes spell, the largest part first.
pub open spec fn word_at(bytes: Seq<u8>, at: int) -> int {
    0x100_0000 * bytes[at] + 0x1_0000 * bytes[at + 1] + 0x100 * bytes[at + 2] + bytes[at + 3]
}

/// Where unit `k` of a stream starts for a reader: past each unit's length and as many bytes.
/// A unit that is not in the stream takes no room.
pub open spec fn start_of(bytes: Seq<u8>, nalus: Seq<Nalu>, k: int) -> int
    decreases k,
{
    if k <= 0 {
        0
    } else {
        let at = start_of(bytes, nalus, k - 1);
        if nal::is_parameter_set(nalus[k - 1].data@) {
            at
        } else {
            at + 4 + word_at(bytes, at)
        }
    }
}

proof fn lemma_word(n: int)
    requires
        0 <= n < 0x1_0000_0000,
    ensures
        word_at(nal::be32(n), 0) == n,
{
}

proof fn lemma_prefix(nalus: Seq<Nalu>, k: int, n: int)
    requires
        0 <= k <= n,
    ensures
        nal::framed_units(nalus, k).is_prefix_of(nal::framed_units(nalus, n)),
    decreases n,
{
    if k < n {
        lemma_prefix(nalus, k, n - 1);
        let (a, b, c) = (
            nal::framed_units(nalus, k),
            nal::framed_units(nalus, n - 1),
            nal::framed_units(nalus, n),
        );
        assert(b =~= c.take(b.len() as int));
        assert(a =~= b.take(a.len() as int));
        assert(a =~= c.take(a.len() as int));
    } else {
        let a = nal::framed_units(nalus, k);
        assert(a =~= a.take(a.len() as int));
    }
}

proof fn lemma_start(bytes: Seq<u8>, nalus: Seq<Nalu>, k: int, n: int)
    requires
        0 <= k <= n <= nalus.len(),
        bytes == nal::framed_units(nalus, n),
        forall|i: int|
            0 <= i < nalus.len() ==> nal::escape(#[trigger] nalus[i].data@).len() < 0x1_0000_0000,
    ensures
        start_of(bytes, nalus, k) == nal::framed_units(nalus, k).len(),
    decreases k,
{
    if k > 0 {
        lemma_start(bytes, nalus, k - 1, n);
        lemma_unit(bytes, nalus, k - 1, n);
    }
}

/// Unit `k` stands after the ones before it.
proof fn lemma_unit(bytes: Seq<u8>, nalus: Seq<Nalu>, k: int, n: int)
    requires
        0 <= k < n <= nalus.len(),
        bytes == nal::framed_units(nalus, n),
        nal::escape(nalus[k].data@).len() < 0x1_0000_0000,
    ensures
        !nal::is_parameter_set(nalus[k].data@) ==> ({
            let at = nal::framed_units(nalus, k).len() as int;
            let e = nal::escape(nalus[k].data@);
            &&& word_at(bytes, at) == e.len()
            &&& at + 4 + e.len() <= bytes.len()
            &&& bytes.subrange(at + 4, (at + 4 + e.len()) as int) == e
            &&& nal::framed_units(nalus, k + 1).len() == at + 4 + e.len()
        }),
        nal::is_parameter_set(nalus[k].data@) ==> nal::framed_units(nalus, k + 1)
            == nal::framed_units(nalus, k),
{
    let a = nal::framed_units(nalus, k);
    let b = nal::framed_units(nalus, k + 1);
    let at = a.len() as int;
    let e = nal::escape(nalus[k].data@);
    if nal::is_parameter_set(nalus[k].data@) {
        assert(b =~= a);
    } else {
        lemma_prefix(nalus, k + 1, n);
        assert(b == bytes.take(b.len() as int));
        let w = nal::be32(e.len() as int % 0x1_0000_0000);
        assert(b =~= a + w + e);
        lemma_word(e.len() as int);
        assert forall|i: int| 0 <= i < b.len() implies #[trigger] bytes[i] == b[i] by {
            assert(bytes.take(b.len() as int)[i] == bytes[i]);
        }
        assert(bytes[at] == w[0]);
        assert(bytes[at + 1] == w[1]);
        assert(bytes[at + 2] == w[2]);
        assert(bytes[at + 3] == w[3]);
        assert(bytes.subrange(at + 4, (at + 4 + e.len()) as int) =~= e);
    }
}

/// A reader that goes from length to length finds every unit but the parameter sets, and
/// undoing the escapes of its bytes gives the unit back.
pub proof fn law_lengths_lead_to_the_units(nalus: Seq<Nalu>, k: int)
    requires
        0 <= k < nalus.len(),
        forall|i: int|
            0 <= i < nalus.len() ==> nal::escape(#[trigger] nalus[i].data@).len() < 0x1_0000_0000,
        !nal::is_parameter_set(nalus[k].data@),
    ensures
        ({
            let bytes = nal::framed_units(nalus, nalus.len() as int);
            let at = start_of(bytes, nalus, k);
            &&& 0 <= at
            &&& at + 4 + word_at(bytes, at) <= bytes.len()
            &&& nal::unescape(bytes.subrange(at + 4, at + 4 + word_at(bytes, at)))
                == nalus[k].data@
        }),
        start_of(nal::framed_units(nalus, nalus.len() as int), nalus, nalus.len() as int)
            == nal::framed_units(nalus, nalus.len() as int).len(),
{
    let n = nalus.len() as int;
    let bytes = nal::framed_units(nalus, n);
    lemma_start(bytes, nalus, k, n);
    lemma_start(bytes, nalus, n, n);
    assert(nal::escape(nalus[k].data@).len() < 0x1_0000_0000);
    lemma_unit(bytes, nalus, k, n);
    nal::law_unescape_undoes_escape(nalus[k].data@);
}

/// The units that are left out are those of types 32 to 34: the video, sequence and picture
/// parameter sets.
pub proof fn law_parameter_sets_are_told_by_their_type(data: Seq<u8>, nal_type: int)
    requires
        data.len() >= 1,
        2 * nal_type <= data[0] < 2 * nal_type + 2,
        0 <= nal_type < 64,
    ensures
        nal::is_parameter_set(data) <==> nal_type == 32 || nal_type == 33 || nal_type == 34,
{
}

} // verus!
