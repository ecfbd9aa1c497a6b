//! The slice of a picture: its header, the entry points of its parts, its data.
use crate::bitseq;
use crate::bitwriter;
use crate::bitwriter::BitWriter;
use crate::fmt::ChromaFormat;
use crate::nal;
use crate::nal::{append_bytes, Nalu};
use crate::params;
use crate::params::nalu_header;
use vstd::arithmetic::power2::*;
use vstd::prelude::*;
use vstd::slice::slice_subrange;

verus! {

/// The first `n` parts of the slice data, one after another.
pub open spec fn joined(parts: Seq<Vec<u8>>, n: int) -> Seq<u8>
    decreases n,
{
    if n <= 0 {
        Seq::empty()
    } else {
        joined(parts, n - 1) + parts[n - 1]@
    }
}

/// How many bytes part `i` takes up in the escaped data, with the bytes that are
/// inserted while it is written.
pub open spec fn escaped_size(parts: Seq<Vec<u8>>, i: int) -> int {
    nal::escape(joined(parts, i + 1)).len() - nal::escape(joined(parts, i)).len()
}

/// Escaping data that goes on leaves what was escaped before.
pub proof fn lemma_escape_prefix(a: Seq<u8>, b: Seq<u8>)
    ensures
        nal::escape(a).is_prefix_of(nal::escape(a + b)),
        nal::escape(a + b).len() >= nal::escape(a).len() + b.len(),
        nal::escape(a + b).len() <= nal::escape(a).len() + 2 * b.len(),
    decreases b.len(),
{
    if b.len() == 0 {
        assert(a + b =~= a);
    } else {
        let c = b.drop_last();
        lemma_escape_prefix(a, c);
        assert((a + b).drop_last() =~= a + c);
    }
}

/// How many zeros escaped data ends in, counted up to two.
spec fn zeros_of(e: Seq<u8>) -> int {
    if nal::ends_in_zeros(e) {
        2
    } else if e.len() >= 1 && e.last() == 0 {
        1
    } else {
        0
    }
}

/// Counts the bytes that a part takes up in the escaped data, behind data that ends in
/// `zeros` zeros. The second result is how many zeros it ends in now.
fn count_escaped(s: &Vec<u8>, zeros: u8, Ghost(base): Ghost<Seq<u8>>) -> (r: (u128, u8))
    requires
        zeros == zeros_of(nal::escape(base)),
    ensures
        r.0 == nal::escape(base + s@).len() - nal::escape(base).len(),
        r.1 == zeros_of(nal::escape(base + s@)),
{
    let n: usize = s.len();
    let mut out: u128 = 0;
    let mut z: u8 = zeros;
    assert(base + s@.take(0) =~= base);
    for k in 0..n
        invariant
            n == s@.len(),
            out == nal::escape(base + s@.take(k as int)).len() - nal::escape(base).len(),
            out <= 2 * k,
            z == zeros_of(nal::escape(base + s@.take(k as int))),
    {
        let b: u8 = s[k];
        assert((base + s@.take(k + 1)).drop_last() =~= base + s@.take(k as int));
        if z == 2 && b <= 3 {
            out += 1;
            z = 0;
        }
        out += 1;
        if b == 0 {
            z = if z >= 1 {
                2
            } else {
                1
            };
        } else {
            z = 0;
        }
    }
    assert(s@.take(n as int) =~= s@);
    (out, z)
}

/// The sizes of the parts in the escaped data.
pub fn epb_substream_lengths(substreams: &[Vec<u8>]) -> (lens: Vec<usize>)
    requires
        forall|i: int|
            0 <= i < substreams@.len() ==> #[trigger] escaped_size(substreams@, i) <= usize::MAX,
    ensures
        lens@.len() == substreams@.len(),
        forall|i: int|
            0 <= i < lens@.len() ==> #[trigger] lens@[i] == escaped_size(substreams@, i),
{
    let mut lens: Vec<usize> = Vec::new();
    let mut zeros: u8 = 0;
    for i in 0..substreams.len()
        invariant
            forall|k: int|
                0 <= k < substreams@.len() ==> #[trigger] escaped_size(substreams@, k)
                    <= usize::MAX,
            lens@.len() == i,
            forall|k: int| 0 <= k < i ==> #[trigger] lens@[k] == escaped_size(substreams@, k),
            zeros == zeros_of(nal::escape(joined(substreams@, i as int))),
    {
        let ghost base = joined(substreams@, i as int);
        let (n, z): (u128, u8) = count_escaped(&substreams[i], zeros, Ghost(base));
        assert(n == escaped_size(substreams@, i as int));
        lens.push(n as usize);
        zeros = z;
    }
    lens
}

/// The largest of the first `n` offsets.
pub open spec fn max_offset(sizes: Seq<usize>, n: int) -> int
    decreases n,
{
    if n <= 0 {
        0
    } else if sizes[n - 1] - 1 > max_offset(sizes, n - 1) {
        sizes[n - 1] - 1
    } else {
        max_offset(sizes, n - 1)
    }
}

/// The first `n` offsets, each in `len` bits.
pub open spec fn offsets_bits(sizes: Seq<usize>, len: int, n: int) -> Seq<bool>
    decreases n,
{
    if n <= 0 {
        Seq::empty()
    } else {
        offsets_bits(sizes, len, n - 1) + bitseq::low_bits(sizes[n - 1] - 1, len)
    }
}

/// The entry points in the slice header: how many there are, how many bits each
/// offset has, and the offsets.
pub open spec fn entry_bits(sizes: Seq<usize>) -> Seq<bool> {
    let n = sizes.len() - 1;
    if n <= 0 {
        bitwriter::ue_bits(0)
    } else {
        let len = bitwriter::log2_floor(max_offset(sizes, n)) + 1;
        bitwriter::ue_bits(n) + bitwriter::ue_bits(len - 1) + offsets_bits(sizes, len, n)
    }
}

/// Place of the highest set bit.
fn log2_of(v: u32) -> (r: u32)
    ensures
        r == bitwriter::log2_floor(v as int),
        r <= 31,
{
    if v == 0 {
        return 0;
    }
    let mut x: u32 = v;
    let mut k: u32 = 0;
    proof {
        bitwriter::lemma_log2_floor(v as int);
        lemma2_to64();
        if bitwriter::log2_floor(v as int) > 31 {
            if bitwriter::log2_floor(v as int) > 32 {
                lemma_pow2_strictly_increases(32, bitwriter::log2_floor(v as int) as nat);
            }
        }
    }
    while x > 1
        invariant
            1 <= x,
            k + bitwriter::log2_floor(x as int) == bitwriter::log2_floor(v as int),
            bitwriter::log2_floor(v as int) <= 31,
            bitwriter::log2_floor(x as int) >= 0,
        decreases x,
    {
        proof {
            bitwriter::lemma_log2_floor(x as int / 2);
        }
        x = x / 2;
        k += 1;
    }
    k
}

/// The sizes as they are listed.
pub open spec fn sizes_of(parts: Seq<Vec<u8>>) -> Seq<usize> {
    Seq::new(parts.len(), |i: int| escaped_size(parts, i) as usize)
}

/// Parts can be counted, and each has a byte.
pub open spec fn parts_ok(parts: Seq<Vec<u8>>) -> bool {
    &&& parts.len() <= u32::MAX
    &&& forall|i: int| 0 <= i < parts.len() ==> 1 <= (#[trigger] parts[i])@.len()
}

/// Offsets can tell where parts are: each but the last takes up no more bytes than 32
/// bits can say, nor than the machine can count.
pub open spec fn parts_addressable(parts: Seq<Vec<u8>>) -> bool {
    forall|i: int|
        0 <= i < parts.len() - 1 ==> #[trigger] escaped_size(parts, i) <= 0x1_0000_0000
            && escaped_size(parts, i) <= usize::MAX
}

/// Whether offsets can tell where parts are.
pub fn addressable(parts: &Vec<Vec<u8>>) -> (r: bool)
    ensures
        r == parts_addressable(parts@),
{
    let count: usize = parts.len();
    let mut zeros: u8 = 0;
    for i in 0..count
        invariant
            count == parts@.len(),
            forall|k: int|
                0 <= k < i && k < count - 1 ==> #[trigger] escaped_size(parts@, k)
                    <= 0x1_0000_0000 && escaped_size(parts@, k) <= usize::MAX,
            zeros == zeros_of(nal::escape(joined(parts@, i as int))),
    {
        let ghost base = joined(parts@, i as int);
        let (n, z): (u128, u8) = count_escaped(&parts[i], zeros, Ghost(base));
        assert(n == escaped_size(parts@, i as int));
        if i < count - 1 && (n > 0x1_0000_0000 || n > usize::MAX as u128) {
            return false;
        }
        zeros = z;
    }
    true
}

/// Parts at the front do not depend on those after them.
proof fn lemma_front(parts: Seq<Vec<u8>>, n: int, k: int)
    requires
        0 <= k <= n <= parts.len(),
    ensures
        joined(parts.subrange(0, n), k) == joined(parts, k),
    decreases k,
{
    if k > 0 {
        lemma_front(parts, n, k - 1);
    }
}

/// Writes the entry points of the parts and returns them one after another.
pub fn assemble_substreams(hdr: &mut BitWriter, substreams: &[Vec<u8>]) -> (data: Vec<u8>)
    requires
        old(hdr).wf(),
        parts_ok(substreams@),
        parts_addressable(substreams@),
    ensures
        final(hdr).wf(),
        final(hdr)@ == old(hdr)@ + entry_bits(sizes_of(substreams@)),
        data@ == joined(substreams@, substreams@.len() as int),
{
    let n: usize = if substreams.len() > 0 {
        substreams.len() - 1
    } else {
        0
    };
    let ghost start = hdr@;
    let ghost all = sizes_of(substreams@);
    let front: &[Vec<u8>] = slice_subrange(substreams, 0, n);
    proof {
        assert forall|i: int| 0 <= i < n implies #[trigger] escaped_size(front@, i)
            == escaped_size(substreams@, i) by {
            lemma_front(substreams@, n as int, i);
            lemma_front(substreams@, n as int, i + 1);
        }
    }
    let sizes: Vec<usize> = epb_substream_lengths(front);
    proof {
        assert forall|i: int| 0 <= i < n implies 1 <= #[trigger] sizes@[i] <= 0x1_0000_0000
            && sizes@[i] == all[i] by {
            assert(escaped_size(front@, i) == escaped_size(substreams@, i));
            assert(1 <= substreams@[i]@.len());
            lemma_escape_prefix(joined(substreams@, i), substreams@[i]@);
        }
        lemma_listed_same(sizes@, all, n as int);
    }
    hdr.write_ue(n as u32);
    if n > 0 {
        let mut max: u32 = 0;
        for i in 0..n
            invariant
                n == sizes@.len(),
                forall|k: int|
                    0 <= k < sizes@.len() ==> 1 <= #[trigger] sizes@[k] <= 0x1_0000_0000,
                max == max_offset(sizes@, i as int),
        {
            let off: u32 = (sizes[i] - 1) as u32;
            if off > max {
                max = off;
            }
        }
        let len: u32 = log2_of(max) + 1;
        proof {
            lemma_listed_same_bits(sizes@, all, len as int, n as int);
        }
        hdr.write_ue(len - 1);
        let ghost mid = hdr@;
        assert(mid + offsets_bits(sizes@, len as int, 0) =~= mid);
        for i in 0..n
            invariant
                hdr.wf(),
                n == sizes@.len(),
                len <= 32,
                forall|k: int|
                    0 <= k < sizes@.len() ==> 1 <= #[trigger] sizes@[k] <= 0x1_0000_0000,
                hdr@ == mid + offsets_bits(sizes@, len as int, i as int),
        {
            hdr.write_bits((sizes[i] - 1) as u32, len);
            assert(hdr@ =~= mid + offsets_bits(sizes@, len as int, i + 1));
        }
    }
    assert(hdr@ =~= start + entry_bits(all));
    let mut data: Vec<u8> = Vec::new();
    for i in 0..substreams.len()
        invariant
            data@ == joined(substreams@, i as int),
    {
        append_bytes(&mut data, &substreams[i]);
    }
    data
}

proof fn lemma_listed_same(a: Seq<usize>, b: Seq<usize>, n: int)
    requires
        forall|i: int| 0 <= i < n ==> #[trigger] a[i] == b[i],
    ensures
        max_offset(a, n) == max_offset(b, n),
    decreases n,
{
    if n > 0 {
        lemma_listed_same(a, b, n - 1);
        assert(a[n - 1] == b[n - 1]);
    }
}

proof fn lemma_listed_same_bits(a: Seq<usize>, b: Seq<usize>, len: int, n: int)
    requires
        forall|i: int| 0 <= i < n ==> #[trigger] a[i] == b[i],
    ensures
        offsets_bits(a, len, n) == offsets_bits(b, len, n),
    decreases n,
{
    if n > 0 {
        lemma_listed_same_bits(a, b, len, n - 1);
        assert(a[n - 1] == b[n - 1]);
    }
}

/// A reader that counts the entry-point offsets in the escaped data finds the start
/// of each part: what comes before part `k` is the escaped form of the parts before
/// it.
pub proof fn law_offsets_find_the_parts(parts: Seq<Vec<u8>>, k: int)
    requires
        0 <= k <= parts.len(),
    ensures
        sizes_total(parts, k) == nal::escape(joined(parts, k)).len(),
        nal::escape(joined(parts, k)).is_prefix_of(
            nal::escape(joined(parts, parts.len() as int)),
        ),
{
    lemma_sizes_total(parts, k);
    lemma_joined_prefix(parts, k, parts.len() as int);
}

/// However the same bytes are cut into parts, the sizes of the parts in the escaped
/// data add up to the size of the whole.
pub proof fn law_sizes_do_not_depend_on_the_cut(parts: Seq<Vec<u8>>, whole: Vec<u8>)
    requires
        whole@ == joined(parts, parts.len() as int),
    ensures
        sizes_total(parts, parts.len() as int) == escaped_size(seq![whole], 0),
        forall|i: int|
            0 <= i < parts.len() ==> #[trigger] escaped_size(parts, i) >= parts[i]@.len(),
{
    lemma_sizes_total(parts, parts.len() as int);
    reveal_with_fuel(joined, 2);
    assert(joined(seq![whole], 1) =~= whole@);
    assert(joined(seq![whole], 0) =~= Seq::empty());
    assert forall|i: int| 0 <= i < parts.len() implies #[trigger] escaped_size(parts, i)
        >= parts[i]@.len() by {
        lemma_escape_prefix(joined(parts, i), parts[i]@);
    }
}

/// Sum of the sizes of the first `k` parts.
pub open spec fn sizes_total(parts: Seq<Vec<u8>>, k: int) -> int
    decreases k,
{
    if k <= 0 {
        0
    } else {
        sizes_total(parts, k - 1) + escaped_size(parts, k - 1)
    }
}

proof fn lemma_sizes_total(parts: Seq<Vec<u8>>, k: int)
    requires
        0 <= k,
    ensures
        sizes_total(parts, k) == nal::escape(joined(parts, k)).len(),
    decreases k,
{
    if k > 0 {
        lemma_sizes_total(parts, k - 1);
    }
}

proof fn lemma_joined_prefix(parts: Seq<Vec<u8>>, k: int, n: int)
    requires
        0 <= k <= n,
    ensures
        nal::escape(joined(parts, k)).is_prefix_of(nal::escape(joined(parts, n))),
    decreases n,
{
    if k < n {
        lemma_joined_prefix(parts, k, n - 1);
        lemma_escape_prefix(joined(parts, n - 1), parts[n - 1]@);
    }
}

/// Behind a header whose last byte is not zero, data is escaped as if it stood
/// alone.
pub proof fn law_header_does_not_disturb_escaping(header: Seq<u8>, data: Seq<u8>)
    requires
        header.len() > 0,
        header.last() != 0,
    ensures
        nal::escape(header + data) == nal::escape(header) + nal::escape(data),
    decreases data.len(),
{
    let h = nal::escape(header);
    assert(h.len() > 0 && h.last() == header.last());
    if data.len() == 0 {
        assert(header + data =~= header);
        assert(h + nal::escape(data) =~= h);
    } else {
        let d = data.drop_last();
        law_header_does_not_disturb_escaping(header, d);
        assert((header + data).drop_last() =~= header + d);
        let e = nal::escape(d);
        assert(nal::ends_in_zeros(h + e) == nal::ends_in_zeros(e));
        assert(nal::escape(header + data) =~= h + nal::escape(data));
    }
}

/// Bytes that end in a stop bit and the zeros that complete its byte do not end in
/// a zero byte.
pub proof fn law_stop_bit_is_in_the_last_byte(bytes: Seq<u8>, bits: Seq<bool>)
    requires
        bitseq::of_bytes(bytes) == bitwriter::trailed(bits),
    ensures
        bytes.len() > 0,
        bytes.last() != 0,
{
    let t = bitwriter::trailed(bits);
    let k = bits.len() as int;
    assert(t.len() == k + 1 + (8 - (k + 1) % 8) % 8);
    assert(t.len() == 8 * bytes.len());
    assert(t[k]);
    assert(k / 8 == bytes.len() - 1);
    assert(bitseq::of_bytes(bytes)[k] == bitseq::bit_of(bytes[k / 8] as int, 7 - k % 8));
    if bytes.last() == 0 {
        let p = pow2((7 - k % 8) as nat) as int;
        lemma_pow2_pos((7 - k % 8) as nat);
        assert(0int / p == 0) by (nonlinear_arith)
            requires
                p > 0,
        ;
    }
}

/// The slice header up to its entry points.
pub open spec fn slice_header_bits(chroma: ChromaFormat, sao: bool) -> Seq<bool> {
    let b = params::header_bits(20);
    let b = b.push(true);
    let b = b.push(false);
    let b = b + bitwriter::ue_bits(0);
    let b = b + bitwriter::ue_bits(2);
    let b = b.push(sao);
    let b = if chroma is Monochrome {
        b
    } else {
        b.push(false)
    };
    let b = b + bitwriter::se_bits(0);
    b.push(true)
}

/// Writes the slice header up to its entry points.
fn write_slice_header(chroma: ChromaFormat, sao: bool) -> (hdr: BitWriter)
    ensures
        hdr.wf(),
        hdr@ == slice_header_bits(chroma, sao),
{
    let mut hdr: BitWriter = BitWriter::new();
    nalu_header(&mut hdr, 20);
    hdr.write_bit(true); // first_slice_segment_in_pic_flag
    hdr.write_bit(false); // no_output_of_prior_pics_flag
    hdr.write_ue(0); // slice_pic_parameter_set_id
    hdr.write_ue(2); // slice_type
    hdr.write_bit(sao); // slice_sao_luma_flag
    if !chroma.is_monochrome() {
        hdr.write_bit(false); // slice_sao_chroma_flag
    }
    hdr.write_se(0); // slice_qp_delta
    hdr.write_bit(true); // slice_loop_filter_across_slices_enabled_flag
    hdr
}

/// The slice header: with entry points where the slice data has several parts that
/// are found by them.
pub open spec fn full_header_bits(
    chroma: ChromaFormat,
    sao: bool,
    entry_points: bool,
    parts: Seq<Vec<u8>>,
) -> Seq<bool> {
    let b = slice_header_bits(chroma, sao);
    bitwriter::trailed(
        if entry_points {
            b + entry_bits(sizes_of(parts))
        } else {
            b
        },
    )
}

/// The data of a slice.
pub open spec fn slice_data(entry_points: bool, parts: Seq<Vec<u8>>) -> Seq<u8> {
    if entry_points {
        joined(parts, parts.len() as int)
    } else if parts.len() > 0 {
        parts[0]@
    } else {
        Seq::empty()
    }
}

/// A slice starts with the header of its unit.
pub proof fn law_slices_start_with_their_type(
    n: Nalu,
    chroma: ChromaFormat,
    sao: bool,
    entry_points: bool,
    parts: Seq<Vec<u8>>,
    data: Seq<bool>,
)
    requires
        params::holds(n, 20, full_header_bits(chroma, sao, entry_points, parts) + data),
    ensures
        n.nal_type == 20,
        n.data@.len() >= 2,
        n.data@[0] == 0x28,
        n.data@[1] == 0x01,
{
    let h = params::header_bits(20);
    let (b, all) = (slice_header_bits(chroma, sao), full_header_bits(chroma, sao, entry_points, parts));
    assert(h.is_prefix_of(b));
    assert(b.is_prefix_of(all));
    assert(h.is_prefix_of(all + data));
    params::law_units_start_with_their_type(n, 20, all + data);
}

/// The slice unit of a picture from the coded parts of its data.
pub fn build_slice(
    chroma: ChromaFormat,
    sao: bool,
    entry_points: bool,
    substreams: &Vec<Vec<u8>>,
) -> (r: Nalu)
    requires
        entry_points ==> parts_ok(substreams@) && parts_addressable(substreams@),
    ensures
        params::holds(
            r,
            20,
            full_header_bits(chroma, sao, entry_points, substreams@) + bitseq::of_bytes(
                slice_data(entry_points, substreams@),
            ),
        ),
{
    let mut hdr: BitWriter = write_slice_header(chroma, sao);
    let mut data: Vec<u8> = Vec::new();
    if entry_points {
        data = assemble_substreams(&mut hdr, substreams);
    } else if substreams.len() > 0 {
        append_bytes(&mut data, &substreams[0]);
        assert(data@ =~= substreams@[0]@);
    }
    hdr.rbsp_trailing_bits();
    let ghost bits = hdr@;
    let mut out: Vec<u8> = hdr.finish();
    assert(bits + bitwriter::padding(bits.len() as int) =~= bits);
    proof {
        bitseq::lemma_of_bytes_add(out@, data@);
    }
    append_bytes(&mut out, &data);
    Nalu { nal_type: 20, data: out }
}

/// The quantisation parameter of a quality from 1 to 100: from 51 down to 10.
pub open spec fn quality_qp(quality: int) -> int {
    let qp = (100 - crate::arith::clip(1, 100, quality)) * 41 / 99 + 10;
    if qp < 51 {
        qp
    } else {
        51
    }
}

/// The quantisation parameter of a quality.
pub fn qp_for_quality(quality: u8) -> (qp: u8)
    ensures
        qp == quality_qp(quality as int),
        10 <= qp <= 51,
        1 <= quality <= 100 ==> 99 * (qp - 10) <= 41 * (100 - quality) < 99 * (qp - 9),
{
    let q: u32 = if quality < 1 {
        1
    } else if quality > 100 {
        100
    } else {
        quality as u32
    };
    let qp: u32 = (100 - q) * 41 / 99 + 10;
    if qp < 51 {
        qp as u8
    } else {
        51
    }
}

/// A quality below 1 counts as 1, and one above 100 as 100.
pub proof fn law_quality_is_clipped(quality: int)
    ensures
        quality <= 1 ==> quality_qp(quality) == quality_qp(1),
        quality >= 100 ==> quality_qp(quality) == quality_qp(100),
{
}

/// Over the qualities from 1 to 100 the parameter falls evenly from 51 to 10: it is the
/// whole number at or below the straight line.
pub proof fn law_the_parameter_falls_evenly(quality: int)
    requires
        1 <= quality <= 100,
    ensures
        99 * (quality_qp(quality) - 10) <= 41 * (100 - quality) < 99 * (quality_qp(quality) - 9),
        quality_qp(1) == 51,
        quality_qp(100) == 10,
{
}

/// A better quality never has a larger quantisation parameter.
pub proof fn law_quality_lowers_the_parameter(a: int, b: int)
    requires
        a <= b,
    ensures
        quality_qp(a) >= quality_qp(b),
{
}

} // verus!
