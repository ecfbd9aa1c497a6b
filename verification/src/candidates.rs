//! Short lists of prediction modes, the cheapest first.
use crate::fmt::ChromaFormat;
use crate::modes::ChromaModeCandidate;
use vstd::prelude::*;

verus! {

/// A luma mode that can be chosen, and a number that ranks it.
#[derive(Clone, Copy)]
pub struct IntraModeCandidate {
    pub mode: u8,
    pub cost: u64,
}

/// The costs of a list grow.
pub open spec fn sorted<T>(s: Seq<T>, cost: spec_fn(T) -> u64) -> bool {
    forall|i: int, j: int|
        0 <= i <= j < s.len() ==> cost(#[trigger] s[i]) <= cost(#[trigger] s[j])
}

/// The first place from `k` on where `v` is cheaper than what stands there, or the
/// end of the list.
pub open spec fn slot<T>(s: Seq<T>, cost: spec_fn(T) -> u64, v: u64, k: int) -> int
    decreases s.len() - k,
{
    if k < 0 || k >= s.len() {
        s.len() as int
    } else if v < cost(s[k]) {
        k
    } else {
        slot(s, cost, v, k + 1)
    }
}

/// A list of fixed length after one more candidate was offered: it goes in before
/// the first dearer one, and the last one drops out.
pub open spec fn offered<T>(s: Seq<T>, cost: spec_fn(T) -> u64, c: T) -> Seq<T> {
    let p = slot(s, cost, cost(c), 0);
    if p >= s.len() {
        s
    } else {
        s.take(p).push(c) + s.subrange(p, s.len() - 1)
    }
}

pub open spec fn luma_cost() -> spec_fn(IntraModeCandidate) -> u64 {
    |c: IntraModeCandidate| c.cost
}

pub open spec fn chroma_cost() -> spec_fn(ChromaModeCandidate) -> u64 {
    |c: ChromaModeCandidate| c.cost
}

proof fn lemma_slot<T>(s: Seq<T>, cost: spec_fn(T) -> u64, v: u64, k: int)
    requires
        0 <= k <= s.len(),
    ensures
        k <= slot(s, cost, v, k) <= s.len(),
        forall|i: int| k <= i < slot(s, cost, v, k) ==> cost(#[trigger] s[i]) <= v,
        slot(s, cost, v, k) < s.len() ==> v < cost(s[slot(s, cost, v, k)]),
    decreases s.len() - k,
{
    if k < s.len() && v >= cost(s[k]) {
        lemma_slot(s, cost, v, k + 1);
    }
}

/// Offering a candidate keeps a list sorted and its length.
pub proof fn law_offering_keeps_the_order<T>(s: Seq<T>, cost: spec_fn(T) -> u64, c: T)
    requires
        sorted(s, cost),
    ensures
        sorted(offered(s, cost, c), cost),
        offered(s, cost, c).len() == s.len(),
{
    lemma_slot(s, cost, cost(c), 0);
    let p = slot(s, cost, cost(c), 0);
    let r = offered(s, cost, c);
    assert forall|i: int, j: int| 0 <= i <= j < r.len() implies cost(#[trigger] r[i]) <= cost(
        #[trigger] r[j],
    ) by {
        if p < s.len() {
            if i < p {
                assert(r[i] == s[i]);
            } else if i > p {
                assert(r[i] == s[i - 1]);
            }
            if j < p {
                assert(r[j] == s[j]);
            } else if j > p {
                assert(r[j] == s[j - 1]);
            }
        }
    }
}

/// A candidate that is left out of a sorted list is no cheaper than any in it.
pub proof fn law_list_keeps_the_cheapest<T>(s: Seq<T>, cost: spec_fn(T) -> u64, c: T)
    requires
        sorted(s, cost),
        offered(s, cost, c) == s,
    ensures
        forall|i: int| 0 <= i < s.len() ==> cost(#[trigger] s[i]) <= cost(c),
{
    lemma_slot(s, cost, cost(c), 0);
    let p = slot(s, cost, cost(c), 0);
    if p < s.len() {
        assert(offered(s, cost, c)[p] == c);
        assert(cost(s[p]) == cost(c));
    }
}

/// Offers a luma mode to a list of fixed length.
pub fn update_intra_candidate(candidates: &mut Vec<IntraModeCandidate>, mode: u8, cost: u64)
    ensures
        final(candidates)@ == offered(
            old(candidates)@,
            luma_cost(),
            (IntraModeCandidate { mode, cost }),
        ),
{
    let n: usize = candidates.len();
    let ghost s = candidates@;
    let mut pos: usize = 0;
    while pos < n && cost >= candidates[pos].cost
        invariant
            pos <= n,
            n == candidates@.len(),
            candidates@ == s,
            slot(s, luma_cost(), cost, 0) == slot(s, luma_cost(), cost, pos as int),
        decreases n - pos,
    {
        pos += 1;
    }
    if pos < n {
        let c: IntraModeCandidate = IntraModeCandidate { mode, cost };
        candidates.insert(pos, c);
        let dropped: Option<IntraModeCandidate> = candidates.pop();
        assert(candidates@ =~= offered(s, luma_cost(), c));
    }
}

/// Offers a chroma choice to a list of fixed length.
pub fn update_chroma_candidate(
    candidates: &mut Vec<ChromaModeCandidate>,
    candidate: ChromaModeCandidate,
)
    ensures
        final(candidates)@ == offered(old(candidates)@, chroma_cost(), candidate),
{
    let n: usize = candidates.len();
    let ghost s = candidates@;
    let mut pos: usize = 0;
    while pos < n && candidate.cost >= candidates[pos].cost
        invariant
            pos <= n,
            n == candidates@.len(),
            candidates@ == s,
            slot(s, chroma_cost(), candidate.cost, 0) == slot(
                s,
                chroma_cost(),
                candidate.cost,
                pos as int,
            ),
        decreases n - pos,
    {
        pos += 1;
    }
    if pos < n {
        candidates.insert(pos, candidate);
        let dropped: Option<ChromaModeCandidate> = candidates.pop();
        assert(candidates@ =~= offered(s, chroma_cost(), candidate));
    }
}

/// A mode is in the list.
pub open spec fn lists(s: Seq<IntraModeCandidate>, mode: u8) -> bool {
    exists|i: int| 0 <= i < s.len() && (#[trigger] s[i]).mode == mode
}

/// A growing list after one more candidate: unless its mode is listed, it goes in
/// before the first dearer one.
pub open spec fn grown(s: Seq<IntraModeCandidate>, c: IntraModeCandidate) -> Seq<
    IntraModeCandidate,
> {
    if lists(s, c.mode) {
        s
    } else {
        s.insert(slot(s, luma_cost(), c.cost, 0), c)
    }
}

fn has_mode(list: &[IntraModeCandidate], n: usize, mode: u8) -> (r: bool)
    requires
        n <= list@.len(),
    ensures
        r == lists(list@.take(n as int), mode),
{
    for i in 0..n
        invariant
            n <= list@.len(),
            forall|k: int| 0 <= k < i ==> (#[trigger] list@[k]).mode != mode,
    {
        if list[i].mode == mode {
            assert(list@.take(n as int)[i as int].mode == mode);
            return true;
        }
    }
    assert forall|k: int| 0 <= k < n implies (#[trigger] list@.take(n as int)[k]).mode != mode by {
        assert(list@.take(n as int)[k] == list@[k]);
    }
    false
}

/// Adds a candidate to a growing list.
pub fn push_sorted_unique_candidate(
    candidates: &mut Vec<IntraModeCandidate>,
    candidate: IntraModeCandidate,
)
    ensures
        final(candidates)@ == grown(old(candidates)@, candidate),
{
    let n: usize = candidates.len();
    assert(candidates@.take(n as int) =~= candidates@);
    if has_mode(candidates, n, candidate.mode) {
        return ;
    }
    let ghost s = candidates@;
    proof {
        lemma_slot(s, luma_cost(), candidate.cost, 0);
    }
    let mut pos: usize = 0;
    while pos < n && candidate.cost >= candidates[pos].cost
        invariant
            pos <= n,
            n == candidates@.len(),
            candidates@ == s,
            slot(s, luma_cost(), candidate.cost, 0) == slot(
                s,
                luma_cost(),
                candidate.cost,
                pos as int,
            ),
        decreases n - pos,
    {
        pos += 1;
    }
    candidates.insert(pos, candidate);
}

/// A list lists no mode twice.
pub open spec fn unique(s: Seq<IntraModeCandidate>) -> bool {
    forall|i: int, j: int|
        0 <= i < j < s.len() ==> (#[trigger] s[i]).mode != (#[trigger] s[j]).mode
}

/// A growing list stays sorted and lists no mode twice.
pub proof fn law_growing_keeps_order_and_modes(s: Seq<IntraModeCandidate>, c: IntraModeCandidate)
    requires
        sorted(s, luma_cost()),
        unique(s),
    ensures
        sorted(grown(s, c), luma_cost()),
        unique(grown(s, c)),
        lists(grown(s, c), c.mode),
{
    let cost = luma_cost();
    lemma_slot(s, cost, c.cost, 0);
    let p = slot(s, cost, c.cost, 0);
    let r = grown(s, c);
    if !lists(s, c.mode) {
        assert(r[p] == c);
        assert forall|i: int, j: int| 0 <= i <= j < r.len() implies cost(#[trigger] r[i]) <= cost(
            #[trigger] r[j],
        ) by {
            if i < p {
                assert(r[i] == s[i]);
            } else if i > p {
                assert(r[i] == s[i - 1]);
            }
            if j < p {
                assert(r[j] == s[j]);
            } else if j > p {
                assert(r[j] == s[j - 1]);
            }
        }
        assert forall|i: int, j: int| 0 <= i < j < r.len() implies (#[trigger] r[i]).mode != (
        #[trigger] r[j]).mode by {
            if i < p {
                assert(r[i] == s[i]);
            } else if i > p {
                assert(r[i] == s[i - 1]);
            }
            if j < p {
                assert(r[j] == s[j]);
            } else if j > p {
                assert(r[j] == s[j - 1]);
            }
        }
    }
}

/// A growing list keeps the modes that it has.
pub proof fn lemma_grown_lists(s: Seq<IntraModeCandidate>, c: IntraModeCandidate, mode: u8)
    requires
        lists(s, mode),
    ensures
        lists(grown(s, c), mode),
{
    let p = slot(s, luma_cost(), c.cost, 0);
    lemma_slot(s, luma_cost(), c.cost, 0);
    let i = choose|i: int| 0 <= i < s.len() && (#[trigger] s[i]).mode == mode;
    if !lists(s, c.mode) {
        let r = grown(s, c);
        if i < p {
            assert(r[i] == s[i]);
        } else {
            assert(r[i + 1] == s[i]);
        }
    }
}

/// How many candidates are tried in full: two, and on blocks of eight a third one
/// whose cost is within the limit.
pub open spec fn full_count(s: Seq<IntraModeCandidate>, lu: int, limit: u64) -> int {
    if s.len() < 2 {
        s.len() as int
    } else if lu == 8 && s.len() >= 3 && s[2].cost <= limit {
        3
    } else {
        2
    }
}

/// How many candidates are tried in full, given the cost up to which a third one
/// is worth it.
pub fn full_rdo_candidate_count(candidates: &[IntraModeCandidate], lu: usize, limit: u64) -> (r:
    usize)
    ensures
        r == full_count(candidates@, lu as int, limit),
{
    let n: usize = candidates.len();
    if n < 2 {
        n
    } else if lu == 8 && n >= 3 && candidates[2].cost <= limit {
        3
    } else {
        2
    }
}

/// How many chroma choices are tried in full: a second one whose cost is within
/// the limit; in monochrome there is nothing to try.
pub fn full_rdo_chroma_count(
    candidates: &[ChromaModeCandidate],
    chroma: ChromaFormat,
    limit: u64,
) -> (r: usize)
    requires
        candidates@.len() >= 2,
    ensures
        r == if !(chroma is Monochrome) && candidates@[1].cost <= limit {
            2int
        } else {
            1
        },
{
    if !matches!(chroma, ChromaFormat::Monochrome) && candidates[1].cost <= limit {
        2
    } else {
        1
    }
}

/// The list after a mode was moved into its first `count` entries, and their new
/// number: a listed mode that is not among them swaps places with the entry behind
/// them.
pub open spec fn promoted(s: Seq<IntraModeCandidate>, count: int, mode: u8) -> (
    Seq<IntraModeCandidate>,
    int,
) {
    let k = first_of_mode(s, mode, 0);
    if count <= k < s.len() {
        (s.update(count, s[k]).update(k, s[count]), count + 1)
    } else {
        (s, count)
    }
}

/// The first place from `k` on with a mode, or the end of the list.
pub open spec fn first_of_mode(s: Seq<IntraModeCandidate>, mode: u8, k: int) -> int
    decreases s.len() - k,
{
    if k < 0 || k >= s.len() {
        s.len() as int
    } else if s[k].mode == mode {
        k
    } else {
        first_of_mode(s, mode, k + 1)
    }
}

/// Moves a listed mode into the first `count` entries.
pub fn promote(candidates: &mut Vec<IntraModeCandidate>, count: usize, mode: u8) -> (r: usize)
    requires
        count <= old(candidates)@.len(),
    ensures
        (final(candidates)@, r as int) == promoted(old(candidates)@, count as int, mode),
{
    let n: usize = candidates.len();
    let ghost s = candidates@;
    let mut k: usize = 0;
    while k < n && candidates[k].mode != mode
        invariant
            k <= n,
            n == candidates@.len(),
            candidates@ == s,
            first_of_mode(s, mode, 0) == first_of_mode(s, mode, k as int),
        decreases n - k,
    {
        k += 1;
    }
    if k >= n || k < count {
        return count;
    }
    let a: IntraModeCandidate = candidates[count];
    let b: IntraModeCandidate = candidates[k];
    candidates.set(count, b);
    candidates.set(k, a);
    count + 1
}

} // verus!
