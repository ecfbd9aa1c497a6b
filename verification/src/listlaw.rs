//! How the lists of candidates are kept: where an offer takes its place, what moves to the
//! front, and that every chroma choice is ranked.
use crate::candidates;
use crate::candidates::IntraModeCandidate;
use crate::fmt::ChromaFormat;
use crate::modes;
use crate::modes::ChromaModeCandidate;
use crate::shortlist;
use crate::shortlist::{CHROMA_ORDER, COARSE_MODES};
use vstd::prelude::*;

verus! {

/// Place `p` of a list is where a candidate of cost `v` belongs: behind all that cost no more,
/// before all that cost more.
pub open spec fn belongs<T>(s: Seq<T>, cost: spec_fn(T) -> u64, v: u64, p: int) -> bool {
    &&& 0 <= p <= s.len()
    &&& forall|i: int| 0 <= i < p ==> cost(#[trigger] s[i]) <= v
    &&& forall|i: int| p <= i < s.len() ==> v < cost(#[trigger] s[i])
}

proof fn lemma_slot<T>(s: Seq<T>, cost: spec_fn(T) -> u64, v: u64, k: int)
    requires
        candidates::sorted(s, cost),
        0 <= k <= s.len(),
        forall|i: int| 0 <= i < k ==> cost(#[trigger] s[i]) <= v,
    ensures
        belongs(s, cost, v, candidates::slot(s, cost, v, k)),
    decreases s.len() - k,
{
    if k < s.len() && !(v < cost(s[k])) {
        lemma_slot(s, cost, v, k + 1);
    }
}

/// Where an offer belongs in a sorted list of fixed length it takes its place, behind those
/// that cost the same, and the last one falls out; where it belongs behind all, the list stays.
pub proof fn law_an_offer_takes_its_place<T>(s: Seq<T>, cost: spec_fn(T) -> u64, c: T, p: int)
    requires
        candidates::sorted(s, cost),
        belongs(s, cost, cost(c), p),
    ensures
        p < s.len() ==> candidates::offered(s, cost, c) == s.insert(p, c).drop_last(),
        p == s.len() ==> candidates::offered(s, cost, c) == s,
{
    lemma_slot(s, cost, cost(c), 0);
    let q = candidates::slot(s, cost, cost(c), 0);
    if p < q {
        assert(cost(s[p]) <= cost(c));
    }
    if q < p {
        assert(cost(s[q]) <= cost(c));
    }
    if p < s.len() {
        assert(candidates::offered(s, cost, c) =~= s.insert(p, c).drop_last());
    }
}

/// A mode that is not listed yet takes its place in a list that grows; one that is listed
/// changes nothing.
pub proof fn law_a_new_mode_takes_its_place(s: Seq<IntraModeCandidate>, c: IntraModeCandidate, p: int)
    requires
        candidates::sorted(s, candidates::luma_cost()),
        belongs(s, candidates::luma_cost(), c.cost, p),
    ensures
        (forall|i: int| 0 <= i < s.len() ==> (#[trigger] s[i]).mode != c.mode)
            ==> candidates::grown(s, c) == s.insert(p, c),
        (exists|i: int| 0 <= i < s.len() && (#[trigger] s[i]).mode == c.mode)
            ==> candidates::grown(s, c) == s,
{
    let cost = candidates::luma_cost();
    lemma_slot(s, cost, c.cost, 0);
    let q = candidates::slot(s, cost, c.cost, 0);
    if p < q {
        assert(cost(s[p]) <= c.cost);
    }
    if q < p {
        assert(cost(s[q]) <= c.cost);
    }
}

proof fn lemma_first_of_mode(s: Seq<IntraModeCandidate>, mode: u8, k: int)
    requires
        0 <= k <= s.len(),
        forall|i: int| 0 <= i < k ==> (#[trigger] s[i]).mode != mode,
    ensures
        ({
            let f = candidates::first_of_mode(s, mode, k);
            &&& 0 <= f <= s.len()
            &&& f < s.len() ==> s[f].mode == mode
            &&& forall|i: int| 0 <= i < f ==> (#[trigger] s[i]).mode != mode
        }),
    decreases s.len() - k,
{
    if k < s.len() && s[k].mode != mode {
        lemma_first_of_mode(s, mode, k + 1);
    }
}

/// A listed mode is among those that are tried once it was promoted: it was before, or it
/// changes places with the first that was not. A mode that is not listed changes nothing.
pub proof fn law_a_promoted_mode_is_tried(s: Seq<IntraModeCandidate>, count: int, mode: u8)
    requires
        0 <= count <= s.len(),
    ensures
        ({
            let (r, n) = candidates::promoted(s, count, mode);
            &&& r.len() == s.len()
            &&& count <= n <= count + 1
            &&& n <= s.len()
            &&& candidates::lists(s, mode) ==> exists|i: int|
                0 <= i < n && (#[trigger] r[i]).mode == mode
            &&& !candidates::lists(s, mode) ==> r == s && n == count
            &&& n == count ==> r == s
            &&& forall|i: int| 0 <= i < count ==> #[trigger] r[i] == s[i]
            &&& n > count ==> (exists|k: int|
                count <= k < s.len() && r[k] == s[count] && r[count] == #[trigger] s[k] && (forall|
                    i: int,
                |
                    0 <= i < s.len() && i != k && i != count ==> #[trigger] r[i] == s[i]))
        }),
{
    lemma_first_of_mode(s, mode, 0);
    let k = candidates::first_of_mode(s, mode, 0);
    let (r, n) = candidates::promoted(s, count, mode);
    if count <= k < s.len() {
        assert(r[count] == s[k]);
        assert(r[count].mode == mode);
        assert(candidates::lists(s, mode));
    } else if k < count {
        assert(r[k].mode == mode);
        assert(candidates::lists(s, mode));
    }
}

/// The directions within two of the best one of those measured at first are measured too.
pub proof fn law_neighbours_of_the_best_are_ranked(best: int, mpm: Seq<u8>, mode: u8)
    requires
        2 <= best <= 34,
        2 <= mode <= 34,
        best - 2 <= mode <= best + 2,
        mode != best,
    ensures
        shortlist::ranked_modes(best, mpm).contains(mode),
{
    let s = COARSE_MODES@;
    let near = shortlist::near(best);
    assert(shortlist::distinct(s));
    shortlist::lemma_with_modes(s, near);
    shortlist::lemma_with_modes(shortlist::with_modes(s, near), mpm);
    let (a, b, c, d) = (
        shortlist::direction(best - 2),
        shortlist::direction(best - 1),
        shortlist::direction(best + 1),
        shortlist::direction(best + 2),
    );
    assert(near == a + b + c + d);
    if mode == best - 2 {
        assert(near[0] == mode);
    } else if mode == best - 1 {
        assert(near[a.len() as int] == mode);
    } else if mode == best + 1 {
        assert(near[(a.len() + b.len()) as int] == mode);
    } else {
        assert(near[(a.len() + b.len() + c.len()) as int] == mode);
    }
    assert(near.contains(mode));
}

/// The list of chroma choices after the first `k` of them were offered.
spec fn ranked(
    s: Seq<ChromaModeCandidate>,
    luma_mode: u8,
    chroma: ChromaFormat,
    costs: Seq<u64>,
    k: int,
) -> bool {
    &&& s.len() == 5
    &&& candidates::sorted(s, candidates::chroma_cost())
    &&& forall|i: int| k <= i < 5 ==> (#[trigger] s[i]).cost == u64::MAX
    &&& forall|j: int|
        0 <= j < k ==> s.contains(
            shortlist::chroma_candidate(
                luma_mode,
                chroma,
                (#[trigger] CHROMA_ORDER@[j]) as int,
                costs[CHROMA_ORDER@[j] as int],
            ),
        )
}

proof fn lemma_ranked(luma_mode: u8, chroma: ChromaFormat, costs: Seq<u64>, k: int)
    requires
        0 <= k <= 5,
        costs.len() == 5,
        forall|i: int| 0 <= i < 5 ==> #[trigger] costs[i] < u64::MAX,
    ensures
        ranked(shortlist::chroma_list(luma_mode, chroma, costs, k), luma_mode, chroma, costs, k),
    decreases k,
{
    let cost = candidates::chroma_cost();
    if k > 0 {
        lemma_ranked(luma_mode, chroma, costs, k - 1);
        let s = shortlist::chroma_list(luma_mode, chroma, costs, k - 1);
        let r = shortlist::chroma_list(luma_mode, chroma, costs, k);
        let at = CHROMA_ORDER@[k - 1] as int;
        assert(0 <= at < 5) by {
            assert(k == 1 || k == 2 || k == 3 || k == 4 || k == 5);
        }
        let c = shortlist::chroma_candidate(luma_mode, chroma, at, costs[at]);
        assert(r == candidates::offered(s, cost, c));
        candidates::law_offering_keeps_the_order(s, cost, c);
        lemma_slot(s, cost, cost(c), 0);
        let p = candidates::slot(s, cost, cost(c), 0);
        assert(p <= k - 1) by {
            if p > k - 1 {
                assert(cost(s[k - 1]) <= cost(c));
                assert(s[k - 1].cost == u64::MAX);
            }
        }
        law_an_offer_takes_its_place(s, cost, c, p);
        assert forall|i: int| k <= i < 5 implies (#[trigger] r[i]).cost == u64::MAX by {
            assert(r[i] == s[i - 1]);
        }
        assert forall|j: int| 0 <= j < k implies r.contains(
            shortlist::chroma_candidate(
                luma_mode,
                chroma,
                (#[trigger] CHROMA_ORDER@[j]) as int,
                costs[CHROMA_ORDER@[j] as int],
            ),
        ) by {
            if j == k - 1 {
                assert(r[p] == c);
            } else {
                let d = shortlist::chroma_candidate(
                    luma_mode,
                    chroma,
                    CHROMA_ORDER@[j] as int,
                    costs[CHROMA_ORDER@[j] as int],
                );
                assert(s.contains(d));
                let i = s.index_of(d);
                assert(costs[CHROMA_ORDER@[j] as int] < u64::MAX) by {
                    assert(j == 0 || j == 1 || j == 2 || j == 3);
                }
                assert(i < k - 1) by {
                    if i >= k - 1 {
                        assert(s[i].cost == u64::MAX);
                    }
                }
                if i < p {
                    assert(r[i] == d);
                } else {
                    assert(r[i + 1] == d);
                }
            }
        }
    }
}

/// Every chroma choice is ranked, with its mode and its cost, and the cheaper ones come first.
pub proof fn law_every_chroma_choice_is_ranked(
    luma_mode: u8,
    chroma: ChromaFormat,
    costs: Seq<u64>,
    choice: int,
)
    requires
        costs.len() == 5,
        forall|i: int| 0 <= i < 5 ==> #[trigger] costs[i] < u64::MAX,
        0 <= choice < 5,
    ensures
        ({
            let r = shortlist::chroma_list(luma_mode, chroma, costs, 5);
            &&& r.len() == 5
            &&& forall|i: int, j: int|
                0 <= i <= j < 5 ==> (#[trigger] r[i]).cost <= (#[trigger] r[j]).cost
            &&& exists|i: int|
                0 <= i < 5 && (#[trigger] r[i]).syntax_idx == choice && r[i].cost == costs[choice]
                    && r[i].pred_mode == modes::chroma_mode_of(luma_mode as int, chroma, choice) as u8
        }),
{
    lemma_ranked(luma_mode, chroma, costs, 5);
    let r = shortlist::chroma_list(luma_mode, chroma, costs, 5);
    let cost = candidates::chroma_cost();
    assert forall|i: int, j: int| 0 <= i <= j < 5 implies (#[trigger] r[i]).cost <= (
    #[trigger] r[j]).cost by {
        assert(cost(r[i]) <= cost(r[j]));
    }
    let j = if choice == 4 {
        0int
    } else if choice == 0 {
        1
    } else if choice == 3 {
        2
    } else if choice == 1 {
        3
    } else {
        4
    };
    assert(CHROMA_ORDER@[j] == choice);
    let d = shortlist::chroma_candidate(luma_mode, chroma, choice, costs[choice]);
    assert(r.contains(d));
    let i = r.index_of(d);
    assert(r[i].syntax_idx == choice);
}

/// The first of the modes that are kept costs no more than any that was offered.
proof fn lemma_kept_first(modes: Seq<u8>, costs: Seq<u64>, keep: int, k: int)
    requires
        1 <= keep,
        0 <= k,
    ensures
        ({
            let s = shortlist::kept(modes, costs, keep, k);
            &&& s.len() == keep
            &&& candidates::sorted(s, candidates::luma_cost())
            &&& forall|i: int| 0 <= i < k ==> s[0].cost <= #[trigger] costs[i]
        }),
    decreases k,
{
    let cost = candidates::luma_cost();
    if k > 0 {
        lemma_kept_first(modes, costs, keep, k - 1);
        let s = shortlist::kept(modes, costs, keep, k - 1);
        let r = shortlist::kept(modes, costs, keep, k);
        let c = IntraModeCandidate { mode: modes[k - 1], cost: costs[k - 1] };
        assert(r == candidates::offered(s, cost, c));
        candidates::law_offering_keeps_the_order(s, cost, c);
        lemma_slot(s, cost, cost(c), 0);
        let p = candidates::slot(s, cost, cost(c), 0);
        law_an_offer_takes_its_place(s, cost, c, p);
        if p == 0 {
            assert(r[0] == c);
            assert(cost(c) < cost(s[0]));
        } else {
            assert(r[0] == s[0]);
            assert(cost(s[0]) <= cost(c));
        }
    }
}

proof fn lemma_grown_sorted(s: Seq<IntraModeCandidate>, c: IntraModeCandidate)
    requires
        candidates::sorted(s, candidates::luma_cost()),
    ensures
        candidates::sorted(candidates::grown(s, c), candidates::luma_cost()),
{
    let cost = candidates::luma_cost();
    let r = candidates::grown(s, c);
    lemma_slot(s, cost, c.cost, 0);
    let p = candidates::slot(s, cost, c.cost, 0);
    if !candidates::lists(s, c.mode) {
        assert(r == s.insert(p, c));
        assert forall|i: int, j: int| 0 <= i <= j < r.len() implies cost(#[trigger] r[i]) <= cost(
            #[trigger] r[j],
        ) by {
            if i < p && j > p {
                assert(cost(s[i]) <= cost(s[j - 1]));
            } else if i > p {
                assert(cost(s[i - 1]) <= cost(s[j - 1]));
            } else if j < p {
                assert(cost(s[i]) <= cost(s[j]));
            }
        }
    }
}

/// A list that grows has a first that costs no more than before, and no more than what was
/// offered if there was none.
proof fn lemma_grown_first(s: Seq<IntraModeCandidate>, more: Seq<IntraModeCandidate>)
    requires
        candidates::sorted(s, candidates::luma_cost()),
    ensures
        ({
            let r = shortlist::grown_by(s, more);
            &&& candidates::sorted(r, candidates::luma_cost())
            &&& s.len() > 0 ==> r.len() > 0 && r[0].cost <= s[0].cost
            &&& s.len() == 0 && more.len() > 0 ==> r.len() > 0 && r[0].cost <= more[0].cost
        }),
    decreases more.len(),
{
    let cost = candidates::luma_cost();
    if more.len() > 0 {
        let front = more.drop_last();
        lemma_grown_first(s, front);
        let a = shortlist::grown_by(s, front);
        let c = more.last();
        let r = shortlist::grown_by(s, more);
        assert(r == candidates::grown(a, c));
        lemma_grown_sorted(a, c);
        lemma_slot(a, cost, c.cost, 0);
        let p = candidates::slot(a, cost, c.cost, 0);
        law_a_new_mode_takes_its_place(a, c, p);
        if candidates::lists(a, c.mode) {
            assert(r == a);
        } else {
            assert(r == a.insert(p, c));
            if p == 0 {
                assert(r[0] == c);
                if a.len() > 0 {
                    assert(c.cost < cost(a[0]));
                }
            } else {
                assert(r[0] == a[0]);
            }
        }
        if s.len() == 0 && front.len() == 0 {
            assert(a.len() == 0);
            assert(!candidates::lists(a, c.mode));
        }
    }
}

/// The first of the short list costs no more than any mode that was ranked.
pub proof fn law_the_cheapest_mode_leads(
    modes: Seq<u8>,
    costs: Seq<u64>,
    keep: int,
    mpm: Seq<u8>,
    lossless: bool,
    i: int,
)
    requires
        1 <= keep,
        0 <= i < modes.len(),
        costs.len() == modes.len(),
    ensures
        ({
            let r = shortlist::short_list(modes, costs, keep, mpm, lossless);
            r.len() > 0 && r[0].cost <= costs[i]
        }),
{
    let best = shortlist::kept(modes, costs, keep, modes.len() as int);
    lemma_kept_first(modes, costs, keep, modes.len() as int);
    let none = Seq::<IntraModeCandidate>::empty();
    lemma_grown_first(none, best);
    let a = shortlist::grown_by(none, best);
    let more = shortlist::with_costs(modes, costs, mpm);
    lemma_grown_first(a, more);
    let b = shortlist::grown_by(a, more);
    lemma_grown_first(b, shortlist::with_costs(modes, costs, shortlist::straight()));
    assert(best[0].cost <= costs[i]);
}

/// Without loss the straight directions are among the modes that are tried, where they are
/// listed; with loss the list stays as it is, and two or three of two or more are tried.
pub proof fn law_straight_modes_are_tried_without_loss(
    s: Seq<IntraModeCandidate>,
    size: int,
    limit: u64,
)
    requires
        candidates::lists(s, 10),
        candidates::lists(s, 26),
    ensures
        ({
            let (r, n) = shortlist::tried(s, size, limit, true);
            &&& r.len() == s.len()
            &&& 0 <= n <= s.len()
            &&& exists|i: int| 0 <= i < n && (#[trigger] r[i]).mode == 10
            &&& exists|i: int| 0 <= i < n && (#[trigger] r[i]).mode == 26
        }),
        shortlist::tried(s, size, limit, false).0 == s,
        s.len() >= 2 ==> 2 <= shortlist::tried(s, size, limit, false).1 <= 3,
{
    let count = candidates::full_count(s, size, limit);
    let a = candidates::promoted(s, count, 10);
    law_a_promoted_mode_is_tried(s, count, 10);
    let k = choose|i: int| 0 <= i < a.1 && (#[trigger] a.0[i]).mode == 10;
    let x = choose|i: int| 0 <= i < s.len() && (#[trigger] s[i]).mode == 26;
    assert(candidates::lists(a.0, 26)) by {
        if a.1 == count {
            assert(a.0[x].mode == 26);
        } else {
            let j = choose|k: int|
                count <= k < s.len() && a.0[k] == s[count] && a.0[count] == #[trigger] s[k]
                    && (forall|i: int|
                    0 <= i < s.len() && i != k && i != count ==> #[trigger] a.0[i] == s[i]);
            if x == j {
                assert(a.0[count].mode == 26);
            } else if x == count {
                assert(a.0[j].mode == 26);
            } else {
                assert(a.0[x].mode == 26);
            }
        }
    }
    law_a_promoted_mode_is_tried(a.0, a.1, 26);
    let b = candidates::promoted(a.0, a.1, 26);
    assert(b.0[k] == a.0[k]);
    assert(b.0[k].mode == 10);
}

} // verus!
