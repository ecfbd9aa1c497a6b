//! Weighing the levels of a sub-block one after another.
use crate::cabac::contexts::ContextSet;
use crate::cabac::engine::CtxModel;
use crate::cabac::levelrate::rdoq_level_bits;
use crate::cabac::{bins, levelrate, rate, residual, single};
use vstd::arithmetic::power2::*;
use vstd::prelude::*;

verus! {

/// How far the levels of a sub-block have come: what the next one takes depends on
/// those before it.
#[derive(Clone, Copy)]
pub struct GroupState {
    /// The contexts of the greater-than-one flags.
    pub ctx_set: usize,
    /// Which of them is next.
    pub c1: usize,
    /// Levels so far.
    pub c1_idx: u32,
    /// Levels above one so far.
    pub c2_idx: u32,
    pub rice: u32,
}

impl GroupState {
    pub open spec fn wf(self, is_luma: bool) -> bool {
        &&& self.ctx_set < 2 || is_luma && self.ctx_set < 4
        &&& self.c1 <= 3
        &&& self.c2_idx <= self.c1_idx <= 16
        &&& self.rice <= 4
    }

    /// Before the first level.
    pub open spec fn first(set: int) -> GroupState {
        GroupState { ctx_set: set as usize, c1: 1, c1_idx: 0, c2_idx: 0, rice: 0 }
    }

    /// What the flags can say of the next level.
    pub open spec fn base(self) -> int {
        if self.c1_idx >= 8 {
            1
        } else if self.c2_idx >= 1 {
            2
        } else {
            3
        }
    }

    /// After one more level.
    pub open spec fn after(self, level: int) -> GroupState {
        GroupState {
            ctx_set: self.ctx_set,
            c1: residual::c1_next(self.c1 as int, level) as usize,
            c1_idx: (self.c1_idx + 1) as u32,
            c2_idx: (self.c2_idx + (if level > 1 {
                1int
            } else {
                0
            })) as u32,
            rice: (if level >= self.base() {
                residual::rice_next(self.rice as int, level)
            } else {
                self.rice as int
            }) as u32,
        }
    }

    /// What the parts of a level that comes next take.
    pub open spec fn terms(self, bank: Seq<CtxModel>, level: int, is_luma: bool) -> Seq<int> {
        levelrate::level_terms(
            bank,
            level,
            self.ctx_set as int,
            self.c1 as int,
            self.c1_idx as int,
            self.c2_idx as int,
            self.rice as int,
            is_luma,
        )
    }

    /// Starts a sub-block. `carry` is the counter that the sub-block before it was left
    /// with.
    pub fn start(first: bool, is_luma: bool, carry: usize) -> (r: GroupState)
        ensures
            r == GroupState::first(
                (if first || !is_luma {
                    0int
                } else {
                    2
                }) + (if carry == 0 {
                    1int
                } else {
                    0
                }),
            ),
            r.wf(is_luma),
    {
        let low: usize = if first || !is_luma {
            0
        } else {
            2
        };
        let more: usize = if carry == 0 {
            1
        } else {
            0
        };
        GroupState { ctx_set: low + more, c1: 1, c1_idx: 0, c2_idx: 0, rice: 0 }
    }

    /// What a level takes if it comes next, in steps of two to the power of -30 of a bit.
    pub fn level_bits(&self, level: u32, is_luma: bool, ctx: &ContextSet) -> (r: u64)
        requires
            self.wf(is_luma),
            ctx.wf(),
            1 <= level <= 0x8000,
        ensures
            r == single::sum(self.terms(ctx@, level as int, is_luma)),
    {
        rdoq_level_bits(
            level,
            self.ctx_set,
            self.c1,
            self.c1_idx,
            self.c2_idx,
            self.rice,
            is_luma,
            ctx,
        )
    }

    /// Goes on to the next level.
    pub fn advance(&mut self, level: u32)
        requires
            old(self).wf(true),
            old(self).c1_idx < 16,
            1 <= level <= 0x8000,
        ensures
            *final(self) == old(self).after(level as int),
            final(self).wf(true),
    {
        let base: u32 = if self.c1_idx >= 8 {
            1
        } else if self.c2_idx >= 1 {
            2
        } else {
            3
        };
        let ghost rice = self.rice;
        proof {
            lemma2_to64();
            lemma_pow2_pos(rice as nat);
        }
        let step: u32 = match self.rice {
            0 => 3,
            1 => 6,
            2 => 12,
            3 => 24,
            _ => 48,
        };
        assert(step == 3 * pow2(rice as nat));
        if level >= base && level > step && self.rice < 4 {
            self.rice = self.rice + 1;
        }
        self.c1_idx = self.c1_idx + 1;
        if level > 1 {
            self.c1 = 0;
            self.c2_idx = self.c2_idx + 1;
        } else if self.c1 > 0 && self.c1 < 3 {
            self.c1 = self.c1 + 1;
        }
    }
}

/// The state before level `c` of a sub-block.
pub open spec fn state_at(v: Seq<int>, set: int, c: int) -> GroupState
    decreases c,
{
    if c <= 0 {
        GroupState::first(set)
    } else {
        state_at(v, set, c - 1).after(residual::mag(v[c - 1]))
    }
}

/// What the first `c` levels take, weighed one after another, where nothing is rounded.
pub open spec fn weight(bank: Seq<CtxModel>, v: Seq<int>, set: int, is_luma: bool, c: int) -> int
    decreases c,
{
    if c <= 0 {
        0
    } else {
        weight(bank, v, set, is_luma, c - 1) + single::exact(
            state_at(v, set, c - 1).terms(bank, residual::mag(v[c - 1]), is_luma),
        )
    }
}

/// The state goes with the counters of the coder.
proof fn lemma_state(v: Seq<int>, set: int, c: int)
    requires
        0 <= c <= v.len() <= 16,
        0 <= set < 4,
    ensures
        ({
            let s = state_at(v, set, c);
            &&& s.ctx_set == set
            &&& s.c1 == residual::c1_at(v, c)
            &&& 0 <= residual::c1_at(v, c) <= 3
            &&& s.c1_idx == c
            &&& s.c2_idx <= c
            &&& s.rice <= 4
            &&& s.c2_idx == 0 <==> forall|i: int|
                0 <= i < c ==> residual::mag(#[trigger] v[i]) <= 1
        }),
    decreases c,
{
    if c > 0 {
        lemma_state(v, set, c - 1);
        let s = state_at(v, set, c - 1);
        assert(v[c - 1] == v[c - 1]);
        if residual::mag(v[c - 1]) <= 1 && s.c2_idx == 0 {
            assert forall|i: int| 0 <= i < c implies residual::mag(#[trigger] v[i]) <= 1 by {}
        }
    }
}

/// The first level above one.
proof fn lemma_first_big(v: Seq<int>, c: int)
    requires
        0 <= c,
    ensures
        ({
            let f = residual::first_big(v, c);
            &&& f >= 0 ==> {
                &&& c <= f < residual::flagged(v)
                &&& residual::mag(v[f]) > 1
                &&& forall|i: int| c <= i < f ==> residual::mag(#[trigger] v[i]) <= 1
            }
            &&& f < 0 ==> forall|i: int|
                c <= i < residual::flagged(v) ==> residual::mag(#[trigger] v[i]) <= 1
        }),
    decreases residual::flagged(v) - c,
{
    if c < residual::flagged(v) && residual::mag(v[c]) <= 1 {
        lemma_first_big(v, c + 1);
    }
}

/// What the levels from `c` on take, by kinds of bins.
spec fn left(bank: Seq<CtxModel>, v: Seq<int>, set: int, is_luma: bool, c: int) -> int {
    let ones = residual::greater1_bins(v, set, is_luma);
    let big = residual::first_big(v, 0);
    (if c < residual::flagged(v) {
        levelrate::still_rate(bank, ones.skip(c))
    } else {
        0
    }) + (if c <= big {
        levelrate::still_rate(bank, residual::greater2_bins(v, set, is_luma))
    } else {
        0
    }) + single::ONE * (v.len() - c) + levelrate::still_rate(
        bank,
        residual::rest_bins(v, c, state_at(v, set, c).rice as int),
    )
}

proof fn lemma_ones(bank: Seq<CtxModel>, v: Seq<int>, set: int, is_luma: bool, c: int)
    requires
        0 <= c < residual::flagged(v),
    ensures
        ({
            let ones = residual::greater1_bins(v, set, is_luma);
            levelrate::still_rate(bank, ones.skip(c)) == levelrate::still_rate(bank, seq![ones[c]])
                + (if c + 1 < residual::flagged(v) {
                levelrate::still_rate(bank, ones.skip(c + 1))
            } else {
                0
            })
        }),
{
    let ones = residual::greater1_bins(v, set, is_luma);
    assert(ones.skip(c) =~= seq![ones[c]] + ones.skip(c + 1));
    levelrate::lemma_still_add(bank, seq![ones[c]], ones.skip(c + 1));
    if c + 1 >= residual::flagged(v) {
        assert(ones.skip(c + 1) =~= Seq::empty());
    }
}

/// One level, by kinds of bins.
proof fn lemma_one_level(bank: Seq<CtxModel>, s: GroupState, level: int, is_luma: bool)
    ensures
        ({
            let one = levelrate::one_level_one(
                level,
                s.ctx_set as int,
                s.c1 as int,
                is_luma,
            );
            let two = levelrate::one_level_two(level, s.ctx_set as int, is_luma);
            single::exact(s.terms(bank, level, is_luma)) == (if s.c1_idx < 8 {
                levelrate::still_rate(bank, seq![one])
            } else {
                0
            }) + (if s.c1_idx < 8 && s.c2_idx < 1 && level > 1 {
                levelrate::still_rate(bank, seq![two])
            } else {
                0
            }) + single::ONE + (if level >= s.base() {
                levelrate::still_rate(
                    bank,
                    residual::remaining_bins(level - s.base(), s.rice as int),
                )
            } else {
                0
            })
        }),
{
    let one = levelrate::one_level_one(level, s.ctx_set as int, s.c1 as int, is_luma);
    let two = levelrate::one_level_two(level, s.ctx_set as int, is_luma);
    levelrate::lemma_still_one(bank, one);
    levelrate::lemma_still_one(bank, two);
    let rest = residual::remaining_bins(level - s.base(), s.rice as int);
    levelrate::lemma_rest_plain(bank, level - s.base(), s.rice as int);
    let none = Seq::<int>::empty();
    let a = none.push(single::ONE as int);
    single::lemma_sum_push(none, single::ONE as int);
    let b = if level >= s.base() {
        a.push(single::ONE * rest.len())
    } else {
        a
    };
    single::lemma_sum_push(a, single::ONE * rest.len());
    let (x, y) = (
        rate::symbol_rate(bins::symbol(bank, one)),
        rate::symbol_rate(bins::symbol(bank, two)),
    );
    let c = if s.c1_idx < 8 {
        b.push(x)
    } else {
        b
    };
    single::lemma_sum_push(b, x);
    let d = if s.c1_idx < 8 && s.c2_idx < 1 && level > 1 {
        c.push(y)
    } else {
        c
    };
    single::lemma_sum_push(c, y);
    assert(s.terms(bank, level, is_luma) =~= d);
}

/// A level takes what it makes less of what is left.
proof fn lemma_step(bank: Seq<CtxModel>, v: Seq<int>, set: int, is_luma: bool, c: int)
    requires
        0 <= c < v.len() <= 16,
        0 <= set < 4,
        forall|i: int| 0 <= i < v.len() ==> residual::mag(#[trigger] v[i]) >= 1,
    ensures
        left(bank, v, set, is_luma, c) == single::exact(
            state_at(v, set, c).terms(bank, residual::mag(v[c]), is_luma),
        ) + left(bank, v, set, is_luma, c + 1),
{
    let s = state_at(v, set, c);
    let m = residual::mag(v[c]);
    let big = residual::first_big(v, 0);
    lemma_state(v, set, c);
    lemma_first_big(v, 0);
    lemma_one_level(bank, s, m, is_luma);
    assert(state_at(v, set, c + 1) == s.after(m));
    let one = levelrate::one_level_one(m, set, s.c1 as int, is_luma);
    let two = levelrate::one_level_two(m, set, is_luma);
    if c < 8 {
        lemma_ones(bank, v, set, is_luma, c);
        assert(residual::greater1_bins(v, set, is_luma)[c] == one);
        if s.c2_idx < 1 && m > 1 {
            assert(big == c) by {
                if 0 <= big < c {
                    assert(residual::mag(v[big]) <= 1);
                }
            }
            assert(residual::greater2_bins(v, set, is_luma) =~= seq![two]);
        } else {
            assert(big != c) by {
                if big == c {
                    assert forall|i: int| 0 <= i < c implies residual::mag(#[trigger] v[i]) <= 1 by {}
                }
            }
        }
    }
    assert(residual::has_rest(v, c) == (m >= s.base())) by {
        if c < 8 && big == c {
            assert forall|i: int| 0 <= i < c implies residual::mag(#[trigger] v[i]) <= 1 by {}
        }
    }
    let rice = s.rice as int;
    if m >= s.base() {
        assert(residual::base_level(v, c) == s.base()) by {
            if c < 8 && big == c {
                assert forall|i: int| 0 <= i < c implies residual::mag(#[trigger] v[i]) <= 1 by {}
            }
        }
        levelrate::lemma_still_add(
            bank,
            residual::remaining_bins(m - s.base(), rice),
            residual::rest_bins(v, c + 1, residual::rice_next(rice, m)),
        );
    }
}

proof fn lemma_weight(bank: Seq<CtxModel>, v: Seq<int>, set: int, is_luma: bool, c: int)
    requires
        0 <= c <= v.len() <= 16,
        0 <= set < 4,
        forall|i: int| 0 <= i < v.len() ==> residual::mag(#[trigger] v[i]) >= 1,
    ensures
        weight(bank, v, set, is_luma, c) + left(bank, v, set, is_luma, c) == left(
            bank,
            v,
            set,
            is_luma,
            0,
        ),
    decreases c,
{
    if c > 0 {
        lemma_weight(bank, v, set, is_luma, c - 1);
        lemma_step(bank, v, set, is_luma, c - 1);
    }
}

/// The levels of a sub-block, weighed one after another, weigh what their bins take
/// while the contexts stand still and no sign is hidden, but for rounding.
pub proof fn law_levels_weigh_what_they_take(
    bank: Seq<CtxModel>,
    v: Seq<int>,
    set: int,
    is_luma: bool,
)
    requires
        v.len() <= 16,
        0 <= set < 4,
        forall|i: int| 0 <= i < v.len() ==> residual::mag(#[trigger] v[i]) >= 1,
    ensures
        weight(bank, v, set, is_luma, v.len() as int) == levelrate::still_rate(
            bank,
            residual::level_bins(v, set, is_luma, false),
        ),
{
    let n = v.len() as int;
    lemma_weight(bank, v, set, is_luma, n);
    lemma_first_big(v, 0);
    let none = Seq::<bins::Bin>::empty();
    assert(levelrate::still_rate(bank, none) == 0);
    assert(left(bank, v, set, is_luma, n) == 0);
    let ones = residual::greater1_bins(v, set, is_luma);
    let two = residual::greater2_bins(v, set, is_luma);
    let signs = residual::sign_bins(v, n);
    let rest = residual::rest_bins(v, 0, 0);
    assert(ones.skip(0) =~= ones);
    if residual::flagged(v) == 0 {
        assert(ones =~= none);
    }
    let bits = Seq::new(v.len(), |i: int| v[i] < 0);
    assert(signs =~= bins::plain_bits(bits));
    levelrate::lemma_still_plain(bank, bits);
    levelrate::lemma_still_add(bank, ones, two);
    levelrate::lemma_still_add(bank, ones + two, signs);
    levelrate::lemma_still_add(bank, ones + two + signs, rest);
    assert(state_at(v, set, 0).rice == 0);
}

} // verus!
