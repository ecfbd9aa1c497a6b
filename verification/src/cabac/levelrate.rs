//! How many bits levels would take while the contexts stand still.
use crate::arith;
use crate::bitseq;
use crate::cabac::contexts;
use crate::cabac::contexts::ContextSet;
use crate::cabac::engine::CtxModel;
use crate::cabac::residual::GROUP_IDX;
use crate::cabac::{bins, rate, residual, single};
use crate::scan;
use vstd::arithmetic::power2::*;
use vstd::prelude::*;

verus! {

/// What bins take, each with the contexts `bank`, where nothing is rounded.
pub open spec fn still_rate(bank: Seq<CtxModel>, b: Seq<bins::Bin>) -> int {
    arith::sum(b.len() as int, |i: int| rate::symbol_rate(bins::symbol(bank, b[i])))
}

/// The rates of bins add up.
pub proof fn lemma_still_add(bank: Seq<CtxModel>, a: Seq<bins::Bin>, b: Seq<bins::Bin>)
    ensures
        still_rate(bank, a + b) == still_rate(bank, a) + still_rate(bank, b),
    decreases b.len(),
{
    let f = |i: int| rate::symbol_rate(bins::symbol(bank, (a + b)[i]));
    let n = (a + b).len() as int;
    if b.len() == 0 {
        assert(a + b =~= a);
    } else {
        let (ab, b1) = ((a + b).drop_last(), b.drop_last());
        lemma_still_add(bank, a, b1);
        assert(a + b1 =~= ab);
        arith::lemma_sum_ext(
            n - 1,
            f,
            |i: int| rate::symbol_rate(bins::symbol(bank, ab[i])),
        );
        arith::lemma_sum_ext(
            b.len() - 1,
            |i: int| rate::symbol_rate(bins::symbol(bank, b[i])),
            |i: int| rate::symbol_rate(bins::symbol(bank, b1[i])),
        );
        assert(f(n - 1) == rate::symbol_rate(bins::symbol(bank, b.last())));
    }
}

/// An equally probable bin takes a bit.
pub proof fn lemma_still_plain(bank: Seq<CtxModel>, b: Seq<bool>)
    ensures
        still_rate(bank, bins::plain_bits(b)) == single::ONE * b.len(),
{
    let p = bins::plain_bits(b);
    let f = |i: int| rate::symbol_rate(bins::symbol(bank, p[i]));
    assert forall|k: int| 0 <= k < p.len() implies #[trigger] f(k) == single::ONE by {
        assert(p[k] == bins::plain(b[k]));
    }
    arith::lemma_sum_constant(p.len() as int, f, single::ONE as int);
}

/// How many bins the code of a remaining level has.
pub fn coeff_remaining_bits(value: u32, rice: u32) -> (r: u32)
    requires
        value <= 0x8000,
        rice <= 4,
    ensures
        r == residual::remaining_bins(value as int, rice as int).len(),
        r <= 64,
{
    proof {
        lemma2_to64();
        lemma2_to64_rest();
    }
    let scale: u32 = if rice == 0 {
        1
    } else if rice == 1 {
        2
    } else if rice == 2 {
        4
    } else if rice == 3 {
        8
    } else {
        16
    };
    assert(scale == pow2(rice as nat));
    if value < 4 * scale {
        value / scale + 1 + rice
    } else {
        let p: u32 = residual::long_prefix_of(value, rice, scale);
        p + 1 + p - 3 + rice
    }
}

/// What bins take one by one, each with the contexts `bank`.
pub open spec fn terms(bank: Seq<CtxModel>, b: Seq<bins::Bin>) -> Seq<int> {
    Seq::new(b.len(), |i: int| rate::symbol_rate(bins::symbol(bank, b[i])))
}

/// What one coordinate of the last coefficient takes: its prefix bin by bin, and its suffix
/// at once.
pub open spec fn coordinate_rate(
    bank: Seq<CtxModel>,
    is_x: bool,
    v: int,
    log2: int,
    is_luma: bool,
) -> int {
    let first = if is_x {
        contexts::LAST_X_PREFIX as int
    } else {
        contexts::LAST_Y_PREFIX as int
    };
    let r = single::sum(terms(bank, residual::last_prefix_bins(first, v, log2, is_luma)));
    if GROUP_IDX@[v] > 3 {
        single::plus(r, single::ONE * residual::last_suffix_bins(v).len())
    } else {
        r
    }
}

/// What the prefix of the last coefficient's column (`is_x`) or row takes.
fn last_prefix_rate(ctx: &ContextSet, is_x: bool, v: u32, log2_size: u32, is_luma: bool) -> (r: u64)
    requires
        ctx.wf(),
        2 <= log2_size <= 5,
        v < scan::side(log2_size as int),
    ensures
        r == single::sum(
            terms(
                ctx@,
                residual::last_prefix_bins(
                    if is_x {
                        contexts::LAST_X_PREFIX as int
                    } else {
                        contexts::LAST_Y_PREFIX as int
                    },
                    v as int,
                    log2_size as int,
                    is_luma,
                ),
            ),
        ),
        r <= single::MOST,
{
    proof {
        lemma2_to64();
    }
    let offset: u32 = if is_luma {
        3 * (log2_size - 2) + (log2_size - 1) / 4
    } else {
        15
    };
    let shift: u32 = if is_luma {
        (log2_size + 1) / 4
    } else {
        log2_size - 2
    };
    let share: u32 = if shift == 0 {
        1
    } else if shift == 1 {
        2
    } else if shift == 2 {
        4
    } else {
        8
    };
    let size: u32 = if log2_size == 2 {
        4
    } else if log2_size == 3 {
        8
    } else if log2_size == 4 {
        16
    } else {
        32
    };
    let group: u32 = GROUP_IDX[v as usize];
    let top: u32 = GROUP_IDX[(size - 1) as usize];
    let count: u32 = if group < top {
        group + 1
    } else {
        group
    };
    let ghost first = if is_x {
        contexts::LAST_X_PREFIX as int
    } else {
        contexts::LAST_Y_PREFIX as int
    };
    let ghost all = residual::last_prefix_bins(first, v as int, log2_size as int, is_luma);
    let ghost ts = terms(ctx@, all);
    assert(ts.take(0) =~= Seq::empty());
    assert(share == residual::last_share(log2_size as int, is_luma));
    assert(group <= top <= 9 && top == 2 * log2_size - 1);
    let mut r: u64 = 0;
    for i in 0..count
        invariant
            ctx.wf(),
            count == all.len(),
            ts == terms(ctx@, all),
            r == single::sum(ts.take(i as int)),
            r <= single::MOST,
            2 <= log2_size <= 5,
            all == residual::last_prefix_bins(first, v as int, log2_size as int, is_luma),
            v < scan::side(log2_size as int),
            group == GROUP_IDX@[v as int],
            first == if is_x {
                contexts::LAST_X_PREFIX as int
            } else {
                contexts::LAST_Y_PREFIX as int
            },
            share == residual::last_share(log2_size as int, is_luma),
            offset == residual::last_offset(log2_size as int, is_luma),
            share == if is_luma {
                if log2_size == 2 {
                    1int
                } else {
                    2
                }
            } else {
                if log2_size == 2 {
                    1int
                } else if log2_size == 3 {
                    2
                } else if log2_size == 4 {
                    4
                } else {
                    8
                }
            },
            count <= 2 * log2_size - 1,
    {
        let ci: u32 = offset + i / share;
        assert(ci < 18);
        assert(ctx@[first + ci].wf());
        let m: CtxModel = if is_x {
            ctx.last_sig_coeff_x_prefix[ci as usize]
        } else {
            ctx.last_sig_coeff_y_prefix[ci as usize]
        };
        assert(m == ctx@[first + ci]);
        let bit: u8 = if i < group {
            1
        } else {
            0
        };
        assert(all[i as int] == bins::coded(first + ci, i < group));
        let b: u64 = m.estimated_bits(bit);
        proof {
            assert(ts[i as int] == b);
            assert(ts.take(i + 1) =~= ts.take(i as int).push(b as int));
            single::lemma_sum_push(ts.take(i as int), b as int);
            single::lemma_plus_most(r as int, b as int);
        }
        r = single::add_single(r, b);
    }
    assert(ts.take(count as int) =~= ts);
    r
}

/// Bins of the suffix of one coordinate of the last coefficient.
fn last_suffix_count(v: u32, log2_size: u32) -> (r: u32)
    requires
        2 <= log2_size <= 5,
        v < scan::side(log2_size as int),
    ensures
        r == residual::last_suffix_bins(v as int).len(),
        r <= 3,
{
    let group: u32 = GROUP_IDX[v as usize];
    assert(group <= 9);
    if group > 3 {
        (group - 2) / 2
    } else {
        0
    }
}

/// What one coordinate of the last coefficient takes.
fn coordinate_bits(ctx: &ContextSet, is_x: bool, v: u32, log2_size: u32, is_luma: bool) -> (r: u64)
    requires
        ctx.wf(),
        2 <= log2_size <= 5,
        v < scan::side(log2_size as int),
    ensures
        r == coordinate_rate(ctx@, is_x, v as int, log2_size as int, is_luma),
        r <= 2 * single::MOST,
{
    let r: u64 = last_prefix_rate(ctx, is_x, v, log2_size, is_luma);
    let n: u32 = last_suffix_count(v, log2_size);
    if GROUP_IDX[v as usize] > 3 {
        single::add_single(r, single::ONE * n as u64)
    } else {
        r
    }
}

/// What the place of the last coefficient takes, at column `x` and row `y`, in steps of two
/// to the power of -30 of a bit; in the vertical scan the two change places.
pub fn last_sig_bits(ctx: &ContextSet, x: u32, y: u32, log2_size: u32, scan_idx: u8, is_luma: bool) -> (r:
    u64)
    requires
        ctx.wf(),
        2 <= log2_size <= 5,
        x < scan::side(log2_size as int),
        y < scan::side(log2_size as int),
    ensures
        ({
            let (a, b) = if scan_idx == 2 {
                (y, x)
            } else {
                (x, y)
            };
            r == single::plus(
                coordinate_rate(ctx@, true, a as int, log2_size as int, is_luma),
                coordinate_rate(ctx@, false, b as int, log2_size as int, is_luma),
            )
        }),
{
    let (x, y): (u32, u32) = if scan_idx == 2 {
        (y, x)
    } else {
        (x, y)
    };
    let px: u64 = coordinate_bits(ctx, true, x, log2_size, is_luma);
    let py: u64 = coordinate_bits(ctx, false, y, log2_size, is_luma);
    single::add_single(px, py)
}

/// The bin that says whether a level is larger than one.
pub open spec fn one_level_one(level: int, set: int, c1: int, is_luma: bool) -> bins::Bin {
    let one = contexts::GREATER1 + (if is_luma {
        0int
    } else {
        16
    }) + set * 4 + c1;
    bins::coded(one, level > 1)
}

/// The bin that says whether a level is larger than two.
pub open spec fn one_level_two(level: int, set: int, is_luma: bool) -> bins::Bin {
    let two = contexts::GREATER2 + (if is_luma {
        0int
    } else {
        4
    }) + set;
    bins::coded(two, level > 2)
}

/// What the parts of a level of magnitude `level` take, where `c1_idx` levels of the group
/// have been coded before it and `c2_idx` of them were large, in the order in which they are
/// added up: its sign, the rest, and whether it is larger than one and than two, as far as
/// the group still says so.
pub open spec fn level_terms(
    bank: Seq<CtxModel>,
    level: int,
    set: int,
    c1: int,
    c1_idx: int,
    c2_idx: int,
    rice: int,
    is_luma: bool,
) -> Seq<int> {
    let base = if c1_idx >= 8 {
        1int
    } else if c2_idx >= 1 {
        2
    } else {
        3
    };
    let one = bins::symbol(bank, one_level_one(level, set, c1, is_luma));
    let two = bins::symbol(bank, one_level_two(level, set, is_luma));
    seq![single::ONE as int] + (if level >= base {
        seq![single::ONE * residual::remaining_bins(level - base, rice).len()]
    } else {
        Seq::empty()
    }) + (if c1_idx < 8 {
        seq![rate::symbol_rate(one)]
    } else {
        Seq::empty()
    }) + (if c1_idx < 8 && c2_idx < 1 && level > 1 {
        seq![rate::symbol_rate(two)]
    } else {
        Seq::empty()
    })
}

/// What a level takes, in steps of two to the power of -30 of a bit.
pub fn rdoq_level_bits(
    abs_level: u32,
    ctx_set: usize,
    c1: usize,
    c1_idx: u32,
    c2_idx: u32,
    rice: u32,
    is_luma: bool,
    ctx: &ContextSet,
) -> (r: u64)
    requires
        ctx.wf(),
        1 <= abs_level <= 0x8000,
        ctx_set < 2 || is_luma && ctx_set < 4,
        c1 <= 3,
        rice <= 4,
    ensures
        r == single::sum(
            level_terms(
                ctx@,
                abs_level as int,
                ctx_set as int,
                c1 as int,
                c1_idx as int,
                c2_idx as int,
                rice as int,
                is_luma,
            ),
        ),
{
    let one: usize = (if is_luma {
        0usize
    } else {
        16
    }) + ctx_set * 4 + c1;
    let two: usize = (if is_luma {
        0usize
    } else {
        4
    }) + ctx_set;
    let base: u32 = if c1_idx >= 8 {
        1
    } else if c2_idx >= 1 {
        2
    } else {
        3
    };
    assert(ctx@[contexts::GREATER1 + one].wf());
    assert(ctx@[contexts::GREATER2 + two].wf());
    let ghost mut ts: Seq<int> = Seq::empty().push(single::ONE as int);
    let mut r: u64 = single::ONE;
    proof {
        single::lemma_one();
        single::lemma_sum_push(Seq::empty(), single::ONE as int);
    }
    if abs_level >= base {
        let n: u32 = coeff_remaining_bits(abs_level - base, rice);
        proof {
            single::lemma_sum_push(ts, single::ONE * n);
            ts = ts.push(single::ONE * n);
        }
        r = single::add_single(r, single::ONE * n as u64);
    }
    if c1_idx < 8 {
        let b: u64 = ctx.coeff_abs_level_greater1[one].estimated_bits(
            if abs_level > 1 {
                1
            } else {
                0
            },
        );
        proof {
            single::lemma_sum_push(ts, b as int);
            ts = ts.push(b as int);
        }
        r = single::add_single(r, b);
    }
    if c1_idx < 8 && c2_idx < 1 && abs_level > 1 {
        let b: u64 = ctx.coeff_abs_level_greater2[two].estimated_bits(
            if abs_level > 2 {
                1
            } else {
                0
            },
        );
        proof {
            single::lemma_sum_push(ts, b as int);
            ts = ts.push(b as int);
        }
        r = single::add_single(r, b);
    }
    proof {
        assert(ts =~= level_terms(
            ctx@,
            abs_level as int,
            ctx_set as int,
            c1 as int,
            c1_idx as int,
            c2_idx as int,
            rice as int,
            is_luma,
        ));
    }
    r
}

/// The rate of one bin.
pub proof fn lemma_still_one(bank: Seq<CtxModel>, b: bins::Bin)
    ensures
        still_rate(bank, seq![b]) == rate::symbol_rate(bins::symbol(bank, b)),
{
    reveal_with_fuel(arith::sum, 2);
}

/// The rest of a level takes a bit for each of its bins.
pub proof fn lemma_rest_plain(bank: Seq<CtxModel>, value: int, rice: int)
    ensures
        still_rate(bank, residual::remaining_bins(value, rice)) == single::ONE
            * residual::remaining_bins(value, rice).len(),
{
    let b = if value < 4 * pow2(rice as nat) {
        bitseq::run(true, value / pow2(rice as nat) as int) + seq![false] + bitseq::low_bits(
            value,
            rice,
        )
    } else {
        let p = residual::long_prefix(value, rice, 4);
        bitseq::run(true, p) + seq![false] + bitseq::low_bits(
            value - (pow2((p - 3) as nat) + 2) * pow2(rice as nat),
            p - 3 + rice,
        )
    };
    lemma_still_plain(bank, b);
}

} // verus!
