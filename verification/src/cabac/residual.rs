//! Residual coding: the bins of coded-block flags and of coefficient blocks.
use crate::arith::pow2_i64;
use crate::bitseq;
use crate::cabac::bins;
use crate::cabac::contexts;
use crate::cabac::contexts::ContextSet;
use crate::cabac::engine::CabacWriter;
use crate::scan;
use vstd::arithmetic::power2::*;
use vstd::prelude::*;

verus! {

/// Prefix group of each last-coefficient coordinate.
pub const GROUP_IDX: [u32; 32] = [
    0, 1, 2, 3, 4, 4, 5, 5, 6, 6, 6, 6, 7, 7, 7, 7,
    8, 8, 8, 8, 8, 8, 8, 8, 9, 9, 9, 9, 9, 9, 9, 9,
];

/// Smallest coordinate of each prefix group.
pub const MIN_IN_GROUP: [u32; 10] = [0, 1, 2, 3, 4, 6, 8, 12, 16, 24];

/// Significance context of each position of a 4x4 block, row by row.
pub const CTX_IDX_MAP_4X4: [u8; 16] = [0, 1, 4, 5, 2, 3, 4, 5, 6, 6, 8, 8, 7, 7, 8, 99];

/// Codes an equally probable bin.
fn code_plain<W: CabacWriter>(enc: &mut W, ctx: &ContextSet, bit: bool)
    requires
        old(enc).ready(),
    ensures
        final(enc).ready(),
        bins::wrote(old(enc).log(), ctx@, final(enc).log(), ctx@, seq![bins::plain(bit)]),
{
    proof {
        bins::lemma_wrote_plain(enc.log(), ctx@, bit);
    }
    enc.encode_bypass(if bit {
        1
    } else {
        0
    });
}

/// Codes cbf_luma: the root of a transform tree and its descendants have
/// contexts of their own.
pub fn encode_cbf_luma<W: CabacWriter>(
    enc: &mut W,
    ctx: &mut ContextSet,
    flag: bool,
    trafo_depth: usize,
)
    requires
        old(enc).ready(),
        old(ctx).wf(),
    ensures
        final(enc).ready(),
        final(ctx).wf(),
        final(ctx).qp == old(ctx).qp,
        bins::wrote(
            old(enc).log(),
            old(ctx)@,
            final(enc).log(),
            final(ctx)@,
            cbf_luma_bins(flag, trafo_depth as int),
        ),
{
    let idx: usize = if trafo_depth == 0 {
        1
    } else {
        0
    };
    ctx.code_cbf_luma(enc, idx, flag);
}

pub open spec fn cbf_luma_bins(flag: bool, trafo_depth: int) -> Seq<bins::Bin> {
    seq![
        bins::coded(
            contexts::CBF_LUMA + if trafo_depth == 0 {
                1int
            } else {
                0
            },
            flag,
        ),
    ]
}

/// Codes cbf_cb or cbf_cr, with a context for each depth.
pub fn encode_cbf_chroma<W: CabacWriter>(
    enc: &mut W,
    ctx: &mut ContextSet,
    flag: bool,
    trafo_depth: usize,
)
    requires
        old(enc).ready(),
        old(ctx).wf(),
    ensures
        final(enc).ready(),
        final(ctx).wf(),
        final(ctx).qp == old(ctx).qp,
        bins::wrote(
            old(enc).log(),
            old(ctx)@,
            final(enc).log(),
            final(ctx)@,
            cbf_chroma_bins(flag, trafo_depth as int),
        ),
{
    let idx: usize = if trafo_depth < 4 {
        trafo_depth
    } else {
        4
    };
    ctx.code_cbf_chroma(enc, idx, flag);
}

pub open spec fn cbf_chroma_bins(flag: bool, trafo_depth: int) -> Seq<bins::Bin> {
    seq![
        bins::coded(
            contexts::CBF_CHROMA + if trafo_depth < 4 {
                trafo_depth
            } else {
                4
            },
            flag,
        ),
    ]
}

/// First context of the last-coefficient prefix.
pub open spec fn last_offset(log2: int, is_luma: bool) -> int {
    if is_luma {
        3 * (log2 - 2) + (log2 - 1) / 4
    } else {
        15
    }
}

/// How many prefix bins share a context.
pub open spec fn last_share(log2: int, is_luma: bool) -> int {
    pow2(
        (if is_luma {
            (log2 + 1) / 4
        } else {
            log2 - 2
        }) as nat,
    ) as int
}

/// Prefix of one last-coefficient coordinate: a truncated unary code of its
/// group, with contexts from `first` on.
pub open spec fn last_prefix_bins(first: int, v: int, log2: int, is_luma: bool) -> Seq<bins::Bin> {
    let group = GROUP_IDX@[v] as int;
    let top = GROUP_IDX@[scan::side(log2) - 1] as int;
    let at = |i: int| first + last_offset(log2, is_luma) + i / last_share(log2, is_luma);
    Seq::new(
        (if group < top {
            group + 1
        } else {
            group
        }) as nat,
        |i: int| bins::coded(at(i), i < group),
    )
}

/// Suffix of one last-coefficient coordinate: its place in its group.
pub open spec fn last_suffix_bins(v: int) -> Seq<bins::Bin> {
    let group = GROUP_IDX@[v] as int;
    if group > 3 {
        bins::plain_bits(bitseq::low_bits(v - MIN_IN_GROUP@[group], (group - 2) / 2))
    } else {
        Seq::empty()
    }
}

/// Bins of the last coefficient's column `x` and row `y`.
pub open spec fn last_bins(x: int, y: int, log2: int, is_luma: bool) -> Seq<bins::Bin> {
    last_prefix_bins(contexts::LAST_X_PREFIX as int, x, log2, is_luma) + last_prefix_bins(
        contexts::LAST_Y_PREFIX as int,
        y,
        log2,
        is_luma,
    ) + last_suffix_bins(x) + last_suffix_bins(y)
}

/// Significance context of position `(x, y)`, where `prev_csbf` tells whether the
/// sub-block to the right (1) and the one below (2) are coded.
pub open spec fn sig_ctx_of(
    x: int,
    y: int,
    prev_csbf: int,
    log2: int,
    scan_idx: int,
    is_luma: bool,
) -> int {
    let base = if log2 == 2 {
        CTX_IDX_MAP_4X4@[4 * y + x] as int
    } else if x + y == 0 {
        0
    } else {
        let xp = x % 4;
        let yp = y % 4;
        let near = if prev_csbf == 0 {
            if xp + yp >= 3 {
                0int
            } else if xp + yp > 0 {
                1
            } else {
                2
            }
        } else if prev_csbf == 1 {
            if yp == 0 {
                2
            } else if yp == 1 {
                1
            } else {
                0
            }
        } else if prev_csbf == 2 {
            if xp == 0 {
                2
            } else if xp == 1 {
                1
            } else {
                0
            }
        } else {
            2
        };
        if is_luma {
            near + (if x / 4 + y / 4 > 0 {
                3int
            } else {
                0
            }) + (if log2 == 3 {
                if scan_idx == 0 {
                    9int
                } else {
                    15
                }
            } else {
                21
            })
        } else {
            near + (if log2 == 3 {
                9int
            } else {
                12
            })
        }
    };
    if is_luma {
        base
    } else {
        27 + base
    }
}

/// Significance context of a coefficient, from its place in the block and from
/// the coded neighbours of its sub-block.
pub fn sig_coeff_ctx(
    xc: usize,
    yc: usize,
    prev_csbf: u8,
    log2_ts: u32,
    scan_idx: u8,
    is_luma: bool,
) -> (r: usize)
    requires
        2 <= log2_ts <= 5,
        xc < scan::side(log2_ts as int),
        yc < scan::side(log2_ts as int),
    ensures
        r == sig_ctx_of(
            xc as int,
            yc as int,
            prev_csbf as int,
            log2_ts as int,
            scan_idx as int,
            is_luma,
        ),
        r <= 126,
{
    let base: usize = if log2_ts == 2 {
        CTX_IDX_MAP_4X4[4 * yc + xc] as usize
    } else if xc + yc == 0 {
        0
    } else {
        let xp: usize = xc % 4;
        let yp: usize = yc % 4;
        let near: usize = match prev_csbf {
            0 => {
                if xp + yp >= 3 {
                    0
                } else if xp + yp > 0 {
                    1
                } else {
                    2
                }
            },
            1 => {
                if yp == 0 {
                    2
                } else if yp == 1 {
                    1
                } else {
                    0
                }
            },
            2 => {
                if xp == 0 {
                    2
                } else if xp == 1 {
                    1
                } else {
                    0
                }
            },
            _ => 2,
        };
        if is_luma {
            let far: usize = if xc / 4 + yc / 4 > 0 {
                3
            } else {
                0
            };
            let size: usize = if log2_ts == 3 {
                if scan_idx == 0 {
                    9
                } else {
                    15
                }
            } else {
                21
            };
            near + far + size
        } else if log2_ts == 3 {
            near + 9
        } else {
            near + 12
        }
    };
    if is_luma {
        base
    } else {
        27 + base
    }
}

/// Codes the last coefficient's column and row.
fn encode_last_sig<W: CabacWriter>(
    enc: &mut W,
    ctx: &mut ContextSet,
    last_x: u32,
    last_y: u32,
    log2_size: u32,
    is_luma: bool,
)
    requires
        old(enc).ready(),
        old(ctx).wf(),
        2 <= log2_size <= 5,
        last_x < scan::side(log2_size as int),
        last_y < scan::side(log2_size as int),
    ensures
        final(enc).ready(),
        final(ctx).wf(),
        final(ctx).qp == old(ctx).qp,
        bins::wrote(
            old(enc).log(),
            old(ctx)@,
            final(enc).log(),
            final(ctx)@,
            last_bins(last_x as int, last_y as int, log2_size as int, is_luma),
        ),
{
    let ghost log2 = log2_size as int;
    let ghost log0 = enc.log();
    let ghost bank0 = ctx@;
    encode_last_prefix(enc, ctx, true, last_x, log2_size, is_luma);
    let ghost log1 = enc.log();
    let ghost bank1 = ctx@;
    encode_last_prefix(enc, ctx, false, last_y, log2_size, is_luma);
    let ghost log2l = enc.log();
    let ghost bank2 = ctx@;
    let ghost a = last_prefix_bins(contexts::LAST_X_PREFIX as int, last_x as int, log2, is_luma);
    let ghost b = last_prefix_bins(contexts::LAST_Y_PREFIX as int, last_y as int, log2, is_luma);
    proof {
        bins::lemma_wrote_add(log0, bank0, log1, bank1, log2l, bank2, a, b);
    }
    encode_last_suffix(enc, ctx, last_x);
    let ghost log3 = enc.log();
    proof {
        bins::lemma_wrote_add(
            log0,
            bank0,
            log2l,
            bank2,
            log3,
            bank2,
            a + b,
            last_suffix_bins(last_x as int),
        );
    }
    encode_last_suffix(enc, ctx, last_y);
    proof {
        bins::lemma_wrote_add(
            log0,
            bank0,
            log3,
            bank2,
            enc.log(),
            bank2,
            a + b + last_suffix_bins(last_x as int),
            last_suffix_bins(last_y as int),
        );
    }
}

/// Codes the prefix of the last coefficient's column (`is_x`) or row.
fn encode_last_prefix<W: CabacWriter>(
    enc: &mut W,
    ctx: &mut ContextSet,
    is_x: bool,
    v: u32,
    log2_size: u32,
    is_luma: bool,
)
    requires
        old(enc).ready(),
        old(ctx).wf(),
        2 <= log2_size <= 5,
        v < scan::side(log2_size as int),
    ensures
        final(enc).ready(),
        final(ctx).wf(),
        final(ctx).qp == old(ctx).qp,
        bins::wrote(
            old(enc).log(),
            old(ctx)@,
            final(enc).log(),
            final(ctx)@,
            last_prefix_bins(
                if is_x {
                    contexts::LAST_X_PREFIX as int
                } else {
                    contexts::LAST_Y_PREFIX as int
                },
                v as int,
                log2_size as int,
                is_luma,
            ),
        ),
{
    proof {
        lemma2_to64();
    }
    let offset: u32 = if is_luma {
        3 * (log2_size - 2) + (log2_size - 1) / 4
    } else {
        15
    };
    let shift: u32 = if is_luma {
        (log2_size + 1) / 4
    } else {
        log2_size - 2
    };
    let share: u32 = if shift == 0 {
        1
    } else if shift == 1 {
        2
    } else if shift == 2 {
        4
    } else {
        8
    };
    let size: u32 = if log2_size == 2 {
        4
    } else if log2_size == 3 {
        8
    } else if log2_size == 4 {
        16
    } else {
        32
    };
    let group: u32 = GROUP_IDX[v as usize];
    let top: u32 = GROUP_IDX[(size - 1) as usize];
    let count: u32 = if group < top {
        group + 1
    } else {
        group
    };
    let ghost first = if is_x {
        contexts::LAST_X_PREFIX as int
    } else {
        contexts::LAST_Y_PREFIX as int
    };
    let ghost all = last_prefix_bins(first, v as int, log2_size as int, is_luma);
    assert(share == last_share(log2_size as int, is_luma));
    assert(group <= top <= 9 && top == 2 * log2_size - 1);
    let ghost mut acc: Seq<bins::Bin> = Seq::empty();
    proof {
        bins::lemma_wrote_none(enc.log(), ctx@);
    }
    for i in 0..count
        invariant
            enc.ready(),
            ctx.wf(),
            ctx.qp == old(ctx).qp,
            count == all.len(),
            acc == all.take(i as int),
            bins::wrote(old(enc).log(), old(ctx)@, enc.log(), ctx@, acc),
            2 <= log2_size <= 5,
            all == last_prefix_bins(first, v as int, log2_size as int, is_luma),
            v < scan::side(log2_size as int),
            group == GROUP_IDX@[v as int],
            first == if is_x {
                contexts::LAST_X_PREFIX as int
            } else {
                contexts::LAST_Y_PREFIX as int
            },
            share == last_share(log2_size as int, is_luma),
            offset == last_offset(log2_size as int, is_luma),
            share == if is_luma {
                if log2_size == 2 {
                    1int
                } else {
                    2
                }
            } else {
                if log2_size == 2 {
                    1int
                } else if log2_size == 3 {
                    2
                } else if log2_size == 4 {
                    4
                } else {
                    8
                }
            },
            count <= 2 * log2_size - 1,
    {
        let ci: u32 = offset + i / share;
        assert(ci < 18);
        let ghost log1 = enc.log();
        let ghost bank1 = ctx@;
        if is_x {
            ctx.code_last_x(enc, ci as usize, i < group);
        } else {
            ctx.code_last_y(enc, ci as usize, i < group);
        }
        proof {
            let b = seq![bins::coded(first + ci, i < group)];
            bins::lemma_wrote_add(
                old(enc).log(),
                old(ctx)@,
                log1,
                bank1,
                enc.log(),
                ctx@,
                acc,
                b,
            );
            acc = acc + b;
            assert(acc =~= all.take(i + 1));
        }
    }
    assert(all.take(count as int) =~= all);
}

/// Codes the suffix of one coordinate of the last coefficient.
fn encode_last_suffix<W: CabacWriter>(enc: &mut W, ctx: &ContextSet, v: u32)
    requires
        old(enc).ready(),
        v < 32,
    ensures
        final(enc).ready(),
        bins::wrote(old(enc).log(), ctx@, final(enc).log(), ctx@, last_suffix_bins(v as int)),
{
    let group: u32 = GROUP_IDX[v as usize];
    proof {
        bins::lemma_wrote_none(enc.log(), ctx@);
    }
    if group > 3 {
        assert(MIN_IN_GROUP@[group as int] <= v);
        let suffix: u32 = v - MIN_IN_GROUP[group as usize];
        let n: u32 = (group - 2) / 2;
        encode_plain_bits(enc, ctx, suffix, n);
    }
}

/// Codes the `n` low bits of `x`, most significant bit first.
fn encode_plain_bits<W: CabacWriter>(enc: &mut W, ctx: &ContextSet, x: u32, n: u32)
    requires
        old(enc).ready(),
        n <= 32,
    ensures
        final(enc).ready(),
        bins::wrote(
            old(enc).log(),
            ctx@,
            final(enc).log(),
            ctx@,
            bins::plain_bits(bitseq::low_bits(x as int, n as int)),
        ),
{
    let ghost all = bins::plain_bits(bitseq::low_bits(x as int, n as int));
    let ghost mut acc: Seq<bins::Bin> = Seq::empty();
    proof {
        bins::lemma_wrote_none(enc.log(), ctx@);
    }
    for i in 0..n
        invariant
            enc.ready(),
            n <= 32,
            all == bins::plain_bits(bitseq::low_bits(x as int, n as int)),
            acc == all.take(i as int),
            bins::wrote(old(enc).log(), ctx@, enc.log(), ctx@, acc),
    {
        let k: u32 = n - 1 - i;
        let bit: bool = (x >> k) % 2 == 1;
        proof {
            vstd::bits::lemma_u32_shr_is_div(x, k);
        }
        let ghost log1 = enc.log();
        code_plain(enc, ctx, bit);
        proof {
            let b = seq![bins::plain(bit)];
            bins::lemma_wrote_add(old(enc).log(), ctx@, log1, ctx@, enc.log(), ctx@, acc, b);
            acc = acc + b;
            assert(acc =~= all.take(i + 1));
        }
    }
    assert(all.take(n as int) =~= all);
}

/// Length of the unary prefix of a remaining level that is too large for a plain
/// Rice code, starting the search at `p`.
pub open spec fn long_prefix(value: int, rice: int, p: int) -> int
    decreases value + 4 - p,
{
    if p > value + 3 || value < (pow2((p - 2) as nat) + 2) * pow2(rice as nat) {
        p
    } else {
        long_prefix(value, rice, p + 1)
    }
}

/// Bins of a remaining level: a Rice code for small values, an exponential
/// Golomb code above.
pub open spec fn remaining_bins(value: int, rice: int) -> Seq<bins::Bin> {
    if value < 4 * pow2(rice as nat) {
        bins::plain_bits(
            bitseq::run(true, value / pow2(rice as nat) as int) + seq![false] + bitseq::low_bits(
                value,
                rice,
            ),
        )
    } else {
        let p = long_prefix(value, rice, 4);
        bins::plain_bits(
            bitseq::run(true, p) + seq![false] + bitseq::low_bits(
                value - (pow2((p - 3) as nat) + 2) * pow2(rice as nat),
                p - 3 + rice,
            ),
        )
    }
}

/// A number is less than two to its power.
pub proof fn lemma_below_pow2(n: nat)
    ensures
        n < pow2(n),
    decreases n,
{
    lemma2_to64();
    if n > 0 {
        lemma_below_pow2((n - 1) as nat);
        lemma_pow2_unfold(n);
    }
}

/// Codes `n` ones and a zero.
fn encode_unary<W: CabacWriter>(enc: &mut W, ctx: &ContextSet, n: u32)
    requires
        old(enc).ready(),
    ensures
        final(enc).ready(),
        bins::wrote(
            old(enc).log(),
            ctx@,
            final(enc).log(),
            ctx@,
            bins::plain_bits(bitseq::run(true, n as int) + seq![false]),
        ),
{
    let ghost mut acc: Seq<bins::Bin> = Seq::empty();
    proof {
        bins::lemma_wrote_none(enc.log(), ctx@);
        assert(acc =~= bins::plain_bits(bitseq::run(true, 0)));
    }
    for i in 0..n
        invariant
            enc.ready(),
            acc == bins::plain_bits(bitseq::run(true, i as int)),
            bins::wrote(old(enc).log(), ctx@, enc.log(), ctx@, acc),
    {
        let ghost log1 = enc.log();
        code_plain(enc, ctx, true);
        proof {
            let b = seq![bins::plain(true)];
            bins::lemma_wrote_add(old(enc).log(), ctx@, log1, ctx@, enc.log(), ctx@, acc, b);
            acc = acc + b;
            assert(acc =~= bins::plain_bits(bitseq::run(true, i + 1)));
        }
    }
    let ghost log1 = enc.log();
    code_plain(enc, ctx, false);
    proof {
        let b = seq![bins::plain(false)];
        bins::lemma_wrote_add(old(enc).log(), ctx@, log1, ctx@, enc.log(), ctx@, acc, b);
        assert(acc + b =~= bins::plain_bits(bitseq::run(true, n as int) + seq![false]));
    }
}

/// Length of the unary prefix of a remaining level that is too large for a plain
/// Rice code.
pub fn long_prefix_of(value: u32, rice_k: u32, scale: u32) -> (p: u32)
    requires
        value <= 0x8000,
        rice_k <= 4,
        scale == pow2(rice_k as nat),
        value >= 4 * scale,
    ensures
        p == long_prefix(value as int, rice_k as int, 4),
        4 <= p <= 17,
        value >= (pow2((p - 3) as nat) + 2) * pow2(rice_k as nat),
{
    proof {
        lemma2_to64();
        lemma2_to64_rest();
    }
    let mut p: u32 = 4;
    let mut half: u32 = 2;
    let mut next: u32 = 6 * scale;
    while value >= next
        invariant
            next == (2 * half + 2) * scale,
            4 <= p <= 17,
            half == pow2((p - 3) as nat),
            half <= 0x4000,
            1 <= scale <= 16,
            scale == pow2(rice_k as nat),
            value <= 0x8000,
            value >= (half + 2) * scale,
            long_prefix(value as int, rice_k as int, p as int) == long_prefix(
                value as int,
                rice_k as int,
                4,
            ),
        decreases 20 - p,
    {
        assert(2 * half + 2 <= value) by (nonlinear_arith)
            requires
                value >= (2 * half + 2) * scale,
                1 <= scale,
        ;
        proof {
            lemma_pow2_unfold((p - 2) as nat);
            lemma2_to64();
            if p >= 17 {
                assert(half == 0x4000);
                assert(false);
            }
            lemma_below_pow2((p - 2) as nat);
        }
        half = 2 * half;
        p = p + 1;
        assert((2 * half + 2) * scale <= 0x8002 * 16) by (nonlinear_arith)
            requires
                half <= 0x4000,
                scale <= 16,
        ;
        next = (2 * half + 2) * scale;
    }
    proof {
        lemma_pow2_unfold((p - 2) as nat);
    }
    assert(long_prefix(value as int, rice_k as int, p as int) == p);
    p
}

/// Codes what the level flags leave of a level.
fn encode_coeff_remaining<W: CabacWriter>(enc: &mut W, ctx: &ContextSet, value: u32, rice_k: u32)
    requires
        old(enc).ready(),
        value <= 0x8000,
        rice_k <= 4,
    ensures
        final(enc).ready(),
        bins::wrote(
            old(enc).log(),
            ctx@,
            final(enc).log(),
            ctx@,
            remaining_bins(value as int, rice_k as int),
        ),
{
    proof {
        lemma2_to64();
        lemma2_to64_rest();
    }
    let scale: u32 = if rice_k == 0 {
        1
    } else if rice_k == 1 {
        2
    } else if rice_k == 2 {
        4
    } else if rice_k == 3 {
        8
    } else {
        16
    };
    assert(scale == pow2(rice_k as nat));
    let ghost log0 = enc.log();
    if value < 4 * scale {
        let n: u32 = value / scale;
        encode_unary(enc, ctx, n);
        let ghost log1 = enc.log();
        encode_plain_bits(enc, ctx, value, rice_k);
        proof {
            let a = bitseq::run(true, n as int) + seq![false];
            let b = bitseq::low_bits(value as int, rice_k as int);
            bins::lemma_wrote_add(
                log0,
                ctx@,
                log1,
                ctx@,
                enc.log(),
                ctx@,
                bins::plain_bits(a),
                bins::plain_bits(b),
            );
            assert(bins::plain_bits(a) + bins::plain_bits(b) =~= bins::plain_bits(a + b));
        }
    } else {
        let p: u32 = long_prefix_of(value, rice_k, scale);
        let half: u32 = pow2_i64(p - 3) as u32;
        let ghost low = value - (half + 2) * scale;
        encode_unary(enc, ctx, p);
        let ghost log1 = enc.log();
        assert((half + 2) * scale <= value <= 0x8000);
        encode_plain_bits(enc, ctx, value - (half + 2) * scale, p - 3 + rice_k);
        proof {
            let a = bitseq::run(true, p as int) + seq![false];
            let b = bitseq::low_bits(low, p - 3 + rice_k);
            bins::lemma_wrote_add(
                log0,
                ctx@,
                log1,
                ctx@,
                enc.log(),
                ctx@,
                bins::plain_bits(a),
                bins::plain_bits(b),
            );
            assert(bins::plain_bits(a) + bins::plain_bits(b) =~= bins::plain_bits(a + b));
        }
    }
}

/// Magnitude of a level.
pub open spec fn mag(v: int) -> int {
    if v < 0 {
        -v
    } else {
        v
    }
}

/// How many levels of a sub-block have a greater-than-one flag.
pub open spec fn flagged(v: Seq<int>) -> int {
    if v.len() < 8 {
        v.len() as int
    } else {
        8
    }
}

/// The greater-than-one context counter after a level.
pub open spec fn c1_next(c1: int, v: int) -> int {
    if mag(v) > 1 {
        0
    } else if 0 < c1 < 3 {
        c1 + 1
    } else {
        c1
    }
}

/// The greater-than-one context counter before level `c`.
pub open spec fn c1_at(v: Seq<int>, c: int) -> int
    decreases c,
{
    if c <= 0 {
        1
    } else {
        c1_next(c1_at(v, c - 1), v[c - 1])
    }
}

/// Index of the first level above one that has a flag, from `c` on, or -1.
pub open spec fn first_big(v: Seq<int>, c: int) -> int
    decreases flagged(v) - c,
{
    if c >= flagged(v) {
        -1
    } else if mag(v[c]) > 1 {
        c
    } else {
        first_big(v, c + 1)
    }
}

/// Bins of the greater-than-one flags.
pub open spec fn greater1_bins(v: Seq<int>, set: int, is_luma: bool) -> Seq<bins::Bin> {
    Seq::new(
        flagged(v) as nat,
        |c: int|
            bins::coded(
                contexts::GREATER1 + 4 * set + c1_at(v, c) + (if is_luma {
                    0int
                } else {
                    16
                }),
                mag(v[c]) > 1,
            ),
    )
}

/// Bin of the greater-than-two flag, of the first level above one.
pub open spec fn greater2_bins(v: Seq<int>, set: int, is_luma: bool) -> Seq<bins::Bin> {
    let f = first_big(v, 0);
    if f < 0 {
        Seq::empty()
    } else {
        seq![
            bins::coded(
                contexts::GREATER2 + set + (if is_luma {
                    0int
                } else {
                    4
                }),
                mag(v[f]) > 2,
            ),
        ]
    }
}

/// Bins of the first `n` signs.
pub open spec fn sign_bins(v: Seq<int>, n: int) -> Seq<bins::Bin> {
    Seq::new(n as nat, |i: int| bins::plain(v[i] < 0))
}

/// The flags do not settle level `c`.
pub open spec fn has_rest(v: Seq<int>, c: int) -> bool {
    c >= 8 || (mag(v[c]) > 1 && (c == first_big(v, 0) ==> mag(v[c]) > 2))
}

/// What the flags say of level `c`, where they do not settle it.
pub open spec fn base_level(v: Seq<int>, c: int) -> int {
    if c >= 8 {
        1
    } else if c == first_big(v, 0) {
        3
    } else {
        2
    }
}

/// The Rice parameter after a level of magnitude `m`.
pub open spec fn rice_next(rice: int, m: int) -> int {
    if m > 3 * pow2(rice as nat) && rice < 4 {
        rice + 1
    } else {
        rice
    }
}

/// Bins of the remaining levels from level `c` on.
pub open spec fn rest_bins(v: Seq<int>, c: int, rice: int) -> Seq<bins::Bin>
    decreases v.len() - c,
{
    if c >= v.len() {
        Seq::empty()
    } else if has_rest(v, c) {
        remaining_bins(mag(v[c]) - base_level(v, c), rice) + rest_bins(
            v,
            c + 1,
            rice_next(rice, mag(v[c])),
        )
    } else {
        rest_bins(v, c + 1, rice)
    }
}

/// Bins of the non-zero levels `v` of a sub-block, last one in scan order first;
/// a hidden sign is that of the last level of `v`.
pub open spec fn level_bins(v: Seq<int>, set: int, is_luma: bool, hidden: bool) -> Seq<bins::Bin> {
    greater1_bins(v, set, is_luma) + greater2_bins(v, set, is_luma) + sign_bins(
        v,
        v.len() - (if hidden {
            1int
        } else {
            0
        }),
    ) + rest_bins(v, 0, 0)
}

/// The levels at the scan positions `pos`.
pub open spec fn levels_at(coeffs: Seq<i16>, pos: Seq<usize>) -> Seq<int> {
    Seq::new(pos.len(), |i: int| coeffs[pos[i] as int] as int)
}

proof fn lemma_c1(v: Seq<int>, c: int)
    ensures
        0 <= c1_at(v, c) <= 3,
    decreases c,
{
    if c > 0 {
        lemma_c1(v, c - 1);
    }
}

/// `f` is the first level above one that has a flag, and none comes before it.
proof fn lemma_first_big(v: Seq<int>, c: int)
    requires
        0 <= c <= flagged(v),
    ensures
        ({
            let f = first_big(v, c);
            &&& f < 0 ==> f == -1 && forall|i: int| c <= i < flagged(v) ==> mag(#[trigger] v[i]) <= 1
            &&& f >= 0 ==> c <= f < flagged(v) && mag(v[f]) > 1 && forall|i: int|
                c <= i < f ==> mag(#[trigger] v[i]) <= 1
        }),
    decreases flagged(v) - c,
{
    if c < flagged(v) && mag(v[c]) <= 1 {
        lemma_first_big(v, c + 1);
    }
}

/// Magnitude of a coefficient.
fn magnitude(x: i16) -> (r: u32)
    ensures
        r == mag(x as int),
        r <= 0x8000,
{
    if x < 0 {
        (-(x as i32)) as u32
    } else {
        x as u32
    }
}

/// Three times a power of two, for the Rice parameters.
fn rice_limit(rice: u32) -> (r: u32)
    requires
        rice <= 4,
    ensures
        r == 3 * pow2(rice as nat),
{
    proof {
        lemma2_to64();
    }
    if rice == 0 {
        3
    } else if rice == 1 {
        6
    } else if rice == 2 {
        12
    } else if rice == 3 {
        24
    } else {
        48
    }
}

/// Codes what the flags leave of the levels at `sig_pos`, where `first` is the
/// first level above one that has a flag.
fn encode_rest<W: CabacWriter>(
    enc: &mut W,
    ctx: &ContextSet,
    coeffs: &[i16],
    sig_pos: &Vec<usize>,
    first: usize,
)
    requires
        old(enc).ready(),
        sig_pos@.len() <= 16,
        forall|i: int| 0 <= i < sig_pos@.len() ==> #[trigger] sig_pos@[i] < coeffs@.len(),
        forall|i: int| 0 <= i < sig_pos@.len() ==> coeffs@[#[trigger] sig_pos@[i] as int] != 0,
        first == sig_pos@.len() ==> first_big(levels_at(coeffs@, sig_pos@), 0) < 0,
        first != sig_pos@.len() ==> first_big(levels_at(coeffs@, sig_pos@), 0) == first,
    ensures
        final(enc).ready(),
        bins::wrote(
            old(enc).log(),
            ctx@,
            final(enc).log(),
            ctx@,
            rest_bins(levels_at(coeffs@, sig_pos@), 0, 0),
        ),
{
    let n: usize = sig_pos.len();
    let ghost v = levels_at(coeffs@, sig_pos@);
    let ghost log0 = enc.log();
    let ghost mut acc: Seq<bins::Bin> = Seq::empty();
    let mut rice: u32 = 0;
    proof {
        bins::lemma_wrote_none(enc.log(), ctx@);
        assert(acc + rest_bins(v, 0, 0) =~= rest_bins(v, 0, 0));
    }
    for c in 0..n
        invariant
            enc.ready(),
            v == levels_at(coeffs@, sig_pos@),
            n == sig_pos@.len(),
            n <= 16,
            forall|i: int| 0 <= i < sig_pos@.len() ==> #[trigger] sig_pos@[i] < coeffs@.len(),
            forall|i: int| 0 <= i < sig_pos@.len() ==> coeffs@[#[trigger] sig_pos@[i] as int] != 0,
            first == n ==> first_big(v, 0) < 0,
            first != n ==> first_big(v, 0) == first,
            rice <= 4,
            acc + rest_bins(v, c as int, rice as int) == rest_bins(v, 0, 0),
            bins::wrote(log0, ctx@, enc.log(), ctx@, acc),
    {
        let m: u32 = magnitude(coeffs[sig_pos[c]]);
        assert(v[c as int] != 0);
        assert(m == mag(v[c as int]));
        if c >= 8 || (m > 1 && (c != first || m > 2)) {
            assert(has_rest(v, c as int));
            let base: u32 = if c >= 8 {
                1
            } else if c == first {
                3
            } else {
                2
            };
            let ghost log1 = enc.log();
            encode_coeff_remaining(enc, ctx, m - base, rice);
            let limit: u32 = rice_limit(rice);
            proof {
                let b = remaining_bins(m - base, rice as int);
                bins::lemma_wrote_add(log0, ctx@, log1, ctx@, enc.log(), ctx@, acc, b);
                let r2 = rice_next(rice as int, m as int);
                assert(acc + rest_bins(v, c as int, rice as int) =~= acc + b + rest_bins(
                    v,
                    c + 1,
                    r2,
                ));
                acc = acc + b;
            }
            if m > limit && rice < 4 {
                rice = rice + 1;
            }
        } else {
            assert(!has_rest(v, c as int));
        }
    }
    assert(acc + rest_bins(v, n as int, rice as int) =~= acc);
}

/// Codes the non-zero levels of a sub-block, at the scan positions `sig_pos`,
/// with the context set `set`. Returns the context counter that decides on the
/// next sub-block's set.
fn encode_coeff_levels<W: CabacWriter>(
    enc: &mut W,
    ctx: &mut ContextSet,
    coeffs: &[i16],
    sig_pos: &Vec<usize>,
    set: usize,
    is_luma: bool,
    hidden: bool,
) -> (c1: u32)
    requires
        old(enc).ready(),
        old(ctx).wf(),
        0 < sig_pos@.len() <= 16,
        forall|i: int| 0 <= i < sig_pos@.len() ==> #[trigger] sig_pos@[i] < coeffs@.len(),
        forall|i: int| 0 <= i < sig_pos@.len() ==> coeffs@[#[trigger] sig_pos@[i] as int] != 0,
        set <= 3,
        !is_luma ==> set <= 1,
    ensures
        final(enc).ready(),
        final(ctx).wf(),
        final(ctx).qp == old(ctx).qp,
        bins::wrote(
            old(enc).log(),
            old(ctx)@,
            final(enc).log(),
            final(ctx)@,
            level_bins(levels_at(coeffs@, sig_pos@), set as int, is_luma, hidden),
        ),
        c1 == c1_at(
            levels_at(coeffs@, sig_pos@),
            flagged(levels_at(coeffs@, sig_pos@)),
        ),
{
    let n: usize = sig_pos.len();
    let ghost v = levels_at(coeffs@, sig_pos@);
    let ghost log0 = enc.log();
    let ghost bank0 = ctx@;
    let count: usize = if n < 8 {
        n
    } else {
        8
    };
    let off: usize = if is_luma {
        0
    } else {
        16
    };
    let mut c1: u32 = 1;
    let mut first: usize = n;
    let ghost g1 = greater1_bins(v, set as int, is_luma);
    let ghost mut acc: Seq<bins::Bin> = Seq::empty();
    proof {
        bins::lemma_wrote_none(enc.log(), ctx@);
        lemma_first_big(v, 0);
    }
    for c in 0..count
        invariant
            enc.ready(),
            ctx.wf(),
            ctx.qp == old(ctx).qp,
            v == levels_at(coeffs@, sig_pos@),
            n == sig_pos@.len(),
            count == flagged(v),
            forall|i: int| 0 <= i < sig_pos@.len() ==> #[trigger] sig_pos@[i] < coeffs@.len(),
            g1 == greater1_bins(v, set as int, is_luma),
            acc == g1.take(c as int),
            bins::wrote(log0, bank0, enc.log(), ctx@, acc),
            c1 == c1_at(v, c as int),
            set <= 3,
            !is_luma ==> set <= 1,
            off == if is_luma {
                0int
            } else {
                16
            },
            first == n ==> forall|i: int| 0 <= i < c ==> mag(#[trigger] v[i]) <= 1,
            first != n ==> first < c && mag(v[first as int]) > 1 && forall|i: int|
                0 <= i < first ==> mag(#[trigger] v[i]) <= 1,
    {
        proof {
            lemma_c1(v, c as int);
        }
        let m: u32 = magnitude(coeffs[sig_pos[c]]);
        assert(m == mag(v[c as int]));
        let ghost log1 = enc.log();
        let ghost bank1 = ctx@;
        ctx.code_greater1(enc, 4 * set + c1 as usize + off, m > 1);
        proof {
            let b = seq![bins::coded(contexts::GREATER1 + (4 * set + c1 + off), m > 1)];
            bins::lemma_wrote_add(log0, bank0, log1, bank1, enc.log(), ctx@, acc, b);
            acc = acc + b;
            assert(acc =~= g1.take(c + 1));
        }
        if m > 1 {
            c1 = 0;
            if first == n {
                first = c;
            }
        } else if c1 < 3 && c1 > 0 {
            c1 = c1 + 1;
        }
    }
    assert(g1.take(count as int) =~= g1);
    let ghost f = first_big(v, 0);
    assert(first == n <==> f < 0);
    assert(first != n ==> f == first);
    let ghost g2 = greater2_bins(v, set as int, is_luma);
    let ghost log1 = enc.log();
    let ghost bank1 = ctx@;
    if first < n {
        let m: u32 = magnitude(coeffs[sig_pos[first]]);
        assert(m == mag(v[f]));
        let at: usize = if is_luma {
            set
        } else {
            set + 4
        };
        ctx.code_greater2(enc, at, m > 2);
        assert(g2 =~= seq![bins::coded(contexts::GREATER2 + at, m > 2)]);
    } else {
        proof {
            bins::lemma_wrote_none(enc.log(), ctx@);
        }
    }
    proof {
        bins::lemma_wrote_add(log0, bank0, log1, bank1, enc.log(), ctx@, g1, g2);
        acc = g1 + g2;
    }
    let ghost bank2 = ctx@;
    let signs: usize = if hidden {
        n - 1
    } else {
        n
    };
    let ghost sb = sign_bins(v, signs as int);
    let ghost before = acc;
    assert(before + sb.take(0) =~= before);
    for i in 0..signs
        invariant
            enc.ready(),
            v == levels_at(coeffs@, sig_pos@),
            signs <= n == sig_pos@.len(),
            forall|i: int| 0 <= i < sig_pos@.len() ==> #[trigger] sig_pos@[i] < coeffs@.len(),
            sb == sign_bins(v, signs as int),
            ctx@ == bank2,
            ctx.wf(),
            ctx.qp == old(ctx).qp,
            acc == before + sb.take(i as int),
            bins::wrote(log0, bank0, enc.log(), bank2, acc),
    {
        let ghost log1 = enc.log();
        let neg: bool = coeffs[sig_pos[i]] < 0;
        code_plain(enc, ctx, neg);
        proof {
            let b = seq![bins::plain(neg)];
            bins::lemma_wrote_add(log0, bank0, log1, bank2, enc.log(), bank2, acc, b);
            acc = acc + b;
            assert(acc =~= before + sb.take(i + 1));
        }
    }
    assert(sb.take(signs as int) =~= sb);
    let ghost log1 = enc.log();
    encode_rest(enc, ctx, coeffs, sig_pos, first);
    proof {
        bins::lemma_wrote_add(
            log0,
            bank0,
            log1,
            bank2,
            enc.log(),
            bank2,
            before + sb,
            rest_bins(v, 0, 0),
        );
    }
    c1
}

/// A coefficient block as residual coding sees it: the levels in scan order, and
/// how they are coded.
pub struct Block {
    pub coeffs: Seq<i16>,
    pub log2: int,
    pub is_luma: bool,
    pub scan_idx: int,
    /// A sign may be hidden in the parity of its sub-block.
    pub hide: bool,
}

/// Index of the last non-zero level among the first `n`, or -1.
pub open spec fn last_nonzero(coeffs: Seq<i16>, n: int) -> int
    decreases n,
{
    if n <= 0 {
        -1
    } else if coeffs[n - 1] != 0 {
        n - 1
    } else {
        last_nonzero(coeffs, n - 1)
    }
}

impl Block {
    /// Scan position of the last non-zero level, or -1.
    pub open spec fn last(self) -> int {
        last_nonzero(self.coeffs, scan::area(self.log2))
    }

    /// Sub-block `sb` has a non-zero level.
    pub open spec fn nonzero(self, sb: int) -> bool {
        exists|k: int| 0 <= k < 16 && #[trigger] self.coeffs[16 * sb + k] != 0
    }

    /// The sub-block at column `x` and row `y` of the block has a non-zero level.
    pub open spec fn nonzero_at(self, x: int, y: int) -> bool {
        exists|sb: int|
            0 <= sb < scan::num_sb(self.log2) && #[trigger] scan::sb_pos(self.log2, self.scan_idx, sb)
                == (x, y) && self.nonzero(sb)
    }

    /// Whether the sub-blocks to the right (1) and below (2) of `sb` are coded.
    pub open spec fn prev_csbf(self, sb: int) -> int {
        let p = scan::sb_pos(self.log2, self.scan_idx, sb);
        (if self.nonzero_at(p.0 + 1, p.1) {
            1int
        } else {
            0
        }) + (if self.nonzero_at(p.0, p.1 + 1) {
            2int
        } else {
            0
        })
    }

    /// Sub-block `sb` has a coded flag that says whether it is coded.
    pub open spec fn has_flag(self, sb: int) -> bool {
        sb != 0 && sb != self.last() / 16
    }

    /// First scan position, inside sub-block `sb`, that is looked at.
    pub open spec fn top(self, sb: int) -> int {
        if sb == self.last() / 16 {
            self.last() % 16
        } else {
            15
        }
    }

    /// The significance of position `k` of sub-block `sb` goes without saying.
    pub open spec fn inferred(self, sb: int, k: int) -> bool {
        ||| 16 * sb + k == self.last()
        ||| k == 0 && self.has_flag(sb) && forall|i: int|
            1 <= i < 16 ==> #[trigger] self.coeffs[16 * sb + i] == 0
    }

    /// Bins of the significance flags of sub-block `sb`, from position `k` down.
    pub open spec fn sig_bins(self, sb: int, k: int) -> Seq<bins::Bin>
        decreases k + 1,
    {
        if k < 0 {
            Seq::empty()
        } else if self.inferred(sb, k) {
            self.sig_bins(sb, k - 1)
        } else {
            seq![self.sig_bin(sb, k)] + self.sig_bins(sb, k - 1)
        }
    }

    /// Bin of one significance flag.
    pub open spec fn sig_bin(self, sb: int, k: int) -> bins::Bin {
        let p = scan::scan_pos(self.log2, self.scan_idx, 16 * sb + k);
        let at = sig_ctx_of(
            p.1,
            p.0,
            self.prev_csbf(sb),
            self.log2,
            self.scan_idx,
            self.is_luma,
        );
        bins::coded(
            contexts::SIG_COEFF + (if at < 43 {
                at
            } else {
                43
            }),
            self.coeffs[16 * sb + k] != 0,
        )
    }

    /// The scan positions of the non-zero levels of sub-block `sb`, from position
    /// `k` down.
    pub open spec fn positions(self, sb: int, k: int) -> Seq<usize>
        decreases k + 1,
    {
        if k < 0 {
            Seq::empty()
        } else if self.coeffs[16 * sb + k] != 0 {
            seq![(16 * sb + k) as usize] + self.positions(sb, k - 1)
        } else {
            self.positions(sb, k - 1)
        }
    }

    /// The context set of sub-block `sb` where the last coded one left the
    /// counter at `c1`.
    pub open spec fn set(self, sb: int, c1: int) -> int {
        (if sb == 0 || !self.is_luma {
            0int
        } else {
            2
        }) + (if c1 == 0 {
            1int
        } else {
            0
        })
    }

    /// Bins of sub-block `sb`.
    pub open spec fn sb_bins(self, sb: int, c1: int) -> Seq<bins::Bin> {
        let flag = if self.has_flag(sb) {
            seq![
                bins::coded(
                    contexts::CODED_SUB_BLOCK + (if self.is_luma {
                        0int
                    } else {
                        2
                    }) + (if self.prev_csbf(sb) > 0 {
                        1int
                    } else {
                        0
                    }),
                    self.nonzero(sb),
                ),
            ]
        } else {
            Seq::empty()
        };
        let pos = self.positions(sb, self.top(sb));
        if self.has_flag(sb) && !self.nonzero(sb) {
            flag
        } else if pos.len() == 0 {
            flag + self.sig_bins(sb, self.top(sb))
        } else {
            flag + self.sig_bins(sb, self.top(sb)) + level_bins(
                levels_at(self.coeffs, pos),
                self.set(sb, c1),
                self.is_luma,
                self.hide && pos[0] - pos.last() > 3,
            )
        }
    }

    /// The context counter after sub-block `sb`.
    pub open spec fn c1_after(self, sb: int, c1: int) -> int {
        let v = levels_at(self.coeffs, self.positions(sb, self.top(sb)));
        if (self.has_flag(sb) && !self.nonzero(sb)) || v.len() == 0 {
            c1
        } else {
            c1_at(v, flagged(v))
        }
    }

    /// Bins of the sub-blocks from `sb` down.
    pub open spec fn walk_bins(self, sb: int, c1: int) -> Seq<bins::Bin>
        decreases sb + 1,
    {
        if sb < 0 {
            Seq::empty()
        } else {
            self.sb_bins(sb, c1) + self.walk_bins(sb - 1, self.c1_after(sb, c1))
        }
    }

    /// Bins of the block; a block without a non-zero level has none.
    pub open spec fn bins(self) -> Seq<bins::Bin> {
        let p = scan::scan_pos(self.log2, self.scan_idx, self.last());
        if self.last() < 0 {
            Seq::empty()
        } else {
            (if self.scan_idx == 2 {
                last_bins(p.0, p.1, self.log2, self.is_luma)
            } else {
                last_bins(p.1, p.0, self.log2, self.is_luma)
            }) + self.walk_bins(self.last() / 16, 1)
        }
    }
}

/// Where the last non-zero level is, and what stands behind it.
pub proof fn lemma_last_nonzero(coeffs: Seq<i16>, n: int)
    requires
        0 <= n <= coeffs.len(),
    ensures
        ({
            let l = last_nonzero(coeffs, n);
            &&& -1 <= l < n
            &&& l >= 0 ==> coeffs[l] != 0
            &&& forall|i: int| l < i < n ==> #[trigger] coeffs[i] == 0
        }),
    decreases n,
{
    if n > 0 && coeffs[n - 1] == 0 {
        lemma_last_nonzero(coeffs, n - 1);
    }
}

/// Which sub-blocks have a non-zero level, by their column and row.
fn coded_map(coeffs: &[i16], log2_ts: u32, scan_idx: u8, Ghost(b): Ghost<Block>) -> (r: Vec<bool>)
    requires
        scan::scan_ok(log2_ts as int, scan_idx as int),
        coeffs@.len() >= scan::area(log2_ts as int),
        b.coeffs == coeffs@,
        b.log2 == log2_ts,
        b.scan_idx == scan_idx,
    ensures
        r@.len() == 64,
        forall|x: int, y: int|
            0 <= x < 8 && 0 <= y < 8 ==> #[trigger] r@[8 * y + x] == b.nonzero_at(x, y),
{
    let mut r: Vec<bool> = vec![false;64];
    let w: usize = scan::sb_side_of(log2_ts);
    let n: usize = w * w;
    assert(n == scan::num_sb(log2_ts as int));
    for sb in 0..n
        invariant
            scan::scan_ok(log2_ts as int, scan_idx as int),
            coeffs@.len() >= scan::area(log2_ts as int),
            b.coeffs == coeffs@,
            b.log2 == log2_ts,
            b.scan_idx == scan_idx,
            n == scan::num_sb(log2_ts as int),
            r@.len() == 64,
            forall|x: int, y: int|
                0 <= x < 8 && 0 <= y < 8 ==> (#[trigger] r@[8 * y + x] <==> exists|j: int|
                    0 <= j < sb && #[trigger] scan::sb_pos(b.log2, b.scan_idx, j) == (x, y)
                        && b.nonzero(j)),
    {
        let nz = any_nonzero(coeffs, sb, Ghost(b));
        let p = scan::sb_at(log2_ts, scan_idx, sb);
        let ghost r0 = r@;
        assert(p.0 < 8 && p.1 < 8);
        r[8 * p.1 + p.0] = nz;
        proof {
            assert forall|x: int, y: int| 0 <= x < 8 && 0 <= y < 8 implies (#[trigger] r@[8 * y + x]
                <==> exists|j: int|
                0 <= j < sb + 1 && #[trigger] scan::sb_pos(b.log2, b.scan_idx, j) == (x, y)
                    && b.nonzero(j)) by {
                if x == p.0 && y == p.1 {
                    if nz {
                        assert(scan::sb_pos(b.log2, b.scan_idx, sb as int) == (x, y));
                    }
                    assert forall|j: int|
                        0 <= j < sb && #[trigger] scan::sb_pos(b.log2, b.scan_idx, j) == (
                            x,
                            y,
                        ) implies false by {
                        scan::lemma_sb_pos_injective(b.log2, b.scan_idx, j, sb as int);
                    }
                } else {
                    assert(8 * y + x != 8 * p.1 + p.0);
                    assert(r@[8 * y + x] == r0[8 * y + x]);
                    assert(scan::sb_pos(b.log2, b.scan_idx, sb as int) != (x, y));
                }
            }
        }
    }
    r
}

/// Whether sub-block `sb` has a non-zero level.
fn any_nonzero(coeffs: &[i16], sb: usize, Ghost(b): Ghost<Block>) -> (r: bool)
    requires
        sb < 64,
        16 * sb + 16 <= coeffs@.len(),
        b.coeffs == coeffs@,
    ensures
        r == b.nonzero(sb as int),
{
    for k in 0..16usize
        invariant
            sb < 64,
            16 * sb + 16 <= coeffs@.len(),
            b.coeffs == coeffs@,
            forall|i: int| 0 <= i < k ==> #[trigger] b.coeffs[16 * sb + i] == 0,
    {
        if coeffs[16 * sb + k] != 0 {
            assert(b.coeffs[16 * sb + k] != 0);
            return true;
        }
    }
    false
}

/// Whether the sub-blocks to the right of and below sub-block `sb` are coded.
fn prev_csbf_of(
    coded: &Vec<bool>,
    log2_ts: u32,
    scan_idx: u8,
    sb: usize,
    Ghost(b): Ghost<Block>,
) -> (r: u8)
    requires
        scan::scan_ok(log2_ts as int, scan_idx as int),
        sb < scan::num_sb(log2_ts as int),
        b.log2 == log2_ts,
        b.scan_idx == scan_idx,
        coded@.len() == 64,
        forall|x: int, y: int|
            0 <= x < 8 && 0 <= y < 8 ==> #[trigger] coded@[8 * y + x] == b.nonzero_at(x, y),
    ensures
        r == b.prev_csbf(sb as int),
{
    let p = scan::sb_at(log2_ts, scan_idx, sb);
    assert(p.0 < 8 && p.1 < 8);
    proof {
        assert forall|x: int, y: int| (x >= 8 || y >= 8) implies !#[trigger] b.nonzero_at(x, y) by {
            assert forall|j: int|
                0 <= j < scan::num_sb(b.log2) && #[trigger] scan::sb_pos(b.log2, b.scan_idx, j) == (
                    x,
                    y,
                ) implies false by {
                scan::lemma_sb_pos(b.log2, b.scan_idx, j);
            }
        }
    }
    let right: bool = if p.0 + 1 < 8 {
        coded[8 * p.1 + (p.0 + 1)]
    } else {
        false
    };
    let below: bool = if p.1 + 1 < 8 {
        coded[8 * (p.1 + 1) + p.0]
    } else {
        false
    };
    assert(right == b.nonzero_at(p.0 + 1, p.1 as int));
    assert(below == b.nonzero_at(p.0 as int, p.1 + 1));
    (if right {
        1
    } else {
        0
    }) + (if below {
        2
    } else {
        0
    })
}

/// Codes the significance flags of sub-block `sb` and lists the scan positions of
/// its non-zero levels, last one first.
fn encode_sig_flags<W: CabacWriter>(
    enc: &mut W,
    ctx: &mut ContextSet,
    coeffs: &[i16],
    log2_ts: u32,
    is_luma: bool,
    scan_idx: u8,
    sb: usize,
    last: usize,
    prev_csbf: u8,
    Ghost(b): Ghost<Block>,
) -> (r: Vec<usize>)
    requires
        old(enc).ready(),
        old(ctx).wf(),
        b.coeffs == coeffs@,
        b.log2 == log2_ts,
        b.is_luma == is_luma,
        b.scan_idx == scan_idx,
        scan::scan_ok(log2_ts as int, scan_idx as int),
        coeffs@.len() >= scan::area(log2_ts as int),
        last == b.last(),
        sb <= last / 16,
        prev_csbf == b.prev_csbf(sb as int),
        b.has_flag(sb as int) ==> b.nonzero(sb as int),
    ensures
        final(enc).ready(),
        final(ctx).wf(),
        final(ctx).qp == old(ctx).qp,
        bins::wrote(
            old(enc).log(),
            old(ctx)@,
            final(enc).log(),
            final(ctx)@,
            b.sig_bins(sb as int, b.top(sb as int)),
        ),
        r@ == b.positions(sb as int, b.top(sb as int)),
{
    let last_sb: usize = last / 16;
    let top: usize = if sb == last_sb {
        last % 16
    } else {
        15
    };
    let explicit: bool = sb != 0 && sb != last_sb;
    let ghost log0 = enc.log();
    let ghost bank0 = ctx@;
    let ghost all = b.sig_bins(sb as int, top as int);
    let ghost list = b.positions(sb as int, top as int);
    let ghost mut acc: Seq<bins::Bin> = Seq::empty();
    let mut r: Vec<usize> = Vec::new();
    proof {
        bins::lemma_wrote_none(enc.log(), ctx@);
        lemma_last_nonzero(coeffs@, scan::area(b.log2));
        assert(acc + all =~= all);
        assert(r@ + list =~= list);
        assert(16 * sb + 16 <= scan::area(b.log2)) by {
            assert(last < scan::area(b.log2));
        }
    }
    let mut left: usize = top + 1;
    while left > 0
        invariant
            enc.ready(),
            ctx.wf(),
            ctx.qp == old(ctx).qp,
            b.coeffs == coeffs@,
            b.log2 == log2_ts,
            b.is_luma == is_luma,
            b.scan_idx == scan_idx,
            scan::scan_ok(log2_ts as int, scan_idx as int),
            coeffs@.len() >= scan::area(log2_ts as int),
            16 * sb + 16 <= scan::area(b.log2),
            last == b.last(),
            coeffs@[last as int] != 0,
            last_sb == last / 16,
            top == b.top(sb as int),
            left <= top + 1,
            top <= 15,
            explicit == b.has_flag(sb as int),
            explicit ==> b.nonzero(sb as int),
            explicit ==> top == 15,
            prev_csbf == b.prev_csbf(sb as int),
            acc + b.sig_bins(sb as int, left - 1) == all,
            r@ + b.positions(sb as int, left - 1) == list,
            r@.len() == 0 <==> forall|i: int|
                left <= i <= top ==> #[trigger] b.coeffs[16 * sb + i] == 0,
            bins::wrote(log0, bank0, enc.log(), ctx@, acc),
        decreases left,
    {
        let k: usize = left - 1;
        let at: usize = 16 * sb + k;
        let ghost rest = b.sig_bins(sb as int, k - 1);
        let ghost tail = b.positions(sb as int, k - 1);
        if at == last || (k == 0 && explicit && r.len() == 0) {
            proof {
                if at == last {
                } else {
                    assert forall|i: int| 1 <= i < 16 implies #[trigger] b.coeffs[16 * sb + i] == 0 by {}
                    assert(b.coeffs[16 * sb + 0] != 0);
                }
                assert(b.inferred(sb as int, k as int));
                assert(b.coeffs[16 * sb + k] != 0);
                assert(r@ + (seq![at] + tail) =~= r@.push(at) + tail);
            }
            r.push(at);
        } else {
            proof {
                if k == 0 && explicit {
                    let j = choose|i: int| left <= i <= top && #[trigger] b.coeffs[16 * sb + i] != 0;
                    assert(b.coeffs[16 * sb + j] != 0);
                }
                assert(!b.inferred(sb as int, k as int));
            }
            let p = scan::pos_at(log2_ts, scan_idx, at);
            let ci: usize = sig_coeff_ctx(p.1, p.0, prev_csbf, log2_ts, scan_idx, is_luma);
            let ci: usize = if ci < 43 {
                ci
            } else {
                43
            };
            let nz: bool = coeffs[at] != 0;
            let ghost log1 = enc.log();
            let ghost bank1 = ctx@;
            ctx.code_sig_coeff(enc, ci, nz);
            proof {
                let one = seq![b.sig_bin(sb as int, k as int)];
                assert(one =~= seq![bins::coded(contexts::SIG_COEFF + ci, nz)]);
                bins::lemma_wrote_add(log0, bank0, log1, bank1, enc.log(), ctx@, acc, one);
                assert(acc + (one + rest) =~= acc + one + rest);
                acc = acc + one;
                assert(r@ + (seq![at] + tail) =~= r@.push(at) + tail);
                assert(b.coeffs[16 * sb + k] == coeffs@[at as int]);
            }
            if nz {
                r.push(at);
            }
        }
        left = left - 1;
    }
    assert(acc + b.sig_bins(sb as int, -1) =~= acc);
    assert(r@ + b.positions(sb as int, -1) =~= r@);
    r
}

/// The listed positions are those of non-zero levels, inside the sub-block, last
/// one first.
proof fn lemma_positions(b: Block, sb: int, k: int)
    requires
        0 <= sb < 64,
        -1 <= k < 16,
    ensures
        b.positions(sb, k).len() <= k + 1,
        forall|i: int|
            0 <= i < b.positions(sb, k).len() ==> 16 * sb <= #[trigger] b.positions(sb, k)[i] <= 16
                * sb + k,
        forall|i: int|
            0 <= i < b.positions(sb, k).len() ==> b.coeffs[#[trigger] b.positions(sb, k)[i] as int]
                != 0,
        b.positions(sb, k).len() > 0 ==> b.positions(sb, k)[0] >= b.positions(sb, k).last(),
    decreases k + 1,
{
    if k >= 0 {
        lemma_positions(b, sb, k - 1);
    }
}

/// Codes sub-block `sb`, where the last coded sub-block left the context counter
/// at `c1`. Returns the counter that this one leaves.
fn encode_sub_block<W: CabacWriter>(
    enc: &mut W,
    ctx: &mut ContextSet,
    coeffs: &[i16],
    log2_ts: u32,
    is_luma: bool,
    scan_idx: u8,
    hide: bool,
    coded: &Vec<bool>,
    sb: usize,
    last: usize,
    c1: u32,
    Ghost(b): Ghost<Block>,
) -> (r: u32)
    requires
        old(enc).ready(),
        old(ctx).wf(),
        b == (Block {
            coeffs: coeffs@,
            log2: log2_ts as int,
            is_luma,
            scan_idx: scan_idx as int,
            hide,
        }),
        scan::scan_ok(log2_ts as int, scan_idx as int),
        coeffs@.len() >= scan::area(log2_ts as int),
        last == b.last(),
        sb <= last / 16,
        coded@.len() == 64,
        forall|x: int, y: int|
            0 <= x < 8 && 0 <= y < 8 ==> #[trigger] coded@[8 * y + x] == b.nonzero_at(x, y),
    ensures
        final(enc).ready(),
        final(ctx).wf(),
        final(ctx).qp == old(ctx).qp,
        bins::wrote(
            old(enc).log(),
            old(ctx)@,
            final(enc).log(),
            final(ctx)@,
            b.sb_bins(sb as int, c1 as int),
        ),
        r == b.c1_after(sb as int, c1 as int),
{
    proof {
        lemma_last_nonzero(coeffs@, scan::area(b.log2));
        assert(16 * sb + 16 <= scan::area(b.log2)) by {
            assert(last < scan::area(b.log2));
        }
        lemma_positions(b, sb as int, b.top(sb as int));
        bins::lemma_wrote_none(enc.log(), ctx@);
    }
    let ghost log0 = enc.log();
    let ghost bank0 = ctx@;
    let prev = prev_csbf_of(coded, log2_ts, scan_idx, sb, Ghost(b));
    let nz = any_nonzero(coeffs, sb, Ghost(b));
    let ghost mut acc: Seq<bins::Bin> = Seq::empty();
    if sb != 0 && sb != last / 16 {
        let at: usize = (if is_luma {
            0
        } else {
            2
        }) + (if prev > 0 {
            1
        } else {
            0
        });
        ctx.code_coded_sub_block(enc, at, nz);
        proof {
            acc = seq![bins::coded(contexts::CODED_SUB_BLOCK + at, nz)];
        }
        if !nz {
            assert(acc =~= b.sb_bins(sb as int, c1 as int));
            return c1;
        }
    }
    let ghost log1 = enc.log();
    let ghost bank1 = ctx@;
    let ghost flag = acc;
    let pos = encode_sig_flags(
        enc,
        ctx,
        coeffs,
        log2_ts,
        is_luma,
        scan_idx,
        sb,
        last,
        prev,
        Ghost(b),
    );
    proof {
        let sig = b.sig_bins(sb as int, b.top(sb as int));
        bins::lemma_wrote_add(log0, bank0, log1, bank1, enc.log(), ctx@, acc, sig);
        acc = acc + sig;
    }
    if pos.len() == 0 {
        assert(acc =~= b.sb_bins(sb as int, c1 as int));
        return c1;
    }
    let set: usize = (if sb == 0 || !is_luma {
        0
    } else {
        2
    }) + (if c1 == 0 {
        1
    } else {
        0
    });
    let hidden: bool = hide && pos[0] - pos[pos.len() - 1] > 3;
    let ghost log1 = enc.log();
    let ghost bank1 = ctx@;
    let r = encode_coeff_levels(enc, ctx, coeffs, &pos, set, is_luma, hidden);
    proof {
        let lev = level_bins(levels_at(coeffs@, pos@), set as int, is_luma, hidden);
        bins::lemma_wrote_add(log0, bank0, log1, bank1, enc.log(), ctx@, acc, lev);
        assert(acc + lev =~= b.sb_bins(sb as int, c1 as int));
    }
    r
}

/// Codes a block of `2^log2_ts` by `2^log2_ts` levels, given in the order of the
/// scan `scan_idx`. With `hide`, the sign of a sub-block's first non-zero level
/// is left out where its last one is more than three positions away.
pub fn encode_residual_scan<W: CabacWriter>(
    enc: &mut W,
    ctx: &mut ContextSet,
    coeffs: &[i16],
    log2_ts: u32,
    is_luma: bool,
    scan_idx: u8,
    hide: bool,
)
    requires
        old(enc).ready(),
        old(ctx).wf(),
        scan::scan_ok(log2_ts as int, scan_idx as int),
        coeffs@.len() >= scan::area(log2_ts as int),
    ensures
        final(enc).ready(),
        final(ctx).wf(),
        final(ctx).qp == old(ctx).qp,
        bins::wrote(
            old(enc).log(),
            old(ctx)@,
            final(enc).log(),
            final(ctx)@,
            (Block {
                coeffs: coeffs@,
                log2: log2_ts as int,
                is_luma,
                scan_idx: scan_idx as int,
                hide,
            }).bins(),
        ),
{
    let ghost b = Block {
        coeffs: coeffs@,
        log2: log2_ts as int,
        is_luma,
        scan_idx: scan_idx as int,
        hide,
    };
    let w: usize = scan::sb_side_of(log2_ts);
    let mut n: usize = 16 * (w * w);
    proof {
        bins::lemma_wrote_none(enc.log(), ctx@);
        lemma_last_nonzero(coeffs@, scan::area(b.log2));
    }
    while n > 0 && coeffs[n - 1] == 0
        invariant
            n <= scan::area(b.log2),
            coeffs@.len() >= scan::area(b.log2),
            b.coeffs == coeffs@,
            b.last() == last_nonzero(coeffs@, n as int),
        decreases n,
    {
        n = n - 1;
    }
    if n == 0 {
        assert(b.last() == -1);
        return;
    }
    let last: usize = n - 1;
    assert(last == b.last());
    let p = scan::pos_at(log2_ts, scan_idx, last);
    let ghost log0 = enc.log();
    let ghost bank0 = ctx@;
    let (x, y): (usize, usize) = if scan_idx == 2 {
        (p.0, p.1)
    } else {
        (p.1, p.0)
    };
    encode_last_sig(enc, ctx, x as u32, y as u32, log2_ts, is_luma);
    let ghost mut acc = last_bins(x as int, y as int, b.log2, is_luma);
    let coded = coded_map(coeffs, log2_ts, scan_idx, Ghost(b));
    let mut left: usize = last / 16 + 1;
    let mut c1: u32 = 1;
    while left > 0
        invariant
            enc.ready(),
            ctx.wf(),
            ctx.qp == old(ctx).qp,
            b == (Block {
                coeffs: coeffs@,
                log2: log2_ts as int,
                is_luma,
                scan_idx: scan_idx as int,
                hide,
            }),
            scan::scan_ok(log2_ts as int, scan_idx as int),
            coeffs@.len() >= scan::area(log2_ts as int),
            last == b.last(),
            left <= last / 16 + 1,
            coded@.len() == 64,
            forall|x: int, y: int|
                0 <= x < 8 && 0 <= y < 8 ==> #[trigger] coded@[8 * y + x] == b.nonzero_at(x, y),
            acc + b.walk_bins(left - 1, c1 as int) == b.bins(),
            bins::wrote(log0, bank0, enc.log(), ctx@, acc),
        decreases left,
    {
        let sb: usize = left - 1;
        let ghost log1 = enc.log();
        let ghost bank1 = ctx@;
        let next = encode_sub_block(
            enc,
            ctx,
            coeffs,
            log2_ts,
            is_luma,
            scan_idx,
            hide,
            &coded,
            sb,
            last,
            c1,
            Ghost(b),
        );
        proof {
            let one = b.sb_bins(sb as int, c1 as int);
            let rest = b.walk_bins(sb - 1, next as int);
            bins::lemma_wrote_add(log0, bank0, log1, bank1, enc.log(), ctx@, acc, one);
            assert(acc + (one + rest) =~= acc + one + rest);
            acc = acc + one;
        }
        c1 = next;
        left = left - 1;
    }
    assert(acc + b.walk_bins(-1, c1 as int) =~= acc);
}

/// Codes an 8x8 or 4x4 block of levels in diagonal scan order, with every sign.
pub fn encode_residual<W: CabacWriter>(
    enc: &mut W,
    ctx: &mut ContextSet,
    coeffs: &[i16],
    log2_ts: u32,
    is_luma: bool,
)
    requires
        old(enc).ready(),
        old(ctx).wf(),
        2 <= log2_ts <= 3,
        coeffs@.len() >= scan::area(log2_ts as int),
    ensures
        final(enc).ready(),
        final(ctx).wf(),
        final(ctx).qp == old(ctx).qp,
        bins::wrote(
            old(enc).log(),
            old(ctx)@,
            final(enc).log(),
            final(ctx)@,
            (Block {
                coeffs: coeffs@,
                log2: log2_ts as int,
                is_luma,
                scan_idx: 0,
                hide: false,
            }).bins(),
        ),
{
    encode_residual_scan(enc, ctx, coeffs, log2_ts, is_luma, 0, false);
}

} // verus!
