//! Bins of the syntax: which context each one is coded with, and what a run of
//! them does to the log of symbols and to the contexts.
use crate::cabac::engine;
use crate::cabac::engine::CtxModel;
use crate::cabac::interval;
use vstd::prelude::*;

verus! {

/// One bin: the number of its context in a bank of contexts (-1 for an equally
/// probable bin, -2 for an end-of-data flag), and its value.
pub struct Bin {
    pub ctx: int,
    pub bit: bool,
}

/// A context-coded bin.
pub open spec fn coded(ctx: int, bit: bool) -> Bin {
    Bin { ctx, bit }
}

/// An equally probable bin.
pub open spec fn plain(bit: bool) -> Bin {
    Bin { ctx: -1, bit }
}

/// An end-of-data flag.
pub open spec fn end(bit: bool) -> Bin {
    Bin { ctx: -2, bit }
}

/// Equally probable bins, one for each bit.
pub open spec fn plain_bits(bits: Seq<bool>) -> Seq<Bin> {
    Seq::new(bits.len(), |i: int| plain(bits[i]))
}

/// The symbol that codes a bin while the contexts are `bank`.
pub open spec fn symbol(bank: Seq<CtxModel>, b: Bin) -> interval::Symbol {
    if 0 <= b.ctx < bank.len() {
        bank[b.ctx].symbol(b.bit)
    } else if b.ctx == -2 {
        engine::terminate(b.bit)
    } else {
        engine::bypass(b.bit)
    }
}

/// The contexts after one bin.
pub open spec fn adapt(bank: Seq<CtxModel>, b: Bin) -> Seq<CtxModel> {
    if 0 <= b.ctx < bank.len() {
        bank.update(b.ctx, bank[b.ctx].after(b.bit))
    } else {
        bank
    }
}

/// The contexts after a run of bins.
pub open spec fn bank_after(bank: Seq<CtxModel>, bins: Seq<Bin>) -> Seq<CtxModel>
    decreases bins.len(),
{
    if bins.len() == 0 {
        bank
    } else {
        adapt(bank_after(bank, bins.drop_last()), bins.last())
    }
}

/// The symbols that code a run of bins.
pub open spec fn symbols(bank: Seq<CtxModel>, bins: Seq<Bin>) -> Seq<interval::Symbol>
    decreases bins.len(),
{
    if bins.len() == 0 {
        Seq::empty()
    } else {
        symbols(bank, bins.drop_last()).push(
            symbol(bank_after(bank, bins.drop_last()), bins.last()),
        )
    }
}

/// Writing `bins` led from one log and bank to the other, also where the bank is
/// the front part of a longer one.
#[verifier::opaque]
pub open spec fn wrote(
    log0: Seq<interval::Symbol>,
    bank0: Seq<CtxModel>,
    log1: Seq<interval::Symbol>,
    bank1: Seq<CtxModel>,
    bins: Seq<Bin>,
) -> bool {
    &&& bank1.len() == bank0.len()
    &&& forall|tail: Seq<CtxModel>|
        log1 == log0 + #[trigger] symbols(bank0 + tail, bins) && bank1 + tail == bank_after(
            bank0 + tail,
            bins,
        )
}

/// Writing one run after another is writing both.
pub proof fn lemma_symbols_add(bank: Seq<CtxModel>, a: Seq<Bin>, b: Seq<Bin>)
    ensures
        symbols(bank, a + b) == symbols(bank, a) + symbols(bank_after(bank, a), b),
        bank_after(bank, a + b) == bank_after(bank_after(bank, a), b),
    decreases b.len(),
{
    if b.len() == 0 {
        assert(a + b =~= a);
        assert(symbols(bank, a) + symbols(bank_after(bank, a), b) =~= symbols(bank, a));
    } else {
        assert((a + b).drop_last() =~= a + b.drop_last());
        lemma_symbols_add(bank, a, b.drop_last());
        assert(symbols(bank, a + b) =~= symbols(bank, a) + symbols(bank_after(bank, a), b));
    }
}

pub proof fn lemma_wrote_none(log: Seq<interval::Symbol>, bank: Seq<CtxModel>)
    ensures
        wrote(log, bank, log, bank, Seq::empty()),
{
    reveal(wrote);
    assert forall|tail: Seq<CtxModel>| log == log + #[trigger] symbols(bank + tail, Seq::empty()) by {
        assert(log + symbols(bank + tail, Seq::empty()) =~= log);
    }
}

pub proof fn lemma_wrote_add(
    log0: Seq<interval::Symbol>,
    bank0: Seq<CtxModel>,
    log1: Seq<interval::Symbol>,
    bank1: Seq<CtxModel>,
    log2: Seq<interval::Symbol>,
    bank2: Seq<CtxModel>,
    a: Seq<Bin>,
    b: Seq<Bin>,
)
    requires
        wrote(log0, bank0, log1, bank1, a),
        wrote(log1, bank1, log2, bank2, b),
    ensures
        wrote(log0, bank0, log2, bank2, a + b),
{
    reveal(wrote);
    assert forall|tail: Seq<CtxModel>|
        log2 == log0 + #[trigger] symbols(bank0 + tail, a + b) && bank2 + tail == bank_after(
            bank0 + tail,
            a + b,
        ) by {
        lemma_symbols_add(bank0 + tail, a, b);
        assert(log1 == log0 + symbols(bank0 + tail, a));
        assert(log2 == log1 + symbols(bank1 + tail, b));
        assert(log2 =~= log0 + symbols(bank0 + tail, a + b));
    }
}

/// What was written with a bank was written with every bank that it starts.
pub proof fn lemma_wrote_lift(
    log0: Seq<interval::Symbol>,
    bank0: Seq<CtxModel>,
    log1: Seq<interval::Symbol>,
    bank1: Seq<CtxModel>,
    bins: Seq<Bin>,
    more: Seq<CtxModel>,
)
    requires
        wrote(log0, bank0, log1, bank1, bins),
    ensures
        wrote(log0, bank0 + more, log1, bank1 + more, bins),
{
    reveal(wrote);
    assert forall|tail: Seq<CtxModel>|
        log1 == log0 + #[trigger] symbols(bank0 + more + tail, bins) && bank1 + more + tail
            == bank_after(bank0 + more + tail, bins) by {
        assert(bank0 + more + tail =~= bank0 + (more + tail));
        assert(bank1 + more + tail =~= bank1 + (more + tail));
        assert(log1 == log0 + symbols(bank0 + (more + tail), bins));
    }
}

/// What was written follows from the log and the bank before.
pub proof fn lemma_wrote_exact(
    log0: Seq<interval::Symbol>,
    bank0: Seq<CtxModel>,
    log1: Seq<interval::Symbol>,
    bank1: Seq<CtxModel>,
    bins: Seq<Bin>,
)
    requires
        wrote(log0, bank0, log1, bank1, bins),
    ensures
        log1 == log0 + symbols(bank0, bins),
        bank1 == bank_after(bank0, bins),
{
    reveal(wrote);
    assert(bank0 + Seq::empty() =~= bank0);
    assert(bank1 + Seq::empty() =~= bank1);
    assert(log1 == log0 + symbols(bank0 + Seq::empty(), bins));
}

pub proof fn lemma_wrote_coded(log: Seq<interval::Symbol>, bank: Seq<CtxModel>, ctx: int, bit: bool)
    requires
        0 <= ctx < bank.len(),
    ensures
        wrote(
            log,
            bank,
            log.push(bank[ctx].symbol(bit)),
            bank.update(ctx, bank[ctx].after(bit)),
            seq![coded(ctx, bit)],
        ),
{
    reveal(wrote);
    reveal_with_fuel(symbols, 2);
    reveal_with_fuel(bank_after, 2);
    let bins = seq![coded(ctx, bit)];
    let log1 = log.push(bank[ctx].symbol(bit));
    let bank1 = bank.update(ctx, bank[ctx].after(bit));
    assert(bins.drop_last() =~= Seq::empty());
    assert forall|tail: Seq<CtxModel>|
        log1 == log + #[trigger] symbols(bank + tail, bins) && bank1 + tail == bank_after(
            bank + tail,
            bins,
        ) by {
        assert(log1 =~= log + symbols(bank + tail, bins));
        assert(bank1 + tail =~= bank_after(bank + tail, bins));
    }
}

pub proof fn lemma_wrote_plain(log: Seq<interval::Symbol>, bank: Seq<CtxModel>, bit: bool)
    ensures
        wrote(log, bank, log.push(engine::bypass(bit)), bank, seq![plain(bit)]),
{
    reveal(wrote);
    reveal_with_fuel(symbols, 2);
    reveal_with_fuel(bank_after, 2);
    let bins = seq![plain(bit)];
    let log1 = log.push(engine::bypass(bit));
    assert(bins.drop_last() =~= Seq::empty());
    assert forall|tail: Seq<CtxModel>|
        log1 == log + #[trigger] symbols(bank + tail, bins) && bank + tail == bank_after(
            bank + tail,
            bins,
        ) by {
        assert(log1 =~= log + symbols(bank + tail, bins));
    }
}

pub proof fn lemma_wrote_end(log: Seq<interval::Symbol>, bank: Seq<CtxModel>, bit: bool)
    ensures
        wrote(log, bank, log.push(engine::terminate(bit)), bank, seq![end(bit)]),
{
    reveal(wrote);
    reveal_with_fuel(symbols, 2);
    reveal_with_fuel(bank_after, 2);
    let bins = seq![end(bit)];
    let log1 = log.push(engine::terminate(bit));
    assert(bins.drop_last() =~= Seq::empty());
    assert forall|tail: Seq<CtxModel>|
        log1 == log + #[trigger] symbols(bank + tail, bins) && bank + tail == bank_after(
            bank + tail,
            bins,
        ) by {
        assert(log1 =~= log + symbols(bank + tail, bins));
    }
}

} // verus!
