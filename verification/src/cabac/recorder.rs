//! A sink that keeps the bins apart, to look at.
use crate::cabac::engine;
use crate::cabac::engine::{CabacWriter, CtxModel};
use crate::cabac::interval;
use vstd::prelude::*;

verus! {

/// The values of the context-coded symbols (`regular`), or of the others.
pub open spec fn values(log: Seq<interval::Symbol>, regular: bool) -> Seq<u8>
    decreases log.len(),
{
    if log.len() == 0 {
        Seq::empty()
    } else {
        let before = values(log.drop_last(), regular);
        if (log.last().kind is Regular) == regular {
            before.push(
                if log.last().bin {
                    1
                } else {
                    0
                },
            )
        } else {
            before
        }
    }
}

/// A sink that follows the probability models and keeps the values of the bins.
pub struct CabacRecorder {
    regular: Vec<u8>,
    bypass: Vec<u8>,
    written: Ghost<Seq<interval::Symbol>>,
}

impl CabacRecorder {
    /// A sink that has seen no bins.
    pub fn new() -> (r: Self)
        ensures
            r.log() == Seq::<interval::Symbol>::empty(),
            r.ready(),
    {
        CabacRecorder { regular: Vec::new(), bypass: Vec::new(), written: Ghost(Seq::empty()) }
    }

    /// The values of the context-coded bins.
    pub fn regular(&self) -> (r: &Vec<u8>)
        requires
            self.ready(),
        ensures
            r@ == values(self.log(), true),
    {
        &self.regular
    }

    /// The values of the equally probable bins.
    pub fn bypass(&self) -> (r: &Vec<u8>)
        requires
            self.ready(),
        ensures
            r@ == values(self.log(), false),
    {
        &self.bypass
    }
}

impl CabacWriter for CabacRecorder {
    closed spec fn log(&self) -> Seq<interval::Symbol> {
        self.written@
    }

    closed spec fn ready(&self) -> bool {
        &&& self.regular@ == values(self.written@, true)
        &&& self.bypass@ == values(self.written@, false)
    }

    fn encode_bin(&mut self, bin_val: u8, ctx: &mut CtxModel) {
        proof {
            let s = ctx.symbol(bin_val % 2 == 1);
            assert(self.written@.push(s).drop_last() =~= self.written@);
            self.written@ = self.written@.push(s);
        }
        self.regular.push(bin_val % 2);
        ctx.update(bin_val);
    }

    fn encode_bypass(&mut self, bin_val: u8) {
        proof {
            let s = engine::bypass(bin_val != 0);
            assert(self.written@.push(s).drop_last() =~= self.written@);
            self.written@ = self.written@.push(s);
        }
        self.bypass.push(
            if bin_val != 0 {
                1
            } else {
                0
            },
        );
    }
}

} // verus!
