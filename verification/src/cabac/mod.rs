//! Context-adaptive binary arithmetic coding.
pub mod binreader;
pub mod bins;
pub mod coder;
pub mod contexts;
pub mod engine;
pub mod faithful;
pub mod interval;
pub mod levelrate;
pub mod levelstate;
pub mod rate;
pub mod ratelaw;
pub mod recorder;
pub mod residual;
pub mod single;
