//! A tiny HEVC still-picture encoder core.
use vstd::prelude::*;

pub mod activity;
pub mod agreement;
pub mod activitylaw;
pub mod arith;
pub mod basis;
pub mod bitseq;
pub mod bitwriter;
pub mod blockhash;
pub mod butterfly;
pub mod cabac;
pub mod candidates;
pub mod canvas;
pub mod choicelaw;
pub mod color;
pub mod commit;
pub mod copylaw;
pub mod cost;
pub mod costlaw;
pub mod ctu;
pub mod cu;
pub mod cumaps;
pub mod cuplan;
pub mod cuqp;
pub mod cusyntax;
pub mod dct;
pub mod deblock;
pub mod edgefilter;
pub mod error;
pub mod evenfilter;
pub mod exactness;
pub mod filterlaw;
pub mod fmt;
pub mod frame;
pub mod framelaw;
pub mod gridsum;
pub mod hashlist;
pub mod ibc;
pub mod independence;
pub mod intra;
pub mod locality;
pub mod lossless;
pub mod listlaw;
pub mod losslaw;
pub mod losstree;
pub mod modes;
pub mod nal;
pub mod nxn;
pub mod order;
pub mod params;
pub mod picture;
pub mod planes;
pub mod predlaw;
pub mod quant;
pub mod quantlaw;
pub mod rdoq;
pub mod rdpcm;
pub mod refs;
pub mod region;
pub mod runs;
pub mod scan;
pub mod scratch;
pub mod setreader;
pub mod settinglaw;
pub mod shortlist;
pub mod signhide;
pub mod signlaw;
pub mod slice;
pub mod split;
pub mod splitlaw;
pub mod strip;
pub mod tablelaw;
pub mod tb;
pub mod tiles;
pub mod transform;
pub mod transform2d;
pub mod transformlaw;
pub mod trial;
pub mod tusyntax;
pub mod unitsync;

verus! {

}
