//! filesync: cheaply and reliably mirror one directory onto another.
use vstd::prelude::*;

pub mod accounts;
pub mod apply;
pub mod artifacts;
pub mod bench;
pub mod calendar;
pub mod classification;
pub mod cli;
pub mod collect;
pub mod conclusions;
pub mod conclusions_text;
pub mod device;
pub mod diff;
pub mod disk;
pub mod durability;
pub mod hash;
pub mod links;
pub mod listing;
pub mod manifest;
pub mod mirror;
pub mod moves;
pub mod number;
pub mod order;
pub mod oserror;
pub mod paths;
pub mod plan;
pub mod preflight;
pub mod progress;
pub mod reports;
pub mod runtime;
pub mod scan;
pub mod spelling;
pub mod sync;
pub mod tally;
pub mod target;
pub mod text;
pub mod units;

verus! {

} // verus!
