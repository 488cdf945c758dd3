//! A raffle that sells the tokens of a fixed collection in random order, and
//! the royalty rules that split the proceeds of later sales.
//!
//! `raffle` draws token ids without replacement; `royalty` validates royalty
//! configurations and computes payouts; `buy` prices a purchase; `util`
//! turns a random seed into a number in range.
use vstd::prelude::*;

pub mod buy;
pub mod error;
pub mod raffle;
pub mod royalty;
pub mod util;

verus! {

} // verus!
