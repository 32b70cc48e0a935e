//! Population-weighted facility location over a fixed set of geographic
//! regions (counties).
//!
//! The library is the decision core of the search: candidate enumeration
//! over region subsets, the pairwise-distance cache, nearest-location
//! selection, the minimum-cost reduction, and the population tally for a
//! fixed set of anchor locations.
//!
//! Distances and costs are carried as the bit patterns (`u64`) of
//! non-negative IEEE-754 doubles. For such values the unsigned order of the
//! bit patterns coincides with the numeric order, so every comparison the
//! search makes is an exact integer comparison here, while the caller keeps
//! the floating-point arithmetic (the haversine formula, squaring, summing)
//! outside and hands in the resulting bit patterns.

use vstd::prelude::*;

pub mod cache;
pub mod combinations;
pub mod county;
pub mod search;
pub mod tally;

verus! {

/// Bit pattern of the IEEE-754 double `+infinity`: the sentinel cost, larger
/// in the unsigned order than the bit pattern of every non-negative finite
/// double.
pub const COST_INFINITY: u64 = 0x7ff0_0000_0000_0000;

} // verus!
