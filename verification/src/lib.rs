//! Search for a cache-friendly ordering of feed-pair accesses.
//!
//! The library simulates a tiered memory hierarchy over a recency list and
//! runs a branch-and-bound search for a Hamiltonian traversal of the
//! triangular feed-pair domain that minimizes the simulated access cost.

use vstd::prelude::*;

pub mod cache;
pub mod domain;
pub mod frontier;
pub mod neighbors;
pub mod path;
pub mod rng;
pub mod search;

verus! {

/// Index of a feed, in `[0, num_feeds)`.
pub type FeedIdx = usize;

/// An entry tracked by the cache model; entries are feeds.
pub type Entry = FeedIdx;

/// Simulated access cost, in units of the tier-1 miss latency.
///
/// Every cost the model can produce is a whole number of such units, so
/// costs are exact integers here.
pub type Cost = u64;

/// An ordered pair of feeds `(a, b)` with `a <= b`: one unit of work.
pub type FeedPair = (FeedIdx, FeedIdx);

/// A sequence of feed pairs walked through the domain.
pub type Path = Vec<FeedPair>;

} // verus!
