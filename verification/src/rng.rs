//! Tiebreak draws taken from the thread-local random generator.

use vstd::prelude::*;
use crate::frontier::TieBreak;

verus! {

#[verifier::external_type_specification]
#[verifier::external_body]
pub struct ExThreadRng(rand::rngs::ThreadRng);

/// Relies on rand::thread_rng: returns a handle to the lazily seeded
/// thread-local generator. Nothing is promised of the values it yields.
#[verifier::external_body]
fn fresh_thread_rng() -> rand::rngs::ThreadRng {
    rand::thread_rng()
}

/// Relies on rand::Rng::gen_range over `0..n`: returns a value of the
/// half-open range, so below `n`; it panics only on an empty range, which
/// the precondition excludes.
#[verifier::external_body]
fn gen_index_below(rng: &mut rand::rngs::ThreadRng, n: usize) -> (r: usize)
    requires
        n >= 1,
    ensures
        r < n,
{
    rand::Rng::gen_range(rng, 0..n)
}

/// Tiebreaker drawing uniformly from the thread-local generator, as the
/// default search entry point does.
pub struct ThreadRngTieBreak {
    rng: rand::rngs::ThreadRng,
}

impl ThreadRngTieBreak {
    /// A tiebreaker over a fresh handle to the thread-local generator.
    pub fn new() -> (t: Self) {
        ThreadRngTieBreak { rng: fresh_thread_rng() }
    }
}

impl TieBreak for ThreadRngTieBreak {
    fn pick(&mut self, n: usize) -> usize {
        if n == 0 {
            0
        } else {
            gen_index_below(&mut self.rng, n)
        }
    }
}

} // verus!
