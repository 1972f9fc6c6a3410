//! Priority frontier of partial paths, popped with a randomized tiebreak.
//!
//! The frontier favors long, cheap paths: seeing paths through to the end
//! tightens the pruning bound early, while cheap paths mark promising
//! regions. Ties are broken by an injectable random source so that tests
//! can fix the sequence; the random draw only steers exploration order,
//! never the search's outcome.

use vstd::prelude::*;
use crate::path::{PartialPath, MAX_PAIR_COST};

verus! {

/// Longest path for which a priority is computed without overflow.
pub const MAX_PRIORITY_LEN: usize = 0x4000_0000;

/// Source of tiebreak draws. `pick(n)` is expected to return an index below
/// `n`; the frontier guards against misbehaving sources, so the trait
/// carries no contract and any implementation is safe to plug in.
pub trait TieBreak {
    /// Pick an index used to break a tie among `n` equally good nodes.
    fn pick(&mut self, n: usize) -> usize;
}

/// Deterministic xorshift tiebreaker, seeded explicitly. With the same seed
/// it always produces the same draws, which lets tests fix the exploration
/// order.
pub struct XorShiftTieBreak {
    /// Current generator state; never zero.
    pub state: u64,
}

impl XorShiftTieBreak {
    /// A tiebreaker seeded with `seed` (a zero seed is replaced, since the
    /// all-zero state is a fixed point of the xorshift step).
    pub fn new(seed: u64) -> (t: Self)
        ensures
            t.state != 0,
    {
        let state = if seed == 0 {
            0x9E3779B97F4A7C15u64
        } else {
            seed
        };
        XorShiftTieBreak { state }
    }
}

impl TieBreak for XorShiftTieBreak {
    fn pick(&mut self, n: usize) -> usize {
        let mut x = self.state;
        x = x ^ (x << 13);
        x = x ^ (x >> 7);
        x = x ^ (x << 17);
        self.state = x;
        if n == 0 {
            0
        } else {
            (x % (n as u64)) as usize
        }
    }
}

/// Rounded priority of a node: `round(1.3 len - cost)`, computed exactly
/// over tenths, rounding halves away from zero.
pub open spec fn prio_spec(p: PartialPath) -> int {
    round_tenths(13 * p.path@.len() - 10 * p.cost_so_far)
}

/// Round `t` tenths to the nearest whole, halves away from zero.
pub open spec fn round_tenths(t: int) -> int {
    if t >= 0 {
        (t + 5) / 10
    } else {
        -((5 - t) / 10)
    }
}

/// The node's length and cost are small enough to compute its priority.
pub open spec fn prio_safe(p: PartialPath) -> bool {
    &&& p.path@.len() <= MAX_PRIORITY_LEN
    &&& p.cost_so_far <= MAX_PAIR_COST * p.path@.len()
}

/// The not-yet-resolved partial paths of a search, ordered by priority.
pub struct PartialPaths {
    /// The stored nodes, in no particular order.
    pub nodes: Vec<PartialPath>,
}

impl PartialPaths {
    /// Create an empty frontier.
    pub fn new() -> (s: Self)
        ensures
            s.nodes@.len() == 0,
    {
        PartialPaths { nodes: Vec::new() }
    }

    /// Priority of a path relative to others; higher is explored first.
    /// The length weight biases toward completing paths over pure greedy
    /// cost-first exploration.
    pub fn priorize(path: &PartialPath) -> (p: i64)
        requires
            prio_safe(*path),
        ensures
            p as int == prio_spec(*path),
    {
        let len13: u64 = 13 * (path.path.len() as u64);
        let cost10: u64 = 10 * path.cost_so_far;
        if len13 >= cost10 {
            let d = len13 - cost10;
            ((d + 5) / 10) as i64
        } else {
            let d = cost10 - len13;
            -(((d + 5) / 10) as i64)
        }
    }

    /// How many paths are waiting.
    pub fn len(&self) -> (l: usize)
        ensures
            l == self.nodes@.len(),
    {
        self.nodes.len()
    }

    /// Record a new partial path.
    pub fn push(&mut self, path: PartialPath)
        ensures
            final(self).nodes@ == old(self).nodes@.push(path),
    {
        self.nodes.push(path);
    }

    /// Extract one of the highest-priority paths, breaking ties through
    /// `tie`; `None` exactly when the frontier is empty.
    pub fn pop<T: TieBreak>(&mut self, tie: &mut T) -> (r: Option<PartialPath>)
        requires
            forall|i: int|
                0 <= i < old(self).nodes@.len() ==> prio_safe(#[trigger] old(self).nodes@[i]),
        ensures
            match r {
                Option::None => old(self).nodes@.len() == 0
                    && final(self).nodes@ == old(self).nodes@,
                Option::Some(p) => {
                    &&& old(self).nodes@.len() > 0
                    &&& exists|i: int|
                        0 <= i < old(self).nodes@.len() && p == old(self).nodes@[i]
                            && final(self).nodes@ == old(self).nodes@.remove(i)
                    &&& forall|j: int|
                        0 <= j < old(self).nodes@.len() ==> prio_spec(
                            #[trigger] old(self).nodes@[j],
                        ) <= prio_spec(p)
                },
            },
    {
        let n = self.nodes.len();
        if n == 0 {
            return None;
        }
        let mut best: i64 = Self::priorize(&self.nodes[0]);
        let mut i: usize = 1;
        while i < n
            invariant
                self == old(self),
                n == self.nodes@.len(),
                1 <= i <= n,
                forall|j: int| 0 <= j < n ==> prio_safe(#[trigger] self.nodes@[j]),
                forall|j: int| 0 <= j < i ==> prio_spec(#[trigger] self.nodes@[j]) <= best,
                exists|j: int| 0 <= j < i && prio_spec(#[trigger] self.nodes@[j]) == best,
            decreases n - i,
        {
            let p = Self::priorize(&self.nodes[i]);
            if p > best {
                best = p;
            }
            i = i + 1;
        }
        let mut ties: Vec<usize> = Vec::new();
        let mut i: usize = 0;
        while i < n
            invariant
                self == old(self),
                n == self.nodes@.len(),
                i <= n,
                forall|j: int| 0 <= j < n ==> prio_safe(#[trigger] self.nodes@[j]),
                forall|j: int| 0 <= j < n ==> prio_spec(#[trigger] self.nodes@[j]) <= best,
                forall|t: int|
                    0 <= t < ties@.len() ==> (#[trigger] ties@[t]) < i && prio_spec(
                        self.nodes@[ties@[t] as int],
                    ) == best,
                (exists|j: int| 0 <= j < i && prio_spec(#[trigger] self.nodes@[j]) == best)
                    ==> ties@.len() >= 1,
            decreases n - i,
        {
            let p = Self::priorize(&self.nodes[i]);
            if p == best {
                ties.push(i);
            }
            i = i + 1;
        }
        assert(ties@.len() >= 1);
        let draw = tie.pick(ties.len());
        let t = if draw < ties.len() {
            draw
        } else {
            0
        };
        let idx = ties[t];
        let node = self.nodes.remove(idx);
        proof {
            let i0 = idx as int;
            assert(0 <= i0 < old(self).nodes@.len() && node == old(self).nodes@[i0]
                && self.nodes@ == old(self).nodes@.remove(i0));
        }
        Some(node)
    }
}

} // verus!
