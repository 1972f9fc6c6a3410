//! Partial search paths and the simulated cost of walking a pair sequence.

use vstd::prelude::*;
use crate::cache::{
    access_cost, access_state, lemma_access_cost_bounds, lemma_first_access_free,
    lemma_repeat_access_free, CacheEntries, CacheModel, MAX_ACCESS_COST,
};
use crate::{Cost, Entry, FeedPair, Path};

verus! {

/// Largest cost one feed pair (two accesses) can add to a path.
pub const MAX_PAIR_COST: Cost = 60;

/// Cost of simulating both accesses of `p` against recency state `s`.
pub open spec fn pair_cost(m: CacheModel, s: Seq<Entry>, p: FeedPair) -> int {
    access_cost(m, s, p.0) + access_cost(m, access_state(s, p.0), p.1)
}

/// Recency state after simulating both accesses of `p`.
pub open spec fn pair_state(s: Seq<Entry>, p: FeedPair) -> Seq<Entry> {
    access_state(access_state(s, p.0), p.1)
}

/// Total simulated cost of walking `path` from an empty recency state.
pub open spec fn run_cost(m: CacheModel, path: Seq<FeedPair>) -> int
    decreases path.len(),
{
    if path.len() == 0 {
        0
    } else {
        run_cost(m, path.drop_last()) + pair_cost(m, run_state(path.drop_last()), path.last())
    }
}

/// Recency state after walking `path` from an empty recency state.
pub open spec fn run_state(path: Seq<FeedPair>) -> Seq<Entry>
    decreases path.len(),
{
    if path.len() == 0 {
        Seq::empty()
    } else {
        pair_state(run_state(path.drop_last()), path.last())
    }
}

/// Unrolling `run_cost` and `run_state` over a pushed step.
pub proof fn lemma_run_push(m: CacheModel, path: Seq<FeedPair>, q: FeedPair)
    ensures
        run_cost(m, path.push(q)) == run_cost(m, path) + pair_cost(m, run_state(path), q),
        run_state(path.push(q)) == pair_state(run_state(path), q),
{
    assert(path.push(q).drop_last() =~= path);
    assert(path.push(q).last() == q);
}

/// One pair costs between 0 and `MAX_PAIR_COST`.
pub proof fn lemma_pair_cost_bounds(m: CacheModel, s: Seq<Entry>, p: FeedPair)
    ensures
        0 <= pair_cost(m, s, p) <= MAX_PAIR_COST,
{
    lemma_access_cost_bounds(m, s, p.0);
    lemma_access_cost_bounds(m, access_state(s, p.0), p.1);
    assert(2 * MAX_ACCESS_COST == MAX_PAIR_COST);
}

/// Walking a prefix never costs more than walking the whole path: every
/// pair's cost is non-negative, so cost is monotone in path extension.
pub proof fn lemma_run_cost_prefix(m: CacheModel, w: Seq<FeedPair>, k: int)
    requires
        0 <= k <= w.len(),
    ensures
        run_cost(m, w.subrange(0, k)) <= run_cost(m, w),
    decreases w.len(),
{
    if k == w.len() {
        assert(w.subrange(0, k) =~= w);
    } else {
        lemma_run_cost_prefix(m, w.drop_last(), k);
        assert(w.drop_last().subrange(0, k) =~= w.subrange(0, k));
        lemma_pair_cost_bounds(m, run_state(w.drop_last()), w.last());
    }
}

/// A path's simulated cost is non-negative and at most `MAX_PAIR_COST` per
/// step.
pub proof fn lemma_run_cost_bounds(m: CacheModel, path: Seq<FeedPair>)
    ensures
        0 <= run_cost(m, path) <= MAX_PAIR_COST * path.len(),
    decreases path.len(),
{
    if path.len() == 0 {
    } else {
        lemma_run_cost_bounds(m, path.drop_last());
        lemma_pair_cost_bounds(m, run_state(path.drop_last()), path.last());
    }
}

/// One node of the search tree: a path prefix with the recency state and
/// cost accumulated by walking it. Nodes are never mutated once another
/// node has branched from them; branching copies the state.
pub struct PartialPath {
    /// The steps taken so far.
    pub path: Path,
    /// Recency state after simulating every step of `path`.
    pub cache_entries: CacheEntries,
    /// Total simulated cost of `path`.
    pub cost_so_far: Cost,
}

impl PartialPath {
    /// The node's fields agree with the simulation of its path under `m`.
    pub open spec fn wf(self, m: CacheModel) -> bool {
        &&& self.path@.len() >= 1
        &&& self.cost_so_far as int == run_cost(m, self.path@)
        &&& self.cache_entries@ == run_state(self.path@)
    }

    /// Start a path at `start`. Both accesses of the starting pair hit an
    /// empty cache, so they are free and the node starts at cost 0.
    pub fn new(cache_model: &CacheModel, start: FeedPair) -> (r: Self)
        requires
            cache_model.l1_entries >= 1,
        ensures
            r.wf(*cache_model),
            r.path@ == seq![start],
            r.cost_so_far == 0,
    {
        let mut path: Path = Vec::new();
        path.push(start);
        let mut cache_entries = cache_model.start_simulation();
        let c0 = cache_model.simulate_access(&mut cache_entries, start.0);
        proof {
            lemma_first_access_free(*cache_model, Seq::<Entry>::empty(), start.0);
        }
        let c1 = cache_model.simulate_access(&mut cache_entries, start.1);
        proof {
            let s1 = access_state(Seq::<Entry>::empty(), start.0);
            assert(s1 =~= Seq::<Entry>::empty().push(start.0));
            if start.1 == start.0 {
                lemma_repeat_access_free(*cache_model, s1, start.1);
            } else {
                lemma_first_access_free(*cache_model, s1, start.1);
            }
            assert(seq![start].drop_last() =~= Seq::<FeedPair>::empty());
            assert(run_cost(*cache_model, Seq::<FeedPair>::empty()) == 0);
            assert(run_state(Seq::<FeedPair>::empty()) == Seq::<Entry>::empty());
            assert(seq![start].last() == start);
            assert(run_cost(*cache_model, seq![start]) == 0);
            assert(run_state(seq![start]) == pair_state(Seq::<Entry>::empty(), start));
        }
        PartialPath { path, cache_entries, cost_so_far: 0 }
    }

    /// How many steps the path holds.
    pub fn len(&self) -> (l: usize)
        ensures
            l == self.path@.len(),
    {
        self.path.len()
    }

    /// The most recently appended pair.
    pub fn last_step(&self) -> (p: FeedPair)
        requires
            self.path@.len() >= 1,
        ensures
            p == self.path@.last(),
    {
        self.path[self.path.len() - 1]
    }

    /// The steps of the path, most recent first.
    pub fn iter_rev(&self) -> (r: Vec<FeedPair>)
        ensures
            r@.len() == self.path@.len(),
            forall|i: int|
                0 <= i < r@.len() ==> #[trigger] r@[i] == self.path@[self.path@.len() - 1 - i],
    {
        let mut r: Vec<FeedPair> = Vec::new();
        let mut i: usize = self.path.len();
        while i > 0
            invariant
                i <= self.path@.len(),
                r@.len() == self.path@.len() - i,
                forall|k: int|
                    0 <= k < r@.len() ==> #[trigger] r@[k] == self.path@[self.path@.len() - 1 - k],
            decreases i,
        {
            i = i - 1;
            r.push(self.path[i]);
        }
        r
    }

    /// Whether the path already went through `pair`.
    pub fn contains(&self, pair: &FeedPair) -> (b: bool)
        ensures
            b == self.path@.contains(*pair),
    {
        let mut i: usize = 0;
        while i < self.path.len()
            invariant
                i <= self.path@.len(),
                forall|j: int| 0 <= j < i ==> self.path@[j] != *pair,
            decreases self.path@.len() - i,
        {
            let step = self.path[i];
            if step.0 == pair.0 && step.1 == pair.1 {
                assert(self.path@[i as int] == *pair);
                return true;
            }
            i = i + 1;
        }
        false
    }

    /// Accumulated simulated cost of the path so far.
    pub fn cost_so_far(&self) -> (c: Cost)
        ensures
            c == self.cost_so_far,
    {
        self.cost_so_far
    }

    /// Hypothetically extend the path by `next_step`: report the cost and
    /// recency state the extended path would have, without touching `self`.
    /// The reported cost never falls below the accumulated cost.
    pub fn evaluate_next_step(&self, cache_model: &CacheModel, next_step: &FeedPair) -> (r: (
        Cost,
        CacheEntries,
    ))
        requires
            self.wf(*cache_model),
            MAX_PAIR_COST * (self.path@.len() + 1) <= u64::MAX,
        ensures
            r.0 as int == run_cost(*cache_model, self.path@.push(*next_step)),
            r.1@ == run_state(self.path@.push(*next_step)),
            self.cost_so_far <= r.0 <= self.cost_so_far + MAX_PAIR_COST,
    {
        let mut next_cache = copy_entries(&self.cache_entries);
        proof {
            lemma_run_cost_bounds(*cache_model, self.path@);
            lemma_pair_cost_bounds(*cache_model, self.cache_entries@, *next_step);
        }
        let c0 = cache_model.simulate_access(&mut next_cache, next_step.0);
        let c1 = cache_model.simulate_access(&mut next_cache, next_step.1);
        proof {
            lemma_run_push(*cache_model, self.path@, *next_step);
        }
        (self.cost_so_far + c0 + c1, next_cache)
    }

    /// Branch: a brand-new node whose path is this one's plus `next_step`,
    /// with the cost and recency state previously computed by
    /// `evaluate_next_step`.
    pub fn commit_next_step(
        &self,
        next_step: FeedPair,
        next_cost: Cost,
        next_entries: CacheEntries,
    ) -> (r: Self)
        ensures
            r.path@ == self.path@.push(next_step),
            r.cost_so_far == next_cost,
            r.cache_entries == next_entries,
    {
        let mut next_path = copy_pairs(&self.path);
        next_path.push(next_step);
        PartialPath { path: next_path, cache_entries: next_entries, cost_so_far: next_cost }
    }

    /// The completed path: this node's steps plus one final step.
    pub fn finish_path(&self, last_step: FeedPair) -> (r: Path)
        ensures
            r@ == self.path@.push(last_step),
    {
        let mut final_path = copy_pairs(&self.path);
        final_path.push(last_step);
        final_path
    }
}

/// Total simulated cost of an externally supplied access order, walked from
/// an empty recency state. This is the standalone scorer for comparing
/// fixed iteration schemes against the search's result.
pub fn order_cost(cache_model: &CacheModel, order: &Vec<FeedPair>) -> (c: Cost)
    requires
        MAX_PAIR_COST * order@.len() <= u64::MAX,
    ensures
        c as int == run_cost(*cache_model, order@),
{
    let mut entries = cache_model.start_simulation();
    let mut total: Cost = 0;
    let mut i: usize = 0;
    proof {
        assert(order@.subrange(0, 0) =~= Seq::<FeedPair>::empty());
    }
    while i < order.len()
        invariant
            i <= order@.len(),
            MAX_PAIR_COST * order@.len() <= u64::MAX,
            total as int == run_cost(*cache_model, order@.subrange(0, i as int)),
            entries@ == run_state(order@.subrange(0, i as int)),
        decreases order@.len() - i,
    {
        let step = order[i];
        proof {
            lemma_run_cost_bounds(*cache_model, order@.subrange(0, i as int));
            lemma_pair_cost_bounds(
                *cache_model,
                run_state(order@.subrange(0, i as int)),
                step,
            );
            assert(MAX_PAIR_COST * (i as int) + MAX_PAIR_COST <= MAX_PAIR_COST * order@.len())
                by (nonlinear_arith)
                requires 0 <= i < order@.len();
        }
        let c0 = cache_model.simulate_access(&mut entries, step.0);
        let c1 = cache_model.simulate_access(&mut entries, step.1);
        total = total + c0 + c1;
        proof {
            lemma_run_push(*cache_model, order@.subrange(0, i as int), step);
            assert(order@.subrange(0, i as int).push(step) =~= order@.subrange(0, i as int + 1));
        }
        i = i + 1;
    }
    proof {
        assert(order@.subrange(0, order@.len() as int) =~= order@);
    }
    total
}

/// Element-for-element copy of a recency state.
fn copy_entries(v: &Vec<Entry>) -> (r: Vec<Entry>)
    ensures
        r@ == v@,
{
    let mut r: Vec<Entry> = Vec::new();
    let mut i: usize = 0;
    while i < v.len()
        invariant
            i <= v@.len(),
            r@ == v@.subrange(0, i as int),
        decreases v@.len() - i,
    {
        r.push(v[i]);
        proof {
            assert(v@.subrange(0, i as int).push(v@[i as int]) =~= v@.subrange(0, i as int + 1));
        }
        i = i + 1;
    }
    proof {
        assert(v@.subrange(0, v@.len() as int) =~= v@);
    }
    r
}

/// Element-for-element copy of a pair sequence.
fn copy_pairs(v: &Vec<FeedPair>) -> (r: Vec<FeedPair>)
    ensures
        r@ == v@,
{
    let mut r: Vec<FeedPair> = Vec::new();
    let mut i: usize = 0;
    while i < v.len()
        invariant
            i <= v@.len(),
            r@ == v@.subrange(0, i as int),
        decreases v@.len() - i,
    {
        r.push(v[i]);
        proof {
            assert(v@.subrange(0, i as int).push(v@[i as int]) =~= v@.subrange(0, i as int + 1));
        }
        i = i + 1;
    }
    proof {
        assert(v@.subrange(0, v@.len() as int) =~= v@);
    }
    r
}

} // verus!
