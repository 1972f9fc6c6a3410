//! Multi-tier cache cost model over a recency list.
//!
//! The model charges each simulated access according to how many distinct
//! accesses happened since the entry was last touched (its age): free while
//! the age fits in tier 1, and increasingly expensive for the outer tiers.
//! The recency list only grows; it is a cost model, not a literal cache.

use vstd::prelude::*;
use vstd::arithmetic::div_mod::lemma_div_is_ordered;
use crate::{Cost, Entry};

verus! {

/// Capacity of cache tier 1, in bytes.
pub const L1_CAPACITY: usize = 32 * 1024;

/// Capacity of cache tier 2, in bytes.
pub const L2_CAPACITY: usize = 512 * 1024;

/// Capacity of cache tier 3, in bytes.
pub const L3_CAPACITY: usize = 32 * 1024 * 1024;

/// Cost of an access that misses tier 1 and is served by tier 2: exactly
/// the tier-1 miss latency, so 1 in units of that latency (2 / 2).
pub const L1_MISS_RELATIVE_COST: Cost = 1;

/// Cost of an access served by tier 3: the tier-2 to tier-1 miss latency
/// ratio, 10 / 2.
pub const L2_MISS_RELATIVE_COST: Cost = 5;

/// Cost of an access served by main memory: the tier-3 to tier-1 miss
/// latency ratio, 60 / 2.
pub const L3_MISS_RELATIVE_COST: Cost = 30;

/// Largest cost a single simulated access can have.
pub const MAX_ACCESS_COST: Cost = 30;

/// Recency list of simulated accesses, most recently accessed entry last.
pub type CacheEntries = Vec<Entry>;

/// Position of the most recent (rightmost) occurrence of `e` in `s`,
/// or -1 when `e` never occurs.
pub open spec fn last_pos(s: Seq<Entry>, e: Entry) -> int
    decreases s.len(),
{
    if s.len() == 0 {
        -1
    } else if s.last() == e {
        s.len() - 1
    } else {
        last_pos(s.drop_last(), e)
    }
}

/// `last_pos` indeed points at the rightmost occurrence.
pub proof fn lemma_last_pos_props(s: Seq<Entry>, e: Entry)
    ensures
        last_pos(s, e) >= 0 ==> last_pos(s, e) < s.len() && s[last_pos(s, e)] == e,
        last_pos(s, e) < 0 ==> last_pos(s, e) == -1,
        forall|j: int| last_pos(s, e) < j < s.len() ==> s[j] != e,
    decreases s.len(),
{
    if s.len() == 0 {
    } else if s.last() == e {
    } else {
        lemma_last_pos_props(s.drop_last(), e);
        assert forall|j: int| last_pos(s, e) < j < s.len() implies s[j] != e by {
            if j < s.len() - 1 {
                assert(s.drop_last()[j] == s[j]);
            }
        }
    }
}

/// If `s[i] == e` and nothing to the right of `i` is `e`, then `i` is the
/// rightmost occurrence.
pub proof fn lemma_last_pos_is(s: Seq<Entry>, e: Entry, i: int)
    requires
        0 <= i < s.len(),
        s[i] == e,
        forall|j: int| i < j < s.len() ==> s[j] != e,
    ensures
        last_pos(s, e) == i,
{
    lemma_last_pos_props(s, e);
    let lp = last_pos(s, e);
    if lp > i {
        assert(s[lp] == e);
        assert(false);
    } else if lp < i {
        assert(s[i] != e);
        assert(false);
    }
}

/// The cache cost model: tier capacities in entries.
pub struct CacheModel {
    /// Tier 1 capacity, in entries.
    pub l1_entries: usize,
    /// Tier 2 capacity, in entries.
    pub l2_entries: usize,
    /// Tier 3 capacity, in entries.
    pub l3_entries: usize,
}

/// Cost charged for an access whose entry was last touched `age` distinct
/// recency slots ago (0 = touched last time too).
pub open spec fn tier_cost(m: CacheModel, age: int) -> int {
    if age < m.l1_entries {
        0
    } else if age < m.l2_entries {
        L1_MISS_RELATIVE_COST as int
    } else if age < m.l3_entries {
        L2_MISS_RELATIVE_COST as int
    } else {
        L3_MISS_RELATIVE_COST as int
    }
}

/// Cost of simulating one access to `e` against recency state `s`:
/// free on a first touch, else priced by the age of the last occurrence.
pub open spec fn access_cost(m: CacheModel, s: Seq<Entry>, e: Entry) -> int {
    if last_pos(s, e) >= 0 {
        tier_cost(m, s.len() - 1 - last_pos(s, e))
    } else {
        0
    }
}

/// Recency state after simulating one access to `e`: the entry moves to
/// (or is appended at) the most-recently-used tail position.
pub open spec fn access_state(s: Seq<Entry>, e: Entry) -> Seq<Entry> {
    if last_pos(s, e) >= 0 {
        s.remove(last_pos(s, e)).push(e)
    } else {
        s.push(e)
    }
}

/// A single access never costs more than a main-memory access.
pub proof fn lemma_access_cost_bounds(m: CacheModel, s: Seq<Entry>, e: Entry)
    ensures
        0 <= access_cost(m, s, e) <= MAX_ACCESS_COST,
{
}

/// The first-ever simulated access to an entry is never charged.
pub proof fn lemma_first_access_free(m: CacheModel, s: Seq<Entry>, e: Entry)
    requires
        forall|j: int| 0 <= j < s.len() ==> s[j] != e,
    ensures
        access_cost(m, s, e) == 0,
{
    lemma_last_pos_props(s, e);
}

/// Repeating the most recent access costs nothing whenever at least one
/// entry fits in tier 1.
pub proof fn lemma_repeat_access_free(m: CacheModel, s: Seq<Entry>, e: Entry)
    requires
        m.l1_entries >= 1,
        s.len() > 0,
        s.last() == e,
    ensures
        access_cost(m, s, e) == 0,
{
}

impl CacheModel {
    /// Tier capacities do not shrink from tier 1 to tier 3.
    pub open spec fn wf(self) -> bool {
        self.l1_entries <= self.l2_entries <= self.l3_entries
    }

    /// The model that `new` derives from a given entry size.
    pub open spec fn model_for(entry_size: usize) -> CacheModel
        recommends
            entry_size >= 1,
    {
        CacheModel {
            l1_entries: L1_CAPACITY / entry_size,
            l2_entries: L2_CAPACITY / entry_size,
            l3_entries: L3_CAPACITY / entry_size,
        }
    }

    /// Set up a cache model for entries of `entry_size` bytes.
    pub fn new(entry_size: usize) -> (m: Self)
        requires
            entry_size >= 1,
        ensures
            m == CacheModel::model_for(entry_size),
            m.wf(),
    {
        let m = CacheModel {
            l1_entries: L1_CAPACITY / entry_size,
            l2_entries: L2_CAPACITY / entry_size,
            l3_entries: L3_CAPACITY / entry_size,
        };
        proof {
            lemma_div_is_ordered(L1_CAPACITY as int, L2_CAPACITY as int, entry_size as int);
            lemma_div_is_ordered(L2_CAPACITY as int, L3_CAPACITY as int, entry_size as int);
        }
        m
    }

    /// Fresh, empty recency state for a new simulation.
    pub fn start_simulation(&self) -> (s: CacheEntries)
        ensures
            s@ == Seq::<Entry>::empty(),
    {
        Vec::new()
    }

    /// Cost of an access at a given age, per the tier thresholds.
    fn cost_model(&self, age: usize) -> (c: Cost)
        ensures
            c as int == tier_cost(*self, age as int),
            c <= MAX_ACCESS_COST,
    {
        if age < self.l1_entries {
            0
        } else if age < self.l2_entries {
            L1_MISS_RELATIVE_COST
        } else if age < self.l3_entries {
            L2_MISS_RELATIVE_COST
        } else {
            L3_MISS_RELATIVE_COST
        }
    }

    /// Simulate one access to `entry`: report its cost and move it to the
    /// most-recently-used position of `entries`.
    pub fn simulate_access(&self, entries: &mut CacheEntries, entry: Entry) -> (c: Cost)
        ensures
            c as int == access_cost(*self, old(entries)@, entry),
            final(entries)@ == access_state(old(entries)@, entry),
            c <= MAX_ACCESS_COST,
    {
        match find_last(entries, entry) {
            Some(pos) => {
                let age = entries.len() - 1 - pos;
                let c = self.cost_model(age);
                let _ = entries.remove(pos);
                entries.push(entry);
                c
            },
            None => {
                entries.push(entry);
                0
            },
        }
    }
}

/// Index of the rightmost occurrence of `e` in `v`, if any.
fn find_last(v: &Vec<Entry>, e: Entry) -> (r: Option<usize>)
    ensures
        match r {
            Some(p) => p < v@.len() && p as int == last_pos(v@, e),
            None => last_pos(v@, e) == -1,
        },
{
    let mut i: usize = v.len();
    while i > 0
        invariant
            i <= v@.len(),
            forall|j: int| i <= j < v@.len() ==> v@[j] != e,
        decreases i,
    {
        i = i - 1;
        if v[i] == e {
            proof {
                lemma_last_pos_is(v@, e, i as int);
            }
            return Some(i);
        }
    }
    proof {
        lemma_last_pos_props(v@, e);
    }
    None
}

} // verus!
