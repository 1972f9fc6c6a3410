//! Branch-and-bound driver: find a traversal of the whole domain strictly
//! cheaper than a caller-supplied bound, provably optimal among all such
//! traversals.

use vstd::prelude::*;
use vstd::arithmetic::power::{lemma_pow1, lemma_pow_adds, lemma_pow_positive, pow};
use crate::cache::CacheModel;
use crate::domain::{
    complete_path, in_domain, lemma_full_coverage, lemma_tri_closed_form, lemma_valid_path_push,
    tri, valid_path, valid_step,
};
use crate::frontier::{prio_safe, PartialPaths, TieBreak, MAX_PRIORITY_LEN};
use crate::neighbors::NeighborTable;
use crate::path::{lemma_run_cost_bounds, lemma_run_cost_prefix, run_cost, PartialPath};
use crate::rng::ThreadRngTieBreak;
use crate::{Cost, FeedIdx, FeedPair, Path};

verus! {

/// Largest feed count the search accepts: keeps the neighbor table
/// addressable and every accumulated cost within the cost type.
pub const MAX_NUM_FEEDS: usize = 32768;

/// No complete traversal of the domain under the radius constraint has a
/// simulated cost below `c`.
pub open spec fn no_cheaper(n: int, r: int, m: CacheModel, c: int) -> bool {
    forall|w: Seq<FeedPair>| #[trigger] complete_path(n, r, w) ==> run_cost(m, w) >= c
}

/// What a search outcome promises. A returned path is a complete traversal
/// of the domain, its reported cost is exactly the simulated cost of
/// walking it, that cost beats the caller's bound strictly, and no complete
/// traversal is cheaper — so the result is optimal. A `None` means no
/// complete traversal beats the bound at all.
pub open spec fn search_result_ok(
    n: int,
    r: int,
    entry_size: usize,
    bound0: int,
    res: Option<(Cost, Path)>,
) -> bool {
    match res {
        Option::Some(cp) => {
            &&& complete_path(n, r, cp.1@)
            &&& (cp.0 as int) == run_cost(CacheModel::model_for(entry_size), cp.1@)
            &&& (cp.0 as int) < bound0
            &&& no_cheaper(n, r, CacheModel::model_for(entry_size), cp.0 as int)
        },
        Option::None => no_cheaper(n, r, CacheModel::model_for(entry_size), bound0),
    }
}

/// A frontier node mid-search: consistent with the cache model, a valid
/// partial traversal, and strictly shorter than a complete path.
pub open spec fn node_ok(n: int, r: int, m: CacheModel, plen: int, p: PartialPath) -> bool {
    &&& p.wf(m)
    &&& valid_path(n, r, p.path@)
    &&& 1 <= p.path@.len() < plen
}

/// Every node of the frontier is a live, valid partial traversal.
pub open spec fn frontier_ok(n: int, r: int, m: CacheModel, plen: int, s: Seq<PartialPath>) -> bool {
    forall|i: int| 0 <= i < s.len() ==> node_ok(n, r, m, plen, #[trigger] s[i])
}

/// The best result recorded so far: either nothing (bound untouched), or a
/// complete traversal whose exact cost tightened the bound.
pub open spec fn best_ok(
    n: int,
    r: int,
    m: CacheModel,
    bound0: int,
    best_cost: Cost,
    best_path: Seq<FeedPair>,
) -> bool {
    &&& best_cost as int <= bound0
    &&& (best_path.len() == 0 ==> best_cost as int == bound0)
    &&& (best_path.len() > 0 ==> complete_path(n, r, best_path) && best_cost as int == run_cost(
        m,
        best_path,
    ) && (best_cost as int) < bound0)
}

/// The node stands on a prefix of the traversal `w`.
pub open spec fn prefix_node(w: Seq<FeedPair>, p: PartialPath) -> bool {
    &&& p.path@.len() <= w.len()
    &&& p.path@ == w.subrange(0, p.path@.len() as int)
}

/// Exhaustiveness invariant of the search loop: every complete traversal
/// still cheaper than the bound `bc` has a frontier node standing on one of
/// its prefixes, so it can still be found.
pub open spec fn covers(n: int, r: int, m: CacheModel, bc: int, nodes: Seq<PartialPath>) -> bool {
    forall|w: Seq<FeedPair>|
        #[trigger] complete_path(n, r, w) && run_cost(m, w) < bc ==> exists|i: int|
            0 <= i < nodes.len() && prefix_node(w, #[trigger] nodes[i])
}

/// While the node `v` is being expanded: the traversal `w` extends `v` by
/// some neighbor not yet processed (index `from` or later).
spec fn pending(w: Seq<FeedPair>, v: PartialPath, neigh: Seq<FeedPair>, from: int) -> bool {
    &&& prefix_node(w, v)
    &&& v.path@.len() < w.len()
    &&& exists|jj: int| from <= jj < neigh.len() && neigh[jj] == w[v.path@.len() as int]
}

/// Mid-expansion form of `covers`: cheaper traversals are covered by the
/// frontier or wait on a not-yet-processed neighbor of `v`.
spec fn covers_or_pending(
    n: int,
    r: int,
    m: CacheModel,
    bc: int,
    nodes: Seq<PartialPath>,
    v: PartialPath,
    neigh: Seq<FeedPair>,
    from: int,
) -> bool {
    forall|w: Seq<FeedPair>|
        #[trigger] complete_path(n, r, w) && run_cost(m, w) < bc ==> (exists|i: int|
            0 <= i < nodes.len() && prefix_node(w, #[trigger] nodes[i])) || pending(
            w,
            v,
            neigh,
            from,
        )
}

/// A node holding exactly the one-step path `[p]` is in the frontier.
spec fn seeded(nodes: Seq<PartialPath>, p: FeedPair) -> bool {
    exists|i: int| 0 <= i < nodes.len() && (#[trigger] nodes[i]).path@ == seq![p]
}

/// Termination potential of one node: shrinks geometrically as its path
/// approaches completion.
spec fn node_pot(plen: int, base: int, p: PartialPath) -> int {
    pow(base, (plen - p.path@.len()) as nat)
}

/// Termination potential of the whole frontier.
spec fn frontier_pot(plen: int, base: int, s: Seq<PartialPath>) -> int
    decreases s.len(),
{
    if s.len() == 0 {
        0
    } else {
        frontier_pot(plen, base, s.drop_last()) + node_pot(plen, base, s.last())
    }
}

proof fn lemma_pot_nonneg(plen: int, base: int, s: Seq<PartialPath>)
    requires
        base >= 1,
    ensures
        frontier_pot(plen, base, s) >= 0,
    decreases s.len(),
{
    if s.len() == 0 {
    } else {
        lemma_pot_nonneg(plen, base, s.drop_last());
        lemma_pow_positive(base, (plen - s.last().path@.len()) as nat);
    }
}

proof fn lemma_pot_push(plen: int, base: int, s: Seq<PartialPath>, p: PartialPath)
    ensures
        frontier_pot(plen, base, s.push(p)) == frontier_pot(plen, base, s) + node_pot(
            plen,
            base,
            p,
        ),
{
    assert(s.push(p).drop_last() =~= s);
    assert(s.push(p).last() == p);
}

proof fn lemma_pot_remove(plen: int, base: int, s: Seq<PartialPath>, i: int)
    requires
        0 <= i < s.len(),
    ensures
        frontier_pot(plen, base, s.remove(i)) == frontier_pot(plen, base, s) - node_pot(
            plen,
            base,
            s[i],
        ),
    decreases s.len(),
{
    if i == s.len() - 1 {
        assert(s.remove(i) =~= s.drop_last());
    } else {
        assert(s.remove(i).drop_last() =~= s.drop_last().remove(i));
        assert(s.remove(i).last() == s.last());
        lemma_pot_remove(plen, base, s.drop_last(), i);
        assert(s.drop_last()[i] == s[i]);
    }
}

/// Full seeding establishes coverage: every complete traversal starts at
/// some seeded domain point.
proof fn lemma_covers_seeds(
    n: int,
    r: int,
    m: CacheModel,
    plen: int,
    bc: int,
    nodes: Seq<PartialPath>,
)
    requires
        plen == tri(n),
        plen >= 1,
        forall|p: FeedPair| in_domain(n, p) ==> seeded(nodes, p),
    ensures
        covers(n, r, m, bc, nodes),
{
    assert forall|w: Seq<FeedPair>|
        #[trigger] complete_path(n, r, w) && run_cost(m, w) < bc implies exists|i: int|
        0 <= i < nodes.len() && prefix_node(w, #[trigger] nodes[i]) by {
        assert(w.len() == tri(n));
        assert(in_domain(n, w[0]));
        assert(seeded(nodes, w[0]));
        let i = choose|i: int| 0 <= i < nodes.len() && nodes[i].path@ == seq![w[0]];
        assert(w.subrange(0, 1) =~= seq![w[0]]);
        assert(prefix_node(w, nodes[i]));
    }
}

/// Popping a node hands every traversal it covered over to one of its
/// neighbors (or to another covering node of the frontier).
proof fn lemma_covers_handoff(
    n: int,
    r: int,
    m: CacheModel,
    plen: int,
    bc: int,
    nodes0: Seq<PartialPath>,
    pi: int,
    v: PartialPath,
    neigh: Seq<FeedPair>,
)
    requires
        covers(n, r, m, bc, nodes0),
        0 <= pi < nodes0.len(),
        nodes0[pi] == v,
        1 <= v.path@.len() < plen,
        plen == tri(n),
        forall|q: FeedPair| #[trigger] neigh.contains(q) <==> valid_step(n, r, v.path@.last(), q),
    ensures
        covers_or_pending(n, r, m, bc, nodes0.remove(pi), v, neigh, 0),
{
    let bl = v.path@.len() as int;
    let nodes = nodes0.remove(pi);
    assert forall|w: Seq<FeedPair>|
        #[trigger] complete_path(n, r, w) && run_cost(m, w) < bc implies ((exists|i: int|
        0 <= i < nodes.len() && prefix_node(w, #[trigger] nodes[i])) || pending(
        w,
        v,
        neigh,
        0,
    )) by {
        let i = choose|i: int| 0 <= i < nodes0.len() && prefix_node(w, nodes0[i]);
        if nodes0[i] == v {
            assert(v.path@ == w.subrange(0, bl));
            assert(w.len() == tri(n));
            assert(v.path@.last() == w[bl - 1]);
            assert(valid_step(n, r, w[bl - 1], w[bl]));
            assert(neigh.contains(w[bl]));
            assert(pending(w, v, neigh, 0));
        } else {
            let i2: int = if i < pi {
                i
            } else {
                i - 1
            };
            assert(nodes[i2] == nodes0[i]);
            assert(prefix_node(w, nodes[i2]));
        }
    }
}

/// A popped node whose cost already meets the bound covered no strictly
/// cheaper traversal: cost is monotone along prefixes.
proof fn lemma_covers_prune(
    n: int,
    r: int,
    m: CacheModel,
    bc: int,
    nodes0: Seq<PartialPath>,
    pi: int,
    v: PartialPath,
)
    requires
        covers(n, r, m, bc, nodes0),
        0 <= pi < nodes0.len(),
        nodes0[pi] == v,
        run_cost(m, v.path@) >= bc,
    ensures
        covers(n, r, m, bc, nodes0.remove(pi)),
{
    let nodes = nodes0.remove(pi);
    assert forall|w: Seq<FeedPair>|
        #[trigger] complete_path(n, r, w) && run_cost(m, w) < bc implies exists|i: int|
        0 <= i < nodes.len() && prefix_node(w, #[trigger] nodes[i]) by {
        let i = choose|i: int| 0 <= i < nodes0.len() && prefix_node(w, nodes0[i]);
        if nodes0[i] == v {
            assert(v.path@ == w.subrange(0, v.path@.len() as int));
            lemma_run_cost_prefix(m, w, v.path@.len() as int);
            assert(false);
        } else {
            let i2: int = if i < pi {
                i
            } else {
                i - 1
            };
            assert(nodes[i2] == nodes0[i]);
            assert(prefix_node(w, nodes[i2]));
        }
    }
}

/// Neighbor `q` repeats a pair of the prefix: no duplicate-free traversal
/// extends the prefix by `q`, so processing it discharges nothing.
proof fn lemma_step_visited(
    n: int,
    r: int,
    m: CacheModel,
    bc: int,
    nodes: Seq<PartialPath>,
    v: PartialPath,
    neigh: Seq<FeedPair>,
    j: int,
    q: FeedPair,
)
    requires
        covers_or_pending(n, r, m, bc, nodes, v, neigh, j),
        0 <= j < neigh.len(),
        neigh[j] == q,
        v.path@.contains(q),
    ensures
        covers_or_pending(n, r, m, bc, nodes, v, neigh, j + 1),
{
    let bl = v.path@.len() as int;
    assert forall|w: Seq<FeedPair>|
        #[trigger] complete_path(n, r, w) && run_cost(m, w) < bc implies ((exists|i: int|
        0 <= i < nodes.len() && prefix_node(w, #[trigger] nodes[i])) || pending(
        w,
        v,
        neigh,
        j + 1,
    )) by {
        if !(exists|i: int| 0 <= i < nodes.len() && prefix_node(w, #[trigger] nodes[i])) {
            assert(pending(w, v, neigh, j));
            let jj = choose|jj: int| j <= jj < neigh.len() && neigh[jj] == w[bl];
            if jj == j {
                assert(w[bl] == q);
                let t = choose|t: int| 0 <= t < v.path@.len() && v.path@[t] == q;
                assert(v.path@[t] == w[t]);
                assert(w[t] == w[bl]);
                assert(false);
            }
            assert(pending(w, v, neigh, j + 1));
        }
    }
}

/// Extending by `q` already meets the bound: by cost monotonicity no
/// cheaper traversal goes through that extension.
proof fn lemma_step_costly(
    n: int,
    r: int,
    m: CacheModel,
    bc: int,
    nodes: Seq<PartialPath>,
    v: PartialPath,
    neigh: Seq<FeedPair>,
    j: int,
    q: FeedPair,
)
    requires
        covers_or_pending(n, r, m, bc, nodes, v, neigh, j),
        0 <= j < neigh.len(),
        neigh[j] == q,
        run_cost(m, v.path@.push(q)) >= bc,
    ensures
        covers_or_pending(n, r, m, bc, nodes, v, neigh, j + 1),
{
    let bl = v.path@.len() as int;
    assert forall|w: Seq<FeedPair>|
        #[trigger] complete_path(n, r, w) && run_cost(m, w) < bc implies ((exists|i: int|
        0 <= i < nodes.len() && prefix_node(w, #[trigger] nodes[i])) || pending(
        w,
        v,
        neigh,
        j + 1,
    )) by {
        if !(exists|i: int| 0 <= i < nodes.len() && prefix_node(w, #[trigger] nodes[i])) {
            assert(pending(w, v, neigh, j));
            let jj = choose|jj: int| j <= jj < neigh.len() && neigh[jj] == w[bl];
            if jj == j {
                assert(w[bl] == q);
                assert(w.subrange(0, bl + 1) =~= v.path@.push(q));
                lemma_run_cost_prefix(m, w, bl + 1);
                assert(false);
            }
            assert(pending(w, v, neigh, j + 1));
        }
    }
}

/// A completed extension was recorded and the bound tightened to its exact
/// cost: no traversal through it is cheaper than the new bound.
proof fn lemma_step_record(
    n: int,
    r: int,
    m: CacheModel,
    plen: int,
    bc_new: int,
    nodes: Seq<PartialPath>,
    v: PartialPath,
    neigh: Seq<FeedPair>,
    j: int,
    q: FeedPair,
)
    requires
        covers_or_pending(n, r, m, bc_new, nodes, v, neigh, j),
        0 <= j < neigh.len(),
        neigh[j] == q,
        v.path@.len() + 1 == plen,
        plen == tri(n),
        run_cost(m, v.path@.push(q)) == bc_new,
    ensures
        covers_or_pending(n, r, m, bc_new, nodes, v, neigh, j + 1),
{
    let bl = v.path@.len() as int;
    assert forall|w: Seq<FeedPair>|
        #[trigger] complete_path(n, r, w) && run_cost(m, w) < bc_new implies ((exists|i: int|
        0 <= i < nodes.len() && prefix_node(w, #[trigger] nodes[i])) || pending(
        w,
        v,
        neigh,
        j + 1,
    )) by {
        if !(exists|i: int| 0 <= i < nodes.len() && prefix_node(w, #[trigger] nodes[i])) {
            assert(pending(w, v, neigh, j));
            let jj = choose|jj: int| j <= jj < neigh.len() && neigh[jj] == w[bl];
            if jj == j {
                assert(w[bl] == q);
                assert(w.len() == tri(n));
                assert(w =~= v.path@.push(q));
                assert(false);
            }
            assert(pending(w, v, neigh, j + 1));
        }
    }
}

/// The surviving extension by `q` was pushed onto the frontier: traversals
/// waiting on `q` are now covered by the new node.
proof fn lemma_step_push(
    n: int,
    r: int,
    m: CacheModel,
    bc: int,
    nodes: Seq<PartialPath>,
    v: PartialPath,
    neigh: Seq<FeedPair>,
    j: int,
    q: FeedPair,
    child: PartialPath,
)
    requires
        covers_or_pending(n, r, m, bc, nodes, v, neigh, j),
        0 <= j < neigh.len(),
        neigh[j] == q,
        child.path@ == v.path@.push(q),
    ensures
        covers_or_pending(n, r, m, bc, nodes.push(child), v, neigh, j + 1),
{
    let bl = v.path@.len() as int;
    let nodes1 = nodes.push(child);
    assert forall|w: Seq<FeedPair>|
        #[trigger] complete_path(n, r, w) && run_cost(m, w) < bc implies ((exists|i: int|
        0 <= i < nodes1.len() && prefix_node(w, #[trigger] nodes1[i])) || pending(
        w,
        v,
        neigh,
        j + 1,
    )) by {
        if exists|i: int| 0 <= i < nodes.len() && prefix_node(w, #[trigger] nodes[i]) {
            let i = choose|i: int| 0 <= i < nodes.len() && prefix_node(w, nodes[i]);
            assert(nodes1[i] == nodes[i]);
            assert(prefix_node(w, nodes1[i]));
        } else if pending(w, v, neigh, j) {
            let jj = choose|jj: int| j <= jj < neigh.len() && neigh[jj] == w[bl];
            if jj == j {
                assert(w[bl] == q);
                assert(child.path@ =~= w.subrange(0, bl + 1));
                assert(nodes1[nodes.len() as int] == child);
                assert(prefix_node(w, nodes1[nodes.len() as int]));
            } else {
                assert(pending(w, v, neigh, j + 1));
            }
        }
    }
}

/// All neighbors processed: nothing is pending, coverage is plain again.
proof fn lemma_pending_done(
    n: int,
    r: int,
    m: CacheModel,
    bc: int,
    nodes: Seq<PartialPath>,
    v: PartialPath,
    neigh: Seq<FeedPair>,
)
    requires
        covers_or_pending(n, r, m, bc, nodes, v, neigh, neigh.len() as int),
    ensures
        covers(n, r, m, bc, nodes),
{
    assert forall|w: Seq<FeedPair>|
        #[trigger] complete_path(n, r, w) && run_cost(m, w) < bc implies exists|i: int|
        0 <= i < nodes.len() && prefix_node(w, #[trigger] nodes[i]) by {
        if pending(w, v, neigh, neigh.len() as int) {
            let bl = v.path@.len() as int;
            let jj = choose|jj: int| neigh.len() <= jj < neigh.len() && neigh[jj] == w[bl];
            assert(false);
        }
    }
}

/// Once the frontier is empty, coverage says no traversal beats the bound.
proof fn lemma_empty_no_cheaper(n: int, r: int, m: CacheModel, bc: int, nodes: Seq<PartialPath>)
    requires
        covers(n, r, m, bc, nodes),
        nodes.len() == 0,
    ensures
        no_cheaper(n, r, m, bc),
{
    assert forall|w: Seq<FeedPair>| #[trigger] complete_path(n, r, w) implies run_cost(m, w)
        >= bc by {
        if run_cost(m, w) < bc {
            let i = choose|i: int| 0 <= i < nodes.len() && prefix_node(w, nodes[i]);
            assert(false);
        }
    }
}

/// `tri` does not shrink as the feed count grows.
proof fn lemma_tri_mono(a: int, b: int)
    requires
        0 <= a <= b,
    ensures
        tri(a) <= tri(b),
    decreases b,
{
    if a < b {
        lemma_tri_mono(a, b - 1);
    }
}

/// Search for a complete traversal strictly cheaper than `best_cost_bound`,
/// breaking exploration ties through the thread-local random generator.
/// A returned path is complete, its cost exact, below the bound, and
/// optimal among all complete traversals; `None` means every complete
/// traversal costs at least the bound. The tiebreak draws steer only the
/// exploration order, never the outcome's cost.
pub fn search_best_path(
    num_feeds: FeedIdx,
    entry_size: usize,
    max_radius: FeedIdx,
    best_cost_bound: Cost,
) -> (res: Option<(Cost, Path)>)
    requires
        1 < num_feeds <= MAX_NUM_FEEDS,
        entry_size >= 1,
        max_radius >= 1,
        max_radius <= usize::MAX - num_feeds,
        best_cost_bound >= 1,
        CacheModel::model_for(entry_size).l1_entries >= 3,
    ensures
        search_result_ok(
            num_feeds as int,
            max_radius as int,
            entry_size,
            best_cost_bound as int,
            res,
        ),
{
    let mut tie = ThreadRngTieBreak::new();
    search_best_path_with(num_feeds, entry_size, max_radius, best_cost_bound, &mut tie)
}

/// The search with an injectable tiebreak source, so callers can fix the
/// exploration order.
#[verifier::loop_isolation(false)]
#[verifier::rlimit(100)]
#[verifier::spinoff_prover]
pub fn search_best_path_with<T: TieBreak>(
    num_feeds: FeedIdx,
    entry_size: usize,
    max_radius: FeedIdx,
    best_cost_bound: Cost,
    tie: &mut T,
) -> (res: Option<(Cost, Path)>)
    requires
        1 < num_feeds <= MAX_NUM_FEEDS,
        entry_size >= 1,
        max_radius >= 1,
        max_radius <= usize::MAX - num_feeds,
        best_cost_bound >= 1,
        CacheModel::model_for(entry_size).l1_entries >= 3,
    ensures
        search_result_ok(
            num_feeds as int,
            max_radius as int,
            entry_size,
            best_cost_bound as int,
            res,
        ),
{
    let ghost ni = num_feeds as int;
    let ghost ri = max_radius as int;
    let cache_model = CacheModel::new(entry_size);
    proof {
        assert(num_feeds * (num_feeds + 1) <= MAX_NUM_FEEDS * (MAX_NUM_FEEDS + 1))
            by (nonlinear_arith)
            requires 1 < num_feeds <= MAX_NUM_FEEDS;
        assert(ni * ni <= (MAX_NUM_FEEDS as int) * (MAX_NUM_FEEDS as int)) by (nonlinear_arith)
            requires 1 < ni <= MAX_NUM_FEEDS as int;
        assert(ni * ni >= 4) by (nonlinear_arith)
            requires ni >= 2;
        lemma_tri_closed_form(2);
        lemma_tri_closed_form(ni);
        lemma_tri_closed_form(MAX_NUM_FEEDS as int);
        lemma_tri_mono(ni, MAX_NUM_FEEDS as int);
        lemma_tri_mono(2, ni);
    }
    let table = NeighborTable::new(num_feeds, max_radius);
    let path_length = num_feeds * (num_feeds + 1) / 2;
    let ghost plen = path_length as int;
    let ghost base = ni * ni + 1;
    let ghost bound0 = best_cost_bound as int;
    proof {
        assert(plen == tri(ni));
        assert(3 <= plen <= MAX_PRIORITY_LEN);
        assert(base >= 5);
    }

    // Seed one node per starting point: every domain point starts some
    // traversal, and full seeding is what makes the coverage argument —
    // hence the optimality claim — go through.
    let mut frontier = PartialPaths::new();
    let mut start_y: FeedIdx = 0;
    while start_y < num_feeds
        invariant
            start_y <= num_feeds,
            frontier_ok(ni, ri, cache_model, plen, frontier.nodes@),
            forall|p: FeedPair|
                in_domain(ni, p) && (p.1 as int) < start_y ==> seeded(frontier.nodes@, p),
        decreases num_feeds - start_y,
    {
        let mut start_x: FeedIdx = 0;
        while start_x <= start_y
            invariant
                start_y < num_feeds,
                start_x <= start_y + 1,
                frontier_ok(ni, ri, cache_model, plen, frontier.nodes@),
                forall|p: FeedPair|
                    in_domain(ni, p) && ((p.1 as int) < start_y || ((p.1 as int) == start_y && (
                    p.0 as int) < start_x)) ==> seeded(frontier.nodes@, p),
            decreases start_y + 1 - start_x,
        {
            let seed = PartialPath::new(&cache_model, (start_x, start_y));
            let ghost nodes0 = frontier.nodes@;
            frontier.push(seed);
            proof {
                assert(frontier.nodes@ == nodes0.push(seed));
                assert(seed.path@ == seq![(start_x, start_y)]);
                assert(seed.path@[0] == (start_x, start_y));
                assert(in_domain(ni, seed.path@[0]));
                assert(valid_path(ni, ri, seed.path@));
                assert(node_ok(ni, ri, cache_model, plen, seed));
                assert forall|i: int|
                    0 <= i < frontier.nodes@.len() implies node_ok(
                    ni,
                    ri,
                    cache_model,
                    plen,
                    #[trigger] frontier.nodes@[i],
                ) by {
                    if i < nodes0.len() {
                        assert(frontier.nodes@[i] == nodes0[i]);
                    }
                }
                assert(frontier.nodes@[nodes0.len() as int].path@ == seq![(start_x, start_y)]);
                assert forall|p: FeedPair|
                    in_domain(ni, p) && ((p.1 as int) < start_y || ((p.1 as int) == start_y && (
                    p.0 as int) < start_x + 1)) implies seeded(frontier.nodes@, p) by {
                    if (p.1 as int) < start_y || ((p.1 as int) == start_y && (p.0 as int)
                        < start_x) {
                        assert(seeded(nodes0, p));
                        let i = choose|i: int|
                            0 <= i < nodes0.len() && nodes0[i].path@ == seq![p];
                        assert(frontier.nodes@[i] == nodes0[i]);
                        assert(seeded(frontier.nodes@, p));
                    } else {
                        assert(p.0 == start_x && p.1 == start_y);
                        assert(p == (start_x, start_y));
                        assert(seeded(frontier.nodes@, p));
                    }
                }
            }
            start_x = start_x + 1;
        }
        proof {
            assert forall|p: FeedPair|
                in_domain(ni, p) && (p.1 as int) < start_y + 1 implies seeded(
                frontier.nodes@,
                p,
            ) by {}
        }
        start_y = start_y + 1;
    }

    // Pop, prune, expand, and record strictly improving complete paths,
    // until the frontier empties.
    let mut best_cost = best_cost_bound;
    let mut best_path: Path = Vec::new();
    proof {
        assert forall|p: FeedPair| in_domain(ni, p) implies seeded(frontier.nodes@, p) by {}
        lemma_covers_seeds(ni, ri, cache_model, plen, bound0, frontier.nodes@);
    }
    while frontier.len() > 0
        invariant
            frontier_ok(ni, ri, cache_model, plen, frontier.nodes@),
            best_ok(ni, ri, cache_model, bound0, best_cost, best_path@),
            covers(ni, ri, cache_model, best_cost as int, frontier.nodes@),
        decreases frontier_pot(plen, base, frontier.nodes@),
    {
        proof {
            assert forall|i: int|
                0 <= i < frontier.nodes@.len() implies prio_safe(
                #[trigger] frontier.nodes@[i],
            ) by {
                lemma_run_cost_bounds(cache_model, frontier.nodes@[i].path@);
            }
        }
        let ghost nodes0 = frontier.nodes@;
        let popped = frontier.pop(tie);
        let pp = match popped {
            Option::Some(p) => p,
            Option::None => {
                proof {
                    assert(false);
                }
                return None;
            },
        };
        let ghost pi = choose|i: int|
            0 <= i < nodes0.len() && pp == nodes0[i] && frontier.nodes@ == nodes0.remove(i);
        proof {
            assert(node_ok(ni, ri, cache_model, plen, pp));
            assert forall|j: int|
                0 <= j < frontier.nodes@.len() implies node_ok(
                ni,
                ri,
                cache_model,
                plen,
                #[trigger] frontier.nodes@[j],
            ) by {
                if j < pi {
                    assert(frontier.nodes@[j] == nodes0[j]);
                } else {
                    assert(frontier.nodes@[j] == nodes0[j + 1]);
                }
            }
            lemma_pot_remove(plen, base, nodes0, pi);
            lemma_pow_positive(base, (plen - pp.path@.len()) as nat);
        }
        let ghost pot0 = frontier_pot(plen, base, frontier.nodes@);
        let ghost bl = pp.path@.len() as int;
        let ghost pw = pow(base, (plen - bl - 1) as nat);

        // Prune: cost is monotone, so nothing below this node can beat the
        // current bound once the node itself does not.
        if pp.cost_so_far() < best_cost {
            let last = pp.last_step();
            proof {
                assert(in_domain(ni, pp.path@.last()));
                assert((last.0, last.1) == last);
            }
            let neigh = table.neighbors(last.0, last.1);
            proof {
                assert forall|q: FeedPair| #[trigger]
                    neigh@.contains(q) <==> valid_step(ni, ri, pp.path@.last(), q) by {
                    assert(neigh@.contains(q) <==> valid_step(ni, ri, (last.0, last.1), q));
                }
                lemma_covers_handoff(
                    ni,
                    ri,
                    cache_model,
                    plen,
                    best_cost as int,
                    nodes0,
                    pi,
                    pp,
                    neigh@,
                );
            }
            let mut j: usize = 0;
            while j < neigh.len()
                invariant
                    j <= neigh@.len(),
                    frontier_ok(ni, ri, cache_model, plen, frontier.nodes@),
                    best_ok(ni, ri, cache_model, bound0, best_cost, best_path@),
                    covers_or_pending(
                        ni,
                        ri,
                        cache_model,
                        best_cost as int,
                        frontier.nodes@,
                        pp,
                        neigh@,
                        j as int,
                    ),
                    frontier_pot(plen, base, frontier.nodes@) <= pot0 + j * pw,
                decreases neigh@.len() - j,
            {
                let q = neigh[j];
                proof {
                    assert(neigh@[j as int] == q);
                    assert(neigh@.contains(q));
                    assert(valid_step(ni, ri, (last.0, last.1), q));
                }
                if !pp.contains(&q) {
                    let eval = pp.evaluate_next_step(&cache_model, &q);
                    let next_cost = eval.0;
                    let next_entries = eval.1;
                    proof {
                        lemma_valid_path_push(ni, ri, pp.path@, q);
                    }
                    if next_cost < best_cost {
                        let next_len = pp.len() + 1;
                        if next_len == path_length {
                            // Complete and strictly better: record it and
                            // tighten the bound.
                            best_path = pp.finish_path(q);
                            best_cost = next_cost;
                            proof {
                                lemma_full_coverage(num_feeds, best_path@);
                                assert(complete_path(ni, ri, best_path@));
                                lemma_step_record(
                                    ni,
                                    ri,
                                    cache_model,
                                    plen,
                                    best_cost as int,
                                    frontier.nodes@,
                                    pp,
                                    neigh@,
                                    j as int,
                                    q,
                                );
                            }
                        } else {
                            let child = pp.commit_next_step(q, next_cost, next_entries);
                            let ghost nodes1 = frontier.nodes@;
                            frontier.push(child);
                            proof {
                                assert(node_ok(ni, ri, cache_model, plen, child));
                                assert forall|t: int|
                                    0 <= t < frontier.nodes@.len() implies node_ok(
                                    ni,
                                    ri,
                                    cache_model,
                                    plen,
                                    #[trigger] frontier.nodes@[t],
                                ) by {
                                    if t < nodes1.len() {
                                        assert(frontier.nodes@[t] == nodes1[t]);
                                    }
                                }
                                lemma_pot_push(plen, base, nodes1, child);
                                assert(node_pot(plen, base, child) == pw);
                                lemma_step_push(
                                    ni,
                                    ri,
                                    cache_model,
                                    best_cost as int,
                                    nodes1,
                                    pp,
                                    neigh@,
                                    j as int,
                                    q,
                                    child,
                                );
                            }
                        }
                    } else {
                        // The extension already meets the bound: cost
                        // monotonicity rules out everything beyond it.
                        proof {
                            lemma_step_costly(
                                ni,
                                ri,
                                cache_model,
                                best_cost as int,
                                frontier.nodes@,
                                pp,
                                neigh@,
                                j as int,
                                q,
                            );
                        }
                    }
                } else {
                    // Already visited: a traversal extending this prefix by
                    // `q` would repeat a pair, so none exists.
                    proof {
                        lemma_step_visited(
                            ni,
                            ri,
                            cache_model,
                            best_cost as int,
                            frontier.nodes@,
                            pp,
                            neigh@,
                            j as int,
                            q,
                        );
                    }
                }
                proof {
                    assert((j + 1) * pw == j * pw + pw) by (nonlinear_arith);
                    lemma_pow_positive(base, (plen - bl - 1) as nat);
                }
                j = j + 1;
            }
            proof {
                // All neighbors processed: nothing is pending any more.
                lemma_pending_done(
                    ni,
                    ri,
                    cache_model,
                    best_cost as int,
                    frontier.nodes@,
                    pp,
                    neigh@,
                );
                lemma_pow_positive(base, (plen - bl - 1) as nat);
                assert(neigh@.len() * pw <= (ni * ni) * pw) by (nonlinear_arith)
                    requires
                        neigh@.len() <= ni * ni,
                        pw >= 1,
                ;
                lemma_pow1(base);
                lemma_pow_adds(base, 1, (plen - bl - 1) as nat);
                assert(pow(base, (plen - bl) as nat) == base * pw);
                assert(frontier_pot(plen, base, frontier.nodes@) < frontier_pot(
                    plen,
                    base,
                    nodes0,
                )) by (nonlinear_arith)
                    requires
                        frontier_pot(plen, base, frontier.nodes@) <= pot0 + (ni * ni) * pw,
                        pot0 == frontier_pot(plen, base, nodes0) - pow(base, (plen - bl) as nat),
                        pow(base, (plen - bl) as nat) == base * pw,
                        base == ni * ni + 1,
                        pw >= 1,
                ;
            }
        } else {
            // The popped node already meets the bound: by cost monotonicity
            // it was not covering any strictly cheaper traversal.
            proof {
                lemma_covers_prune(
                    ni,
                    ri,
                    cache_model,
                    best_cost as int,
                    nodes0,
                    pi,
                    pp,
                );
            }
        }
        proof {
            lemma_pot_nonneg(plen, base, frontier.nodes@);
        }
    }

    // The frontier is exhausted: nothing cheaper than the final bound was
    // left uncovered, so nothing cheaper exists at all.
    proof {
        lemma_empty_no_cheaper(ni, ri, cache_model, best_cost as int, frontier.nodes@);
    }
    if best_path.len() == 0 {
        None
    } else {
        Some((best_cost, best_path))
    }
}

} // verus!
