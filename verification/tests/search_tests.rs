use pairsearch::cache::CacheModel;
use pairsearch::frontier::XorShiftTieBreak;
use pairsearch::neighbors::NeighborTable;
use pairsearch::path::order_cost;
use pairsearch::search::{search_best_path, search_best_path_with};
use pairsearch::FeedPair;

/// The full triangular domain for `n` feeds, row-major.
fn row_major(n: usize) -> Vec<FeedPair> {
    let mut v = Vec::new();
    for x in 0..n {
        for y in x..n {
            v.push((x, y));
        }
    }
    v
}

fn assert_complete(path: &Vec<FeedPair>, n: usize, r: usize) {
    assert_eq!(path.len(), n * (n + 1) / 2);
    for (x, y) in row_major(n) {
        assert!(path.contains(&(x, y)));
    }
    for w in path.windows(2) {
        let (x0, y0) = w[0];
        let (x1, y1) = w[1];
        assert!(x1 <= y1 && y1 < n);
        assert!(x0.max(x1) - x0.min(x1) <= r);
        assert!(y0.max(y1) - y0.min(y1) <= r);
    }
}

#[test]
fn neighbor_table_respects_radius_and_domain() {
    // From (0,0) with radius 1 only Chebyshev-1 in-domain points remain.
    let t = NeighborTable::new(4, 1);
    let v = t.neighbors(0, 0);
    assert_eq!(v.len(), 3);
    assert!(v.contains(&(0, 0)));
    assert!(v.contains(&(0, 1)));
    assert!(v.contains(&(1, 1)));
    assert!(!v.contains(&(2, 2)));
    assert!(!v.contains(&(1, 0)));
    assert!(!v.contains(&(0, 2)));
}

#[test]
fn neighbor_table_interior_point() {
    let t = NeighborTable::new(4, 1);
    let v = t.neighbors(1, 2);
    // x' in {0,1,2}, y' in [max(x',1), 3].
    let expect = vec![
        (0, 1),
        (0, 2),
        (0, 3),
        (1, 1),
        (1, 2),
        (1, 3),
        (2, 2),
        (2, 3),
    ];
    assert_eq!(v.len(), expect.len());
    for q in expect {
        assert!(v.contains(&q));
    }
}

#[test]
fn two_feeds_have_a_free_traversal() {
    // Both feeds fit tier 1, so some complete path costs exactly 0.
    let res = search_best_path(2, 10922, 1, 1_000_000).unwrap();
    assert_eq!(res.0, 0);
    assert_complete(&res.1, 2, 1);
}

#[test]
fn four_feeds_unrestricted_radius_scenario() {
    // num_feeds = 4, l1_entries = 3, max_radius = 4, generous bound:
    // the search returns a complete path of length 10 that the naive
    // row-major order cannot beat.
    let res = search_best_path(4, 10922, 4, 1_000_000_000).unwrap();
    let (best, path) = res;
    assert_complete(&path, 4, 4);
    let model = CacheModel::new(10922);
    let naive = order_cost(&model, &row_major(4));
    assert!(naive >= best);
}

#[test]
fn radius_one_search_keeps_steps_adjacent() {
    let res = search_best_path(3, 10922, 1, 1_000_000_000).unwrap();
    assert_complete(&res.1, 3, 1);
}

#[test]
fn optimal_cost_does_not_depend_on_tiebreak_seed() {
    // Different tiebreak draws may return different optimal paths, but
    // always the same optimal cost.
    let mut t1 = XorShiftTieBreak::new(1);
    let mut t2 = XorShiftTieBreak::new(987654321);
    let r1 = search_best_path_with(4, 10922, 4, 1_000_000_000, &mut t1).unwrap();
    let r2 = search_best_path_with(4, 10922, 4, 1_000_000_000, &mut t2).unwrap();
    assert_eq!(r1.0, r2.0);
    assert_complete(&r1.1, 4, 4);
    assert_complete(&r2.1, 4, 4);
}

#[test]
fn bound_equal_to_the_optimum_yields_no_result() {
    // Only strictly better traversals are sought: with the optimal cost
    // itself as the bound, the search must come back empty-handed.
    let (best, _) = search_best_path(4, 10922, 4, 1_000_000_000).unwrap();
    if best >= 1 {
        assert!(search_best_path(4, 10922, 4, best).is_none());
    }
}

#[test]
fn reported_cost_matches_replaying_the_path() {
    // The returned cost is exactly the simulated cost of the returned path.
    let res = search_best_path(4, 10922, 4, 1_000_000_000).unwrap();
    let model = CacheModel::new(10922);
    assert_eq!(order_cost(&model, &res.1), res.0);
}
