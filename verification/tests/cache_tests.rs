use pairsearch::cache::CacheModel;
use pairsearch::path::order_cost;

#[test]
fn capacities_derived_from_entry_size() {
    // 32 KiB / 10922 = 3, 512 KiB / 10922 = 48, 32 MiB / 10922 = 3072.
    let m = CacheModel::new(10922);
    assert_eq!(m.l1_entries, 3);
    assert_eq!(m.l2_entries, 48);
    assert_eq!(m.l3_entries, 3072);

    let m = CacheModel::new(32768);
    assert_eq!(m.l1_entries, 1);
    assert_eq!(m.l2_entries, 16);
    assert_eq!(m.l3_entries, 1024);
}

#[test]
fn first_access_is_free() {
    let m = CacheModel::new(32768);
    let mut state = m.start_simulation();
    assert_eq!(m.simulate_access(&mut state, 7), 0);
    assert_eq!(m.simulate_access(&mut state, 3), 0);
    assert_eq!(m.simulate_access(&mut state, 100), 0);
}

#[test]
fn repeated_access_is_free() {
    // Even with a single tier-1 entry, age 0 is always a hit.
    let m = CacheModel::new(32768);
    let mut state = m.start_simulation();
    assert_eq!(m.simulate_access(&mut state, 7), 0);
    assert_eq!(m.simulate_access(&mut state, 7), 0);
    assert_eq!(m.simulate_access(&mut state, 7), 0);
}

#[test]
fn tier_two_access_costs_one_unit() {
    // l1_entries = 1: one intervening access pushes the entry to age 1.
    let m = CacheModel::new(32768);
    let mut state = m.start_simulation();
    assert_eq!(m.simulate_access(&mut state, 5), 0);
    assert_eq!(m.simulate_access(&mut state, 6), 0);
    assert_eq!(m.simulate_access(&mut state, 5), 1);
}

#[test]
fn tier_three_access_costs_five_units() {
    // l2_entries = 16: sixteen intervening accesses reach tier 3.
    let m = CacheModel::new(32768);
    let mut state = m.start_simulation();
    assert_eq!(m.simulate_access(&mut state, 0), 0);
    for e in 1..=16 {
        assert_eq!(m.simulate_access(&mut state, e), 0);
    }
    assert_eq!(m.simulate_access(&mut state, 0), 5);
}

#[test]
fn memory_access_costs_thirty_units() {
    // l3_entries = 1024: falling out of tier 3 costs the full ratio.
    let m = CacheModel::new(32768);
    let mut state = m.start_simulation();
    assert_eq!(m.simulate_access(&mut state, 0), 0);
    for e in 1..=1024 {
        assert_eq!(m.simulate_access(&mut state, e), 0);
    }
    assert_eq!(m.simulate_access(&mut state, 0), 30);
}

#[test]
fn access_moves_entry_to_most_recent() {
    // After touching 5 again, entry 6 is the one at age 1.
    let m = CacheModel::new(32768);
    let mut state = m.start_simulation();
    assert_eq!(m.simulate_access(&mut state, 5), 0);
    assert_eq!(m.simulate_access(&mut state, 6), 0);
    assert_eq!(m.simulate_access(&mut state, 6), 0);
    assert_eq!(m.simulate_access(&mut state, 5), 1);
    assert_eq!(m.simulate_access(&mut state, 6), 1);
}

#[test]
fn order_cost_of_all_free_walk_is_zero() {
    // Two feeds always fit in three tier-1 entries.
    let m = CacheModel::new(10922);
    let order = vec![(0, 0), (0, 1), (1, 1)];
    assert_eq!(order_cost(&m, &order), 0);
}

#[test]
fn order_cost_accumulates_exact_tier_costs() {
    // l1_entries = 1: the second visit of the pair pays 1 per feed.
    let m = CacheModel::new(32768);
    let order = vec![(0, 1), (0, 1)];
    assert_eq!(order_cost(&m, &order), 2);
}
