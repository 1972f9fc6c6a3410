use pairsearch::cache::CacheModel;
use pairsearch::frontier::{PartialPaths, TieBreak, XorShiftTieBreak};
use pairsearch::path::PartialPath;

#[test]
fn new_node_starts_free() {
    let m = CacheModel::new(10922);
    let node = PartialPath::new(&m, (0, 1));
    assert_eq!(node.len(), 1);
    assert_eq!(node.cost_so_far(), 0);
    assert_eq!(node.last_step(), (0, 1));
}

#[test]
fn contains_finds_only_visited_pairs() {
    let m = CacheModel::new(10922);
    let node = PartialPath::new(&m, (0, 1));
    assert!(node.contains(&(0, 1)));
    assert!(!node.contains(&(1, 1)));
    assert!(!node.contains(&(0, 0)));
}

#[test]
fn evaluate_never_lowers_the_cost() {
    // Monotonicity: an extension's cost is at least the cost so far.
    let m = CacheModel::new(32768);
    let node = PartialPath::new(&m, (0, 1));
    let (c1, e1) = node.evaluate_next_step(&m, &(2, 3));
    let node = node.commit_next_step((2, 3), c1, e1);
    let (c2, _) = node.evaluate_next_step(&m, &(0, 1));
    assert!(c1 >= 0);
    assert!(c2 >= c1);
}

#[test]
fn evaluate_does_not_touch_the_node() {
    let m = CacheModel::new(32768);
    let node = PartialPath::new(&m, (0, 1));
    let before = node.cost_so_far();
    let _ = node.evaluate_next_step(&m, &(1, 2));
    let _ = node.evaluate_next_step(&m, &(1, 2));
    assert_eq!(node.cost_so_far(), before);
    assert_eq!(node.len(), 1);
}

#[test]
fn commit_extends_by_one_step() {
    let m = CacheModel::new(10922);
    let node = PartialPath::new(&m, (0, 0));
    let (c, e) = node.evaluate_next_step(&m, &(0, 1));
    let child = node.commit_next_step((0, 1), c, e);
    assert_eq!(child.len(), 2);
    assert_eq!(child.last_step(), (0, 1));
    assert!(child.contains(&(0, 0)));
    assert!(child.contains(&(0, 1)));
    // The parent is untouched: branching clones state.
    assert_eq!(node.len(), 1);
}

#[test]
fn finish_path_appends_the_last_step() {
    let m = CacheModel::new(10922);
    let node = PartialPath::new(&m, (0, 0));
    let done = node.finish_path((0, 1));
    assert_eq!(done, vec![(0, 0), (0, 1)]);
    assert_eq!(node.len(), 1);
}

#[test]
fn iter_rev_lists_steps_most_recent_first() {
    let m = CacheModel::new(10922);
    let node = PartialPath::new(&m, (0, 0));
    let (c, e) = node.evaluate_next_step(&m, &(0, 1));
    let node = node.commit_next_step((0, 1), c, e);
    assert_eq!(node.iter_rev(), vec![(0, 1), (0, 0)]);
}

#[test]
fn priorize_rounds_to_nearest() {
    let m = CacheModel::new(10922);
    // One step, no cost: round(1.3) = 1.
    let node = PartialPath::new(&m, (0, 1));
    assert_eq!(PartialPaths::priorize(&node), 1);
    // Two steps, cost 3: round(2.6 - 3) = round(-0.4) = 0.
    let (_, e) = node.evaluate_next_step(&m, &(1, 2));
    let costly = node.commit_next_step((1, 2), 3, e.clone());
    assert_eq!(PartialPaths::priorize(&costly), 0);
    // Two steps, cost 5: round(2.6 - 5) = round(-2.4) = -2.
    let costlier = node.commit_next_step((1, 2), 5, e);
    assert_eq!(PartialPaths::priorize(&costlier), -2);
}

#[test]
fn pop_takes_a_highest_priority_path() {
    let m = CacheModel::new(10922);
    let short = PartialPath::new(&m, (0, 0));
    let (c, e) = short.evaluate_next_step(&m, &(0, 1));
    let long = short.commit_next_step((0, 1), c, e);
    let mut frontier = PartialPaths::new();
    frontier.push(PartialPath::new(&m, (0, 0)));
    frontier.push(long);
    let mut tie = XorShiftTieBreak::new(42);
    // The longer free path has the higher priority bucket.
    let first = frontier.pop(&mut tie).unwrap();
    assert_eq!(first.len(), 2);
    let second = frontier.pop(&mut tie).unwrap();
    assert_eq!(second.len(), 1);
    assert!(frontier.pop(&mut tie).is_none());
}

#[test]
fn xorshift_is_reproducible() {
    let mut a = XorShiftTieBreak::new(7);
    let mut b = XorShiftTieBreak::new(7);
    for n in 1..50 {
        let x = a.pick(n);
        assert_eq!(x, b.pick(n));
        assert!(x < n);
    }
}
