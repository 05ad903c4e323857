use weight_balancer::balancer::{add_edge, Balancer};
use weight_balancer::def::BalanceResult;
use weight_balancer::graph::is_reachable;
use weight_balancer::interactor::{Interactor, Oracle};
use std::collections::BTreeMap;

/// An oracle that knows the weights.
struct Scale {
    weights: Vec<u64>,
    calls: usize,
}

impl Scale {
    fn new(weights: &[u64]) -> Scale {
        Scale { weights: weights.to_vec(), calls: 0 }
    }
}

impl Oracle for Scale {
    fn compare(&mut self, left_v: &Vec<usize>, right_v: &Vec<usize>) -> BalanceResult {
        self.calls += 1;
        let l: u64 = left_v.iter().map(|i| self.weights[*i]).sum();
        let r: u64 = right_v.iter().map(|i| self.weights[*i]).sum();
        if l < r {
            BalanceResult::Left
        } else if l > r {
            BalanceResult::Right
        } else {
            BalanceResult::Equal
        }
    }
}

fn scale(weights: &[u64], q: usize) -> Interactor<Scale> {
    let mut it = Interactor::new(Scale::new(weights));
    it.read_input(weights.len(), 1, q);
    it
}

#[test]
fn lists_without_items_are_settled_at_once() {
    let b = Balancer::new();
    assert_eq!(b.check_empty_comparison(&vec![], &vec![3]), BalanceResult::Left);
    assert_eq!(b.check_empty_comparison(&vec![3], &vec![]), BalanceResult::Right);
    assert_eq!(b.check_empty_comparison(&vec![], &vec![]), BalanceResult::Equal);
    assert_eq!(b.check_empty_comparison(&vec![1], &vec![3]), BalanceResult::Unknown);
}

#[test]
fn empty_comparisons_cost_nothing() {
    let mut b = Balancer::new();
    let mut it = scale(&[1, 2, 3], 5);
    assert_eq!(b.get_result(&vec![], &vec![0, 1], &mut it), BalanceResult::Left);
    assert_eq!(b.get_result(&vec![2], &vec![], &mut it), BalanceResult::Right);
    assert_eq!(b.get_result(&vec![], &vec![], &mut it), BalanceResult::Equal);
    assert_eq!(it.query_count, 0);
    assert_eq!(it.oracle.calls, 0);
    assert!(b.left_edges.is_empty());
    assert!(b.right_edges.is_empty());
}

#[test]
fn a_finding_is_asked_once_and_remembered() {
    let mut b = Balancer::new();
    let mut it = scale(&[5, 3], 5);
    assert_eq!(b.get_result(&vec![0], &vec![1], &mut it), BalanceResult::Right);
    assert_eq!(it.oracle.calls, 1);
    assert_eq!(b.get_result(&vec![0], &vec![1], &mut it), BalanceResult::Right);
    assert_eq!(b.get_result(&vec![0], &vec![1], &mut it), BalanceResult::Right);
    assert_eq!(it.oracle.calls, 1);
    assert_eq!(it.query_count, 1);
}

#[test]
fn the_other_way_round_is_the_mirror_image() {
    let mut b = Balancer::new();
    let mut it = scale(&[5, 3], 5);
    assert_eq!(b.get_result(&vec![0], &vec![1], &mut it), BalanceResult::Right);
    assert_eq!(b.get_result(&vec![1], &vec![0], &mut it), BalanceResult::Left);
    assert_eq!(it.oracle.calls, 1);

    let mut b = Balancer::new();
    let mut it = scale(&[2, 7], 5);
    assert_eq!(b.get_result(&vec![0], &vec![1], &mut it), BalanceResult::Left);
    assert_eq!(b.get_result(&vec![1], &vec![0], &mut it), BalanceResult::Right);
    assert_eq!(it.oracle.calls, 1);
}

#[test]
fn equal_is_remembered_as_at_most() {
    let mut b = Balancer::new();
    let mut it = scale(&[4, 4], 5);
    assert_eq!(b.get_result(&vec![0], &vec![1], &mut it), BalanceResult::Equal);
    assert_eq!(b.left_edges.get(&1), Some(&vec![2]));
    assert_eq!(b.right_edges.get(&2), Some(&vec![1]));
    assert_eq!(b.get_result(&vec![0], &vec![1], &mut it), BalanceResult::Left);
    assert_eq!(b.get_result(&vec![1], &vec![0], &mut it), BalanceResult::Right);
    assert_eq!(it.oracle.calls, 1);
}

#[test]
fn a_refusal_leaves_no_trace() {
    let mut b = Balancer::new();
    let mut it = scale(&[5, 3], 0);
    assert_eq!(b.get_result(&vec![0], &vec![1], &mut it), BalanceResult::Unknown);
    assert_eq!(it.oracle.calls, 0);
    assert!(b.left_edges.is_empty());
    assert!(b.right_edges.is_empty());
}

#[test]
fn findings_are_written_in_both_tables() {
    let mut b = Balancer::new();
    let mut it = scale(&[1, 2, 10], 5);
    assert_eq!(b.get_result(&vec![0, 1], &vec![2], &mut it), BalanceResult::Left);
    assert_eq!(b.left_edges.get(&3), Some(&vec![4]));
    assert_eq!(b.right_edges.get(&4), Some(&vec![3]));
    assert_eq!(b.left_edges.len(), 1);
    assert_eq!(b.right_edges.len(), 1);
}

#[test]
fn a_part_is_found_lighter_without_the_oracle() {
    let mut b = Balancer::new();
    let mut it = scale(&[1, 2, 10], 5);
    assert_eq!(b.get_result(&vec![0, 1], &vec![2], &mut it), BalanceResult::Left);
    assert_eq!(it.oracle.calls, 1);
    assert_eq!(b.get_result(&vec![0], &vec![0, 1], &mut it), BalanceResult::Left);
    assert_eq!(it.oracle.calls, 1);
    assert_eq!(b.left_edges.get(&1), Some(&vec![3]));
    assert_eq!(b.right_edges.get(&3), Some(&vec![1]));
    assert_eq!(b.get_result(&vec![0, 1], &vec![0], &mut it), BalanceResult::Right);
    assert_eq!(it.oracle.calls, 1);
    // by now {0} is also known to be lighter than {2}: through {0, 1}
    assert_eq!(b.left_edges.get(&1), Some(&vec![3, 4]));
}

#[test]
fn a_part_known_first_is_linked_when_the_whole_comes() {
    let mut b = Balancer::new();
    let mut it = scale(&[1, 1, 5, 5], 5);
    assert_eq!(b.get_result(&vec![0], &vec![2], &mut it), BalanceResult::Left);
    assert_eq!(b.get_result(&vec![0, 1], &vec![3], &mut it), BalanceResult::Left);
    assert_eq!(it.oracle.calls, 2);
    assert_eq!(b.get_result(&vec![0], &vec![0, 1], &mut it), BalanceResult::Left);
    assert_eq!(it.oracle.calls, 2);
}

#[test]
fn unlinked_part_and_whole_need_the_oracle() {
    // both masks leave edges in both tables, and nothing links them
    let mut b = Balancer::new();
    b.record(1, 4, BalanceResult::Left);
    b.record(3, 8, BalanceResult::Left);
    b.record(1, 16, BalanceResult::Right);
    b.record(3, 32, BalanceResult::Right);
    let mut it = scale(&[1, 1, 1, 1, 1, 1], 5);
    assert_eq!(b.get_result(&vec![0], &vec![0, 1], &mut it), BalanceResult::Left);
    assert_eq!(it.oracle.calls, 1);
}

#[test]
fn sets_that_differ_in_one_item_follow_the_items() {
    let mut b = Balancer::new();
    let mut it = scale(&[1, 2, 7], 5);
    assert_eq!(b.get_result(&vec![0], &vec![1], &mut it), BalanceResult::Left);
    assert_eq!(it.oracle.calls, 1);
    // {0, 2} against {1, 2}: the common item 2 does not matter
    assert_eq!(b.get_result(&vec![0, 2], &vec![1, 2], &mut it), BalanceResult::Left);
    assert_eq!(it.oracle.calls, 1);
    assert_eq!(b.get_result(&vec![1, 2], &vec![0, 2], &mut it), BalanceResult::Right);
    assert_eq!(it.oracle.calls, 1);
}

#[test]
fn recording_follows_the_finding() {
    let mut b = Balancer::new();
    b.record(1, 2, BalanceResult::Left);
    assert_eq!(b.left_edges.get(&1), Some(&vec![2]));
    assert_eq!(b.right_edges.get(&2), Some(&vec![1]));
    b.record(4, 8, BalanceResult::Right);
    assert_eq!(b.left_edges.get(&8), Some(&vec![4]));
    assert_eq!(b.right_edges.get(&4), Some(&vec![8]));
    b.record(16, 32, BalanceResult::Unknown);
    assert_eq!(b.left_edges.len(), 2);
    assert_eq!(b.right_edges.len(), 2);
    b.record(1, 64, BalanceResult::Equal);
    assert_eq!(b.left_edges.get(&1), Some(&vec![2, 64]));
    assert_eq!(b.right_edges.get(&64), Some(&vec![1]));
}

#[test]
fn edges_are_kept_once() {
    let mut edges: BTreeMap<u128, Vec<u128>> = BTreeMap::new();
    add_edge(&mut edges, 1, 2);
    add_edge(&mut edges, 1, 2);
    add_edge(&mut edges, 1, 3);
    add_edge(&mut edges, 1, 2);
    add_edge(&mut edges, 2, 1);
    assert_eq!(edges.get(&1), Some(&vec![2, 3]));
    assert_eq!(edges.get(&2), Some(&vec![1]));
    assert_eq!(edges.len(), 2);
}

fn chain(n: u128) -> BTreeMap<u128, Vec<u128>> {
    let mut edges: BTreeMap<u128, Vec<u128>> = BTreeMap::new();
    for i in 1..n {
        add_edge(&mut edges, i, i + 1);
    }
    edges
}

#[test]
fn search_follows_six_edges_and_no_more() {
    let edges = chain(10);
    assert!(is_reachable(&edges, 1, 2));
    assert!(is_reachable(&edges, 1, 6));
    assert!(is_reachable(&edges, 1, 7));
    assert!(!is_reachable(&edges, 1, 8));
    assert!(!is_reachable(&edges, 1, 9));
    assert!(is_reachable(&edges, 3, 9));
    assert!(!is_reachable(&edges, 2, 1));
    assert!(!is_reachable(&edges, 1, 99));
    assert!(!is_reachable(&edges, 99, 1));
}

#[test]
fn search_never_reaches_its_own_start() {
    let mut edges = chain(4);
    add_edge(&mut edges, 4, 1);
    add_edge(&mut edges, 2, 2);
    assert!(!is_reachable(&edges, 1, 1));
    assert!(!is_reachable(&edges, 2, 2));
    assert!(is_reachable(&edges, 3, 2));
}

#[test]
fn search_takes_the_short_way() {
    // a long way and a short way to 50; the long way alone is out of reach
    let mut edges = chain(9);
    add_edge(&mut edges, 9, 50);
    assert!(!is_reachable(&edges, 1, 50));
    add_edge(&mut edges, 3, 50);
    assert!(is_reachable(&edges, 1, 50));
}

#[test]
fn memory_answers_by_its_two_tables() {
    let mut b = Balancer::new();
    for i in 1..8u128 {
        b.record(i, i + 1, BalanceResult::Left);
    }
    assert_eq!(b.search_result(1, 7), BalanceResult::Left);
    assert_eq!(b.search_result(1, 8), BalanceResult::Unknown);
    assert_eq!(b.search_result(7, 1), BalanceResult::Right);
    assert_eq!(b.search_result(8, 1), BalanceResult::Unknown);
    assert_eq!(b.search_result(3, 3), BalanceResult::Unknown);
    assert_eq!(b.search_result(40, 41), BalanceResult::Unknown);
}

#[test]
fn a_lighter_item_is_found_behind_another_mask() {
    let mut b = Balancer::new();
    // item 0 is heavier than the set {5, 6}, which is heavier than item 1
    b.record(1, 96, BalanceResult::Right);
    b.record(96, 2, BalanceResult::Right);
    assert_eq!(b.find_lighter_in_group(0, &vec![0, 1]), 1);
    assert_eq!(b.find_lighter_in_group(0, &vec![1, 0, 3]), 1);
    // item 1 is not in the group
    assert_eq!(b.find_lighter_in_group(0, &vec![0, 3]), 0);
    // nothing is known to be lighter than item 1
    assert_eq!(b.find_lighter_in_group(1, &vec![0, 1]), 1);
}

#[test]
fn a_lighter_item_straight_behind_counts() {
    let mut b = Balancer::new();
    b.record(1, 2, BalanceResult::Right);
    assert_eq!(b.find_lighter_in_group(0, &vec![0, 1]), 1);
    assert_eq!(b.find_lighter_in_group(1, &vec![0, 1]), 1);
    // behind item 1 lies item 2, two steps from item 0
    b.record(2, 4, BalanceResult::Right);
    assert_eq!(b.find_lighter_in_group(0, &vec![0, 1, 2]), 2);
    assert_eq!(b.find_lighter_in_group(0, &vec![0, 1]), 1);
}

#[test]
fn the_walk_for_a_lighter_item_has_no_depth_limit() {
    let mut b = Balancer::new();
    // 1 > 96 > 192 > 384 > 768 > 1536 > 3072 > 6144 > item 1
    let masks: [u128; 8] = [1, 96, 192, 384, 768, 1536, 3072, 6144];
    for w in masks.windows(2) {
        b.record(w[0], w[1], BalanceResult::Right);
    }
    b.record(6144, 2, BalanceResult::Right);
    assert_eq!(b.find_lighter_in_group(0, &vec![0, 1]), 1);
}

#[test]
fn the_item_found_deepest_wins() {
    let mut b = Balancer::new();
    // item 0 > {5, 6} > item 1, and {5, 6} > {6, 7} > item 2
    b.record(1, 96, BalanceResult::Right);
    b.record(96, 2, BalanceResult::Right);
    b.record(96, 192, BalanceResult::Right);
    b.record(192, 4, BalanceResult::Right);
    assert_eq!(b.find_lighter_in_group(0, &vec![0, 1, 2]), 2);
    assert_eq!(b.find_lighter_in_group(0, &vec![0, 1]), 1);
    assert_eq!(b.find_lighter_in_group(0, &vec![0, 2]), 2);
}

#[test]
fn of_items_found_equally_deep_the_first_wins() {
    let mut b = Balancer::new();
    // behind {5, 6} lie item 1 and item 2; the walk looks at the later edge last
    b.record(1, 96, BalanceResult::Right);
    b.record(96, 2, BalanceResult::Right);
    b.record(96, 4, BalanceResult::Right);
    assert_eq!(b.find_lighter_in_group(0, &vec![0, 1, 2]), 1);
}

#[test]
fn an_empty_memory_gives_the_item_itself() {
    let b = Balancer::new();
    assert_eq!(b.find_lighter_in_group(7, &vec![1, 7, 9]), 7);
    assert_eq!(b.find_lighter_in_group(127, &vec![127]), 127);
}

fn weight_of(mask: u128, weights: &[u64]) -> u64 {
    (0..weights.len()).filter(|i| (mask >> i) & 1 == 1).map(|i| weights[i]).sum()
}

#[test]
fn a_memory_fed_with_true_answers_holds_true_findings() {
    let weights = [7u64, 3, 9, 4, 4, 12, 1, 6];
    let mut b = Balancer::new();
    let mut it = scale(&weights, 100);
    let lists: Vec<Vec<usize>> = vec![
        vec![0],
        vec![1],
        vec![0, 1],
        vec![2],
        vec![3],
        vec![4],
        vec![3, 4],
        vec![1, 2],
        vec![0, 2],
        vec![5],
        vec![6, 7],
        vec![0, 6],
        vec![1, 6],
        vec![2, 3, 4],
    ];
    for l in &lists {
        for r in &lists {
            if l.iter().any(|i| r.contains(i)) {
                continue;
            }
            let lw: u64 = l.iter().map(|i| weights[*i]).sum();
            let rw: u64 = r.iter().map(|i| weights[*i]).sum();
            match b.get_result(l, r, &mut it) {
                BalanceResult::Left => assert!(lw <= rw),
                BalanceResult::Right => assert!(lw >= rw),
                BalanceResult::Equal => assert_eq!(lw, rw),
                BalanceResult::Unknown => panic!("the budget was not used up"),
            }
        }
    }
    for (a, list) in b.left_edges.iter() {
        for z in list {
            assert!(weight_of(*a, &weights) <= weight_of(*z, &weights));
        }
    }
    for (a, list) in b.right_edges.iter() {
        for z in list {
            assert!(weight_of(*a, &weights) >= weight_of(*z, &weights));
        }
    }
    // much was derived: far fewer questions than comparisons
    assert!(it.query_count < 100);
}
