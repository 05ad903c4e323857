use weight_balancer::action::{
    action_move, action_swap, action_swap2, position_of, select_lighter_item,
};
use weight_balancer::balancer::Balancer;
use weight_balancer::def::{BalanceResult, Input};
use weight_balancer::interactor::{Interactor, Oracle};
use weight_balancer::util::rnd::Rng;

/// An oracle that knows the weights and keeps what it was asked.
struct Scale {
    weights: Vec<u64>,
    asked: Vec<(Vec<usize>, Vec<usize>)>,
}

impl Oracle for Scale {
    fn compare(&mut self, left_v: &Vec<usize>, right_v: &Vec<usize>) -> BalanceResult {
        self.asked.push((left_v.clone(), right_v.clone()));
        let l: u64 = left_v.iter().map(|i| self.weights[*i]).sum();
        let r: u64 = right_v.iter().map(|i| self.weights[*i]).sum();
        if l < r {
            BalanceResult::Left
        } else if l > r {
            BalanceResult::Right
        } else {
            BalanceResult::Equal
        }
    }
}

fn scale(weights: &[u64], q: usize) -> Interactor<Scale> {
    let mut it = Interactor::new(Scale { weights: weights.to_vec(), asked: vec![] });
    it.read_input(weights.len(), 2, q);
    it
}

fn masks(groups: &Vec<Vec<usize>>) -> Vec<u128> {
    let b = Balancer::new();
    groups.iter().map(|g| b.to_hash(g)).collect()
}

fn item_count(groups: &Vec<Vec<usize>>) -> usize {
    groups.iter().map(|g| g.len()).sum()
}

fn is_partition(groups: &Vec<Vec<usize>>, n: usize) -> bool {
    let mut seen = vec![0usize; n];
    for g in groups {
        for e in g {
            if *e >= n {
                return false;
            }
            seen[*e] += 1;
        }
    }
    seen.iter().all(|c| *c == 1)
}

#[test]
fn position_is_the_first_place() {
    assert_eq!(position_of(&vec![4, 7, 4, 9], 4), Some(0));
    assert_eq!(position_of(&vec![4, 7, 4, 9], 9), Some(3));
    assert_eq!(position_of(&vec![4, 7, 4, 9], 5), None);
    assert_eq!(position_of(&vec![], 0), None);
}

#[test]
fn selection_without_knowledge_is_the_draw() {
    let b = Balancer::new();
    let mut rng = Rng::new();
    // 11373782495151020392 % 5 == 2
    assert_eq!(select_lighter_item(&vec![10, 11, 12, 13, 14], &b, &mut rng), 12);
    assert_eq!(rng.state, 11373782495151020392);
}

#[test]
fn selection_prefers_an_item_known_to_be_lighter() {
    let mut b = Balancer::new();
    // item 12 is heavier than the set {0, 1}, which is heavier than item 14
    b.record(1 << 12, 3, BalanceResult::Right);
    b.record(3, 1 << 14, BalanceResult::Right);
    let mut rng = Rng::new();
    assert_eq!(select_lighter_item(&vec![10, 11, 12, 13, 14], &b, &mut rng), 14);
}

#[test]
fn move_of_four_items_between_two_groups() {
    // {0, 2} weighs 8, {1, 3} weighs 3
    let mut groups = vec![vec![0, 2], vec![1, 3]];
    let mut rank = vec![1, 0];
    let input = Input { n: 4, d: 2, q: 10 };
    let mut it = scale(&[3, 1, 5, 2], 10);
    let mut b = Balancer::new();
    let mut rng = Rng::new();
    assert!(action_move(1, 0, &mut groups, &mut rank, &input, &mut b, &mut it, &mut rng));
    // item 0 went over; now {2} weighs 5 and {1, 3, 0} weighs 6
    assert_eq!(groups, vec![vec![2], vec![1, 3, 0]]);
    assert_eq!(rank, vec![0, 1]);
    assert_eq!(it.query_count, 2);
    assert_eq!(it.oracle.asked, vec![(vec![1, 3], vec![2]), (vec![1, 3, 0], vec![2])]);
    assert!(is_partition(&groups, 4));
    assert!(it.query_count <= 10);
}

#[test]
fn move_that_does_not_help_is_undone() {
    let mut groups = vec![vec![0, 2], vec![1, 3]];
    let mut rank = vec![1, 0];
    let before = masks(&groups);
    let input = Input { n: 4, d: 2, q: 10 };
    // without item 0 the heavier group weighs 1, the lighter one 2
    let mut it = scale(&[9, 1, 1, 1], 10);
    let mut b = Balancer::new();
    let mut rng = Rng::new();
    assert!(!action_move(1, 0, &mut groups, &mut rank, &input, &mut b, &mut it, &mut rng));
    assert_eq!(masks(&groups), before);
    assert_eq!(groups, vec![vec![2, 0], vec![1, 3]]);
    assert_eq!(rank, vec![1, 0]);
    assert_eq!(it.query_count, 1);
    assert_eq!(item_count(&groups), 4);
}

#[test]
fn move_to_equal_weights_is_undone() {
    let mut groups = vec![vec![0, 2], vec![1, 3]];
    let mut rank = vec![1, 0];
    let before = masks(&groups);
    let input = Input { n: 4, d: 2, q: 10 };
    let mut it = scale(&[9, 1, 2, 1], 10);
    let mut b = Balancer::new();
    let mut rng = Rng::new();
    assert!(!action_move(1, 0, &mut groups, &mut rank, &input, &mut b, &mut it, &mut rng));
    assert_eq!(masks(&groups), before);
    assert_eq!(rank, vec![1, 0]);
}

#[test]
fn move_without_budget_is_undone() {
    let mut groups = vec![vec![0, 2], vec![1, 3]];
    let mut rank = vec![1, 0];
    let before = masks(&groups);
    let input = Input { n: 4, d: 2, q: 0 };
    let mut it = scale(&[3, 1, 5, 2], 0);
    let mut b = Balancer::new();
    let mut rng = Rng::new();
    assert!(!action_move(1, 0, &mut groups, &mut rank, &input, &mut b, &mut it, &mut rng));
    assert_eq!(masks(&groups), before);
    assert_eq!(rank, vec![1, 0]);
    assert_eq!(it.query_count, 0);
    assert!(it.oracle.asked.is_empty());
    assert!(is_partition(&groups, 4));
}

#[test]
fn move_stands_when_the_rank_cannot_be_settled() {
    let mut groups = vec![vec![0, 2], vec![1, 3]];
    let mut rank = vec![1, 0];
    let input = Input { n: 4, d: 2, q: 1 };
    let mut it = scale(&[3, 1, 5, 2], 1);
    let mut b = Balancer::new();
    let mut rng = Rng::new();
    assert!(action_move(1, 0, &mut groups, &mut rank, &input, &mut b, &mut it, &mut rng));
    assert_eq!(groups, vec![vec![2], vec![1, 3, 0]]);
    // the second comparison could not be asked: the rank is as it was
    assert_eq!(rank, vec![1, 0]);
    assert_eq!(it.query_count, 1);
}

#[test]
fn move_into_a_group_without_items() {
    let mut groups = vec![vec![], vec![0, 1]];
    let mut rank = vec![0, 1];
    let input = Input { n: 2, d: 2, q: 10 };
    let mut it = scale(&[4, 6], 10);
    let mut b = Balancer::new();
    let mut rng = Rng::new();
    assert!(action_move(1, 0, &mut groups, &mut rank, &input, &mut b, &mut it, &mut rng));
    assert_eq!(groups, vec![vec![0], vec![1]]);
    assert_eq!(rank, vec![0, 1]);
    assert_eq!(it.oracle.asked, vec![(vec![0], vec![1])]);
}

#[test]
fn move_of_the_last_item_is_undone() {
    let mut groups = vec![vec![1], vec![0]];
    let mut rank = vec![0, 1];
    let input = Input { n: 2, d: 2, q: 10 };
    let mut it = scale(&[6, 4], 10);
    let mut b = Balancer::new();
    let mut rng = Rng::new();
    assert!(!action_move(1, 0, &mut groups, &mut rank, &input, &mut b, &mut it, &mut rng));
    assert_eq!(groups, vec![vec![1], vec![0]]);
    assert_eq!(it.query_count, 0);
}

#[test]
fn swap_of_two_items() {
    // {0, 2} weighs 3, {1, 3} weighs 12
    let mut groups = vec![vec![0, 2], vec![1, 3]];
    let mut rank = vec![0, 1];
    let input = Input { n: 4, d: 2, q: 10 };
    let mut it = scale(&[1, 9, 2, 3], 10);
    let mut b = Balancer::new();
    let mut rng = Rng::new();
    assert!(action_swap(1, 0, &mut groups, &mut rank, &input, &mut b, &mut it, &mut rng));
    // items 0 and 1 changed places; now {2, 1} weighs 11 and {3, 0} weighs 4
    assert_eq!(groups, vec![vec![2, 1], vec![3, 0]]);
    assert_eq!(rank, vec![1, 0]);
    assert_eq!(
        it.oracle.asked,
        vec![(vec![0], vec![1]), (vec![2], vec![3]), (vec![2, 1], vec![3, 0])]
    );
    assert_eq!(it.query_count, 3);
    assert!(is_partition(&groups, 4));
}

#[test]
fn swap_is_refused_when_the_lighter_group_gives_the_heavier_item() {
    let mut groups = vec![vec![0, 2], vec![1, 3]];
    let mut rank = vec![0, 1];
    let before = groups.clone();
    let input = Input { n: 4, d: 2, q: 10 };
    let mut it = scale(&[5, 4, 1, 9], 10);
    let mut b = Balancer::new();
    let mut rng = Rng::new();
    assert!(!action_swap(1, 0, &mut groups, &mut rank, &input, &mut b, &mut it, &mut rng));
    assert_eq!(groups, before);
    assert_eq!(rank, vec![0, 1]);
    assert_eq!(it.oracle.asked, vec![(vec![0], vec![1])]);
}

#[test]
fn swap_that_turns_the_rest_round_is_undone() {
    let mut groups = vec![vec![0, 2], vec![1, 3]];
    let mut rank = vec![0, 1];
    let before = masks(&groups);
    let input = Input { n: 4, d: 2, q: 10 };
    // the items stand right, but without them {2} outweighs {3}
    let mut it = scale(&[1, 9, 4, 3], 10);
    let mut b = Balancer::new();
    let mut rng = Rng::new();
    assert!(!action_swap(1, 0, &mut groups, &mut rank, &input, &mut b, &mut it, &mut rng));
    assert_eq!(masks(&groups), before);
    assert_eq!(groups, vec![vec![2, 0], vec![3, 1]]);
    assert_eq!(rank, vec![0, 1]);
    assert_eq!(it.query_count, 2);
    assert!(is_partition(&groups, 4));
}

#[test]
fn swap_without_budget_changes_nothing() {
    let mut groups = vec![vec![0, 2], vec![1, 3]];
    let mut rank = vec![0, 1];
    let before = groups.clone();
    let input = Input { n: 4, d: 2, q: 0 };
    let mut it = scale(&[1, 9, 2, 3], 0);
    let mut b = Balancer::new();
    let mut rng = Rng::new();
    assert!(!action_swap(1, 0, &mut groups, &mut rank, &input, &mut b, &mut it, &mut rng));
    assert_eq!(groups, before);
    assert_eq!(it.query_count, 0);
}

#[test]
fn swap_of_sets_with_equal_first_items_is_a_plain_swap() {
    let mut groups = vec![vec![0, 2], vec![1, 3]];
    let mut rank = vec![0, 1];
    let input = Input { n: 4, d: 2, q: 10 };
    let mut it = scale(&[5, 5, 1, 9], 10);
    let mut b = Balancer::new();
    let mut rng = Rng::new();
    assert!(action_swap2(1, 0, &mut groups, &mut rank, &input, &mut b, &mut it, &mut rng));
    assert_eq!(groups, vec![vec![2, 1], vec![3, 0]]);
    assert_eq!(it.oracle.asked[0], (vec![0], vec![1]));
    assert_eq!(it.oracle.asked[1], (vec![2], vec![3]));
    assert!(is_partition(&groups, 4));
}

#[test]
fn swap_of_sets_without_budget_changes_nothing() {
    let mut groups = vec![vec![0, 2], vec![1, 3]];
    let mut rank = vec![0, 1];
    let before = groups.clone();
    let input = Input { n: 4, d: 2, q: 0 };
    let mut it = scale(&[1, 9, 2, 3], 0);
    let mut b = Balancer::new();
    let mut rng = Rng::new();
    assert!(!action_swap2(1, 0, &mut groups, &mut rank, &input, &mut b, &mut it, &mut rng));
    assert_eq!(groups, before);
    assert_eq!(rank, vec![0, 1]);
}

#[test]
fn swap_of_sets_grows_the_heavier_side() {
    // item 0 outweighs item 3, but not the items 3 and 4 together
    let mut groups = vec![vec![0, 2], vec![1, 3, 4]];
    let mut rank = vec![0, 1];
    let input = Input { n: 5, d: 2, q: 20 };
    let mut it = scale(&[6, 4, 1, 5, 30], 20);
    let mut b = Balancer::new();
    let mut rng = Rng::new();
    assert!(action_swap2(1, 0, &mut groups, &mut rank, &input, &mut b, &mut it, &mut rng));
    // item 0 went one way, the items 3 and 4 the other
    assert_eq!(groups, vec![vec![2, 3, 4], vec![1, 0]]);
    assert_eq!(rank, vec![1, 0]);
    assert_eq!(
        it.oracle.asked,
        vec![
            (vec![0], vec![3]),
            (vec![0], vec![3, 4]),
            (vec![2], vec![1]),
            (vec![2, 3, 4], vec![1, 0]),
        ]
    );
    assert_eq!(it.query_count, 4);
    assert!(is_partition(&groups, 5));
}

#[test]
fn swap_of_sets_grows_the_lighter_side() {
    // item 2 is lighter than item 3, and so are the items 2 and 5 together
    let mut groups = vec![vec![0, 2, 5], vec![1, 3, 4]];
    let mut rank = vec![0, 1];
    let input = Input { n: 6, d: 2, q: 20 };
    let mut it = scale(&[10, 20, 1, 9, 30, 2], 20);
    let mut b = Balancer::new();
    let mut rng = Rng::new();
    assert!(action_swap2(1, 0, &mut groups, &mut rank, &input, &mut b, &mut it, &mut rng));
    // the items 2 and 5 went one way, item 3 the other
    assert_eq!(groups, vec![vec![0, 3], vec![1, 4, 2, 5]]);
    assert_eq!(rank, vec![0, 1]);
    assert_eq!(
        it.oracle.asked,
        vec![
            (vec![2], vec![3]),
            (vec![2, 5], vec![3]),
            (vec![0], vec![1, 4]),
            (vec![0, 3], vec![1, 4, 2, 5]),
        ]
    );
    // the two first items and three trials: five draws
    assert_eq!(rng.state, 9524873121654605887);
    assert!(is_partition(&groups, 6));
}

#[test]
fn swap_of_sets_puts_the_items_back_at_the_end() {
    // the sets stand right, but what stays of the lighter group is heavier
    let mut groups = vec![vec![0, 2, 5], vec![1, 3, 4]];
    let mut rank = vec![0, 1];
    let input = Input { n: 6, d: 2, q: 20 };
    let mut it = scale(&[100, 20, 1, 9, 30, 2], 20);
    let mut b = Balancer::new();
    let mut rng = Rng::new();
    assert!(!action_swap2(1, 0, &mut groups, &mut rank, &input, &mut b, &mut it, &mut rng));
    assert_eq!(groups, vec![vec![0, 2, 5], vec![1, 4, 3]]);
    assert_eq!(rank, vec![0, 1]);
    assert_eq!(it.oracle.asked.len(), 3);
    assert_eq!(it.oracle.asked[2], (vec![0], vec![1, 4]));
}

#[test]
fn swap_of_sets_gives_up_when_no_set_stands_right() {
    // item 0 outweighs the whole heavier group
    let mut groups = vec![vec![0, 2], vec![1, 3, 4]];
    let mut rank = vec![0, 1];
    let before = groups.clone();
    let input = Input { n: 5, d: 2, q: 20 };
    let mut it = scale(&[60, 4, 1, 5, 30], 20);
    let mut b = Balancer::new();
    let mut rng = Rng::new();
    assert!(!action_swap2(1, 0, &mut groups, &mut rank, &input, &mut b, &mut it, &mut rng));
    assert_eq!(groups, before);
    assert_eq!(rank, vec![0, 1]);
    assert_eq!(it.oracle.asked[0], (vec![0], vec![3]));
    assert!(it.query_count <= 4);
}

#[test]
fn every_action_keeps_every_item() {
    let weights: Vec<u64> = vec![31, 4, 15, 9, 26, 5, 35, 8, 9, 7, 9, 3];
    let input = Input { n: 12, d: 3, q: 60 };
    let mut groups = vec![vec![0, 3, 6, 9], vec![1, 4, 7, 10], vec![2, 5, 8, 11]];
    // group weights: 82, 47, 32
    let mut rank = vec![2, 1, 0];
    let mut it = scale(&weights, 60);
    let mut b = Balancer::new();
    let mut rng = Rng::new();
    for round in 0..30 {
        let before = masks(&groups);
        let rank_before = rank.clone();
        if groups[rank[0]].is_empty() || groups[rank[2]].is_empty() {
            break;
        }
        let accepted = match round % 3 {
            0 => action_move(2, 0, &mut groups, &mut rank, &input, &mut b, &mut it, &mut rng),
            1 => action_swap(2, 0, &mut groups, &mut rank, &input, &mut b, &mut it, &mut rng),
            _ => action_swap2(2, 0, &mut groups, &mut rank, &input, &mut b, &mut it, &mut rng),
        };
        assert_eq!(item_count(&groups), 12);
        assert!(is_partition(&groups, 12));
        assert!(it.query_count <= 60);
        let mut sorted = rank.clone();
        sorted.sort();
        assert_eq!(sorted, vec![0, 1, 2]);
        if !accepted {
            assert_eq!(masks(&groups), before);
            assert_eq!(rank, rank_before);
        } else {
            assert_ne!(masks(&groups), before);
        }
    }
}

#[test]
fn an_accepted_action_does_not_drive_the_groups_apart() {
    let weights: Vec<u64> = vec![31, 4, 15, 9, 26, 5, 35, 8, 9, 7, 9, 3, 14, 22, 1, 40];
    let weigh = |g: &Vec<usize>| -> i64 { g.iter().map(|i| weights[*i] as i64).sum() };
    let input = Input { n: 16, d: 2, q: 200 };
    let mut groups = vec![vec![1, 3, 5, 7, 9, 11, 14, 2], vec![0, 4, 6, 8, 10, 12, 13, 15]];
    let mut rank = vec![0, 1];
    let mut it = scale(&weights, 200);
    let mut b = Balancer::new();
    let mut rng = Rng::new();
    let mut accepted_once = false;
    for round in 0..40 {
        let light = rank[0];
        let heavy = rank[1];
        if groups[light].is_empty() || groups[heavy].is_empty() {
            break;
        }
        let gap = weigh(&groups[heavy]) - weigh(&groups[light]);
        let accepted = match round % 3 {
            0 => action_move(1, 0, &mut groups, &mut rank, &input, &mut b, &mut it, &mut rng),
            1 => action_swap(1, 0, &mut groups, &mut rank, &input, &mut b, &mut it, &mut rng),
            _ => action_swap2(1, 0, &mut groups, &mut rank, &input, &mut b, &mut it, &mut rng),
        };
        if accepted {
            accepted_once = true;
            let now = weigh(&groups[heavy]) - weigh(&groups[light]);
            assert!(gap >= 0);
            assert!(now.abs() <= gap);
        }
        assert!(is_partition(&groups, 16));
    }
    assert!(accepted_once);
}

#[test]
fn swap_of_sets_of_two_single_items() {
    let mut groups = vec![vec![0], vec![1]];
    let mut rank = vec![0, 1];
    let input = Input { n: 2, d: 2, q: 10 };
    let mut it = scale(&[1, 2], 10);
    let mut b = Balancer::new();
    let mut rng = Rng::new();
    assert!(action_swap2(1, 0, &mut groups, &mut rank, &input, &mut b, &mut it, &mut rng));
    assert_eq!(groups, vec![vec![1], vec![0]]);
    assert_eq!(rank, vec![1, 0]);
    // only the two items were compared; all else was known or needed no comparison
    assert_eq!(it.oracle.asked, vec![(vec![0], vec![1])]);
    assert_eq!(it.query_count, 1);
}

#[test]
fn move_between_two_single_items_asks_nothing() {
    let mut groups = vec![vec![0], vec![1]];
    let mut rank = vec![0, 1];
    let input = Input { n: 2, d: 2, q: 10 };
    let mut it = scale(&[1, 2], 10);
    let mut b = Balancer::new();
    let mut rng = Rng::new();
    assert!(!action_move(1, 0, &mut groups, &mut rank, &input, &mut b, &mut it, &mut rng));
    assert_eq!(groups, vec![vec![0], vec![1]]);
    assert_eq!(rank, vec![0, 1]);
    assert_eq!(it.query_count, 0);
    assert!(it.oracle.asked.is_empty());
    // the memory is as it was: the two items are still to be compared
    assert_eq!(b.get_result(&vec![0], &vec![1], &mut it), BalanceResult::Left);
    assert_eq!(it.query_count, 1);
}

#[test]
fn swap_with_the_heavier_item_in_the_lighter_group_costs_one_comparison() {
    let mut groups = vec![vec![0, 2], vec![1, 3]];
    let mut rank = vec![0, 1];
    let input = Input { n: 4, d: 2, q: 10 };
    let mut it = scale(&[5, 4, 1, 9], 10);
    let mut b = Balancer::new();
    let mut rng = Rng::new();
    assert!(!action_swap(1, 0, &mut groups, &mut rank, &input, &mut b, &mut it, &mut rng));
    assert_eq!(groups, vec![vec![0, 2], vec![1, 3]]);
    assert_eq!(rank, vec![0, 1]);
    assert_eq!(it.query_count, 1);
}
