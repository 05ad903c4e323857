use weight_balancer::balancer::Balancer;
use weight_balancer::def::{BalanceResult, Input};
use weight_balancer::interactor::{Interactor, Oracle};
use weight_balancer::rank::{
    sort_groups, update_rank, update_rank_binary_search, update_rank_linear_search,
};
use weight_balancer::util::rnd::Rng;

/// An oracle that knows the weights.
struct Scale {
    weights: Vec<u64>,
    calls: usize,
}

impl Oracle for Scale {
    fn compare(&mut self, left_v: &Vec<usize>, right_v: &Vec<usize>) -> BalanceResult {
        self.calls += 1;
        let l: u64 = left_v.iter().map(|i| self.weights[*i]).sum();
        let r: u64 = right_v.iter().map(|i| self.weights[*i]).sum();
        if l < r {
            BalanceResult::Left
        } else if l > r {
            BalanceResult::Right
        } else {
            BalanceResult::Equal
        }
    }
}

fn scale(weights: &[u64], q: usize) -> Interactor<Scale> {
    let mut it = Interactor::new(Scale { weights: weights.to_vec(), calls: 0 });
    it.read_input(weights.len(), 1, q);
    it
}

/// One group per item: group `g` holds item `g`.
fn singles(n: usize) -> Vec<Vec<usize>> {
    (0..n).map(|i| vec![i]).collect()
}

fn is_permutation(rank: &Vec<usize>, d: usize) -> bool {
    let mut seen = vec![false; d];
    for g in rank {
        if *g >= d || seen[*g] {
            return false;
        }
        seen[*g] = true;
    }
    rank.len() == d
}

#[test]
fn a_single_group_is_never_moved() {
    let groups = vec![vec![0, 1, 2]];
    let mut rank = vec![0];
    let mut it = scale(&[1, 2, 3], 10);
    let mut b = Balancer::new();
    let input = Input { n: 3, d: 1, q: 10 };
    assert!(update_rank(&mut rank, &groups, true, 0, 0, &input, &mut it, &mut b));
    assert!(update_rank(&mut rank, &groups, false, 0, 0, &input, &mut it, &mut b));
    assert!(update_rank_linear_search(&mut rank, &groups, true, 0, 0, &mut it, &mut b));
    assert!(update_rank_linear_search(&mut rank, &groups, false, 0, 0, &mut it, &mut b));
    assert!(update_rank_binary_search(&mut rank, &groups, true, 0, 0, &mut it, &mut b));
    assert!(update_rank_binary_search(&mut rank, &groups, false, 0, 0, &mut it, &mut b));
    assert_eq!(rank, vec![0]);
    assert_eq!(it.query_count, 0);
    assert_eq!(it.oracle.calls, 0);
    assert!(b.left_edges.is_empty());
}

#[test]
fn an_empty_window_is_a_no_op_for_the_linear_variant() {
    let groups = singles(3);
    let mut rank = vec![2, 0, 1];
    let mut it = scale(&[1, 2, 3], 10);
    let mut b = Balancer::new();
    assert!(update_rank_linear_search(&mut rank, &groups, true, 2, 1, &mut it, &mut b));
    assert!(update_rank_linear_search(&mut rank, &groups, false, 1, 1, &mut it, &mut b));
    assert_eq!(rank, vec![2, 0, 1]);
    assert_eq!(it.oracle.calls, 0);
}

#[test]
fn linear_variant_lets_a_lighter_group_sink() {
    // weights of the groups 0..3: 15, 10, 20, 30
    let groups = singles(4);
    let mut rank = vec![1, 2, 3, 0];
    let mut it = scale(&[15, 10, 20, 30], 10);
    let mut b = Balancer::new();
    assert!(update_rank_linear_search(&mut rank, &groups, true, 0, 3, &mut it, &mut b));
    assert_eq!(rank, vec![1, 0, 2, 3]);
    assert_eq!(it.query_count, 3);
}

#[test]
fn linear_variant_lets_a_heavier_group_rise() {
    // weights of the groups 0..3: 25, 10, 20, 30
    let groups = singles(4);
    let mut rank = vec![0, 1, 2, 3];
    let mut it = scale(&[25, 10, 20, 30], 10);
    let mut b = Balancer::new();
    assert!(update_rank_linear_search(&mut rank, &groups, false, 0, 3, &mut it, &mut b));
    assert_eq!(rank, vec![1, 2, 0, 3]);
    assert_eq!(it.query_count, 3);
}

#[test]
fn linear_variant_stays_within_its_window() {
    // the group at the top is the lightest, but the window ends at place 1
    let groups = singles(4);
    let mut rank = vec![1, 2, 3, 0];
    let mut it = scale(&[5, 10, 20, 30], 10);
    let mut b = Balancer::new();
    assert!(update_rank_linear_search(&mut rank, &groups, true, 1, 3, &mut it, &mut b));
    assert_eq!(rank, vec![1, 0, 2, 3]);
    assert_eq!(it.query_count, 2);
}

#[test]
fn linear_variant_stops_at_an_equal_neighbour() {
    let groups = singles(3);
    let mut rank = vec![0, 1, 2];
    let mut it = scale(&[10, 20, 20], 10);
    let mut b = Balancer::new();
    assert!(update_rank_linear_search(&mut rank, &groups, true, 0, 2, &mut it, &mut b));
    assert_eq!(rank, vec![0, 1, 2]);
    assert_eq!(it.query_count, 1);
}

#[test]
fn linear_variant_gives_up_when_nothing_can_be_asked() {
    let groups = singles(4);
    let mut rank = vec![1, 2, 3, 0];
    let mut it = scale(&[15, 10, 20, 30], 1);
    let mut b = Balancer::new();
    assert!(!update_rank_linear_search(&mut rank, &groups, true, 0, 3, &mut it, &mut b));
    // one exchange was made before the budget ran out
    assert_eq!(rank, vec![1, 2, 0, 3]);
    assert_eq!(it.query_count, 1);
}

#[test]
fn linear_variant_uses_what_is_known() {
    let groups = singles(3);
    let mut rank = vec![1, 2, 0];
    let mut it = scale(&[1, 2, 3], 10);
    let mut b = Balancer::new();
    assert_eq!(b.get_result(&vec![2], &vec![0], &mut it), BalanceResult::Right);
    assert_eq!(b.get_result(&vec![1], &vec![0], &mut it), BalanceResult::Right);
    assert_eq!(it.query_count, 2);
    assert!(update_rank_linear_search(&mut rank, &groups, true, 0, 2, &mut it, &mut b));
    assert_eq!(rank, vec![0, 1, 2]);
    assert_eq!(it.query_count, 2);
}

#[test]
fn binary_variant_finds_the_place_from_above() {
    // weights of the groups 0..8; group 7 weighs 35
    let groups = singles(8);
    let mut rank = vec![0, 1, 2, 3, 4, 5, 6, 7];
    let mut it = scale(&[10, 20, 30, 40, 50, 60, 70, 35], 10);
    let mut b = Balancer::new();
    assert!(update_rank_binary_search(&mut rank, &groups, true, 0, 7, &mut it, &mut b));
    assert_eq!(rank, vec![0, 1, 2, 7, 3, 4, 5, 6]);
    assert_eq!(it.query_count, 3);
}

#[test]
fn binary_variant_finds_the_place_from_below() {
    // group 0 weighs 55
    let groups = singles(8);
    let mut rank = vec![0, 1, 2, 3, 4, 5, 6, 7];
    let mut it = scale(&[55, 20, 30, 40, 50, 60, 70, 80], 10);
    let mut b = Balancer::new();
    assert!(update_rank_binary_search(&mut rank, &groups, false, 0, 7, &mut it, &mut b));
    assert_eq!(rank, vec![1, 2, 3, 4, 0, 5, 6, 7]);
    assert_eq!(it.query_count, 3);
}

#[test]
fn binary_variant_puts_an_equal_group_above() {
    let groups = singles(3);
    let mut rank = vec![0, 1, 2];
    let mut it = scale(&[10, 10, 10], 10);
    let mut b = Balancer::new();
    assert!(update_rank_binary_search(&mut rank, &groups, false, 0, 2, &mut it, &mut b));
    assert_eq!(rank, vec![1, 2, 0]);
}

#[test]
fn binary_variant_puts_the_group_back_when_nothing_can_be_asked() {
    let groups = singles(8);
    let mut rank = vec![0, 1, 2, 3, 4, 5, 6, 7];
    let mut it = scale(&[10, 20, 30, 40, 50, 60, 70, 35], 1);
    let mut b = Balancer::new();
    assert!(!update_rank_binary_search(&mut rank, &groups, true, 0, 7, &mut it, &mut b));
    assert_eq!(rank, vec![0, 1, 2, 3, 4, 5, 6, 7]);
    assert_eq!(it.query_count, 1);
}

#[test]
fn the_variant_is_chosen_by_the_number_of_groups() {
    // with 7 groups neighbours are exchanged: 6 comparisons to sink to the bottom
    let groups = singles(8);
    let mut rank = vec![0, 1, 2, 3, 4, 5, 6, 7];
    let weights = [10, 20, 30, 40, 50, 60, 70, 5];
    let mut it = scale(&weights, 20);
    let mut b = Balancer::new();
    let few = Input { n: 8, d: 7, q: 20 };
    assert!(update_rank(&mut rank, &groups, true, 0, 7, &few, &mut it, &mut b));
    assert_eq!(rank, vec![7, 0, 1, 2, 3, 4, 5, 6]);
    assert_eq!(it.query_count, 7);

    // with 8 groups the window is halved: 3 comparisons
    let mut rank = vec![0, 1, 2, 3, 4, 5, 6, 7];
    let mut it = scale(&weights, 20);
    let mut b = Balancer::new();
    let many = Input { n: 8, d: 8, q: 20 };
    assert!(update_rank(&mut rank, &groups, true, 0, 7, &many, &mut it, &mut b));
    assert_eq!(rank, vec![7, 0, 1, 2, 3, 4, 5, 6]);
    assert_eq!(it.query_count, 3);
}

#[test]
fn first_rank_orders_the_groups_by_weight() {
    let groups = vec![vec![0, 1], vec![2], vec![3, 4, 5], vec![6]];
    // group weights: 9, 1, 30, 4
    let weights = [4, 5, 1, 10, 10, 10, 4];
    let mut it = scale(&weights, 100);
    let mut b = Balancer::new();
    let mut rng = Rng::new();
    let input = Input { n: 7, d: 4, q: 100 };
    let rank = sort_groups(&groups, &input, &mut it, &mut b, &mut rng);
    assert_eq!(rank, vec![1, 3, 0, 2]);
    assert!(it.query_count <= 6);
}

#[test]
fn first_rank_names_every_group_even_without_budget() {
    let groups = singles(6);
    let mut it = scale(&[6, 5, 4, 3, 2, 1], 0);
    let mut b = Balancer::new();
    let mut rng = Rng::new();
    let input = Input { n: 6, d: 6, q: 0 };
    let rank = sort_groups(&groups, &input, &mut it, &mut b, &mut rng);
    assert!(is_permutation(&rank, 6));
    assert_eq!(it.oracle.calls, 0);
}

#[test]
fn first_rank_names_every_group_when_the_budget_runs_out() {
    let groups = singles(9);
    let weights = [6, 5, 4, 3, 2, 1, 9, 8, 7];
    for q in 0..20 {
        let mut it = scale(&weights, q);
        let mut b = Balancer::new();
        let mut rng = Rng::new();
        let input = Input { n: 9, d: 9, q };
        let rank = sort_groups(&groups, &input, &mut it, &mut b, &mut rng);
        assert!(is_permutation(&rank, 9));
        assert!(it.query_count <= q);
    }
}

#[test]
fn first_rank_of_groups_without_items_costs_nothing() {
    let groups: Vec<Vec<usize>> = vec![vec![], vec![], vec![]];
    let mut it = scale(&[], 5);
    let mut b = Balancer::new();
    let mut rng = Rng::new();
    let input = Input { n: 0, d: 3, q: 5 };
    let rank = sort_groups(&groups, &input, &mut it, &mut b, &mut rng);
    assert!(is_permutation(&rank, 3));
    assert_eq!(it.oracle.calls, 0);
}

#[test]
fn first_rank_of_one_group_is_that_group() {
    let groups = vec![vec![0, 1]];
    let mut it = scale(&[1, 2], 5);
    let mut b = Balancer::new();
    let mut rng = Rng::new();
    let input = Input { n: 2, d: 1, q: 5 };
    assert_eq!(sort_groups(&groups, &input, &mut it, &mut b, &mut rng), vec![0]);
    assert_eq!(sort_groups(&vec![], &input, &mut it, &mut b, &mut rng), Vec::<usize>::new());
    assert_eq!(it.oracle.calls, 0);
    assert_eq!(rng.state, Rng::new().state);
}

#[test]
fn a_settled_pair_is_put_right_without_a_comparison() {
    let groups = singles(2);
    let mut rank = vec![0, 1];
    let mut it = scale(&[5, 3], 10);
    let mut b = Balancer::new();
    assert_eq!(b.get_result(&vec![0], &vec![1], &mut it), BalanceResult::Right);
    assert_eq!(it.query_count, 1);
    let input = Input { n: 2, d: 2, q: 10 };
    assert!(update_rank(&mut rank, &groups, true, 0, 1, &input, &mut it, &mut b));
    assert_eq!(rank, vec![1, 0]);
    assert_eq!(it.query_count, 1);
}

#[test]
fn linear_variant_puts_a_settled_pair_right_without_a_comparison() {
    let groups = singles(2);
    let mut rank = vec![0, 1];
    let mut it = scale(&[5, 3], 10);
    let mut b = Balancer::new();
    assert_eq!(b.get_result(&vec![0], &vec![1], &mut it), BalanceResult::Right);
    assert!(update_rank_linear_search(&mut rank, &groups, false, 0, 1, &mut it, &mut b));
    assert_eq!(rank, vec![1, 0]);
    assert_eq!(it.query_count, 1);
}

#[test]
fn binary_variant_uses_what_is_known() {
    let groups = singles(3);
    let mut rank = vec![0, 1, 2];
    let mut it = scale(&[2, 3, 1], 10);
    let mut b = Balancer::new();
    assert_eq!(b.get_result(&vec![2], &vec![0], &mut it), BalanceResult::Left);
    assert_eq!(b.get_result(&vec![2], &vec![1], &mut it), BalanceResult::Left);
    assert_eq!(it.query_count, 2);
    assert!(update_rank_binary_search(&mut rank, &groups, true, 0, 2, &mut it, &mut b));
    assert_eq!(rank, vec![2, 0, 1]);
    assert_eq!(it.query_count, 2);
}

#[test]
fn first_rank_uses_what_is_known() {
    let groups = singles(2);
    let mut it = scale(&[5, 3], 10);
    let mut b = Balancer::new();
    let mut rng = Rng::new();
    assert_eq!(b.get_result(&vec![0], &vec![1], &mut it), BalanceResult::Right);
    let input = Input { n: 2, d: 2, q: 10 };
    let rank = sort_groups(&groups, &input, &mut it, &mut b, &mut rng);
    assert_eq!(rank, vec![1, 0]);
    assert_eq!(it.query_count, 1);
}
