use weight_balancer::def::{BalanceResult, Input};
use weight_balancer::interactor::{Interactor, Oracle};
use weight_balancer::search::{
    apply, choose_action, groups_to_output_d, init_groups, search_radius, select_g_idx_pair, solve,
    ActionKind, Clock, Timer,
};
use weight_balancer::balancer::Balancer;
use weight_balancer::util::rnd::Rng;

/// An oracle that knows the weights.
struct Scale {
    weights: Vec<u64>,
    calls: usize,
}

impl Oracle for Scale {
    fn compare(&mut self, left_v: &Vec<usize>, right_v: &Vec<usize>) -> BalanceResult {
        self.calls += 1;
        let l: u64 = left_v.iter().map(|i| self.weights[*i]).sum();
        let r: u64 = right_v.iter().map(|i| self.weights[*i]).sum();
        if l < r {
            BalanceResult::Left
        } else if l > r {
            BalanceResult::Right
        } else {
            BalanceResult::Equal
        }
    }
}

/// An oracle that refuses whatever it is asked.
struct Refusing {
    calls: usize,
}

impl Oracle for Refusing {
    fn compare(&mut self, _left_v: &Vec<usize>, _right_v: &Vec<usize>) -> BalanceResult {
        self.calls += 1;
        BalanceResult::Unknown
    }
}

/// A clock that goes on by a fixed step each time it is read.
struct Ticking {
    now: u64,
    step: u64,
}

impl Clock for Ticking {
    fn elapsed_millis(&mut self) -> u64 {
        let t = self.now;
        self.now += self.step;
        t
    }
}

fn is_partition(groups: &Vec<Vec<usize>>, n: usize) -> bool {
    let mut seen = vec![0usize; n];
    for g in groups {
        for e in g {
            if *e >= n {
                return false;
            }
            seen[*e] += 1;
        }
    }
    seen.iter().all(|c| *c == 1)
}

#[test]
fn items_are_dealt_out_in_turn() {
    assert_eq!(init_groups(&Input { n: 5, d: 2, q: 0 }), vec![vec![0, 2, 4], vec![1, 3]]);
    assert_eq!(init_groups(&Input { n: 2, d: 3, q: 0 }), vec![vec![0], vec![1], vec![]]);
    assert_eq!(init_groups(&Input { n: 0, d: 1, q: 0 }), vec![Vec::<usize>::new()]);
    assert_eq!(init_groups(&Input { n: 3, d: 1, q: 0 }), vec![vec![0, 1, 2]]);
}

#[test]
fn answer_gives_each_item_its_group() {
    let input = Input { n: 4, d: 2, q: 0 };
    assert_eq!(groups_to_output_d(&vec![vec![0, 2], vec![1, 3]], &input), vec![0, 1, 0, 1]);
    assert_eq!(groups_to_output_d(&vec![vec![3], vec![2, 0, 1]], &input), vec![1, 1, 1, 0]);
    // an item in two groups goes to the last, an item in none to group 0
    assert_eq!(groups_to_output_d(&vec![vec![1], vec![1, 3], vec![]], &input), vec![0, 1, 0, 1]);
    assert_eq!(groups_to_output_d(&vec![], &input), vec![0, 0, 0, 0]);
    let none = Input { n: 0, d: 2, q: 0 };
    assert_eq!(groups_to_output_d(&vec![vec![], vec![]], &none), Vec::<usize>::new());
}

#[test]
fn radius_widens_with_time() {
    assert_eq!(search_radius(0), 1);
    assert_eq!(search_radius(179), 1);
    assert_eq!(search_radius(180), 2);
    assert_eq!(search_radius(539), 2);
    assert_eq!(search_radius(540), 3);
    assert_eq!(search_radius(1799), 6);
    assert_eq!(search_radius(1_000_000), 2779);
    assert_eq!(search_radius(u64::MAX), 51240955760304311);
}

#[test]
fn kinds_of_action_share_the_draws() {
    assert_eq!(choose_action(0), ActionKind::Move);
    assert_eq!(choose_action(2147483647), ActionKind::Move);
    assert_eq!(choose_action(2147483648), ActionKind::Swap);
    assert_eq!(choose_action(3865470566), ActionKind::Swap);
    assert_eq!(choose_action(3865470567), ActionKind::Swap2);
    assert_eq!(choose_action(u32::MAX), ActionKind::Swap2);
}

#[test]
fn pair_is_picked_near_the_ends() {
    let input = Input { n: 40, d: 10, q: 0 };
    let mut rng = Rng::new();
    // draws 537418088 (takes), 2578906910, 1994921126, 107165317 (takes)
    assert_eq!(select_g_idx_pair(&input, 3, &mut rng), (0, 7));
    assert_eq!(rng.state, 220332960558298757);

    let mut rng = Rng::new();
    assert_eq!(select_g_idx_pair(&input, 1, &mut rng), (0, 9));
    assert_eq!(rng.state, 8505512047393832734);
}

#[test]
fn pair_of_few_groups() {
    let mut rng = Rng::new();
    assert_eq!(select_g_idx_pair(&Input { n: 4, d: 2, q: 0 }, 6, &mut rng), (0, 1));
    let mut rng = Rng::new();
    assert_eq!(select_g_idx_pair(&Input { n: 4, d: 1, q: 0 }, 6, &mut rng), (0, 0));
    assert_eq!(rng.state, 11373782495151020392);
    let mut rng = Rng::new();
    assert_eq!(select_g_idx_pair(&Input { n: 4, d: 3, q: 0 }, 0, &mut rng), (0, 2));
    assert_eq!(rng.state, Rng::new().state);
}

#[test]
fn pair_stays_in_its_halves() {
    let mut rng = Rng::new();
    for d in 2..30usize {
        for par in 0..8usize {
            let (l, h) = select_g_idx_pair(&Input { n: 100, d, q: 0 }, par, &mut rng);
            assert!(l < d / 2 || l == 0);
            assert!(h >= d / 2 && h < d);
            assert!(l < h);
            assert!(l < par.max(1));
            assert!(d - 1 - h < par.max(1));
        }
    }
}

#[test]
fn apply_runs_the_action_of_the_kind() {
    let input = Input { n: 4, d: 2, q: 10 };
    let mut groups = vec![vec![0, 2], vec![1, 3]];
    let mut rank = vec![1, 0];
    let mut it = Interactor::new(Scale { weights: vec![3, 1, 5, 2], calls: 0 });
    it.read_input(4, 2, 10);
    let mut b = Balancer::new();
    let mut rng = Rng::new();
    assert!(apply(ActionKind::Move, 1, 0, &mut groups, &mut rank, &input, &mut b, &mut it, &mut rng));
    assert_eq!(groups, vec![vec![2], vec![1, 3, 0]]);

    let mut groups = vec![vec![0, 2], vec![1, 3]];
    let mut rank = vec![0, 1];
    let mut it = Interactor::new(Scale { weights: vec![1, 9, 2, 3], calls: 0 });
    it.read_input(4, 2, 10);
    let mut b = Balancer::new();
    let mut rng = Rng::new();
    assert!(apply(ActionKind::Swap, 1, 0, &mut groups, &mut rank, &input, &mut b, &mut it, &mut rng));
    assert_eq!(groups, vec![vec![2, 1], vec![3, 0]]);
}

#[test]
fn without_budget_the_answer_is_the_first_deal() {
    let input = Input { n: 4, d: 2, q: 0 };
    let mut it = Interactor::new(Scale { weights: vec![3, 1, 5, 2], calls: 0 });
    it.read_input(4, 2, 0);
    let mut clock = Timer::new(Ticking { now: 0, step: 1 });
    let mut rng = Rng::new();
    let solution = solve(&input, &mut it, &mut clock, &mut rng);
    assert_eq!(solution.d, vec![0, 1, 0, 1]);
    assert_eq!(solution.groups, vec![vec![0, 2], vec![1, 3]]);
    assert_eq!(solution.stats.trial_count, 0);
    assert_eq!(it.query_count, 0);
    assert_eq!(it.oracle.calls, 0);
}

#[test]
fn without_budget_and_with_many_groups_the_answer_is_the_first_deal() {
    let input = Input { n: 30, d: 9, q: 0 };
    let mut it = Interactor::new(Refusing { calls: 0 });
    it.read_input(30, 9, 0);
    let mut clock = Timer::new(Ticking { now: 0, step: 1 });
    let mut rng = Rng::new();
    let solution = solve(&input, &mut it, &mut clock, &mut rng);
    let expected: Vec<usize> = (0..30).map(|i| i % 9).collect();
    assert_eq!(solution.d, expected);
    assert_eq!(it.oracle.calls, 0);
}

#[test]
fn the_budget_is_spent_to_the_last_query() {
    let weights: Vec<u64> = vec![31, 4, 15, 9, 26, 5, 35, 8, 9, 7, 9, 3];
    let input = Input { n: 12, d: 3, q: 40 };
    let mut it = Interactor::new(Scale { weights, calls: 0 });
    it.read_input(12, 3, 40);
    let mut clock = Timer::new(Ticking { now: 0, step: 10 });
    let mut rng = Rng::new();
    let solution = solve(&input, &mut it, &mut clock, &mut rng);
    assert_eq!(it.query_count, 40);
    assert_eq!(it.oracle.calls, 40);
    assert_eq!(solution.d.len(), 12);
    assert!(solution.d.iter().all(|g| *g < 3));
    assert!(is_partition(&solution.groups, 12));
    for (item, g) in solution.d.iter().enumerate() {
        assert!(solution.groups[*g].contains(&item));
    }
    let mut rank = solution.rank.clone();
    rank.sort();
    assert_eq!(rank, vec![0, 1, 2]);
    let s = solution.stats;
    assert!(s.move_adopted_count + s.swap_adopted_count + s.swap2_adopted_count <= s.trial_count);
}

#[test]
fn the_search_ends_with_the_time() {
    let weights: Vec<u64> = vec![31, 4, 15, 9, 26, 5, 35, 8, 9, 7, 9, 3];
    let input = Input { n: 12, d: 3, q: 1000 };
    let mut it = Interactor::new(Scale { weights, calls: 0 });
    it.read_input(12, 3, 1000);
    // the clock is read twice in a trial: the 10th trial begins at 1800 ms
    let mut clock = Timer::new(Ticking { now: 0, step: 100 });
    let mut rng = Rng::new();
    let solution = solve(&input, &mut it, &mut clock, &mut rng);
    assert_eq!(solution.stats.trial_count, 9);
    assert_eq!(it.query_count, 1000);
    assert!(is_partition(&solution.groups, 12));
}

#[test]
fn a_search_that_starts_late_tries_nothing() {
    let weights: Vec<u64> = vec![5, 4, 3, 2, 1, 6];
    let input = Input { n: 6, d: 2, q: 7 };
    let mut it = Interactor::new(Scale { weights, calls: 0 });
    it.read_input(6, 2, 7);
    let mut clock = Timer::new(Ticking { now: 1800, step: 0 });
    let mut rng = Rng::new();
    let solution = solve(&input, &mut it, &mut clock, &mut rng);
    assert_eq!(solution.stats.trial_count, 0);
    assert_eq!(solution.d, vec![0, 1, 0, 1, 0, 1]);
    assert_eq!(it.query_count, 7);
}

#[test]
fn a_refusing_oracle_leaves_the_first_deal() {
    let input = Input { n: 8, d: 2, q: 5 };
    let mut it = Interactor::new(Refusing { calls: 0 });
    it.read_input(8, 2, 5);
    let mut clock = Timer::new(Ticking { now: 0, step: 1 });
    let mut rng = Rng::new();
    let solution = solve(&input, &mut it, &mut clock, &mut rng);
    assert_eq!(solution.d, vec![0, 1, 0, 1, 0, 1, 0, 1]);
    assert_eq!(it.query_count, 5);
    assert!(is_partition(&solution.groups, 8));
}

#[test]
fn one_group_takes_every_item() {
    let input = Input { n: 5, d: 1, q: 3 };
    let mut it = Interactor::new(Scale { weights: vec![1, 2, 3, 4, 5], calls: 0 });
    it.read_input(5, 1, 3);
    let mut clock = Timer::new(Ticking { now: 0, step: 300 });
    let mut rng = Rng::new();
    let solution = solve(&input, &mut it, &mut clock, &mut rng);
    assert_eq!(solution.d, vec![0, 0, 0, 0, 0]);
    assert_eq!(solution.rank, vec![0]);
    // the three comparisons are spent on the items 0 and 1
    assert_eq!(it.query_count, 3);
    assert_eq!(it.oracle.calls, 3);
}

#[test]
fn the_search_does_not_make_things_worse_for_two_groups() {
    let weights: Vec<u64> = vec![100, 1, 1, 1, 1, 1, 1, 1];
    let input = Input { n: 8, d: 2, q: 60 };
    let mut it = Interactor::new(Scale { weights: weights.clone(), calls: 0 });
    it.read_input(8, 2, 60);
    let mut clock = Timer::new(Ticking { now: 0, step: 5 });
    let mut rng = Rng::new();
    let solution = solve(&input, &mut it, &mut clock, &mut rng);
    let sum = |g: &Vec<usize>| -> u64 { g.iter().map(|i| weights[*i]).sum() };
    let a = sum(&solution.groups[0]);
    let b = sum(&solution.groups[1]);
    // the first deal has the weights 103 and 4
    assert!(a.max(b) - a.min(b) <= 99);
    assert_eq!(a + b, 107);
}

#[test]
fn four_items_two_groups_ten_queries() {
    // {0, 2} outweighs {1, 3}, and item 0 outweighs item 1
    let weights: Vec<u64> = vec![3, 1, 5, 2];
    let input = Input { n: 4, d: 2, q: 10 };
    let mut it = Interactor::new(Scale { weights: weights.clone(), calls: 0 });
    it.read_input(4, 2, 10);
    let mut clock = Timer::new(Ticking { now: 0, step: 1 });
    let mut rng = Rng::new();
    let solution = solve(&input, &mut it, &mut clock, &mut rng);
    assert_eq!(it.query_count, 10);
    assert_eq!(it.oracle.calls, 10);
    assert!(is_partition(&solution.groups, 4));
    let sum = |g: &Vec<usize>| -> i64 { g.iter().map(|i| weights[*i] as i64).sum() };
    let gap = (sum(&solution.groups[0]) - sum(&solution.groups[1])).abs();
    // the first deal has the gap 5
    assert!(gap <= 5);
    for (item, g) in solution.d.iter().enumerate() {
        assert!(solution.groups[*g].contains(&item));
    }
}

#[test]
fn each_trial_reads_the_clock_twice() {
    let weights: Vec<u64> = vec![31, 4, 15, 9, 26, 5, 35, 8, 9, 7, 9, 3];
    let input = Input { n: 12, d: 3, q: 1000 };
    let mut it = Interactor::new(Scale { weights, calls: 0 });
    it.read_input(12, 3, 1000);
    let mut clock = Timer::new(Ticking { now: 0, step: 100 });
    let mut rng = Rng::new();
    let solution = solve(&input, &mut it, &mut clock, &mut rng);
    assert_eq!(solution.stats.trial_count, 9);
    // two readings for each of the nine trials, and the one that ends the search
    assert_eq!(clock.clock.now, 1900);
}

#[test]
fn a_search_that_accepts_nothing_leaves_the_first_deal() {
    // all items weigh the same: no group is ever found lighter than another
    let weights: Vec<u64> = vec![7; 9];
    let input = Input { n: 9, d: 3, q: 50 };
    let mut it = Interactor::new(Scale { weights, calls: 0 });
    it.read_input(9, 3, 50);
    let mut clock = Timer::new(Ticking { now: 0, step: 50 });
    let mut rng = Rng::new();
    let solution = solve(&input, &mut it, &mut clock, &mut rng);
    let s = solution.stats;
    if s.move_adopted_count + s.swap_adopted_count + s.swap2_adopted_count == 0 {
        assert_eq!(solution.d, vec![0, 1, 2, 0, 1, 2, 0, 1, 2]);
    }
    assert!(is_partition(&solution.groups, 9));
    assert_eq!(it.query_count, 50);
}
