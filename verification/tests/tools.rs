use weight_balancer::balancer::Balancer;
use weight_balancer::def::BalanceResult;
use weight_balancer::interactor::{parse_reply, query_line, Interactor, Oracle};
use weight_balancer::util::rnd::{gen_range, next, next_fraction, Rng, SEED};
use weight_balancer::util::Queue;

struct Counting {
    calls: usize,
    answer: BalanceResult,
}

impl Oracle for Counting {
    fn compare(&mut self, _left_v: &Vec<usize>, _right_v: &Vec<usize>) -> BalanceResult {
        self.calls += 1;
        self.answer
    }
}

#[test]
fn queue_is_first_in_first_out() {
    let mut q = Queue::default();
    assert_eq!(q.pop_front(), None);
    q.push_back((1, 0));
    q.push_back((2, 1));
    assert_eq!(q.pop_front(), Some((1, 0)));
    q.push_back((3, 1));
    assert_eq!(q.pop_front(), Some((2, 1)));
    assert_eq!(q.pop_front(), Some((3, 1)));
    assert_eq!(q.pop_front(), None);
}

#[test]
fn queue_keeps_order_over_many_entries() {
    let mut q = Queue::default();
    for i in 0..50u16 {
        q.push_back((i as u128, i));
    }
    for i in 0..25u16 {
        assert_eq!(q.pop_front(), Some((i as u128, i)));
    }
    for i in 50..60u16 {
        q.push_back((i as u128, i));
    }
    for i in 25..60u16 {
        assert_eq!(q.pop_front(), Some((i as u128, i)));
    }
    assert_eq!(q.pop_front(), None);
}

#[test]
fn generator_follows_the_shift_sequence() {
    let mut rng = Rng::new();
    assert_eq!(rng.state, SEED);
    assert_eq!(SEED, 88172645463325252);
    assert_eq!(next(&mut rng), 11373782495151020392);
    assert_eq!(next(&mut rng), 8505512047393832734);
    assert_eq!(next(&mut rng), 8278699350803616934);
    assert_eq!(rng.state, 8278699350803616934);
}

#[test]
fn fraction_is_the_low_half_of_the_state() {
    let mut rng = Rng::new();
    assert_eq!(next_fraction(&mut rng), 537418088);
    assert_eq!(rng.state, 11373782495151020392);
    assert_eq!(next_fraction(&mut rng), 2578906910);
}

#[test]
fn range_draw_is_offset_by_the_lower_bound() {
    let mut rng = Rng::new();
    // 11373782495151020392 % 14 == 0
    assert_eq!(gen_range(&mut rng, 3, 17), 3);
    // 8505512047393832734 % 10 == 4
    assert_eq!(gen_range(&mut rng, 0, 10), 4);
    // 8278699350803616934 % 10 == 4
    assert_eq!(gen_range(&mut rng, 20, 30), 24);
    assert_eq!(gen_range(&mut rng, 7, 8), 7);
}

#[test]
fn masks_have_one_bit_per_item() {
    let b = Balancer::new();
    assert_eq!(b.hash(0), 1);
    assert_eq!(b.hash(5), 32);
    assert_eq!(b.hash(127), 1u128 << 127);
    assert_eq!(b.to_hash(&vec![]), 0);
    assert_eq!(b.to_hash(&vec![0, 2, 5]), 37);
    assert_eq!(b.to_hash(&vec![5, 0, 2]), 37);
    assert_eq!(b.to_hash(&vec![1, 1]), 2);
    assert_eq!(b.to_hash(&vec![127, 0]), (1u128 << 127) | 1);
}

#[test]
fn replies_are_read_strictly() {
    assert_eq!(parse_reply("<".as_bytes()), Some(BalanceResult::Left));
    assert_eq!(parse_reply(">".as_bytes()), Some(BalanceResult::Right));
    assert_eq!(parse_reply("=".as_bytes()), Some(BalanceResult::Equal));
    assert_eq!(parse_reply("".as_bytes()), None);
    assert_eq!(parse_reply("<<".as_bytes()), None);
    assert_eq!(parse_reply("?".as_bytes()), None);
    assert_eq!(parse_reply("< ".as_bytes()), None);
}

#[test]
fn query_line_gives_lengths_then_items() {
    assert_eq!(query_line(&vec![3, 4], &vec![7]), vec![2, 1, 3, 4, 7]);
    assert_eq!(query_line(&vec![], &vec![]), vec![0, 0]);
    assert_eq!(query_line(&vec![9], &vec![1, 0, 2]), vec![1, 3, 9, 1, 0, 2]);
}

#[test]
fn fresh_interactor_allows_one_query() {
    let mut it = Interactor::new(Counting { calls: 0, answer: BalanceResult::Left });
    assert_eq!(it.query_count, 0);
    assert_eq!(it.max_query_count, 1);
    assert_eq!(it.output_query(&vec![0], &vec![1]), BalanceResult::Left);
    assert_eq!(it.output_query(&vec![0], &vec![1]), BalanceResult::Unknown);
    assert_eq!(it.query_count, 1);
    assert_eq!(it.oracle.calls, 1);
}

#[test]
fn read_input_sets_the_budget() {
    let mut it = Interactor::new(Counting { calls: 0, answer: BalanceResult::Right });
    let input = it.read_input(30, 4, 2);
    assert_eq!(input.n, 30);
    assert_eq!(input.d, 4);
    assert_eq!(input.q, 2);
    assert_eq!(it.max_query_count, 2);
    assert_eq!(it.output_query(&vec![0], &vec![1]), BalanceResult::Right);
    assert_eq!(it.output_query(&vec![2], &vec![3]), BalanceResult::Right);
    assert_eq!(it.output_query(&vec![4], &vec![5]), BalanceResult::Unknown);
    assert_eq!(it.output_query(&vec![4], &vec![5]), BalanceResult::Unknown);
    assert_eq!(it.query_count, 2);
    assert_eq!(it.oracle.calls, 2);
}

#[test]
fn no_budget_means_no_query() {
    let mut it = Interactor::new(Counting { calls: 0, answer: BalanceResult::Equal });
    it.read_input(4, 2, 0);
    assert_eq!(it.output_query(&vec![0], &vec![1]), BalanceResult::Unknown);
    assert_eq!(it.query_count, 0);
    assert_eq!(it.oracle.calls, 0);
}
