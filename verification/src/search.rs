//! The search itself: dealing the items out, ranking the groups, trying
//! actions until the time or the budget is used up, and reading off the
//! answer.

use crate::action::{
    action_move, action_ready, action_swap, action_swap2, chosen, compared, drawn_for,
    first_heavy, first_light, items_compared, justified, move_run, picked_item, same_masks,
    swap2_run, swap_run, tried_from, Acted, TRIAL_COUNT,
};
use crate::balancer::{ask, grown_from, Balancer, Knowledge};
use crate::def::Input;
use crate::groups::{
    all_items, exchanged, first_items, groups_fit, is_partition, is_rank, lemma_partition_facts,
    lemma_push_adds_item, same_members, same_outside, untouched, views,
};
use crate::interactor::{continues, lemma_continues, Asked, Interactor, Oracle};
use crate::mask::{items_fit, MAX_ITEMS};
use crate::rank::{all_groups, sort_groups, sort_run};
use crate::util::rnd::{after_draws, next_fraction, step, Rng};
use vstd::multiset::Multiset;
use vstd::prelude::*;

verus! {

broadcast use {vstd::seq_lib::group_to_multiset_ensures, vstd::multiset::group_multiset_axioms};

/// The time a run may take, in milliseconds.
pub const TIME_LIMIT_MS: u64 = 1900;

/// The time kept in hand at the end of a run, in milliseconds.
pub const MARGIN_MS: u64 = 100;

/// The milliseconds after which the search looks one place further from the
/// ends of the rank.
pub const WIDEN_EVERY_MS: u64 = 360;

/// A draw below this bound, out of 2^32, takes the place at hand: three
/// times in ten.
pub const TAKE_BELOW: u32 = 1288490189;

/// A draw below this bound, out of 2^32, moves an item: every second time.
pub const MOVE_BELOW: u32 = 2147483648;

/// A draw below this bound and not below `MOVE_BELOW` exchanges two items:
/// four times in ten. All other draws exchange two sets.
pub const SWAP_BELOW: u32 = 3865470567;

/// Whoever can tell the milliseconds that have passed since the run began.
/// Nothing is taken for granted of the readings, not even that they rise.
pub trait Clock {
    fn elapsed_millis(&mut self) -> u64;
}

/// A clock with the record of what it has read, in the order of the
/// readings.
pub struct Timer<C: Clock> {
    pub clock: C,
    pub readings: Ghost<Seq<u64>>,
}

impl<C: Clock> Timer<C> {
    /// A timer that has read nothing yet.
    pub fn new(clock: C) -> (timer: Timer<C>)
        ensures
            timer.clock == clock,
            timer.readings@ == Seq::<u64>::empty(),
    {
        Timer { clock, readings: Ghost(Seq::empty()) }
    }

    /// Reads the clock and puts the reading on record.
    pub fn read(&mut self) -> (ms: u64)
        ensures
            final(self).readings@ == old(self).readings@.push(ms),
    {
        let ms = self.clock.elapsed_millis();
        proof {
            self.readings@ = self.readings@.push(ms);
        }
        ms
    }
}

/// The three ways to change the groups.
#[derive(PartialEq, Eq, Structural, Debug, Clone, Copy)]
pub enum ActionKind {
    Move,
    Swap,
    Swap2,
}

/// How often actions were tried and how often each kind was accepted.
#[derive(PartialEq, Eq, Structural, Debug, Clone, Copy)]
pub struct Stats {
    pub trial_count: usize,
    pub move_adopted_count: usize,
    pub swap_adopted_count: usize,
    pub swap2_adopted_count: usize,
}

/// The group that the answer gives to an item: the last group that holds
/// it, and group 0 if none does.
pub open spec fn owner(groups: Seq<Vec<usize>>, item: usize) -> int
    decreases groups.len(),
{
    if groups.len() == 0 {
        0
    } else if groups.last()@.contains(item) {
        groups.len() - 1
    } else {
        owner(groups.drop_last(), item)
    }
}

/// Every item of every group is below `n`.
pub open spec fn items_below(groups: Seq<Vec<usize>>, n: nat) -> bool {
    forall|g: int, j: int|
        0 <= g < groups.len() && 0 <= j < groups[g]@.len() ==> (#[trigger] groups[g]@[j]) < n
}

/// How far from the ends of the rank the search looks after `elapsed_ms`
/// milliseconds: one place, and one more for every 360 milliseconds, rounded
/// to the nearest.
pub open spec fn radius_at(elapsed_ms: u64) -> int {
    1 + (elapsed_ms + WIDEN_EVERY_MS / 2) / (WIDEN_EVERY_MS as int)
}

/// The number of draws before the first one that takes, among at most
/// `tries` draws from state `s`, and the state after those draws.
pub open spec fn first_take(s: u64, tries: nat) -> (Option<nat>, u64)
    decreases tries,
{
    if tries == 0 {
        (None, s)
    } else if step(s) % 0x1_0000_0000 < TAKE_BELOW {
        (Some(0nat), step(s))
    } else {
        let later = first_take(step(s), (tries - 1) as nat);
        match later.0 {
            Some(k) => (Some(k + 1), later.1),
            None => (None, later.1),
        }
    }
}

/// The number of places at the light end among which the search picks.
pub open spec fn low_window(d: usize, par: usize) -> nat {
    if par < d / 2 {
        par as nat
    } else {
        (d / 2) as nat
    }
}

/// The number of places at the heavy end among which the search picks.
pub open spec fn high_window(d: usize, par: usize) -> nat {
    let reach = if par < d { par } else { d };
    let from = if d - reach > d / 2 { d - reach } else { (d / 2) as int };
    (d - from) as nat
}

/// The pair of places picked from state `s`: from the light end upwards the
/// first place whose draw takes, else the lightest; then from the heavy end
/// downwards the first place whose draw takes, else the heaviest.
pub open spec fn picked_pair(s: u64, d: usize, par: usize) -> (int, int, u64) {
    let low = first_take(s, low_window(d, par));
    let high = first_take(low.1, high_window(d, par));
    (
        match low.0 {
            Some(k) => k as int,
            None => 0,
        },
        match high.0 {
            Some(k) => d - 1 - k,
            None => d - 1,
        },
        high.1,
    )
}

/// The kind of action that a draw out of 2^32 stands for.
pub open spec fn kind_of(fraction: u32) -> ActionKind {
    if fraction < MOVE_BELOW {
        ActionKind::Move
    } else if fraction < SWAP_BELOW {
        ActionKind::Swap
    } else {
        ActionKind::Swap2
    }
}

/// How far from the ends of the rank the search looks after `elapsed_ms`
/// milliseconds, as far as a `usize` can tell.
pub fn search_radius(elapsed_ms: u64) -> (par: usize)
    ensures
        par == if radius_at(elapsed_ms) <= usize::MAX {
            radius_at(elapsed_ms)
        } else {
            usize::MAX as int
        },
{
    let whole: u64 = elapsed_ms / WIDEN_EVERY_MS;
    let part: u64 = (elapsed_ms % WIDEN_EVERY_MS + WIDEN_EVERY_MS / 2) / WIDEN_EVERY_MS;
    let r: u64 = whole + part + 1;
    assert(r == radius_at(elapsed_ms)) by (nonlinear_arith)
        requires
            whole == elapsed_ms / 360,
            part == (elapsed_ms % 360 + 180) / 360,
            r == whole + part + 1,
            radius_at(elapsed_ms) == 1 + (elapsed_ms + 180) / 360,
    ;
    if r > usize::MAX as u64 {
        usize::MAX
    } else {
        r as usize
    }
}

/// The kind of action that a draw out of 2^32 stands for: moves for the
/// lower half, exchanges of two items for the next four tenths, exchanges
/// of two sets for the rest.
pub fn choose_action(fraction: u32) -> (kind: ActionKind)
    ensures
        kind == kind_of(fraction),
{
    if fraction < MOVE_BELOW {
        ActionKind::Move
    } else if fraction < SWAP_BELOW {
        ActionKind::Swap
    } else {
        ActionKind::Swap2
    }
}

/// Picks the places of a lighter and a heavier group, each near its end of
/// the rank and no further from it than `par` places.
pub fn select_g_idx_pair(input: &Input, par: usize, rng: &mut Rng) -> (pair: (usize, usize))
    requires
        input.d >= 1,
    ensures
        (pair.0 as int, pair.1 as int, final(rng).state) == picked_pair(
            old(rng).state,
            input.d,
            par,
        ),
        pair.0 <= pair.1 < input.d,
        input.d >= 2 ==> pair.0 < input.d / 2 <= pair.1,
{
    let d: usize = input.d;
    let mut lighter_g_idx: usize = 0;
    let mut heavier_g_idx: usize = d - 1;
    let low_tries: usize = if par < d / 2 {
        par
    } else {
        d / 2
    };
    let ghost s0 = rng.state;
    let mut i: usize = 0;
    let mut taken = false;
    while i < low_tries && !taken
        invariant
            i <= low_tries,
            low_tries == low_window(d, par),
            low_tries <= d / 2,
            !taken ==> lighter_g_idx == 0 && first_take(s0, low_tries as nat) == (match first_take(
                rng.state,
                (low_tries - i) as nat,
            ).0 {
                Some(k) => Some(k + i as nat),
                None => None,
            }, first_take(rng.state, (low_tries - i) as nat).1),
            taken ==> first_take(s0, low_tries as nat) == (Some(lighter_g_idx as nat), rng.state),
            taken ==> lighter_g_idx < low_tries,
        decreases low_tries - i + (if taken { 0int } else { 1int }),
    {
        if next_fraction(rng) < TAKE_BELOW {
            lighter_g_idx = i;
            taken = true;
        } else {
            i += 1;
        }
    }
    let ghost s1 = rng.state;
    let reach: usize = if par < d {
        par
    } else {
        d
    };
    let from: usize = if d - reach > d / 2 {
        d - reach
    } else {
        d / 2
    };
    let high_tries: usize = d - from;
    let mut j: usize = 0;
    let mut found = false;
    while j < high_tries && !found
        invariant
            j <= high_tries,
            high_tries == high_window(d, par),
            high_tries <= d,
            d >= 1,
            from == d - high_tries,
            from >= d / 2,
            !found ==> heavier_g_idx == d - 1 && first_take(s1, high_tries as nat) == (
                match first_take(rng.state, (high_tries - j) as nat).0 {
                    Some(k) => Some(k + j as nat),
                    None => None,
                },
                first_take(rng.state, (high_tries - j) as nat).1,
            ),
            found ==> first_take(s1, high_tries as nat) == (
                Some((d - 1 - heavier_g_idx) as nat),
                rng.state,
            ),
            found ==> from <= heavier_g_idx < d,
        decreases high_tries - j + (if found { 0int } else { 1int }),
    {
        if next_fraction(rng) < TAKE_BELOW {
            heavier_g_idx = d - 1 - j;
            found = true;
        } else {
            j += 1;
        }
    }
    (lighter_g_idx, heavier_g_idx)
}

/// For each item the group that holds it. An item that several groups hold
/// goes to the last of them, an item that none holds to group 0.
pub fn groups_to_output_d(groups: &Vec<Vec<usize>>, input: &Input) -> (d: Vec<usize>)
    requires
        items_below(groups@, input.n as nat),
    ensures
        d@.len() == input.n,
        forall|i: int| 0 <= i < input.n ==> d@[i] == owner(groups@, i as usize),
{
    let n: usize = input.n;
    let mut d: Vec<usize> = Vec::new();
    let mut i: usize = 0;
    while i < n
        invariant
            i <= n,
            d@.len() == i,
            forall|k: int| 0 <= k < i ==> d@[k] == 0,
        decreases n - i,
    {
        d.push(0);
        i += 1;
    }
    let mut g_idx: usize = 0;
    proof {
        assert(groups@.take(0) =~= Seq::<Vec<usize>>::empty());
    }
    while g_idx < groups.len()
        invariant
            g_idx <= groups.len(),
            n == input.n,
            d@.len() == n,
            items_below(groups@, n as nat),
            forall|k: int| 0 <= k < n ==> d@[k] == owner(groups@.take(g_idx as int), k as usize),
        decreases groups.len() - g_idx,
    {
        let group = &groups[g_idx];
        let ghost before = d@;
        let ghost earlier = groups@.take(g_idx as int);
        let mut j: usize = 0;
        while j < group.len()
            invariant
                j <= group.len(),
                g_idx < groups.len(),
                *group == groups@[g_idx as int],
                n == input.n,
                d@.len() == n,
                before.len() == n,
                items_below(groups@, n as nat),
                forall|k: int|
                    0 <= k < n ==> d@[k] == if group@.take(j as int).contains(k as usize) {
                        g_idx
                    } else {
                        before[k]
                    },
            decreases group.len() - j,
        {
            let e: usize = group[j];
            assert(groups@[g_idx as int]@[j as int] < n);
            d[e] = g_idx;
            proof {
                assert(group@.take(j + 1) =~= group@.take(j as int).push(e));
                assert forall|k: int| 0 <= k < n implies d@[k] == if group@.take(j + 1).contains(
                    k as usize,
                ) {
                    g_idx
                } else {
                    before[k]
                } by {
                    let shorter = group@.take(j as int);
                    let longer = group@.take(j + 1);
                    if shorter.contains(k as usize) {
                        let w = choose|w: int| 0 <= w < shorter.len() && shorter[w] == k as usize;
                        assert(longer[w] == k as usize);
                    }
                    if longer.contains(k as usize) && k != e {
                        let w = choose|w: int| 0 <= w < longer.len() && longer[w] == k as usize;
                        assert(shorter[w] == k as usize);
                    }
                    if k == e {
                        assert(longer[j as int] == e);
                    }
                }
            }
            j += 1;
        }
        proof {
            assert(group@.take(j as int) =~= group@);
            let now = groups@.take(g_idx + 1);
            assert(now.drop_last() =~= earlier);
            assert(now.last() == groups@[g_idx as int]);
        }
        g_idx += 1;
    }
    proof {
        assert(groups@.take(g_idx as int) =~= groups@);
    }
    d
}

/// The groups after the items from 0 up to `n` are dealt out in turn to `d`
/// groups: item `i` goes to the end of group `i % d`.
pub open spec fn dealt(n: nat, d: nat) -> Seq<Seq<usize>>
    decreases n,
{
    if n == 0 {
        Seq::new(d, |g: int| Seq::<usize>::empty())
    } else {
        let fewer = dealt((n - 1) as nat, d);
        let g = ((n - 1) % (d as int)) as int;
        fewer.update(g, fewer[g].push((n - 1) as usize))
    }
}

/// The lists of the groups are the given lists.
pub open spec fn groups_are(groups: Seq<Vec<usize>>, lists: Seq<Seq<usize>>) -> bool {
    &&& groups.len() == lists.len()
    &&& forall|g: int| 0 <= g < groups.len() ==> (#[trigger] groups[g])@ == lists[g]
}

/// An item that exactly one group holds is given to that group.
pub proof fn lemma_owner_of_only_holder(groups: Seq<Vec<usize>>, item: usize, g: int)
    requires
        0 <= g < groups.len(),
        groups[g]@.contains(item),
        forall|h: int| 0 <= h < groups.len() && h != g ==> !(#[trigger] groups[h])@.contains(item),
    ensures
        owner(groups, item) == g,
    decreases groups.len(),
{
    if g < groups.len() - 1 {
        assert(!groups[groups.len() - 1]@.contains(item));
        let fewer = groups.drop_last();
        assert forall|h: int| 0 <= h < fewer.len() && h != g implies !(#[trigger] fewer[h])@.contains(
            item,
        ) by {
            assert(fewer[h] == groups[h]);
        }
        lemma_owner_of_only_holder(fewer, item, g);
    }
}

/// The group that the answer gives to an item is one of the groups.
pub proof fn lemma_owner_is_group(groups: Seq<Vec<usize>>, item: usize)
    requires
        groups.len() >= 1,
    ensures
        0 <= owner(groups, item) < groups.len(),
    decreases groups.len(),
{
    if !groups.last()@.contains(item) {
        if groups.len() > 1 {
            lemma_owner_is_group(groups.drop_last(), item);
        } else {
            assert(owner(groups.drop_last(), item) == 0);
        }
    }
}

/// Deals the items out to the groups in turn.
pub fn init_groups(input: &Input) -> (groups: Vec<Vec<usize>>)
    requires
        input.d >= 1,
    ensures
        groups_are(groups@, dealt(input.n as nat, input.d as nat)),
        groups@.len() == input.d,
        is_partition(groups@, input.n as nat),
        input.n <= MAX_ITEMS ==> groups_fit(groups@),
        forall|i: usize| i < input.n ==> #[trigger] owner(groups@, i) == i % input.d,
{
    let n: usize = input.n;
    let d: usize = input.d;
    let mut groups: Vec<Vec<usize>> = Vec::new();
    let mut g: usize = 0;
    while g < d
        invariant
            g <= d,
            groups@.len() == g,
            forall|k: int| 0 <= k < g ==> (#[trigger] groups@[k])@ == Seq::<usize>::empty(),
        decreases d - g,
    {
        groups.push(Vec::new());
        g += 1;
    }
    proof {
        assert(groups_are(groups@, dealt(0, d as nat)));
        assert(all_items(groups@) =~= first_items(0)) by {
            lemma_empty_groups_hold_nothing(groups@);
        }
    }
    let mut i: usize = 0;
    while i < n
        invariant
            i <= n,
            d >= 1,
            groups@.len() == d,
            groups_are(groups@, dealt(i as nat, d as nat)),
            all_items(groups@) == first_items(i as nat),
            forall|k: int, j: int|
                0 <= k < d && 0 <= j < groups@[k]@.len() ==> (#[trigger] groups@[k]@[j]) < i
                    && groups@[k]@[j] % d == k,
            forall|x: int| 0 <= x < i ==> (#[trigger] groups@[x % (d as int)])@.contains(x as usize),
        decreases n - i,
    {
        let ghost before = groups@;
        let to: usize = i % d;
        groups[to].push(i);
        proof {
            lemma_push_adds_item(before, groups@, to as int, i);
            let fewer = dealt(i as nat, d as nat);
            let more = dealt((i + 1) as nat, d as nat);
            assert(more == fewer.update(to as int, fewer[to as int].push(i)));
            assert forall|k: int| 0 <= k < groups@.len() implies (#[trigger] groups@[k])@
                == more[k] by {
                if k != to {
                    assert(groups@[k] == before[k]);
                }
            }
            assert forall|k: int, j: int|
                0 <= k < d && 0 <= j < groups@[k]@.len() implies (#[trigger] groups@[k]@[j]) < i + 1
                && groups@[k]@[j] % d == k by {
                if k == to {
                    if j < before[k]@.len() {
                        assert(groups@[k]@[j] == before[k]@[j]);
                    }
                } else {
                    assert(groups@[k] == before[k]);
                }
            }
            assert forall|x: int| 0 <= x < i + 1 implies (#[trigger] groups@[x % (d as int)])@.contains(
                x as usize,
            ) by {
                let k = x % (d as int);
                if x == i {
                    assert(groups@[k]@[before[k]@.len() as int] == i);
                } else {
                    assert(before[k]@.contains(x as usize));
                    let w = choose|w: int| 0 <= w < before[k]@.len() && before[k]@[w] == x as usize;
                    if k == to {
                        assert(groups@[k]@[w] == x as usize);
                    } else {
                        assert(groups@[k] == before[k]);
                    }
                }
            }
        }
        i += 1;
    }
    proof {
        assert forall|x: usize| x < n implies #[trigger] owner(groups@, x) == x % d by {
            let k = (x as int) % (d as int);
            assert(groups@[k]@.contains(x));
            assert forall|h: int| 0 <= h < groups@.len() && h != k implies !(
            #[trigger] groups@[h])@.contains(x) by {
                if groups@[h]@.contains(x) {
                    let w = choose|w: int| 0 <= w < groups@[h]@.len() && groups@[h]@[w] == x;
                    assert(groups@[h]@[w] % d == h);
                }
            }
            lemma_owner_of_only_holder(groups@, x, k);
        }
        if n <= MAX_ITEMS {
            assert forall|k: int| 0 <= k < groups@.len() implies items_fit(#[trigger] groups@[k]@) by {
                assert forall|j: int| 0 <= j < groups@[k]@.len() implies groups@[k]@[j]
                    < MAX_ITEMS by {
                    assert(groups@[k]@[j] < n);
                }
            }
        }
    }
    groups
}

/// Groups without items hold no items.
proof fn lemma_empty_groups_hold_nothing(groups: Seq<Vec<usize>>)
    requires
        forall|k: int| 0 <= k < groups.len() ==> (#[trigger] groups[k])@ == Seq::<usize>::empty(),
    ensures
        all_items(groups) == Multiset::<usize>::empty(),
    decreases groups.len(),
{
    if groups.len() > 0 {
        lemma_empty_groups_hold_nothing(groups.drop_last());
        assert(groups[groups.len() - 1]@ == Seq::<usize>::empty());
        assert(all_items(groups) =~= Multiset::<usize>::empty());
    }
}

/// The sizes of the two sets that an action of the kind exchanges: a move
/// takes nothing from the light group and one item from the heavy group, an
/// exchange one item from each, an exchange of sets up to `TRIAL_COUNT` more
/// from the light group or one more from the heavy group.
pub open spec fn sized_for(kind: ActionKind, a_items: Seq<usize>, b_items: Seq<usize>) -> bool {
    match kind {
        ActionKind::Move => a_items.len() == 0 && b_items.len() == 1,
        ActionKind::Swap => a_items.len() == 1 && b_items.len() == 1,
        ActionKind::Swap2 => {
            &&& 1 <= a_items.len() <= 1 + TRIAL_COUNT
            &&& 1 <= b_items.len() <= 2
            &&& a_items.len() == 1 || b_items.len() == 1
        },
    }
}

/// What one trial rests on besides the state of the search: the reading of
/// the clock that sets the width of the search, and the items that the
/// action picks. A move picks `item`, an exchange `a` and `b`, an exchange
/// of sets the items `tried` for growth.
pub struct Trial {
    pub reading: u64,
    pub item: usize,
    pub a: usize,
    pub b: usize,
    pub tried: Seq<usize>,
}

/// The items of a trial are such as an action of the kind may pick from the
/// groups at the two places, with the memory `k` and the generator in state
/// `s`.
pub open spec fn picks_fit(
    kind: ActionKind,
    k: Knowledge,
    lists: Seq<Seq<usize>>,
    rank: Seq<usize>,
    lighter_g_idx: usize,
    heavier_g_idx: usize,
    s: u64,
    trial: Trial,
    count: nat,
    max: nat,
    answers: Seq<Asked>,
) -> bool {
    let light_group = lists[rank[lighter_g_idx as int] as int];
    let heavy_group = lists[rank[heavier_g_idx as int] as int];
    match kind {
        ActionKind::Move => chosen(k, heavy_group, s, trial.item),
        ActionKind::Swap => chosen(k, light_group, s, trial.a) && chosen(
            k,
            heavy_group,
            step(s),
            trial.b,
        ),
        ActionKind::Swap2 => {
            let a = first_light(lists, rank, lighter_g_idx, s);
            let b = first_heavy(lists, rank, heavier_g_idx, s);
            tried_from(
                ask(k, seq![a], seq![b], count, max, answers),
                a,
                b,
                light_group,
                heavy_group,
                step(step(s)),
                trial.tried,
                max,
                answers,
            )
        },
    }
}

/// The action of the kind with the items of the trial, as it follows from
/// the memory, the budget and the record of the oracle's answers.
pub open spec fn apply_run(
    kind: ActionKind,
    k: Knowledge,
    lists: Seq<Seq<usize>>,
    rank: Seq<usize>,
    lighter_g_idx: usize,
    heavier_g_idx: usize,
    d: usize,
    s: u64,
    trial: Trial,
    count: nat,
    max: nat,
    answers: Seq<Asked>,
) -> Acted {
    match kind {
        ActionKind::Move => move_run(
            k,
            lists,
            rank,
            lighter_g_idx,
            heavier_g_idx,
            d,
            trial.item,
            count,
            max,
            answers,
        ),
        ActionKind::Swap => swap_run(
            k,
            lists,
            rank,
            lighter_g_idx,
            heavier_g_idx,
            d,
            trial.a,
            trial.b,
            count,
            max,
            answers,
        ),
        ActionKind::Swap2 => swap2_run(
            k,
            lists,
            rank,
            lighter_g_idx,
            heavier_g_idx,
            d,
            s,
            trial.tried,
            count,
            max,
            answers,
        ),
    }
}

/// The state of the generator after an action of the kind that began in
/// state `s`: a move draws once, an exchange twice, an exchange of sets
/// twice and once more for each item tried.
pub open spec fn state_after(kind: ActionKind, s: u64, trial: Trial) -> u64 {
    match kind {
        ActionKind::Move => step(s),
        ActionKind::Swap => step(step(s)),
        ActionKind::Swap2 => after_draws(s, 2 + trial.tried.len()),
    }
}

/// Tries one action of the given kind on the groups at the two places. An
/// action that is not accepted leaves the groups and the rank as they were;
/// an accepted one has exchanged items that the balancer backs.
pub fn apply<O: Oracle>(
    kind: ActionKind,
    heavier_g_idx: usize,
    lighter_g_idx: usize,
    groups: &mut Vec<Vec<usize>>,
    rank: &mut Vec<usize>,
    input: &Input,
    balancer: &mut Balancer,
    interactor: &mut Interactor<O>,
    rng: &mut Rng,
) -> (accepted: bool)
    requires
        action_ready(old(groups)@, old(rank)@, lighter_g_idx, heavier_g_idx),
        old(groups)@[old(rank)@[heavier_g_idx as int] as int]@.len() > 0,
        kind != ActionKind::Move ==> old(groups)@[old(rank)@[lighter_g_idx as int] as int]@.len()
            > 0,
        old(balancer).wf(),
        old(interactor).wf(),
    ensures
        final(balancer).wf(),
        grown_from(final(balancer)@, old(balancer)@),
        final(interactor).follows(old(interactor)),
        groups_fit(final(groups)@),
        final(groups)@.len() == old(groups)@.len(),
        is_rank(final(rank)@, final(groups)@.len()),
        same_outside(old(rank)@, final(rank)@, lighter_g_idx as int, heavier_g_idx as int),
        all_items(final(groups)@) == all_items(old(groups)@),
        !accepted ==> {
            &&& final(rank)@ == old(rank)@
            &&& untouched(old(groups)@, final(groups)@)
            &&& same_masks(old(groups)@, final(groups)@)
            &&& final(interactor).stalled_since(old(interactor)) || if kind == ActionKind::Move {
                compared(
                    final(balancer)@,
                    final(groups)@[old(rank)@[lighter_g_idx as int] as int]@,
                    final(groups)@[old(rank)@[heavier_g_idx as int] as int]@.drop_last(),
                )
            } else {
                items_compared(
                    final(balancer)@,
                    old(groups)@[old(rank)@[lighter_g_idx as int] as int]@,
                    old(groups)@[old(rank)@[heavier_g_idx as int] as int]@,
                )
            }
        },
        accepted ==> exists|a_items: Seq<usize>, b_items: Seq<usize>|
            {
                &&& #[trigger] exchanged(
                    old(groups)@,
                    final(groups)@,
                    old(rank)@[lighter_g_idx as int] as int,
                    old(rank)@[heavier_g_idx as int] as int,
                    a_items,
                    b_items,
                )
                &&& justified(
                    final(balancer)@,
                    final(groups)@,
                    old(rank)@[lighter_g_idx as int] as int,
                    old(rank)@[heavier_g_idx as int] as int,
                    a_items,
                    b_items,
                )
                &&& sized_for(kind, a_items, b_items)
            },
        final(interactor).query_count - old(interactor).query_count <= 3 + TRIAL_COUNT + 2 * (
        heavier_g_idx - lighter_g_idx),
        exists|trial: Trial|
            {
                &&& #[trigger] state_after(kind, old(rng).state, trial) == final(rng).state
                &&& forall|later: Seq<Asked>| #[trigger]
                    continues(final(interactor).asked@, later) ==> {
                        &&& picks_fit(
                            kind,
                            old(balancer)@,
                            views(old(groups)@),
                            old(rank)@,
                            lighter_g_idx,
                            heavier_g_idx,
                            old(rng).state,
                            trial,
                            old(interactor).query_count as nat,
                            old(interactor).max_query_count as nat,
                            later,
                        )
                        &&& apply_run(
                            kind,
                            old(balancer)@,
                            views(old(groups)@),
                            old(rank)@,
                            lighter_g_idx,
                            heavier_g_idx,
                            input.d,
                            old(rng).state,
                            trial,
                            old(interactor).query_count as nat,
                            old(interactor).max_query_count as nat,
                            later,
                        ) == (Acted {
                            lists: views(final(groups)@),
                            rank: final(rank)@,
                            k: final(balancer)@,
                            count: final(interactor).query_count as nat,
                            accepted,
                        })
                    }
            },
        kind == ActionKind::Move ==> exists|item: usize|
            {
                &&& #[trigger] picked_item(
                    old(balancer).right_edges@,
                    old(groups)@[old(rank)@[heavier_g_idx as int] as int]@,
                    old(rng).state,
                    item,
                )
                &&& chosen(
                    old(balancer)@,
                    old(groups)@[old(rank)@[heavier_g_idx as int] as int]@,
                    old(rng).state,
                    item,
                )
                &&& forall|later: Seq<Asked>| #[trigger]
                    continues(final(interactor).asked@, later) ==> move_run(
                        old(balancer)@,
                        views(old(groups)@),
                        old(rank)@,
                        lighter_g_idx,
                        heavier_g_idx,
                        input.d,
                        item,
                        old(interactor).query_count as nat,
                        old(interactor).max_query_count as nat,
                        later,
                    ) == (Acted {
                        lists: views(final(groups)@),
                        rank: final(rank)@,
                        k: final(balancer)@,
                        count: final(interactor).query_count as nat,
                        accepted,
                    })
            },
        kind == ActionKind::Swap ==> exists|a: usize, b: usize|
            {
                &&& #[trigger] picked_item(
                    old(balancer).right_edges@,
                    old(groups)@[old(rank)@[lighter_g_idx as int] as int]@,
                    old(rng).state,
                    a,
                )
                &&& #[trigger] picked_item(
                    old(balancer).right_edges@,
                    old(groups)@[old(rank)@[heavier_g_idx as int] as int]@,
                    step(old(rng).state),
                    b,
                )
                &&& chosen(
                    old(balancer)@,
                    old(groups)@[old(rank)@[lighter_g_idx as int] as int]@,
                    old(rng).state,
                    a,
                )
                &&& chosen(
                    old(balancer)@,
                    old(groups)@[old(rank)@[heavier_g_idx as int] as int]@,
                    step(old(rng).state),
                    b,
                )
                &&& forall|later: Seq<Asked>| #[trigger]
                    continues(final(interactor).asked@, later) ==> swap_run(
                        old(balancer)@,
                        views(old(groups)@),
                        old(rank)@,
                        lighter_g_idx,
                        heavier_g_idx,
                        input.d,
                        a,
                        b,
                        old(interactor).query_count as nat,
                        old(interactor).max_query_count as nat,
                        later,
                    ) == (Acted {
                        lists: views(final(groups)@),
                        rank: final(rank)@,
                        k: final(balancer)@,
                        count: final(interactor).query_count as nat,
                        accepted,
                    })
            },
        kind == ActionKind::Swap2 ==> exists|tried: Seq<usize>|
            {
                &&& #[trigger] drawn_for(tried, old(rng).state, final(rng).state)
                &&& forall|later: Seq<Asked>| #[trigger]
                    continues(final(interactor).asked@, later) ==> {
                        let a = first_light(
                            views(old(groups)@),
                            old(rank)@,
                            lighter_g_idx,
                            old(rng).state,
                        );
                        let b = first_heavy(
                            views(old(groups)@),
                            old(rank)@,
                            heavier_g_idx,
                            old(rng).state,
                        );
                        &&& tried_from(
                            ask(
                                old(balancer)@,
                                seq![a],
                                seq![b],
                                old(interactor).query_count as nat,
                                old(interactor).max_query_count as nat,
                                later,
                            ),
                            a,
                            b,
                            old(groups)@[old(rank)@[lighter_g_idx as int] as int]@,
                            old(groups)@[old(rank)@[heavier_g_idx as int] as int]@,
                            step(step(old(rng).state)),
                            tried,
                            old(interactor).max_query_count as nat,
                            later,
                        )
                        &&& swap2_run(
                            old(balancer)@,
                            views(old(groups)@),
                            old(rank)@,
                            lighter_g_idx,
                            heavier_g_idx,
                            input.d,
                            old(rng).state,
                            tried,
                            old(interactor).query_count as nat,
                            old(interactor).max_query_count as nat,
                            later,
                        ) == (Acted {
                            lists: views(final(groups)@),
                            rank: final(rank)@,
                            k: final(balancer)@,
                            count: final(interactor).query_count as nat,
                            accepted,
                        })
                    }
            },
{
    let ghost light = old(rank)@[lighter_g_idx as int] as int;
    let ghost heavy = old(rank)@[heavier_g_idx as int] as int;
    match kind {
        ActionKind::Move => {
            let accepted = action_move(
                heavier_g_idx,
                lighter_g_idx,
                groups,
                rank,
                input,
                balancer,
                interactor,
                rng,
            );
            proof {
                if accepted {
                    let item = choose|item: usize| #[trigger]
                        exchanged(
                            old(groups)@,
                            groups@,
                            light,
                            heavy,
                            Seq::empty(),
                            seq![item],
                        ) && justified(balancer@, groups@, light, heavy, Seq::empty(), seq![item]);
                    assert(sized_for(kind, Seq::empty(), seq![item]));
                }
                let item = choose|item: usize|
                    {
                        &&& #[trigger] picked_item(
                            old(balancer).right_edges@,
                            old(groups)@[old(rank)@[heavier_g_idx as int] as int]@,
                            old(rng).state,
                            item,
                        )
                        &&& chosen(
                            old(balancer)@,
                            old(groups)@[old(rank)@[heavier_g_idx as int] as int]@,
                            old(rng).state,
                            item,
                        )
                        &&& forall|later: Seq<Asked>| #[trigger]
                            continues(interactor.asked@, later) ==> move_run(
                                old(balancer)@,
                                views(old(groups)@),
                                old(rank)@,
                                lighter_g_idx,
                                heavier_g_idx,
                                input.d,
                                item,
                                old(interactor).query_count as nat,
                                old(interactor).max_query_count as nat,
                                later,
                            ) == (Acted {
                                lists: views(groups@),
                                rank: rank@,
                                k: balancer@,
                                count: interactor.query_count as nat,
                                accepted,
                            })
                    };
                let trial = Trial { reading: 0, item, a: 0, b: 0, tried: Seq::empty() };
                assert(state_after(kind, old(rng).state, trial) == rng.state);
            }
            accepted
        },
        ActionKind::Swap => {
            let accepted = action_swap(
                heavier_g_idx,
                lighter_g_idx,
                groups,
                rank,
                input,
                balancer,
                interactor,
                rng,
            );
            proof {
                if accepted {
                    let (a, b) = choose|a: usize, b: usize| #[trigger]
                        exchanged(old(groups)@, groups@, light, heavy, seq![a], seq![b])
                            && justified(balancer@, groups@, light, heavy, seq![a], seq![b]);
                    assert(sized_for(kind, seq![a], seq![b]));
                }
                let (a, b) = choose|a: usize, b: usize|
                    {
                        &&& #[trigger] picked_item(
                            old(balancer).right_edges@,
                            old(groups)@[old(rank)@[lighter_g_idx as int] as int]@,
                            old(rng).state,
                            a,
                        )
                        &&& #[trigger] picked_item(
                            old(balancer).right_edges@,
                            old(groups)@[old(rank)@[heavier_g_idx as int] as int]@,
                            step(old(rng).state),
                            b,
                        )
                        &&& chosen(
                            old(balancer)@,
                            old(groups)@[old(rank)@[lighter_g_idx as int] as int]@,
                            old(rng).state,
                            a,
                        )
                        &&& chosen(
                            old(balancer)@,
                            old(groups)@[old(rank)@[heavier_g_idx as int] as int]@,
                            step(old(rng).state),
                            b,
                        )
                        &&& forall|later: Seq<Asked>| #[trigger]
                            continues(interactor.asked@, later) ==> swap_run(
                                old(balancer)@,
                                views(old(groups)@),
                                old(rank)@,
                                lighter_g_idx,
                                heavier_g_idx,
                                input.d,
                                a,
                                b,
                                old(interactor).query_count as nat,
                                old(interactor).max_query_count as nat,
                                later,
                            ) == (Acted {
                                lists: views(groups@),
                                rank: rank@,
                                k: balancer@,
                                count: interactor.query_count as nat,
                                accepted,
                            })
                    };
                let trial = Trial { reading: 0, item: 0, a, b, tried: Seq::empty() };
                assert(state_after(kind, old(rng).state, trial) == rng.state);
            }
            accepted
        },
        ActionKind::Swap2 => {
            let accepted = action_swap2(
                heavier_g_idx,
                lighter_g_idx,
                groups,
                rank,
                input,
                balancer,
                interactor,
                rng,
            );
            proof {
                let tried = choose|tried: Seq<usize>|
                    {
                        &&& #[trigger] drawn_for(tried, old(rng).state, rng.state)
                        &&& forall|later: Seq<Asked>| #[trigger]
                            continues(interactor.asked@, later) ==> {
                                let a = first_light(
                                    views(old(groups)@),
                                    old(rank)@,
                                    lighter_g_idx,
                                    old(rng).state,
                                );
                                let b = first_heavy(
                                    views(old(groups)@),
                                    old(rank)@,
                                    heavier_g_idx,
                                    old(rng).state,
                                );
                                &&& tried_from(
                                    ask(
                                        old(balancer)@,
                                        seq![a],
                                        seq![b],
                                        old(interactor).query_count as nat,
                                        old(interactor).max_query_count as nat,
                                        later,
                                    ),
                                    a,
                                    b,
                                    old(groups)@[old(rank)@[lighter_g_idx as int] as int]@,
                                    old(groups)@[old(rank)@[heavier_g_idx as int] as int]@,
                                    step(step(old(rng).state)),
                                    tried,
                                    old(interactor).max_query_count as nat,
                                    later,
                                )
                                &&& swap2_run(
                                    old(balancer)@,
                                    views(old(groups)@),
                                    old(rank)@,
                                    lighter_g_idx,
                                    heavier_g_idx,
                                    input.d,
                                    old(rng).state,
                                    tried,
                                    old(interactor).query_count as nat,
                                    old(interactor).max_query_count as nat,
                                    later,
                                ) == (Acted {
                                    lists: views(groups@),
                                    rank: rank@,
                                    k: balancer@,
                                    count: interactor.query_count as nat,
                                    accepted,
                                })
                            }
                    };
                let trial = Trial { reading: 0, item: 0, a: 0, b: 0, tried };
                assert(state_after(kind, old(rng).state, trial) == rng.state);
            }
            accepted
        },
    }
}

/// The state of a search between two trials: the lists of the groups, the
/// rank, the memory, the count of the comparisons sent, the state of the
/// generator, the trials made and the actions accepted, kind by kind, and
/// whether all is in order: every trial so far began with budget left and
/// picked its items as an action may.
#[verifier::ext_equal]
pub struct Searching {
    pub lists: Seq<Seq<usize>>,
    pub rank: Seq<usize>,
    pub k: Knowledge,
    pub count: nat,
    pub state: u64,
    pub trials: nat,
    pub moves: nat,
    pub swaps: nat,
    pub swap2s: nat,
    pub fit: bool,
}

/// The width of the search that a reading of the clock sets.
pub open spec fn width_at(reading: u64) -> usize {
    if radius_at(reading) <= usize::MAX {
        radius_at(reading) as usize
    } else {
        usize::MAX
    }
}

/// One trial of the search, as it follows from the state of the search, the
/// budget and the record of the oracle's answers. A trial is made only with
/// budget left: one that begins without is out of order. The pair of places
/// is picked with the width that the reading sets, then the kind of action
/// is drawn. The trial is counted and nothing else is done if the two places
/// are one, if the group at the heavier place has no items, or if the
/// action is no move and the group at the lighter place has no items. Else
/// the action is tried, and counted for its kind if it was accepted.
pub open spec fn trial_run(
    now: Searching,
    trial: Trial,
    d: usize,
    max: nat,
    answers: Seq<Asked>,
) -> Searching {
    let pair = picked_pair(now.state, d, width_at(trial.reading));
    let kind = kind_of((step(pair.2) % 0x1_0000_0000) as u32);
    let s = step(pair.2);
    let lo = pair.0;
    let hi = pair.1;
    if now.count >= max {
        Searching { fit: false, ..now }
    } else if lo >= hi || now.lists[now.rank[hi] as int].len() == 0 || (kind != ActionKind::Move
        && now.lists[now.rank[lo] as int].len() == 0) {
        Searching { state: s, trials: now.trials + 1, ..now }
    } else {
        let acted = apply_run(
            kind,
            now.k,
            now.lists,
            now.rank,
            lo as usize,
            hi as usize,
            d,
            s,
            trial,
            now.count,
            max,
            answers,
        );
        Searching {
            lists: acted.lists,
            rank: acted.rank,
            k: acted.k,
            count: acted.count,
            state: state_after(kind, s, trial),
            trials: now.trials + 1,
            moves: if acted.accepted && kind == ActionKind::Move {
                now.moves + 1
            } else {
                now.moves
            },
            swaps: if acted.accepted && kind == ActionKind::Swap {
                now.swaps + 1
            } else {
                now.swaps
            },
            swap2s: if acted.accepted && kind == ActionKind::Swap2 {
                now.swap2s + 1
            } else {
                now.swap2s
            },
            fit: now.fit && picks_fit(
                kind,
                now.k,
                now.lists,
                now.rank,
                lo as usize,
                hi as usize,
                s,
                trial,
                now.count,
                max,
                answers,
            ),
        }
    }
}

/// The trials of a search, one after the other.
pub open spec fn search_run(
    begun: Searching,
    trials: Seq<Trial>,
    d: usize,
    max: nat,
    answers: Seq<Asked>,
) -> Searching
    decreases trials.len(),
{
    if trials.len() == 0 {
        begun
    } else {
        trial_run(
            search_run(begun, trials.drop_last(), d, max, answers),
            trials.last(),
            d,
            max,
            answers,
        )
    }
}

/// A whole run, as it follows from the size of the run, the state of the
/// generator, the count of the comparisons sent before, the trials and the
/// record of the oracle's answers: the items are dealt out, the groups are
/// ranked with a memory that knows nothing, and the trials are made.
pub open spec fn solve_run(
    n: usize,
    d: usize,
    q: usize,
    s: u64,
    count: nat,
    trials: Seq<Trial>,
    answers: Seq<Asked>,
) -> Searching {
    let lists = dealt(n as nat, d as nat);
    let sorted = sort_run(
        Knowledge { le: Set::empty(), gt: Set::empty() },
        lists,
        all_groups(d as nat),
        s,
        count,
        q as nat,
        answers,
    );
    search_run(
        Searching {
            lists,
            rank: sorted.rank,
            k: sorted.k,
            count: sorted.count,
            state: sorted.state,
            trials: 0,
            moves: 0,
            swaps: 0,
            swap2s: 0,
            fit: true,
        },
        trials,
        d,
        q as nat,
        answers,
    )
}

/// The trials took their widths from the clock: the second reading of each
/// trial is the reading that set its width.
pub open spec fn widths_read(trials: Seq<Trial>, readings: Seq<u64>) -> bool {
    &&& 2 * trials.len() <= readings.len()
    &&& forall|j: int| 0 <= j < trials.len() ==> (#[trigger] trials[j]).reading == readings[2 * j + 1]
}

/// The clock's readings of one search tell how it went. Each trial reads
/// the clock twice: once to see that time is left, once for the width of
/// the search. A trial is begun only with time left. The search ends with a
/// last reading that leaves no time, or without one: then the budget was
/// used up after `searched` comparisons, or no more trials can be counted.
pub open spec fn search_ran(readings: Seq<u64>, trials: nat, searched: nat, q: nat) -> bool {
    &&& readings.len() == 2 * trials || readings.len() == 2 * trials + 1
    &&& forall|j: int| 0 <= j < trials ==> #[trigger] readings[2 * j] < TIME_LIMIT_MS - MARGIN_MS
    &&& readings.len() == 2 * trials + 1 ==> readings[2 * (trials as int)] >= TIME_LIMIT_MS - MARGIN_MS
    &&& readings.len() == 2 * trials ==> searched >= q || trials == usize::MAX
}

/// Every group holds the items that were dealt out to it.
pub open spec fn holds_as_dealt(groups: Seq<Vec<usize>>, n: nat, d: nat) -> bool {
    &&& groups.len() == d
    &&& forall|g: int| 0 <= g < d ==> same_members(#[trigger] groups[g]@, dealt(n, d)[g])
}

/// Groups that hold the items they held before give each item the group
/// they gave it before.
pub proof fn lemma_owner_untouched(before: Seq<Vec<usize>>, after: Seq<Vec<usize>>, item: usize)
    requires
        untouched(before, after),
    ensures
        owner(after, item) == owner(before, item),
    decreases before.len(),
{
    if before.len() > 0 {
        let last = before.len() - 1;
        assert(same_members(after[last]@, before[last]@));
        assert(after.last()@.contains(item) <==> before.last()@.contains(item)) by {
            assert(after[last]@.to_multiset().count(item) == before[last]@.to_multiset().count(
                item,
            ));
        }
        assert forall|g: int| 0 <= g < before.drop_last().len() implies same_members(
            #[trigger] after.drop_last()[g]@,
            before.drop_last()[g]@,
        ) by {
            assert(same_members(after[g]@, before[g]@));
        }
        lemma_owner_untouched(before.drop_last(), after.drop_last(), item);
    }
}

/// What a run leaves behind.
pub struct Solution {
    /// For each item its group.
    pub d: Vec<usize>,
    /// For each group its items.
    pub groups: Vec<Vec<usize>>,
    /// The groups in the order of their weight, as far as it is known.
    pub rank: Vec<usize>,
    /// What the search has tried and accepted.
    pub stats: Stats,
    /// The count of the comparisons on record when the search ended.
    pub searched: Ghost<nat>,
}

/// Runs the whole search: deals the items out, ranks the groups, and tries
/// one action after the other on a lighter and a heavier group as long as
/// budget and time are left. Comparisons that are then still allowed are
/// spent on the items 0 and 1. The answer gives each item the group that
/// holds it; as long as no action was accepted, that is the group it was
/// dealt to.
#[verifier::rlimit(60)]
pub fn solve<O: Oracle, C: Clock>(
    input: &Input,
    interactor: &mut Interactor<O>,
    timer: &mut Timer<C>,
    rng: &mut Rng,
) -> (solution: Solution)
    requires
        input.d >= 1,
        input.n <= MAX_ITEMS,
        old(interactor).wf(),
        old(interactor).max_query_count == input.q,
    ensures
        old(timer).readings@.is_prefix_of(final(timer).readings@),
        search_ran(
            final(timer).readings@.skip(old(timer).readings@.len() as int),
            solution.stats.trial_count as nat,
            solution.searched@,
            input.q as nat,
        ),
        exists|trials: Seq<Trial>|
            {
                &&& #[trigger] widths_read(
                    trials,
                    final(timer).readings@.skip(old(timer).readings@.len() as int),
                )
                &&& forall|later: Seq<Asked>| #[trigger]
                    continues(final(interactor).asked@, later) ==> {
                        let ended = solve_run(
                            input.n,
                            input.d,
                            input.q,
                            old(rng).state,
                            old(interactor).query_count as nat,
                            trials,
                            later,
                        );
                        &&& ended.lists == views(solution.groups@)
                        &&& ended.rank == solution.rank@
                        &&& ended.count == solution.searched@
                        &&& ended.state == final(rng).state
                        &&& ended.trials == solution.stats.trial_count
                        &&& ended.moves == solution.stats.move_adopted_count
                        &&& ended.swaps == solution.stats.swap_adopted_count
                        &&& ended.swap2s == solution.stats.swap2_adopted_count
                        &&& ended.fit
                    }
            },
        old(interactor).asked@.len() <= solution.searched@ <= final(interactor).asked@.len(),
        forall|i: int|
            solution.searched@ <= i < final(interactor).asked@.len() ==> {
                &&& (#[trigger] final(interactor).asked@[i]).left_v == seq![0usize]
                &&& final(interactor).asked@[i].right_v == seq![1usize]
            },
        solution.stats.move_adopted_count + solution.stats.swap_adopted_count
            + solution.stats.swap2_adopted_count == 0 ==> {
            &&& holds_as_dealt(solution.groups@, input.n as nat, input.d as nat)
            &&& forall|i: int| 0 <= i < input.n ==> (#[trigger] solution.d@[i]) == i % (input.d as int)
        },
        final(interactor).follows(old(interactor)),
        final(interactor).query_count == input.q,
        solution.d@.len() == input.n,
        solution.groups@.len() == input.d,
        is_partition(solution.groups@, input.n as nat),
        is_rank(solution.rank@, input.d as nat),
        forall|i: int|
            0 <= i < input.n ==> (#[trigger] solution.d@[i]) < input.d
                && solution.groups@[solution.d@[i] as int]@.contains(i as usize),
        solution.stats.move_adopted_count + solution.stats.swap_adopted_count
            + solution.stats.swap2_adopted_count <= solution.stats.trial_count,
        old(interactor).query_count >= input.q ==> {
            &&& solution.stats.trial_count == 0
            &&& final(interactor).asked == old(interactor).asked
            &&& groups_are(solution.groups@, dealt(input.n as nat, input.d as nat))
            &&& forall|i: int| 0 <= i < input.n ==> (#[trigger] solution.d@[i]) == i % (input.d as int)
        },
{
    let mut balancer = Balancer::new();
    let ghost sorted_k_before = balancer@;
    let mut groups = init_groups(input);
    let ghost dealt_out = groups@;
    let mut rank = sort_groups(&groups, input, interactor, &mut balancer, rng);
    let ghost sorted_at = *interactor;
    let ghost begun = Searching {
        lists: views(dealt_out),
        rank: rank@,
        k: balancer@,
        count: interactor.query_count as nat,
        state: rng.state,
        trials: 0,
        moves: 0,
        swaps: 0,
        swap2s: 0,
        fit: true,
    };
    let ghost mx = input.q as nat;
    let ghost mut trials: Seq<Trial> = Seq::empty();

    let mut stats = Stats {
        trial_count: 0,
        move_adopted_count: 0,
        swap_adopted_count: 0,
        swap2_adopted_count: 0,
    };
    let ghost base = timer.readings@.len() as int;
    let ghost mut timed_out = false;
    while interactor.query_count < input.q && stats.trial_count < usize::MAX
        invariant_except_break
            !timed_out,
            timer.readings@.len() == base + 2 * stats.trial_count,
        invariant
            base == old(timer).readings@.len(),
            old(timer).readings@.is_prefix_of(timer.readings@),
            mx == input.q,
            interactor.max_query_count == input.q,
            interactor.follows(&sorted_at),
            trials.len() == stats.trial_count,
            forall|j: int|
                0 <= j < trials.len() ==> (#[trigger] trials[j]).reading == timer.readings@[base + 2
                    * j + 1],
            forall|later: Seq<Asked>| #[trigger]
                continues(interactor.asked@, later) ==> search_run(
                    begun,
                    trials,
                    input.d,
                    mx,
                    later,
                ) == (Searching {
                    lists: views(groups@),
                    rank: rank@,
                    k: balancer@,
                    count: interactor.query_count as nat,
                    state: rng.state,
                    trials: stats.trial_count as nat,
                    moves: stats.move_adopted_count as nat,
                    swaps: stats.swap_adopted_count as nat,
                    swap2s: stats.swap2_adopted_count as nat,
                    fit: true,
                }),
            forall|j: int|
                0 <= j < stats.trial_count ==> #[trigger] timer.readings@[base + 2 * j]
                    < TIME_LIMIT_MS - MARGIN_MS,
            stats.move_adopted_count + stats.swap_adopted_count + stats.swap2_adopted_count == 0
                ==> untouched(dealt_out, groups@),
            input.d >= 1,
            input.n <= MAX_ITEMS,
            groups@.len() == input.d,
            groups_fit(groups@),
            is_partition(groups@, input.n as nat),
            is_rank(rank@, input.d as nat),
            balancer.wf(),
            interactor.follows(old(interactor)),
            stats.move_adopted_count + stats.swap_adopted_count + stats.swap2_adopted_count
                <= stats.trial_count,
            stats.trial_count == 0 ==> groups@ == dealt_out,
            stats.trial_count == 0 ==> interactor.asked@.len() == old(interactor).asked@.len()
                || old(interactor).query_count < input.q,
            old(interactor).query_count >= input.q ==> stats.trial_count == 0,
        ensures
            timer.readings@.len() == base + 2 * stats.trial_count + if timed_out {
                1int
            } else {
                0int
            },
            timed_out ==> timer.readings@[base + 2 * stats.trial_count] >= TIME_LIMIT_MS
                - MARGIN_MS,
            !timed_out ==> interactor.query_count >= input.q || stats.trial_count == usize::MAX,
        decreases usize::MAX - stats.trial_count,
    {
        let ghost seen = timer.readings@;
        let ghost held = groups@;
        if timer.read() >= TIME_LIMIT_MS - MARGIN_MS {
            proof {
                timed_out = true;
                assert forall|j: int| 0 <= j < stats.trial_count implies #[trigger] timer.readings@[base
                    + 2 * j] < TIME_LIMIT_MS - MARGIN_MS by {
                    assert(timer.readings@[base + 2 * j] == seen[base + 2 * j]);
                }
            }
            break ;
        }
        let ghost now = Searching {
            lists: views(groups@),
            rank: rank@,
            k: balancer@,
            count: interactor.query_count as nat,
            state: rng.state,
            trials: stats.trial_count as nat,
            moves: stats.move_adopted_count as nat,
            swaps: stats.swap_adopted_count as nat,
            swap2s: stats.swap2_adopted_count as nat,
            fit: true,
        };
        let ghost earlier = trials;
        let reading: u64 = timer.read();
        let par: usize = search_radius(reading);
        let (lighter_g_idx, heavier_g_idx) = select_g_idx_pair(input, par, rng);
        stats.trial_count += 1;
        proof {
            assert forall|j: int| 0 <= j < stats.trial_count implies #[trigger] timer.readings@[base
                + 2 * j] < TIME_LIMIT_MS - MARGIN_MS by {
                if j < stats.trial_count - 1 {
                    assert(timer.readings@[base + 2 * j] == seen[base + 2 * j]);
                }
            }
            assert(par == width_at(reading));
        }

        let kind = choose_action(next_fraction(rng));
        let ghost drawn_state = rng.state;
        let ghost passed = Trial { reading, item: 0, a: 0, b: 0, tried: Seq::empty() };
        let heavy_is_empty: bool = lighter_g_idx < heavier_g_idx && groups[rank[heavier_g_idx]].len()
            == 0;
        let light_is_empty: bool = lighter_g_idx < heavier_g_idx && groups[rank[lighter_g_idx]].len()
            == 0;
        let needs_light: bool = match kind {
            ActionKind::Move => false,
            _ => true,
        };
        if lighter_g_idx >= heavier_g_idx || heavy_is_empty || (needs_light && light_is_empty) {
            proof {
                trials = earlier.push(passed);
                assert(trials.drop_last() =~= earlier);
                assert forall|j: int| 0 <= j < trials.len() implies (#[trigger] trials[j]).reading
                    == timer.readings@[base + 2 * j + 1] by {
                    if j < earlier.len() {
                        assert(trials[j] == earlier[j]);
                        assert(timer.readings@[base + 2 * j + 1] == seen[base + 2 * j + 1]);
                    }
                }
                assert forall|later: Seq<Asked>| #[trigger]
                    continues(interactor.asked@, later) implies search_run(
                    begun,
                    trials,
                    input.d,
                    mx,
                    later,
                ) == (Searching { state: drawn_state, trials: now.trials + 1, ..now }) by {
                    assert(search_run(begun, earlier, input.d, mx, later) == now);
                    assert(now.count < mx);
                }
            }
            continue ;
        }
        let ghost met = *interactor;
        let accepted = apply(
            kind,
            heavier_g_idx,
            lighter_g_idx,
            &mut groups,
            &mut rank,
            input,
            &mut balancer,
            interactor,
            rng,
        );
        proof {
            let picked = choose|trial: Trial|
                {
                    &&& #[trigger] state_after(kind, drawn_state, trial) == rng.state
                    &&& forall|later: Seq<Asked>| #[trigger]
                        continues(interactor.asked@, later) ==> {
                            &&& picks_fit(
                                kind,
                                now.k,
                                now.lists,
                                now.rank,
                                lighter_g_idx,
                                heavier_g_idx,
                                drawn_state,
                                trial,
                                met.query_count as nat,
                                met.max_query_count as nat,
                                later,
                            )
                            &&& apply_run(
                                kind,
                                now.k,
                                now.lists,
                                now.rank,
                                lighter_g_idx,
                                heavier_g_idx,
                                input.d,
                                drawn_state,
                                trial,
                                met.query_count as nat,
                                met.max_query_count as nat,
                                later,
                            ) == (Acted {
                                lists: views(groups@),
                                rank: rank@,
                                k: balancer@,
                                count: interactor.query_count as nat,
                                accepted,
                            })
                        }
                };
            let made = Trial { reading, ..picked };
            trials = earlier.push(made);
            assert(trials.drop_last() =~= earlier);
            assert(state_after(kind, drawn_state, made) == state_after(kind, drawn_state, picked));
            assert forall|j: int| 0 <= j < trials.len() implies (#[trigger] trials[j]).reading
                == timer.readings@[base + 2 * j + 1] by {
                if j < earlier.len() {
                    assert(trials[j] == earlier[j]);
                    assert(timer.readings@[base + 2 * j + 1] == seen[base + 2 * j + 1]);
                }
            }
            interactor.lemma_stall_stays(&met, &sorted_at);
            assert forall|later: Seq<Asked>| #[trigger]
                continues(interactor.asked@, later) implies search_run(
                begun,
                trials,
                input.d,
                mx,
                later,
            ) == (Searching {
                lists: views(groups@),
                rank: rank@,
                k: balancer@,
                count: interactor.query_count as nat,
                state: rng.state,
                trials: now.trials + 1,
                moves: if accepted && kind == ActionKind::Move {
                    now.moves + 1
                } else {
                    now.moves
                },
                swaps: if accepted && kind == ActionKind::Swap {
                    now.swaps + 1
                } else {
                    now.swaps
                },
                swap2s: if accepted && kind == ActionKind::Swap2 {
                    now.swap2s + 1
                } else {
                    now.swap2s
                },
                fit: true,
            }) by {
                lemma_continues(met.asked@, interactor.asked@, later);
                assert(search_run(begun, earlier, input.d, mx, later) == now);
                assert(now.count < mx);
                assert(picks_fit(
                    kind,
                    now.k,
                    now.lists,
                    now.rank,
                    lighter_g_idx,
                    heavier_g_idx,
                    drawn_state,
                    made,
                    now.count,
                    mx,
                    later,
                ) == picks_fit(
                    kind,
                    now.k,
                    now.lists,
                    now.rank,
                    lighter_g_idx,
                    heavier_g_idx,
                    drawn_state,
                    picked,
                    now.count,
                    mx,
                    later,
                ));
                assert(apply_run(
                    kind,
                    now.k,
                    now.lists,
                    now.rank,
                    lighter_g_idx,
                    heavier_g_idx,
                    input.d,
                    drawn_state,
                    made,
                    now.count,
                    mx,
                    later,
                ) == apply_run(
                    kind,
                    now.k,
                    now.lists,
                    now.rank,
                    lighter_g_idx,
                    heavier_g_idx,
                    input.d,
                    drawn_state,
                    picked,
                    now.count,
                    mx,
                    later,
                ));
            }
        }
        if accepted {
            match kind {
                ActionKind::Move => {
                    stats.move_adopted_count += 1;
                },
                ActionKind::Swap => {
                    stats.swap_adopted_count += 1;
                },
                ActionKind::Swap2 => {
                    stats.swap2_adopted_count += 1;
                },
            }
        }
        proof {
            if stats.move_adopted_count + stats.swap_adopted_count + stats.swap2_adopted_count == 0 {
                assert(untouched(held, groups@));
                assert forall|g: int| 0 <= g < dealt_out.len() implies same_members(
                    #[trigger] groups@[g]@,
                    dealt_out[g]@,
                ) by {
                    assert(same_members(groups@[g]@, held[g]@));
                    assert(same_members(held[g]@, dealt_out[g]@));
                }
            }
        }
    }
    let ghost searched = interactor.asked@.len();
    let ghost searched_at = *interactor;
    let ghost searched_k = balancer@;

    // comparisons that are still allowed have to be spent
    let mut zero: Vec<usize> = Vec::new();
    zero.push(0);
    let mut one: Vec<usize> = Vec::new();
    one.push(1);
    proof {
        assert(zero@ =~= seq![0usize]);
        assert(one@ =~= seq![1usize]);
    }
    while interactor.query_count < input.q
        invariant
            zero@ == seq![0usize],
            one@ == seq![1usize],
            interactor.follows(old(interactor)),
            interactor.max_query_count == input.q,
            old(interactor).query_count >= input.q ==> interactor.asked == old(interactor).asked,
            interactor.follows(&searched_at),
            searched <= interactor.asked@.len(),
            forall|i: int|
                searched <= i < interactor.asked@.len() ==> {
                    &&& (#[trigger] interactor.asked@[i]).left_v == seq![0usize]
                    &&& interactor.asked@[i].right_v == seq![1usize]
                },
        decreases input.q - interactor.query_count,
    {
        let ghost met = *interactor;
        let _ = interactor.output_query(&zero, &one);
        proof {
            interactor.lemma_stall_stays(&met, &searched_at);
        }
    }

    proof {
        lemma_partition_facts(groups@, input.n as nat);
    }
    let d = groups_to_output_d(&groups, input);
    proof {
        assert forall|i: int| 0 <= i < input.n implies (#[trigger] d@[i]) < input.d
            && groups@[d@[i] as int]@.contains(i as usize) by {
            lemma_owner_is_group(groups@, i as usize);
            lemma_owner_holds(groups@, input.n as nat, i as usize);
        }
        if old(interactor).query_count >= input.q {
            assert forall|i: int| 0 <= i < input.n implies (#[trigger] d@[i]) == i % (input.d as int) by {
                assert(owner(dealt_out, i as usize) == (i as usize) % input.d);
            }
        }
        if stats.move_adopted_count + stats.swap_adopted_count + stats.swap2_adopted_count == 0 {
            assert forall|i: int| 0 <= i < input.n implies (#[trigger] d@[i]) == i % (input.d as int) by {
                lemma_owner_untouched(dealt_out, groups@, i as usize);
                assert(owner(dealt_out, i as usize) == (i as usize) % input.d);
            }
            assert(holds_as_dealt(groups@, input.n as nat, input.d as nat));
        }
        let r = timer.readings@.skip(base);
        assert forall|j: int| 0 <= j < stats.trial_count implies #[trigger] r[2 * j] < TIME_LIMIT_MS
            - MARGIN_MS by {
            assert(r[2 * j] == timer.readings@[base + 2 * j]);
        }
        assert(widths_read(trials, r)) by {
            assert forall|j: int| 0 <= j < trials.len() implies (#[trigger] trials[j]).reading == r[2
                * j + 1] by {
                assert(r[2 * j + 1] == timer.readings@[base + 2 * j + 1]);
            }
        }
        assert(views(dealt_out) =~= dealt(input.n as nat, input.d as nat));
        assert(sorted_k_before =~= (Knowledge { le: Set::empty(), gt: Set::empty() }));
        interactor.lemma_stall_stays(&searched_at, &sorted_at);
        assert forall|later: Seq<Asked>| #[trigger]
            continues(interactor.asked@, later) implies solve_run(
            input.n,
            input.d,
            input.q,
            old(rng).state,
            old(interactor).query_count as nat,
            trials,
            later,
        ) == (Searching {
            lists: views(groups@),
            rank: rank@,
            k: searched_k,
            count: searched as nat,
            state: rng.state,
            trials: stats.trial_count as nat,
            moves: stats.move_adopted_count as nat,
            swaps: stats.swap_adopted_count as nat,
            swap2s: stats.swap2_adopted_count as nat,
            fit: true,
        }) by {
            lemma_continues(searched_at.asked@, interactor.asked@, later);
            lemma_continues(sorted_at.asked@, interactor.asked@, later);
            assert(continues(searched_at.asked@, later));
            assert(continues(sorted_at.asked@, later));
        }
    }
    Solution { d, groups, rank, stats, searched: Ghost(searched) }
}

/// In groups that part the items from 0 up to `n`, the group that the answer
/// gives to an item below `n` holds the item.
pub proof fn lemma_owner_holds(groups: Seq<Vec<usize>>, n: nat, item: usize)
    requires
        is_partition(groups, n),
        item < n,
        n <= usize::MAX,
        groups.len() >= 1,
    ensures
        groups[owner(groups, item)]@.contains(item),
{
    crate::groups::lemma_first_items_count(n, item);
    assert(all_items(groups).count(item) == 1);
    lemma_counted_item_is_held(groups, item);
}

/// An item that is among the items of all groups lies in the group that the
/// answer gives it.
proof fn lemma_counted_item_is_held(groups: Seq<Vec<usize>>, item: usize)
    requires
        all_items(groups).count(item) > 0,
    ensures
        0 <= owner(groups, item) < groups.len(),
        groups[owner(groups, item)]@.contains(item),
    decreases groups.len(),
{
    if groups.len() > 0 {
        if !groups.last()@.contains(item) {
            let fewer = groups.drop_last();
            assert(groups.last()@.to_multiset().count(item) == 0);
            assert(all_items(fewer).count(item) > 0);
            lemma_counted_item_is_held(fewer, item);
            assert(fewer[owner(fewer, item)] == groups[owner(fewer, item)]);
        }
    }
}

} // verus!
