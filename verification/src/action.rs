//! The three ways in which the search changes the groups: moving one item,
//! exchanging two items, and exchanging two small sets of items. Each way
//! asks the balancer before it commits, and undoes itself when the balancer
//! does not back it.

use crate::balancer::{
    ask, grown_from, known_at_most, lemma_known_stays, lighter_candidate, walk_ends_with,
    Balancer, Finding, Knowledge,
};
use crate::def::{BalanceResult, Input};
use crate::groups::{
    all_items, exchanged, first_place, groups_fit, heavy_rest, is_rank,
    lemma_exchanged_keeps_items, lemma_first_place, lemma_moved_keeps_rank,
    lemma_moved_stays_in_window, lemma_same_members, lemma_swap_remove_members,
    lemma_untouched_keeps_items, light_rest, moved, same_members, same_outside, untouched, views,
    without,
};
use crate::interactor::{continues, lemma_continues, Asked, Interactor, Oracle};
use crate::mask::{item_mask, items_fit, lemma_mask_of_multiset, mask_of};
use crate::rank::{rank_run, source_place, update_rank};
use crate::util::rnd::{after_draws, gen_range, ranged, step, Rng};
use vstd::prelude::*;

verus! {

broadcast use {vstd::seq_lib::group_to_multiset_ensures, vstd::multiset::group_multiset_axioms};

/// How many further items the growing exchange tries for one of its two
/// sets.
pub const TRIAL_COUNT: usize = 3;

/// Every group has the mask it had before.
pub open spec fn same_masks(before: Seq<Vec<usize>>, after: Seq<Vec<usize>>) -> bool {
    &&& after.len() == before.len()
    &&& forall|g: int| 0 <= g < before.len() ==> mask_of(#[trigger] after[g]@) == mask_of(before[g]@)
}

/// What an action needs: groups whose items fit a mask, a rank that names
/// each group once, and two places of the rank, the lighter one first.
pub open spec fn action_ready(
    groups: Seq<Vec<usize>>,
    rank: Seq<usize>,
    lighter_g_idx: usize,
    heavier_g_idx: usize,
) -> bool {
    &&& groups_fit(groups)
    &&& is_rank(rank, groups.len())
    &&& lighter_g_idx < heavier_g_idx < rank.len()
}

/// The balancer backs an exchange: the items that left the light group are
/// known to weigh at most as much as those that left the heavy group, and
/// what stayed in the light group at most as much as what stayed in the
/// heavy group.
pub open spec fn justified(
    k: Knowledge,
    after: Seq<Vec<usize>>,
    light: int,
    heavy: int,
    a_items: Seq<usize>,
    b_items: Seq<usize>,
) -> bool {
    &&& known_at_most(k, a_items, b_items)
    &&& known_at_most(k, light_rest(after, light, b_items), heavy_rest(after, heavy, a_items))
}

/// A finding on the two lists is on record, one way or the other.
pub open spec fn compared(k: Knowledge, a: Seq<usize>, b: Seq<usize>) -> bool {
    known_at_most(k, a, b) || known_at_most(k, b, a)
}

/// A finding that is on record stays on record when the memory grows.
pub proof fn lemma_compared_stays(before: Knowledge, after: Knowledge, a: Seq<usize>, b: Seq<usize>)
    requires
        grown_from(after, before),
        compared(before, a, b),
    ensures
        compared(after, a, b),
{
    if known_at_most(before, a, b) {
        lemma_known_stays(before, after, a, b);
    } else {
        lemma_known_stays(before, after, b, a);
    }
}

/// An item of the first list and an item of the second have been compared.
pub open spec fn items_compared(k: Knowledge, light: Seq<usize>, heavy: Seq<usize>) -> bool {
    exists|a: usize, b: usize|
        light.contains(a) && heavy.contains(b) && #[trigger] compared(k, seq![a], seq![b])
}

/// Groups whose members are the same have the same masks, bit for bit.
pub proof fn lemma_untouched_keeps_masks(before: Seq<Vec<usize>>, after: Seq<Vec<usize>>)
    requires
        untouched(before, after),
    ensures
        same_masks(before, after),
{
    assert forall|g: int| 0 <= g < before.len() implies mask_of(#[trigger] after[g]@) == mask_of(
        before[g]@,
    ) by {
        assert(same_members(after[g]@, before[g]@));
        lemma_mask_of_multiset(after[g]@, before[g]@);
    }
}

/// The item is the one picked from the group with the generator in state
/// `s`: the walk for a lighter item, begun at the item drawn, ends with it.
pub open spec fn picked_item(
    edges: Map<u128, Vec<u128>>,
    group: Seq<usize>,
    s: u64,
    item: usize,
) -> bool {
    walk_ends_with(
        edges,
        mask_of(group),
        item_mask(group[ranged(s, 0, group.len() as usize)]),
        item_mask(item),
    )
}

/// The item is one that may be picked from the group with the generator in
/// state `s` and the memory `k`: the item drawn, if the memory knows no item
/// of the group to be lighter than it, and else one of those items.
pub open spec fn chosen(k: Knowledge, group: Seq<usize>, s: u64, item: usize) -> bool {
    let drawn = group[ranged(s, 0, group.len() as usize)];
    &&& group.contains(item)
    &&& item == drawn || lighter_candidate(k.gt, mask_of(group), drawn, item)
    &&& item == drawn <==> forall|c: usize| !lighter_candidate(k.gt, mask_of(group), drawn, c)
}

/// What an action finds and leaves behind: the lists of the groups, the
/// rank, the memory, the count of the comparisons sent, and whether it was
/// accepted.
#[verifier::ext_equal]
pub struct Acted {
    pub lists: Seq<Seq<usize>>,
    pub rank: Seq<usize>,
    pub k: Knowledge,
    pub count: nat,
    pub accepted: bool,
}

/// The list without the item `x`, taken out where it first stands by putting
/// the last member in its place.
pub open spec fn swap_removed(list: Seq<usize>, x: usize) -> Seq<usize> {
    list.update(first_place(list, x), list.last()).drop_last()
}

/// The two groups are put in their places after an exchange: first the
/// giving group, from above, on the lists `taken`, in which the taking group
/// still lacks what it gets; then, if that was finished, the taking group,
/// from below, on the lists `given`.
pub open spec fn settle_run(
    k: Knowledge,
    taken: Seq<Seq<usize>>,
    given: Seq<Seq<usize>>,
    rank: Seq<usize>,
    lighter_g_idx: usize,
    heavier_g_idx: usize,
    d: usize,
    count: nat,
    max: nat,
    answers: Seq<Asked>,
) -> Acted {
    let first = rank_run(
        k,
        taken,
        rank,
        true,
        lighter_g_idx,
        heavier_g_idx,
        d,
        count,
        max,
        answers,
    );
    if !first.ok {
        Acted { lists: given, rank: first.rank, k: first.k, count: first.count, accepted: true }
    } else {
        let second = rank_run(
            first.k,
            given,
            first.rank,
            false,
            lighter_g_idx,
            heavier_g_idx,
            d,
            first.count,
            max,
            answers,
        );
        Acted {
            lists: given,
            rank: second.rank,
            k: second.k,
            count: second.count,
            accepted: true,
        }
    }
}

/// The move of `item`, as it follows from the memory, the budget and the
/// record of the oracle's answers. The item is taken out of the heavier
/// group, and the lighter group is compared with what stays. The move is
/// made exactly if the lighter group is found lighter: the item goes to the
/// end of the lighter group and the two groups are put in their places. Any
/// other finding puts the item back at the end of the heavier group, and
/// nothing else is changed but the memory and the count, as the comparison
/// has left them.
pub open spec fn move_run(
    k: Knowledge,
    lists: Seq<Seq<usize>>,
    rank: Seq<usize>,
    lighter_g_idx: usize,
    heavier_g_idx: usize,
    d: usize,
    item: usize,
    count: nat,
    max: nat,
    answers: Seq<Asked>,
) -> Acted {
    let light = rank[lighter_g_idx as int] as int;
    let heavy = rank[heavier_g_idx as int] as int;
    let rest = swap_removed(lists[heavy], item);
    let found = ask(k, lists[light], rest, count, max, answers);
    if found.res != BalanceResult::Left {
        Acted {
            lists: lists.update(heavy, rest.push(item)),
            rank,
            k: found.k,
            count: found.count,
            accepted: false,
        }
    } else {
        let taken = lists.update(heavy, rest);
        let given = taken.update(light, lists[light].push(item));
        settle_run(
            found.k,
            taken,
            given,
            rank,
            lighter_g_idx,
            heavier_g_idx,
            d,
            found.count,
            max,
            answers,
        )
    }
}

/// The exchange of the item `a` of the lighter group for the item `b` of the
/// heavier group, as it follows from the memory, the budget and the record
/// of the oracle's answers. The two items are compared first: unless `a` is
/// found lighter than `b` or as heavy, nothing is changed but the memory and
/// the count. Then both are taken out and what stays of the two groups is
/// compared: if the lighter group's rest is found heavier, or nothing is
/// found, each item goes back to the end of its own group. On any other
/// finding `a` goes to the end of the heavier group and `b` to the end of
/// the lighter group, and the two groups are put in their places.
pub open spec fn swap_run(
    k: Knowledge,
    lists: Seq<Seq<usize>>,
    rank: Seq<usize>,
    lighter_g_idx: usize,
    heavier_g_idx: usize,
    d: usize,
    a: usize,
    b: usize,
    count: nat,
    max: nat,
    answers: Seq<Asked>,
) -> Acted {
    let light = rank[lighter_g_idx as int] as int;
    let heavy = rank[heavier_g_idx as int] as int;
    let items = ask(k, seq![a], seq![b], count, max, answers);
    if items.res != BalanceResult::Left && items.res != BalanceResult::Equal {
        Acted { lists, rank, k: items.k, count: items.count, accepted: false }
    } else {
        let light_left = swap_removed(lists[light], a);
        let heavy_left = swap_removed(lists[heavy], b);
        let rests = ask(items.k, light_left, heavy_left, items.count, max, answers);
        if rests.res == BalanceResult::Right || rests.res == BalanceResult::Unknown {
            Acted {
                lists: lists.update(light, light_left.push(a)).update(heavy, heavy_left.push(b)),
                rank,
                k: rests.k,
                count: rests.count,
                accepted: false,
            }
        } else {
            let taken = lists.update(light, light_left).update(heavy, heavy_left.push(a));
            let given = taken.update(light, light_left.push(b));
            settle_run(
                rests.k,
                taken,
                given,
                rank,
                lighter_g_idx,
                heavier_g_idx,
                d,
                rests.count,
                max,
                answers,
            )
        }
    }
}

/// The first place at which the list holds `x`.
pub fn position_of(list: &Vec<usize>, x: usize) -> (at: Option<usize>)
    ensures
        match at {
            Some(i) => i < list@.len() && list@[i as int] == x && forall|j: int|
                0 <= j < i ==> list@[j] != x,
            None => !list@.contains(x),
        },
{
    let mut i: usize = 0;
    while i < list.len()
        invariant
            i <= list.len(),
            forall|j: int| 0 <= j < i ==> list@[j] != x,
        decreases list.len() - i,
    {
        if list[i] == x {
            return Some(i);
        }
        i += 1;
    }
    None
}

/// Picks an item of the group: one drawn by chance, or, if the balancer
/// knows items of the group to be lighter than it, the one of them that
/// lies deepest behind it.
pub fn select_lighter_item(group: &Vec<usize>, balancer: &Balancer, rng: &mut Rng) -> (item: usize)
    requires
        group@.len() > 0,
        items_fit(group@),
    ensures
        group@.contains(item),
        final(rng).state == step(old(rng).state),
        ({
            let drawn = group@[ranged(old(rng).state, 0, group@.len() as usize)];
            &&& item == drawn || lighter_candidate(balancer@.gt, mask_of(group@), drawn, item)
            &&& item == drawn <==> forall|c: usize|
                !lighter_candidate(balancer@.gt, mask_of(group@), drawn, c)
            &&& picked_item(balancer.right_edges@, group@, old(rng).state, item)
        }),
        chosen(balancer@, group@, old(rng).state, item),
{
    let item_idx_in_group: usize = gen_range(rng, 0, group.len());
    let item_idx: usize = group[item_idx_in_group];
    assert(group@.contains(item_idx));
    balancer.find_lighter_in_group(item_idx, group)
}

/// Moves one item from the group at the heavier place to the group at the
/// lighter place, if the balancer finds the lighter group still lighter
/// than what stays of the heavier one. Any other finding puts the item back.
/// After a move the giving group is put in its place in the rank, and then
/// the taking group; the move stands even if the rank cannot be settled.
pub fn action_move<O: Oracle>(
    heavier_g_idx: usize,
    lighter_g_idx: usize,
    groups: &mut Vec<Vec<usize>>,
    rank: &mut Vec<usize>,
    input: &Input,
    balancer: &mut Balancer,
    interactor: &mut Interactor<O>,
    rng: &mut Rng,
) -> (accepted: bool)
    requires
        action_ready(old(groups)@, old(rank)@, lighter_g_idx, heavier_g_idx),
        old(groups)@[old(rank)@[heavier_g_idx as int] as int]@.len() > 0,
        old(balancer).wf(),
        old(interactor).wf(),
    ensures
        final(balancer).wf(),
        grown_from(final(balancer)@, old(balancer)@),
        final(interactor).follows(old(interactor)),
        final(rng).state == step(old(rng).state),
        groups_fit(final(groups)@),
        final(groups)@.len() == old(groups)@.len(),
        is_rank(final(rank)@, final(groups)@.len()),
        same_outside(old(rank)@, final(rank)@, lighter_g_idx as int, heavier_g_idx as int),
        all_items(final(groups)@) == all_items(old(groups)@),
        !accepted ==> {
            &&& final(rank)@ == old(rank)@
            &&& untouched(old(groups)@, final(groups)@)
            &&& same_masks(old(groups)@, final(groups)@)
            &&& final(interactor).stalled_since(old(interactor)) || compared(
                final(balancer)@,
                final(groups)@[old(rank)@[lighter_g_idx as int] as int]@,
                final(groups)@[old(rank)@[heavier_g_idx as int] as int]@.drop_last(),
            )
        },
        final(interactor).query_count - old(interactor).query_count <= 1 + 2 * (heavier_g_idx
            - lighter_g_idx),
        exists|item: usize|
            {
                &&& #[trigger] picked_item(
                    old(balancer).right_edges@,
                    old(groups)@[old(rank)@[heavier_g_idx as int] as int]@,
                    old(rng).state,
                    item,
                )
                &&& chosen(
                    old(balancer)@,
                    old(groups)@[old(rank)@[heavier_g_idx as int] as int]@,
                    old(rng).state,
                    item,
                )
                &&& forall|later: Seq<Asked>| #[trigger]
                    continues(final(interactor).asked@, later) ==> move_run(
                        old(balancer)@,
                        views(old(groups)@),
                        old(rank)@,
                        lighter_g_idx,
                        heavier_g_idx,
                        input.d,
                        item,
                        old(interactor).query_count as nat,
                        old(interactor).max_query_count as nat,
                        later,
                    ) == (Acted {
                        lists: views(final(groups)@),
                        rank: final(rank)@,
                        k: final(balancer)@,
                        count: final(interactor).query_count as nat,
                        accepted,
                    })
            },
        accepted ==> exists|item: usize|
            {
                &&& #[trigger] exchanged(
                    old(groups)@,
                    final(groups)@,
                    old(rank)@[lighter_g_idx as int] as int,
                    old(rank)@[heavier_g_idx as int] as int,
                    Seq::empty(),
                    seq![item],
                )
                &&& justified(
                    final(balancer)@,
                    final(groups)@,
                    old(rank)@[lighter_g_idx as int] as int,
                    old(rank)@[heavier_g_idx as int] as int,
                    Seq::empty(),
                    seq![item],
                )
                &&& picked_item(
                    old(balancer).right_edges@,
                    old(groups)@[old(rank)@[heavier_g_idx as int] as int]@,
                    old(rng).state,
                    item,
                )
            },
{
    let ghost before = groups@;
    let ghost start_rank = rank@;
    let from: usize = rank[heavier_g_idx];
    let to: usize = rank[lighter_g_idx];
    let item_idx: usize = select_lighter_item(&groups[from], balancer, rng);
    let found = position_of(&groups[from], item_idx);
    let i: usize = found.unwrap();
    groups[from].swap_remove(i);
    let ghost taken = groups@;
    let ghost lists = views(before);
    let ghost rest = swap_removed(lists[from as int], item_idx);
    let ghost met = *interactor;
    let ghost memory = balancer@;
    proof {
        lemma_first_place(before[from as int]@, item_idx, i as int);
        assert(taken[from as int]@ == rest);
        assert(views(taken) =~= lists.update(from as int, rest));
        lemma_swap_remove_members(before[from as int]@, i as int);
        lemma_same_members(taken[from as int]@.push(item_idx), before[from as int]@);
        assert forall|g: int| 0 <= g < taken.len() implies items_fit(#[trigger] taken[g]@) by {
            if g == from {
                assert forall|j: int| 0 <= j < taken[g]@.len() implies taken[g]@[j]
                    < crate::mask::MAX_ITEMS by {
                    assert(taken[g]@.push(item_idx)[j] == taken[g]@[j]);
                }
            } else {
                assert(taken[g] == before[g]);
            }
        }
    }

    let res = balancer.get_result(&groups[to], &groups[from], interactor);
    match res {
        BalanceResult::Left => {},
        _ => {
            groups[from].push(item_idx);
            proof {
                assert(views(groups@) =~= lists.update(from as int, rest.push(item_idx)));
                assert(groups@[from as int]@.drop_last() =~= taken[from as int]@);
                assert(groups@[to as int] == taken[to as int]);
                assert forall|g: int| 0 <= g < before.len() implies same_members(
                    #[trigger] groups@[g]@,
                    before[g]@,
                ) by {
                    if g != from {
                        assert(groups@[g] == before[g]);
                    }
                }
                lemma_untouched_keeps_items(before, groups@);
                lemma_untouched_keeps_masks(before, groups@);
            }
            return false;
        },
    }
    let ghost asked = balancer@;
    let ghost compared_at = *interactor;
    let ranked = update_rank(
        rank,
        groups,
        true,
        lighter_g_idx,
        heavier_g_idx,
        input,
        interactor,
        balancer,
    );
    let ghost mid_rank = rank@;
    let ghost first_at = *interactor;
    let ghost first_memory = balancer@;
    proof {
        let p = choose|p: int|
            lighter_g_idx <= p <= heavier_g_idx && mid_rank == #[trigger] moved(
                start_rank,
                source_place(true, lighter_g_idx, heavier_g_idx),
                p,
            );
        lemma_moved_keeps_rank(start_rank, heavier_g_idx as int, p, groups@.len());
        lemma_moved_stays_in_window(
            start_rank,
            heavier_g_idx as int,
            p,
            lighter_g_idx as int,
            heavier_g_idx as int,
        );
    }
    groups[to].push(item_idx);
    let ghost given = groups@;
    proof {
        assert(views(given) =~= lists.update(from as int, rest).update(
            to as int,
            lists[to as int].push(item_idx),
        ));
        assert forall|g: int| 0 <= g < given.len() implies items_fit(#[trigger] given[g]@) by {
            if g == to {
                assert forall|j: int| 0 <= j < given[g]@.len() implies given[g]@[j]
                    < crate::mask::MAX_ITEMS by {
                    if j < taken[g]@.len() {
                        assert(given[g]@[j] == taken[g]@[j]);
                    }
                }
            } else {
                assert(given[g] == taken[g]);
            }
        }
    }
    if ranked {
        let _ = update_rank(
            rank,
            groups,
            false,
            lighter_g_idx,
            heavier_g_idx,
            input,
            interactor,
            balancer,
        );
        proof {
            let p = choose|p: int|
                lighter_g_idx <= p <= heavier_g_idx && rank@ == #[trigger] moved(
                    mid_rank,
                    source_place(false, lighter_g_idx, heavier_g_idx),
                    p,
                );
            lemma_moved_keeps_rank(mid_rank, lighter_g_idx as int, p, groups@.len());
            lemma_moved_stays_in_window(
                mid_rank,
                lighter_g_idx as int,
                p,
                lighter_g_idx as int,
                heavier_g_idx as int,
            );
        }
    }
    proof {
        let light = to as int;
        let heavy = from as int;
        let a_items = Seq::<usize>::empty();
        let b_items = seq![item_idx];
        assert(light_rest(given, light, b_items) =~= before[light]@);
        assert(heavy_rest(given, heavy, a_items) =~= taken[heavy]@);
        assert(given[light]@ =~= light_rest(given, light, b_items) + b_items);
        assert(given[heavy]@ =~= heavy_rest(given, heavy, a_items) + a_items);
        assert(light_rest(given, light, b_items) + a_items =~= before[light]@);
        assert(heavy_rest(given, heavy, a_items) + b_items =~= taken[heavy]@.push(item_idx));
        assert(exchanged(before, given, light, heavy, a_items, b_items));
        lemma_exchanged_keeps_items(before, given, light, heavy, a_items, b_items);
        lemma_known_stays(asked, balancer@, before[light]@, taken[heavy]@);
        assert(justified(balancer@, given, light, heavy, a_items, b_items));
        lemma_log_grows(&compared_at, &first_at, interactor);
        assert forall|later: Seq<Asked>| #[trigger]
            continues(interactor.asked@, later) implies move_run(
            old(balancer)@,
            lists,
            start_rank,
            lighter_g_idx,
            heavier_g_idx,
            input.d,
            item_idx,
            old(interactor).query_count as nat,
            old(interactor).max_query_count as nat,
            later,
        ) == (Acted {
            lists: views(given),
            rank: rank@,
            k: balancer@,
            count: interactor.query_count as nat,
            accepted: true,
        }) by {
            lemma_continues(compared_at.asked@, interactor.asked@, later);
            lemma_continues(first_at.asked@, interactor.asked@, later);
            assert(continues(compared_at.asked@, later));
            assert(continues(first_at.asked@, later));
        }
    }
    true
}

/// Of three states of an interactor that follow one another, or of which the
/// last two are the same, the last continues the record of each.
proof fn lemma_log_grows<O: Oracle>(
    first: &Interactor<O>,
    second: &Interactor<O>,
    third: &Interactor<O>,
)
    requires
        second.follows(first),
        third.follows(second) || third == second,
    ensures
        first.asked@.is_prefix_of(third.asked@),
        second.asked@.is_prefix_of(third.asked@),
        third.follows(first),
{
    if third.follows(second) {
        third.lemma_stall_stays(second, first);
    } else {
        assert(second.asked@ =~= second.asked@.subrange(0, second.asked@.len() as int));
    }
}

/// Exchanges one item of the group at the lighter place for one item of the
/// group at the heavier place, if the balancer finds the first item at most
/// as heavy as the second, and what stays of the lighter group at most as
/// heavy as what stays of the heavier group. Any other finding leaves the
/// groups as they were. After an exchange the two groups are put in their
/// places in the rank; the exchange stands even if the rank cannot be
/// settled.
pub fn action_swap<O: Oracle>(
    heavier_g_idx: usize,
    lighter_g_idx: usize,
    groups: &mut Vec<Vec<usize>>,
    rank: &mut Vec<usize>,
    input: &Input,
    balancer: &mut Balancer,
    interactor: &mut Interactor<O>,
    rng: &mut Rng,
) -> (accepted: bool)
    requires
        action_ready(old(groups)@, old(rank)@, lighter_g_idx, heavier_g_idx),
        old(groups)@[old(rank)@[lighter_g_idx as int] as int]@.len() > 0,
        old(groups)@[old(rank)@[heavier_g_idx as int] as int]@.len() > 0,
        old(balancer).wf(),
        old(interactor).wf(),
    ensures
        final(balancer).wf(),
        grown_from(final(balancer)@, old(balancer)@),
        final(interactor).follows(old(interactor)),
        final(rng).state == step(step(old(rng).state)),
        groups_fit(final(groups)@),
        final(groups)@.len() == old(groups)@.len(),
        is_rank(final(rank)@, final(groups)@.len()),
        same_outside(old(rank)@, final(rank)@, lighter_g_idx as int, heavier_g_idx as int),
        all_items(final(groups)@) == all_items(old(groups)@),
        !accepted ==> {
            &&& final(rank)@ == old(rank)@
            &&& untouched(old(groups)@, final(groups)@)
            &&& same_masks(old(groups)@, final(groups)@)
            &&& final(interactor).stalled_since(old(interactor)) || items_compared(
                final(balancer)@,
                old(groups)@[old(rank)@[lighter_g_idx as int] as int]@,
                old(groups)@[old(rank)@[heavier_g_idx as int] as int]@,
            )
        },
        final(interactor).query_count - old(interactor).query_count <= 2 + 2 * (heavier_g_idx
            - lighter_g_idx),
        exists|a: usize, b: usize|
            {
                &&& #[trigger] picked_item(
                    old(balancer).right_edges@,
                    old(groups)@[old(rank)@[lighter_g_idx as int] as int]@,
                    old(rng).state,
                    a,
                )
                &&& #[trigger] picked_item(
                    old(balancer).right_edges@,
                    old(groups)@[old(rank)@[heavier_g_idx as int] as int]@,
                    step(old(rng).state),
                    b,
                )
                &&& chosen(
                    old(balancer)@,
                    old(groups)@[old(rank)@[lighter_g_idx as int] as int]@,
                    old(rng).state,
                    a,
                )
                &&& chosen(
                    old(balancer)@,
                    old(groups)@[old(rank)@[heavier_g_idx as int] as int]@,
                    step(old(rng).state),
                    b,
                )
                &&& forall|later: Seq<Asked>| #[trigger]
                    continues(final(interactor).asked@, later) ==> swap_run(
                        old(balancer)@,
                        views(old(groups)@),
                        old(rank)@,
                        lighter_g_idx,
                        heavier_g_idx,
                        input.d,
                        a,
                        b,
                        old(interactor).query_count as nat,
                        old(interactor).max_query_count as nat,
                        later,
                    ) == (Acted {
                        lists: views(final(groups)@),
                        rank: final(rank)@,
                        k: final(balancer)@,
                        count: final(interactor).query_count as nat,
                        accepted,
                    })
            },
        accepted ==> exists|a: usize, b: usize|
            {
                &&& #[trigger] exchanged(
                    old(groups)@,
                    final(groups)@,
                    old(rank)@[lighter_g_idx as int] as int,
                    old(rank)@[heavier_g_idx as int] as int,
                    seq![a],
                    seq![b],
                )
                &&& justified(
                    final(balancer)@,
                    final(groups)@,
                    old(rank)@[lighter_g_idx as int] as int,
                    old(rank)@[heavier_g_idx as int] as int,
                    seq![a],
                    seq![b],
                )
                &&& picked_item(
                    old(balancer).right_edges@,
                    old(groups)@[old(rank)@[lighter_g_idx as int] as int]@,
                    old(rng).state,
                    a,
                )
                &&& picked_item(
                    old(balancer).right_edges@,
                    old(groups)@[old(rank)@[heavier_g_idx as int] as int]@,
                    step(old(rng).state),
                    b,
                )
            },
{
    let ghost before = groups@;
    let ghost start_rank = rank@;
    let light: usize = rank[lighter_g_idx];
    let heavy: usize = rank[heavier_g_idx];
    let item_idx_a: usize = select_lighter_item(&groups[light], balancer, rng);
    let item_idx_b: usize = select_lighter_item(&groups[heavy], balancer, rng);

    let mut only_a: Vec<usize> = Vec::new();
    only_a.push(item_idx_a);
    let mut only_b: Vec<usize> = Vec::new();
    only_b.push(item_idx_b);
    proof {
        assert(only_a@ =~= seq![item_idx_a]);
        assert(only_b@ =~= seq![item_idx_b]);
        assert(items_fit(before[light as int]@));
        assert(items_fit(before[heavy as int]@));
    }
    let ghost lists = views(before);
    let ghost light_left = swap_removed(lists[light as int], item_idx_a);
    let ghost heavy_left = swap_removed(lists[heavy as int], item_idx_b);
    match balancer.get_result(&only_a, &only_b, interactor) {
        BalanceResult::Left | BalanceResult::Equal => {},
        _ => {
            proof {
                assert(views(groups@) =~= lists);
                assert forall|g: int| 0 <= g < before.len() implies same_members(
                    #[trigger] groups@[g]@,
                    before[g]@,
                ) by {}
                lemma_untouched_keeps_items(before, groups@);
                lemma_untouched_keeps_masks(before, groups@);
                if !interactor.stalled_since(old(interactor)) {
                    assert(compared(balancer@, seq![item_idx_a], seq![item_idx_b]));
                }
            }
            return false;
        },
    }
    let ghost items_known = balancer@;
    let ghost items_at = *interactor;

    let i: usize = position_of(&groups[light], item_idx_a).unwrap();
    groups[light].swap_remove(i);
    let j: usize = position_of(&groups[heavy], item_idx_b).unwrap();
    groups[heavy].swap_remove(j);
    let ghost taken = groups@;
    proof {
        lemma_first_place(before[light as int]@, item_idx_a, i as int);
        lemma_first_place(before[heavy as int]@, item_idx_b, j as int);
        assert(taken[light as int]@ == light_left);
        assert(taken[heavy as int]@ == heavy_left);
        lemma_swap_remove_members(before[light as int]@, i as int);
        lemma_swap_remove_members(before[heavy as int]@, j as int);
        lemma_same_members(taken[light as int]@.push(item_idx_a), before[light as int]@);
        lemma_same_members(taken[heavy as int]@.push(item_idx_b), before[heavy as int]@);
        assert forall|g: int| 0 <= g < taken.len() implies items_fit(#[trigger] taken[g]@) by {
            if g == light {
                assert forall|w: int| 0 <= w < taken[g]@.len() implies taken[g]@[w]
                    < crate::mask::MAX_ITEMS by {
                    assert(taken[g]@.push(item_idx_a)[w] == taken[g]@[w]);
                }
            } else if g == heavy {
                assert forall|w: int| 0 <= w < taken[g]@.len() implies taken[g]@[w]
                    < crate::mask::MAX_ITEMS by {
                    assert(taken[g]@.push(item_idx_b)[w] == taken[g]@[w]);
                }
            } else {
                assert(taken[g] == before[g]);
            }
        }
    }
    match balancer.get_result(&groups[light], &groups[heavy], interactor) {
        BalanceResult::Right | BalanceResult::Unknown => {
            groups[light].push(item_idx_a);
            groups[heavy].push(item_idx_b);
            proof {
                assert(views(groups@) =~= lists.update(
                    light as int,
                    light_left.push(item_idx_a),
                ).update(heavy as int, heavy_left.push(item_idx_b)));
                assert(interactor.asked@.len() >= items_at.asked@.len());
                assert forall|later: Seq<Asked>| #[trigger]
                    continues(interactor.asked@, later) implies continues(
                    items_at.asked@,
                    later,
                ) by {
                    lemma_continues(items_at.asked@, interactor.asked@, later);
                }
                lemma_known_stays(items_known, balancer@, seq![item_idx_a], seq![item_idx_b]);
                assert(compared(balancer@, seq![item_idx_a], seq![item_idx_b]));
                assert forall|g: int| 0 <= g < before.len() implies same_members(
                    #[trigger] groups@[g]@,
                    before[g]@,
                ) by {
                    if g != light && g != heavy {
                        assert(groups@[g] == before[g]);
                    }
                }
                lemma_untouched_keeps_items(before, groups@);
                lemma_untouched_keeps_masks(before, groups@);
            }
            return false;
        },
        _ => {},
    }
    let ghost rests_known = balancer@;
    let ghost rests_at = *interactor;
    let to_idx: usize = light;
    groups[heavy].push(item_idx_a);
    let ghost lacking = groups@;
    proof {
        assert(views(lacking) =~= lists.update(light as int, light_left).update(
            heavy as int,
            heavy_left.push(item_idx_a),
        ));
        assert forall|g: int| 0 <= g < groups@.len() implies items_fit(#[trigger] groups@[g]@) by {
            if g == heavy {
                assert forall|w: int| 0 <= w < groups@[g]@.len() implies groups@[g]@[w]
                    < crate::mask::MAX_ITEMS by {
                    if w < taken[g]@.len() {
                        assert(groups@[g]@[w] == taken[g]@[w]);
                    } else {
                        assert(before[light as int]@.contains(item_idx_a));
                    }
                }
            } else {
                assert(groups@[g] == taken[g]);
            }
        }
    }
    let ranked = update_rank(
        rank,
        groups,
        true,
        lighter_g_idx,
        heavier_g_idx,
        input,
        interactor,
        balancer,
    );
    let ghost mid_rank = rank@;
    let ghost mid_groups = groups@;
    let ghost first_at = *interactor;
    proof {
        let p = choose|p: int|
            lighter_g_idx <= p <= heavier_g_idx && mid_rank == #[trigger] moved(
                start_rank,
                source_place(true, lighter_g_idx, heavier_g_idx),
                p,
            );
        lemma_moved_keeps_rank(start_rank, heavier_g_idx as int, p, groups@.len());
        lemma_moved_stays_in_window(
            start_rank,
            heavier_g_idx as int,
            p,
            lighter_g_idx as int,
            heavier_g_idx as int,
        );
    }
    groups[to_idx].push(item_idx_b);
    let ghost given = groups@;
    proof {
        assert(views(given) =~= views(lacking).update(
            light as int,
            light_left.push(item_idx_b),
        ));
        assert forall|g: int| 0 <= g < given.len() implies items_fit(#[trigger] given[g]@) by {
            if g == to_idx {
                assert forall|w: int| 0 <= w < given[g]@.len() implies given[g]@[w]
                    < crate::mask::MAX_ITEMS by {
                    if w < taken[g]@.len() {
                        assert(given[g]@[w] == taken[g]@[w]);
                    } else {
                        assert(before[heavy as int]@.contains(item_idx_b));
                    }
                }
            } else {
                assert(given[g] == mid_groups[g]);
            }
        }
    }
    if ranked {
        let _ = update_rank(
            rank,
            groups,
            false,
            lighter_g_idx,
            heavier_g_idx,
            input,
            interactor,
            balancer,
        );
        proof {
            let p = choose|p: int|
                lighter_g_idx <= p <= heavier_g_idx && rank@ == #[trigger] moved(
                    mid_rank,
                    source_place(false, lighter_g_idx, heavier_g_idx),
                    p,
                );
            lemma_moved_keeps_rank(mid_rank, lighter_g_idx as int, p, groups@.len());
            lemma_moved_stays_in_window(
                mid_rank,
                lighter_g_idx as int,
                p,
                lighter_g_idx as int,
                heavier_g_idx as int,
            );
        }
    }
    proof {
        let l = light as int;
        let h = heavy as int;
        let a_items = seq![item_idx_a];
        let b_items = seq![item_idx_b];
        assert(light_rest(given, l, b_items) =~= taken[l]@);
        assert(heavy_rest(given, h, a_items) =~= taken[h]@);
        assert(given[l]@ =~= light_rest(given, l, b_items) + b_items);
        assert(given[h]@ =~= heavy_rest(given, h, a_items) + a_items);
        assert(light_rest(given, l, b_items) + a_items =~= taken[l]@.push(item_idx_a));
        assert(heavy_rest(given, h, a_items) + b_items =~= taken[h]@.push(item_idx_b));
        assert(exchanged(before, given, l, h, a_items, b_items));
        lemma_exchanged_keeps_items(before, given, l, h, a_items, b_items);
        lemma_known_stays(items_known, balancer@, a_items, b_items);
        lemma_known_stays(rests_known, balancer@, taken[l]@, taken[h]@);
        assert(justified(balancer@, given, l, h, a_items, b_items));
        lemma_log_grows(&rests_at, &first_at, interactor);
        rests_at.lemma_stall_stays(&items_at, old(interactor));
        assert forall|later: Seq<Asked>| #[trigger]
            continues(interactor.asked@, later) implies swap_run(
            old(balancer)@,
            lists,
            start_rank,
            lighter_g_idx,
            heavier_g_idx,
            input.d,
            item_idx_a,
            item_idx_b,
            old(interactor).query_count as nat,
            old(interactor).max_query_count as nat,
            later,
        ) == (Acted {
            lists: views(given),
            rank: rank@,
            k: balancer@,
            count: interactor.query_count as nat,
            accepted: true,
        }) by {
            lemma_continues(rests_at.asked@, interactor.asked@, later);
            lemma_continues(first_at.asked@, interactor.asked@, later);
            lemma_continues(items_at.asked@, rests_at.asked@, later);
            assert(continues(items_at.asked@, later));
            assert(continues(rests_at.asked@, later));
            assert(continues(first_at.asked@, later));
        }
    }
    true
}

/// Takes each of the listed items out of the group `g`. What stays keeps its
/// order.
fn take_out(groups: &mut Vec<Vec<usize>>, g: usize, items: &Vec<usize>)
    requires
        g < old(groups)@.len(),
        items@.no_duplicates(),
        forall|k: int| 0 <= k < items@.len() ==> old(groups)@[g as int]@.contains(#[trigger] items@[k]),
    ensures
        final(groups)@.len() == old(groups)@.len(),
        final(groups)@[g as int]@ == without(old(groups)@[g as int]@, items@),
        same_members(final(groups)@[g as int]@ + items@, old(groups)@[g as int]@),
        forall|x: usize| final(groups)@[g as int]@.contains(x) ==> old(groups)@[g as int]@.contains(x),
        forall|o: int|
            0 <= o < old(groups)@.len() && o != g ==> #[trigger] final(groups)@[o] == old(
                groups,
            )@[o],
{
    let ghost start = groups@[g as int]@;
    let mut k: usize = 0;
    proof {
        assert(items@.take(0) =~= Seq::<usize>::empty());
        assert(groups@[g as int]@ + items@.take(0) =~= start);
    }
    while k < items.len()
        invariant
            k <= items.len(),
            g < groups@.len(),
            groups@.len() == old(groups)@.len(),
            start == old(groups)@[g as int]@,
            items@.no_duplicates(),
            forall|w: int| 0 <= w < items@.len() ==> start.contains(#[trigger] items@[w]),
            same_members(groups@[g as int]@ + items@.take(k as int), start),
            groups@[g as int]@ == without(start, items@.take(k as int)),
            forall|o: int|
                0 <= o < old(groups)@.len() && o != g ==> #[trigger] groups@[o] == old(groups)@[o],
        decreases items.len() - k,
    {
        let item: usize = items[k];
        let ghost current = groups@[g as int]@;
        let ghost gone = items@.take(k as int);
        proof {
            vstd::seq_lib::lemma_multiset_commutative(current, gone);
            assert(start.contains(item));
            assert(start.to_multiset().count(item) > 0);
            assert(!gone.contains(item)) by {
                if gone.contains(item) {
                    let w = choose|w: int| 0 <= w < gone.len() && gone[w] == item;
                    assert(items@[w] == items@[k as int]);
                }
            }
            assert(gone.to_multiset().count(item) == 0);
            assert(current.to_multiset().count(item) > 0);
            assert(current.contains(item));
        }
        let at: usize = position_of(&groups[g], item).unwrap();
        groups[g].remove(at);
        proof {
            let next = groups@[g as int]@;
            lemma_first_place(current, item, at as int);
            assert(items@.take(k + 1).drop_last() =~= gone);
            assert(items@.take(k + 1).last() == item);
            assert(next == without(start, items@.take(k + 1)));
            assert(items@.take(k + 1) =~= gone.push(item));
            vstd::seq_lib::lemma_multiset_commutative(next, gone.push(item));
            assert((next + gone.push(item)).to_multiset() =~= start.to_multiset());
        }
        k += 1;
    }
    proof {
        assert(items@.take(k as int) =~= items@);
        let last = groups@[g as int]@;
        vstd::seq_lib::lemma_multiset_commutative(last, items@);
        assert forall|x: usize| last.contains(x) implies start.contains(x) by {
            assert(last.to_multiset().count(x) > 0);
            assert(start.to_multiset().count(x) > 0);
        }
    }
}

/// Puts the listed items at the end of the group `g`, in their order.
fn put_in(groups: &mut Vec<Vec<usize>>, g: usize, items: &Vec<usize>)
    requires
        g < old(groups)@.len(),
    ensures
        final(groups)@.len() == old(groups)@.len(),
        final(groups)@[g as int]@ == old(groups)@[g as int]@ + items@,
        forall|o: int|
            0 <= o < old(groups)@.len() && o != g ==> #[trigger] final(groups)@[o] == old(
                groups,
            )@[o],
{
    let ghost start = groups@[g as int]@;
    let mut k: usize = 0;
    proof {
        assert(start + items@.take(0) =~= start);
    }
    while k < items.len()
        invariant
            k <= items.len(),
            g < groups@.len(),
            groups@.len() == old(groups)@.len(),
            start == old(groups)@[g as int]@,
            groups@[g as int]@ == start + items@.take(k as int),
            forall|o: int|
                0 <= o < old(groups)@.len() && o != g ==> #[trigger] groups@[o] == old(groups)@[o],
        decreases items.len() - k,
    {
        groups[g].push(items[k]);
        proof {
            assert(start + items@.take(k + 1) =~= (start + items@.take(k as int)).push(
                items@[k as int],
            ));
        }
        k += 1;
    }
    proof {
        assert(items@.take(k as int) =~= items@);
    }
}

/// The list names items of the group, each once, and at least one.
spec fn picked_from(items: Seq<usize>, group: Seq<usize>) -> bool {
    &&& items.len() >= 1
    &&& items.no_duplicates()
    &&& forall|k: int| 0 <= k < items.len() ==> group.contains(#[trigger] items[k])
}

/// A list that names items of a group whose items fit a mask fits too.
proof fn lemma_picked_fit(items: Seq<usize>, group: Seq<usize>)
    requires
        picked_from(items, group),
        items_fit(group),
    ensures
        items_fit(items),
{
    assert forall|k: int| 0 <= k < items.len() implies items[k] < crate::mask::MAX_ITEMS by {
        assert(group.contains(items[k]));
        let w = choose|w: int| 0 <= w < group.len() && group[w] == items[k];
    }
}

/// A list of picked items with one more item of the group that it did not
/// name is a list of picked items.
proof fn lemma_picked_push(items: Seq<usize>, group: Seq<usize>, x: usize)
    requires
        picked_from(items, group),
        group.contains(x),
        !items.contains(x),
    ensures
        picked_from(items.push(x), group),
        picked_from(items.push(x).drop_last(), group),
{
    let more = items.push(x);
    assert(more.drop_last() =~= items);
    assert forall|k: int| 0 <= k < more.len() implies group.contains(#[trigger] more[k]) by {
        if k < items.len() {
            assert(more[k] == items[k]);
        }
    }
    assert forall|i: int, j: int| 0 <= i < more.len() && 0 <= j < more.len() && i != j implies more[i]
        != more[j] by {
        if i < items.len() && j < items.len() {
            assert(items[i] != items[j]);
        } else if i < items.len() {
            assert(items.contains(items[i]));
        } else {
            assert(items.contains(items[j]));
        }
    }
}

/// What growing a set finds and leaves behind: the set, the memory, the
/// count of the comparisons sent, and whether the last trial kept its item.
#[verifier::ext_equal]
pub struct Grown {
    pub list: Seq<usize>,
    pub k: Knowledge,
    pub count: nat,
    pub kept: bool,
}

/// One trial for the heavier side, as it follows from the memory, the
/// budget and the record of the oracle's answers. An item that the set
/// names is passed over without a comparison. Else the set `a_items` is
/// compared with the set and the item: found lighter or as heavy, the item
/// is kept; on any other finding it is dropped.
pub open spec fn heavier_trial_run(
    so_far: Grown,
    a_items: Seq<usize>,
    x: usize,
    max: nat,
    answers: Seq<Asked>,
) -> Grown {
    if so_far.list.contains(x) {
        so_far
    } else {
        let found = ask(so_far.k, a_items, so_far.list.push(x), so_far.count, max, answers);
        if found.res == BalanceResult::Left || found.res == BalanceResult::Equal {
            Grown { list: so_far.list.push(x), k: found.k, count: found.count, kept: true }
        } else {
            Grown { list: so_far.list, k: found.k, count: found.count, kept: false }
        }
    }
}

/// The trials for the heavier side with the items `tried`, in their order:
/// no item is tried after one was kept.
pub open spec fn grow_heavier_run(
    begun: Grown,
    a_items: Seq<usize>,
    tried: Seq<usize>,
    max: nat,
    answers: Seq<Asked>,
) -> Grown
    decreases tried.len(),
{
    if tried.len() == 0 {
        begun
    } else {
        let so_far = grow_heavier_run(begun, a_items, tried.drop_last(), max, answers);
        if so_far.kept {
            so_far
        } else {
            heavier_trial_run(so_far, a_items, tried.last(), max, answers)
        }
    }
}

/// One trial for the lighter side, as it follows from the memory, the
/// budget and the record of the oracle's answers. An item that the set
/// names is passed over without a comparison. Else the set and the item are
/// compared with the set `b_items`: found lighter or as heavy, the item is
/// kept; on any other finding it is dropped.
pub open spec fn lighter_trial_run(
    so_far: Grown,
    b_items: Seq<usize>,
    x: usize,
    max: nat,
    answers: Seq<Asked>,
) -> Grown {
    if so_far.list.contains(x) {
        Grown { kept: false, ..so_far }
    } else {
        let found = ask(so_far.k, so_far.list.push(x), b_items, so_far.count, max, answers);
        if found.res == BalanceResult::Left || found.res == BalanceResult::Equal {
            Grown { list: so_far.list.push(x), k: found.k, count: found.count, kept: true }
        } else {
            Grown { list: so_far.list, k: found.k, count: found.count, kept: false }
        }
    }
}

/// The trials for the lighter side with the items `tried`, in their order:
/// every item is tried.
pub open spec fn grow_lighter_run(
    begun: Grown,
    b_items: Seq<usize>,
    tried: Seq<usize>,
    max: nat,
    answers: Seq<Asked>,
) -> Grown
    decreases tried.len(),
{
    if tried.len() == 0 {
        begun
    } else {
        lighter_trial_run(
            grow_lighter_run(begun, b_items, tried.drop_last(), max, answers),
            b_items,
            tried.last(),
            max,
            answers,
        )
    }
}

/// Each item tried for the heavier side was picked from the group with the
/// memory that the trials before it had left, and with the generator in the
/// state that the draws before it had left.
pub open spec fn heavier_trials_chosen(
    begun: Grown,
    a_items: Seq<usize>,
    tried: Seq<usize>,
    group: Seq<usize>,
    s: u64,
    max: nat,
    answers: Seq<Asked>,
) -> bool {
    forall|i: int|
        0 <= i < tried.len() ==> chosen(
            grow_heavier_run(begun, a_items, #[trigger] tried.take(i), max, answers).k,
            group,
            after_draws(s, i as nat),
            tried[i],
        )
}

/// Each item tried for the lighter side was picked from the group with the
/// memory that the trials before it had left, and with the generator in the
/// state that the draws before it had left.
pub open spec fn lighter_trials_chosen(
    begun: Grown,
    b_items: Seq<usize>,
    tried: Seq<usize>,
    group: Seq<usize>,
    s: u64,
    max: nat,
    answers: Seq<Asked>,
) -> bool {
    forall|i: int|
        0 <= i < tried.len() ==> chosen(
            grow_lighter_run(begun, b_items, #[trigger] tried.take(i), max, answers).k,
            group,
            after_draws(s, i as nat),
            tried[i],
        )
}

/// The item `x` was tried for the heavier side and not kept: the list named
/// it already, or no answer came, or the list with it was found lighter than
/// the set `a_items`.
spec fn turned_down_heavier(
    k: Knowledge,
    stalled: bool,
    a_items: Seq<usize>,
    list: Seq<usize>,
    x: usize,
) -> bool {
    list.contains(x) || stalled || known_at_most(k, list.push(x), a_items)
}

/// What growing the heavier side has done, told by the items it tried, in
/// their order. One item was drawn for each trial, the first from the memory
/// as it was. All items but the last were turned down. The last one was
/// kept, if with it the set `a_items` was found at most as heavy as the
/// list; if it was turned down too, all trials are used up and the list is
/// as it was.
spec fn grew_heavier(
    tried: Seq<usize>,
    a_items: Seq<usize>,
    list_before: Seq<usize>,
    list_after: Seq<usize>,
    group: Seq<usize>,
    edges_before: Map<u128, Vec<u128>>,
    state_before: u64,
    state_after: u64,
    k: Knowledge,
    stalled: bool,
) -> bool {
    &&& 1 <= tried.len() <= TRIAL_COUNT
    &&& state_after == after_draws(state_before, tried.len())
    &&& picked_item(edges_before, group, state_before, tried[0])
    &&& forall|i: int| 0 <= i < tried.len() ==> group.contains(#[trigger] tried[i])
    &&& forall|i: int|
        0 <= i < tried.len() - 1 ==> turned_down_heavier(
            k,
            stalled,
            a_items,
            list_before,
            #[trigger] tried[i],
        )
    &&& {
        ||| {
            &&& list_after == list_before.push(tried.last())
            &&& !list_before.contains(tried.last())
            &&& known_at_most(k, a_items, list_after)
        }
        ||| {
            &&& tried.len() == TRIAL_COUNT
            &&& list_after == list_before
            &&& turned_down_heavier(k, stalled, a_items, list_before, tried.last())
        }
    }
}

/// One trial for the lighter side: the item `x` was kept, if the list did
/// not name it and the list with it was found at most as heavy as the set
/// `b_items`; else the list stayed as it was, because it named the item
/// already, or no answer came, or the list with it was found heavier.
spec fn lighter_trial(
    k: Knowledge,
    stalled: bool,
    b_items: Seq<usize>,
    list: Seq<usize>,
    x: usize,
    next: Seq<usize>,
) -> bool {
    ||| {
        &&& next == list.push(x)
        &&& !list.contains(x)
        &&& known_at_most(k, next, b_items)
    }
    ||| {
        &&& next == list
        &&& (list.contains(x) || stalled || known_at_most(k, b_items, list.push(x)))
    }
}

/// What growing the lighter side has done, told by the items it tried and
/// the lists it went through, in their order. One item was drawn for each of
/// the `TRIAL_COUNT` trials, the first from the memory as it was, and each
/// trial led from one list to the next.
spec fn grew_lighter(
    tried: Seq<usize>,
    lists: Seq<Seq<usize>>,
    b_items: Seq<usize>,
    list_before: Seq<usize>,
    list_after: Seq<usize>,
    group: Seq<usize>,
    edges_before: Map<u128, Vec<u128>>,
    state_before: u64,
    state_after: u64,
    k: Knowledge,
    stalled: bool,
) -> bool {
    &&& tried.len() == TRIAL_COUNT
    &&& lists.len() == TRIAL_COUNT + 1
    &&& lists[0] == list_before
    &&& lists[TRIAL_COUNT as int] == list_after
    &&& state_after == after_draws(state_before, TRIAL_COUNT as nat)
    &&& picked_item(edges_before, group, state_before, tried[0])
    &&& forall|i: int|
        0 <= i < tried.len() ==> group.contains(#[trigger] tried[i]) && lighter_trial(
            k,
            stalled,
            b_items,
            lists[i],
            tried[i],
            lists[i + 1],
        )
}

/// Tries up to `TRIAL_COUNT` more items of the heavier group, one at a time,
/// until the set `item_indices_a` is found at most as heavy as the grown set
/// `item_indices_b`. An item that does not bring this about is dropped
/// again. Each trial draws once from the generator; the growth stops with
/// the first item that is kept.
fn grow_heavier_side<O: Oracle>(
    item_indices_a: &Vec<usize>,
    item_indices_b: &mut Vec<usize>,
    heavy_group: &Vec<usize>,
    balancer: &mut Balancer,
    interactor: &mut Interactor<O>,
    rng: &mut Rng,
)
    requires
        items_fit(item_indices_a@),
        items_fit(heavy_group@),
        heavy_group@.len() > 0,
        picked_from(old(item_indices_b)@, heavy_group@),
        old(balancer).wf(),
        old(interactor).wf(),
    ensures
        final(balancer).wf(),
        grown_from(final(balancer)@, old(balancer)@),
        final(interactor).follows(old(interactor)),
        picked_from(final(item_indices_b)@, heavy_group@),
        final(item_indices_b)@.len() <= old(item_indices_b)@.len() + 1,
        final(interactor).query_count - old(interactor).query_count <= TRIAL_COUNT,
        exists|tried: Seq<usize>|
            {
                &&& #[trigger] grew_heavier(
                    tried,
                    item_indices_a@,
                    old(item_indices_b)@,
                    final(item_indices_b)@,
                    heavy_group@,
                    old(balancer).right_edges@,
                    old(rng).state,
                    final(rng).state,
                    final(balancer)@,
                    final(interactor).stalled_since(old(interactor)),
                )
                &&& forall|later: Seq<Asked>| #[trigger]
                    continues(final(interactor).asked@, later) ==> grow_heavier_run(
                        (Grown {
                            list: old(item_indices_b)@,
                            k: old(balancer)@,
                            count: old(interactor).query_count as nat,
                            kept: false,
                        }),
                        item_indices_a@,
                        tried,
                        old(interactor).max_query_count as nat,
                        later,
                    ) == (Grown {
                        list: final(item_indices_b)@,
                        k: final(balancer)@,
                        count: final(interactor).query_count as nat,
                        kept: final(item_indices_b)@.len() > old(item_indices_b)@.len(),
                    }) && heavier_trials_chosen(
                        (Grown {
                            list: old(item_indices_b)@,
                            k: old(balancer)@,
                            count: old(interactor).query_count as nat,
                            kept: false,
                        }),
                        item_indices_a@,
                        tried,
                        heavy_group@,
                        old(rng).state,
                        old(interactor).max_query_count as nat,
                        later,
                    )
            },
{
    let mut trial: usize = 0;
    let ghost mut tried: Seq<usize> = Seq::empty();
    let ghost list_before = item_indices_b@;
    let ghost edges_before = balancer.right_edges@;
    let ghost state_before = rng.state;
    let ghost begun = Grown {
        list: list_before,
        k: balancer@,
        count: interactor.query_count as nat,
        kept: false,
    };
    let ghost mx = interactor.max_query_count as nat;
    while trial < TRIAL_COUNT
        invariant_except_break
            item_indices_b@ == list_before,
            forall|later: Seq<Asked>| #[trigger]
                continues(interactor.asked@, later) ==> grow_heavier_run(
                    begun,
                    item_indices_a@,
                    tried,
                    mx,
                    later,
                ) == (Grown {
                    list: list_before,
                    k: balancer@,
                    count: interactor.query_count as nat,
                    kept: false,
                }),
            forall|i: int|
                0 <= i < tried.len() ==> turned_down_heavier(
                    balancer@,
                    interactor.stalled_since(old(interactor)),
                    item_indices_a@,
                    list_before,
                    #[trigger] tried[i],
                ),
        invariant
            trial <= TRIAL_COUNT,
            tried.len() == trial,
            list_before == old(item_indices_b)@,
            edges_before == old(balancer).right_edges@,
            state_before == old(rng).state,
            rng.state == after_draws(state_before, tried.len()),
            tried.len() == 0 ==> balancer.right_edges@ == edges_before,
            tried.len() > 0 ==> picked_item(edges_before, heavy_group@, state_before, tried[0]),
            forall|i: int| 0 <= i < tried.len() ==> heavy_group@.contains(#[trigger] tried[i]),
            items_fit(item_indices_a@),
            items_fit(heavy_group@),
            heavy_group@.len() > 0,
            picked_from(item_indices_b@, heavy_group@),
            balancer.wf(),
            grown_from(balancer@, old(balancer)@),
            interactor.follows(old(interactor)),
            interactor.query_count - old(interactor).query_count <= trial,
            mx == old(interactor).max_query_count,
            begun == (Grown {
                list: old(item_indices_b)@,
                k: old(balancer)@,
                count: old(interactor).query_count as nat,
                kept: false,
            }),
            forall|later: Seq<Asked>| #[trigger]
                continues(interactor.asked@, later) ==> heavier_trials_chosen(
                    begun,
                    item_indices_a@,
                    tried,
                    heavy_group@,
                    state_before,
                    mx,
                    later,
                ),
        ensures
            forall|later: Seq<Asked>| #[trigger]
                continues(interactor.asked@, later) ==> grow_heavier_run(
                    begun,
                    item_indices_a@,
                    tried,
                    mx,
                    later,
                ) == (Grown {
                    list: item_indices_b@,
                    k: balancer@,
                    count: interactor.query_count as nat,
                    kept: item_indices_b@.len() > list_before.len(),
                }),
            picked_from(item_indices_b@, heavy_group@),
            item_indices_b@.len() <= old(item_indices_b)@.len() + 1,
            balancer.wf(),
            grown_from(balancer@, old(balancer)@),
            interactor.follows(old(interactor)),
            grew_heavier(
                tried,
                item_indices_a@,
                list_before,
                item_indices_b@,
                heavy_group@,
                edges_before,
                state_before,
                rng.state,
                balancer@,
                interactor.stalled_since(old(interactor)),
            ),
        decreases TRIAL_COUNT - trial,
    {
        trial += 1;
        let ghost earlier = tried;
        let ghost picked_at = *interactor;
        let b2: usize = select_lighter_item(heavy_group, balancer, rng);
        proof {
            tried = tried.push(b2);
            assert(tried.drop_last() =~= earlier);
            assert forall|later: Seq<Asked>| #[trigger]
                continues(picked_at.asked@, later) implies heavier_trials_chosen(
                begun,
                item_indices_a@,
                tried,
                heavy_group@,
                state_before,
                mx,
                later,
            ) by {
                assert forall|i: int| 0 <= i < tried.len() implies chosen(
                    grow_heavier_run(begun, item_indices_a@, #[trigger] tried.take(i), mx, later).k,
                    heavy_group@,
                    after_draws(state_before, i as nat),
                    tried[i],
                ) by {
                    if i < earlier.len() {
                        assert(tried.take(i) =~= earlier.take(i));
                        assert(tried[i] == earlier[i]);
                    } else {
                        assert(tried.take(i) =~= earlier);
                    }
                }
            }
            assert forall|i: int| 0 <= i < tried.len() implies heavy_group@.contains(
                #[trigger] tried[i],
            ) by {
                if i < earlier.len() {
                    assert(tried[i] == earlier[i]);
                }
            }
        }
        if position_of(item_indices_b, b2).is_some() {
            proof {
                assert forall|i: int| 0 <= i < tried.len() implies turned_down_heavier(
                    balancer@,
                    interactor.stalled_since(old(interactor)),
                    item_indices_a@,
                    list_before,
                    #[trigger] tried[i],
                ) by {
                    if i < earlier.len() {
                        assert(tried[i] == earlier[i]);
                    }
                }
            }
            continue ;
        }
        proof {
            lemma_picked_push(item_indices_b@, heavy_group@, b2);
            lemma_picked_fit(item_indices_b@.push(b2), heavy_group@);
        }
        let ghost met = *interactor;
        let ghost memory = balancer@;
        item_indices_b.push(b2);
        let res = balancer.get_result(item_indices_a, item_indices_b, interactor);
        proof {
            interactor.lemma_stall_stays(&met, old(interactor));
            assert(tried.last() == b2);
            assert forall|later: Seq<Asked>| #[trigger]
                continues(interactor.asked@, later) implies heavier_trials_chosen(
                begun,
                item_indices_a@,
                tried,
                heavy_group@,
                state_before,
                mx,
                later,
            ) by {
                lemma_continues(met.asked@, interactor.asked@, later);
                assert(continues(picked_at.asked@, later));
            }
            assert forall|later: Seq<Asked>| #[trigger]
                continues(interactor.asked@, later) implies grow_heavier_run(
                begun,
                item_indices_a@,
                tried,
                mx,
                later,
            ) == (if res == BalanceResult::Left || res == BalanceResult::Equal {
                Grown {
                    list: list_before.push(b2),
                    k: balancer@,
                    count: interactor.query_count as nat,
                    kept: true,
                }
            } else {
                Grown {
                    list: list_before,
                    k: balancer@,
                    count: interactor.query_count as nat,
                    kept: false,
                }
            }) by {
                lemma_continues(met.asked@, interactor.asked@, later);
                assert(continues(met.asked@, later));
            }
            assert forall|i: int| 0 <= i < earlier.len() implies turned_down_heavier(
                balancer@,
                interactor.stalled_since(old(interactor)),
                item_indices_a@,
                list_before,
                #[trigger] tried[i],
            ) by {
                assert(tried[i] == earlier[i]);
                assert(turned_down_heavier(
                    memory,
                    met.stalled_since(old(interactor)),
                    item_indices_a@,
                    list_before,
                    earlier[i],
                ));
                if known_at_most(memory, list_before.push(earlier[i]), item_indices_a@) {
                    lemma_known_stays(
                        memory,
                        balancer@,
                        list_before.push(earlier[i]),
                        item_indices_a@,
                    );
                }
            }
        }
        match res {
            BalanceResult::Left | BalanceResult::Equal => {
                break ;
            },
            _ => {
                item_indices_b.pop();
                proof {
                    assert(item_indices_b@ =~= list_before);
                    assert(turned_down_heavier(
                        balancer@,
                        interactor.stalled_since(old(interactor)),
                        item_indices_a@,
                        list_before,
                        b2,
                    ));
                }
            },
        }
    }
}

/// Tries up to `TRIAL_COUNT` more items of the lighter group, one at a time,
/// and keeps each with which the grown set `item_indices_a` is still found
/// at most as heavy as the set `item_indices_b`. Each trial draws once from
/// the generator, and all trials are made.
fn grow_lighter_side<O: Oracle>(
    item_indices_a: &mut Vec<usize>,
    item_indices_b: &Vec<usize>,
    light_group: &Vec<usize>,
    balancer: &mut Balancer,
    interactor: &mut Interactor<O>,
    rng: &mut Rng,
)
    requires
        items_fit(item_indices_b@),
        items_fit(light_group@),
        light_group@.len() > 0,
        picked_from(old(item_indices_a)@, light_group@),
        old(balancer).wf(),
        old(interactor).wf(),
    ensures
        final(balancer).wf(),
        grown_from(final(balancer)@, old(balancer)@),
        final(interactor).follows(old(interactor)),
        picked_from(final(item_indices_a)@, light_group@),
        final(item_indices_a)@.len() <= old(item_indices_a)@.len() + TRIAL_COUNT,
        final(item_indices_a)@ != old(item_indices_a)@ ==> known_at_most(
            final(balancer)@,
            final(item_indices_a)@,
            item_indices_b@,
        ),
        final(interactor).query_count - old(interactor).query_count <= TRIAL_COUNT,
        exists|tried: Seq<usize>, lists: Seq<Seq<usize>>|
            {
                &&& #[trigger] grew_lighter(
                    tried,
                    lists,
                    item_indices_b@,
                    old(item_indices_a)@,
                    final(item_indices_a)@,
                    light_group@,
                    old(balancer).right_edges@,
                    old(rng).state,
                    final(rng).state,
                    final(balancer)@,
                    final(interactor).stalled_since(old(interactor)),
                )
                &&& forall|later: Seq<Asked>| #[trigger]
                    continues(final(interactor).asked@, later) ==> {
                        let grown = grow_lighter_run(
                            (Grown {
                                list: old(item_indices_a)@,
                                k: old(balancer)@,
                                count: old(interactor).query_count as nat,
                                kept: false,
                            }),
                            item_indices_b@,
                            tried,
                            old(interactor).max_query_count as nat,
                            later,
                        );
                        &&& grown.list == final(item_indices_a)@
                        &&& grown.k == final(balancer)@
                        &&& grown.count == final(interactor).query_count
                        &&& lighter_trials_chosen(
                            (Grown {
                                list: old(item_indices_a)@,
                                k: old(balancer)@,
                                count: old(interactor).query_count as nat,
                                kept: false,
                            }),
                            item_indices_b@,
                            tried,
                            light_group@,
                            old(rng).state,
                            old(interactor).max_query_count as nat,
                            later,
                        )
                    }
            },
{
    let mut trial: usize = 0;
    let ghost mut tried: Seq<usize> = Seq::empty();
    let ghost mut lists: Seq<Seq<usize>> = seq![item_indices_a@];
    let ghost list_before = item_indices_a@;
    let ghost edges_before = balancer.right_edges@;
    let ghost state_before = rng.state;
    let ghost begun = Grown {
        list: list_before,
        k: balancer@,
        count: interactor.query_count as nat,
        kept: false,
    };
    let ghost mx = interactor.max_query_count as nat;
    while trial < TRIAL_COUNT
        invariant
            interactor.query_count - old(interactor).query_count <= trial,
            mx == old(interactor).max_query_count,
            begun == (Grown {
                list: old(item_indices_a)@,
                k: old(balancer)@,
                count: old(interactor).query_count as nat,
                kept: false,
            }),
            forall|later: Seq<Asked>| #[trigger]
                continues(interactor.asked@, later) ==> {
                    let grown = grow_lighter_run(begun, item_indices_b@, tried, mx, later);
                    &&& grown.list == item_indices_a@
                    &&& grown.k == balancer@
                    &&& grown.count == interactor.query_count
                    &&& lighter_trials_chosen(
                        begun,
                        item_indices_b@,
                        tried,
                        light_group@,
                        state_before,
                        mx,
                        later,
                    )
                },
            trial <= TRIAL_COUNT,
            tried.len() == trial,
            lists.len() == trial + 1,
            lists[0] == list_before,
            lists[trial as int] == item_indices_a@,
            list_before == old(item_indices_a)@,
            edges_before == old(balancer).right_edges@,
            state_before == old(rng).state,
            rng.state == after_draws(state_before, tried.len()),
            tried.len() == 0 ==> balancer.right_edges@ == edges_before,
            tried.len() > 0 ==> picked_item(edges_before, light_group@, state_before, tried[0]),
            forall|i: int|
                0 <= i < tried.len() ==> light_group@.contains(#[trigger] tried[i])
                    && lighter_trial(
                    balancer@,
                    interactor.stalled_since(old(interactor)),
                    item_indices_b@,
                    lists[i],
                    tried[i],
                    lists[i + 1],
                ),
            item_indices_a@ != list_before ==> known_at_most(
                balancer@,
                item_indices_a@,
                item_indices_b@,
            ),
            items_fit(item_indices_b@),
            items_fit(light_group@),
            light_group@.len() > 0,
            picked_from(item_indices_a@, light_group@),
            item_indices_a@.len() <= old(item_indices_a)@.len() + trial,
            balancer.wf(),
            grown_from(balancer@, old(balancer)@),
            interactor.follows(old(interactor)),
        decreases TRIAL_COUNT - trial,
    {
        let ghost earlier = tried;
        let ghost lists_earlier = lists;
        let ghost current = item_indices_a@;
        let ghost met = *interactor;
        let ghost memory = balancer@;
        trial += 1;
        let a2: usize = select_lighter_item(light_group, balancer, rng);
        proof {
            tried = tried.push(a2);
            assert(tried.drop_last() =~= earlier);
            assert(tried.last() == a2);
            assert forall|later: Seq<Asked>| #[trigger]
                continues(met.asked@, later) implies lighter_trials_chosen(
                begun,
                item_indices_b@,
                tried,
                light_group@,
                state_before,
                mx,
                later,
            ) by {
                assert forall|i: int| 0 <= i < tried.len() implies chosen(
                    grow_lighter_run(begun, item_indices_b@, #[trigger] tried.take(i), mx, later).k,
                    light_group@,
                    after_draws(state_before, i as nat),
                    tried[i],
                ) by {
                    if i < earlier.len() {
                        assert(tried.take(i) =~= earlier.take(i));
                        assert(tried[i] == earlier[i]);
                    } else {
                        assert(tried.take(i) =~= earlier);
                    }
                }
            }
        }
        if position_of(item_indices_a, a2).is_some() {
            proof {
                lists = lists.push(current);
                assert forall|i: int| 0 <= i < tried.len() implies light_group@.contains(
                    #[trigger] tried[i],
                ) && lighter_trial(
                    balancer@,
                    interactor.stalled_since(old(interactor)),
                    item_indices_b@,
                    lists[i],
                    tried[i],
                    lists[i + 1],
                ) by {
                    if i < earlier.len() {
                        assert(tried[i] == earlier[i]);
                        assert(lists[i] == lists_earlier[i]);
                        assert(lists[i + 1] == lists_earlier[i + 1]);
                    }
                }
            }
            continue ;
        }
        proof {
            lemma_picked_push(item_indices_a@, light_group@, a2);
            lemma_picked_fit(item_indices_a@.push(a2), light_group@);
        }
        item_indices_a.push(a2);
        let res = balancer.get_result(item_indices_a, item_indices_b, interactor);
        proof {
            interactor.lemma_stall_stays(&met, old(interactor));
            if current != list_before {
                lemma_known_stays(memory, balancer@, current, item_indices_b@);
            }
            assert forall|later: Seq<Asked>| #[trigger]
                continues(interactor.asked@, later) implies ({
                let grown = grow_lighter_run(begun, item_indices_b@, tried, mx, later);
                &&& grown.list == (if res == BalanceResult::Left || res == BalanceResult::Equal {
                    current.push(a2)
                } else {
                    current
                })
                &&& grown.k == balancer@
                &&& grown.count == interactor.query_count
                &&& lighter_trials_chosen(
                    begun,
                    item_indices_b@,
                    tried,
                    light_group@,
                    state_before,
                    mx,
                    later,
                )
            }) by {
                lemma_continues(met.asked@, interactor.asked@, later);
                assert(continues(met.asked@, later));
            }
        }
        match res {
            BalanceResult::Left | BalanceResult::Equal => {
                proof {
                    lists = lists.push(current.push(a2));
                }
            },
            _ => {
                item_indices_a.pop();
                proof {
                    assert(item_indices_a@ =~= current);
                    lists = lists.push(current);
                }
            },
        }
        proof {
            assert forall|i: int| 0 <= i < tried.len() implies light_group@.contains(
                #[trigger] tried[i],
            ) && lighter_trial(
                balancer@,
                interactor.stalled_since(old(interactor)),
                item_indices_b@,
                lists[i],
                tried[i],
                lists[i + 1],
            ) by {
                if i < earlier.len() {
                    assert(tried[i] == earlier[i]);
                    assert(lists[i] == lists_earlier[i]);
                    assert(lists[i + 1] == lists_earlier[i + 1]);
                    assert(lighter_trial(
                        memory,
                        met.stalled_since(old(interactor)),
                        item_indices_b@,
                        lists_earlier[i],
                        earlier[i],
                        lists_earlier[i + 1],
                    ));
                    if known_at_most(memory, lists[i + 1], item_indices_b@) {
                        lemma_known_stays(memory, balancer@, lists[i + 1], item_indices_b@);
                    }
                    if known_at_most(memory, item_indices_b@, lists[i].push(tried[i])) {
                        lemma_known_stays(
                            memory,
                            balancer@,
                            item_indices_b@,
                            lists[i].push(tried[i]),
                        );
                    }
                }
            }
        }
    }
    proof {
        assert(grew_lighter(
            tried,
            lists,
            item_indices_b@,
            list_before,
            item_indices_a@,
            light_group@,
            edges_before,
            state_before,
            rng.state,
            balancer@,
            interactor.stalled_since(old(interactor)),
        ));
    }
}

/// The exchange of the set `a_items` of the lighter group for the set
/// `b_items` of the heavier group, as it follows from the memory, the budget
/// and the record of the oracle's answers. Both sets are taken out and what
/// stays of the two groups is compared. If the lighter group's rest is found
/// heavier, or nothing is found, each set goes back to the end of its own
/// group. On any other finding `a_items` goes to the end of the heavier
/// group and `b_items` to the end of the lighter group, and the two groups
/// are put in their places.
pub open spec fn exchange_run(
    k: Knowledge,
    lists: Seq<Seq<usize>>,
    rank: Seq<usize>,
    lighter_g_idx: usize,
    heavier_g_idx: usize,
    d: usize,
    a_items: Seq<usize>,
    b_items: Seq<usize>,
    count: nat,
    max: nat,
    answers: Seq<Asked>,
) -> Acted {
    let light = rank[lighter_g_idx as int] as int;
    let heavy = rank[heavier_g_idx as int] as int;
    let light_left = without(lists[light], a_items);
    let heavy_left = without(lists[heavy], b_items);
    let rests = ask(k, light_left, heavy_left, count, max, answers);
    if rests.res == BalanceResult::Right || rests.res == BalanceResult::Unknown {
        Acted {
            lists: lists.update(light, light_left + a_items).update(heavy, heavy_left + b_items),
            rank,
            k: rests.k,
            count: rests.count,
            accepted: false,
        }
    } else {
        let taken = lists.update(light, light_left).update(heavy, heavy_left + a_items);
        let given = taken.update(light, light_left + b_items);
        settle_run(
            rests.k,
            taken,
            given,
            rank,
            lighter_g_idx,
            heavier_g_idx,
            d,
            rests.count,
            max,
            answers,
        )
    }
}

/// Takes the two sets out of their groups and exchanges them if what stays
/// of the lighter group is found at most as heavy as what stays of the
/// heavier group; puts them back if it is found heavier or nothing is found.
/// Either way the items stand at the end of the group they go to, in the
/// order of their list. After an exchange the two groups are put in their
/// places in the rank.
fn exchange_sets<O: Oracle>(
    heavier_g_idx: usize,
    lighter_g_idx: usize,
    item_indices_a: &Vec<usize>,
    item_indices_b: &Vec<usize>,
    groups: &mut Vec<Vec<usize>>,
    rank: &mut Vec<usize>,
    input: &Input,
    balancer: &mut Balancer,
    interactor: &mut Interactor<O>,
) -> (accepted: bool)
    requires
        action_ready(old(groups)@, old(rank)@, lighter_g_idx, heavier_g_idx),
        picked_from(item_indices_a@, old(groups)@[old(rank)@[lighter_g_idx as int] as int]@),
        picked_from(item_indices_b@, old(groups)@[old(rank)@[heavier_g_idx as int] as int]@),
        known_at_most(old(balancer)@, item_indices_a@, item_indices_b@),
        old(balancer).wf(),
        old(interactor).wf(),
    ensures
        final(balancer).wf(),
        grown_from(final(balancer)@, old(balancer)@),
        final(interactor).follows(old(interactor)),
        groups_fit(final(groups)@),
        final(groups)@.len() == old(groups)@.len(),
        is_rank(final(rank)@, final(groups)@.len()),
        same_outside(old(rank)@, final(rank)@, lighter_g_idx as int, heavier_g_idx as int),
        all_items(final(groups)@) == all_items(old(groups)@),
        !accepted ==> {
            &&& final(rank)@ == old(rank)@
            &&& untouched(old(groups)@, final(groups)@)
            &&& same_masks(old(groups)@, final(groups)@)
        },
        accepted ==> {
            &&& exchanged(
                old(groups)@,
                final(groups)@,
                old(rank)@[lighter_g_idx as int] as int,
                old(rank)@[heavier_g_idx as int] as int,
                item_indices_a@,
                item_indices_b@,
            )
            &&& justified(
                final(balancer)@,
                final(groups)@,
                old(rank)@[lighter_g_idx as int] as int,
                old(rank)@[heavier_g_idx as int] as int,
                item_indices_a@,
                item_indices_b@,
            )
        },
        final(interactor).query_count - old(interactor).query_count <= 1 + 2 * (heavier_g_idx
            - lighter_g_idx),
        forall|later: Seq<Asked>| #[trigger]
            continues(final(interactor).asked@, later) ==> exchange_run(
                old(balancer)@,
                views(old(groups)@),
                old(rank)@,
                lighter_g_idx,
                heavier_g_idx,
                input.d,
                item_indices_a@,
                item_indices_b@,
                old(interactor).query_count as nat,
                old(interactor).max_query_count as nat,
                later,
            ) == (Acted {
                lists: views(final(groups)@),
                rank: final(rank)@,
                k: final(balancer)@,
                count: final(interactor).query_count as nat,
                accepted,
            }),
        ({
            let light = old(rank)@[lighter_g_idx as int] as int;
            let heavy = old(rank)@[heavier_g_idx as int] as int;
            let l_rest = without(old(groups)@[light]@, item_indices_a@);
            let h_rest = without(old(groups)@[heavy]@, item_indices_b@);
            let stalled = final(interactor).stalled_since(old(interactor));
            let before = old(groups)@;
            let after = final(groups)@;
            &&& forall|g: int|
                0 <= g < before.len() && g != light && g != heavy ==> #[trigger] after[g]
                    == before[g]
            &&& accepted ==> {
                &&& final(groups)@[light]@ == l_rest + item_indices_b@
                &&& final(groups)@[heavy]@ == h_rest + item_indices_a@
                &&& known_at_most(final(balancer)@, l_rest, h_rest)
            }
            &&& !accepted ==> {
                &&& final(groups)@[light]@ == l_rest + item_indices_a@
                &&& final(groups)@[heavy]@ == h_rest + item_indices_b@
                &&& stalled || (known_at_most(final(balancer)@, h_rest, l_rest) && l_rest.len() > 0)
            }
        }),
{
    let ghost before = groups@;
    let ghost start_rank = rank@;
    let ghost items_known = balancer@;
    let ghost a_items = item_indices_a@;
    let ghost b_items = item_indices_b@;
    let light: usize = rank[lighter_g_idx];
    let heavy: usize = rank[heavier_g_idx];
    let ghost light_group = before[light as int]@;
    let ghost heavy_group = before[heavy as int]@;
    proof {
        assert(items_fit(light_group));
        assert(items_fit(heavy_group));
        lemma_picked_fit(a_items, light_group);
        lemma_picked_fit(b_items, heavy_group);
    }

    take_out(groups, light, item_indices_a);
    take_out(groups, heavy, item_indices_b);
    let ghost taken = groups@;
    let ghost l_rest = taken[light as int]@;
    let ghost h_rest = taken[heavy as int]@;
    let ghost lists = views(before);
    proof {
        assert(l_rest == without(light_group, a_items));
        assert(h_rest == without(heavy_group, b_items));
        assert forall|g: int| 0 <= g < taken.len() implies items_fit(#[trigger] taken[g]@) by {
            if g == light || g == heavy {
                assert forall|w: int| 0 <= w < taken[g]@.len() implies taken[g]@[w]
                    < crate::mask::MAX_ITEMS by {
                    assert(taken[g]@.contains(taken[g]@[w]));
                    assert(before[g]@.contains(taken[g]@[w]));
                    let z = choose|z: int| 0 <= z < before[g]@.len() && before[g]@[z] == taken[g]@[w];
                    assert(items_fit(before[g]@));
                }
            } else {
                assert(taken[g] == before[g]);
            }
        }
    }
    match balancer.get_result(&groups[light], &groups[heavy], interactor) {
        BalanceResult::Right | BalanceResult::Unknown => {
            put_in(groups, light, item_indices_a);
            put_in(groups, heavy, item_indices_b);
            proof {
                assert(views(groups@) =~= lists.update(light as int, l_rest + a_items).update(
                    heavy as int,
                    h_rest + b_items,
                ));
                assert forall|g: int| 0 <= g < before.len() implies same_members(
                    #[trigger] groups@[g]@,
                    before[g]@,
                ) by {
                    if g != light && g != heavy {
                        assert(groups@[g] == before[g]);
                    }
                }
                lemma_untouched_keeps_items(before, groups@);
                lemma_untouched_keeps_masks(before, groups@);
            }
            return false;
        },
        _ => {},
    }
    let ghost rests_known = balancer@;
    let ghost rests_at = *interactor;
    let to_idx: usize = light;
    put_in(groups, heavy, item_indices_a);
    let ghost lacking = groups@;
    proof {
        assert(views(lacking) =~= lists.update(light as int, l_rest).update(
            heavy as int,
            h_rest + a_items,
        ));
        assert forall|g: int| 0 <= g < groups@.len() implies items_fit(#[trigger] groups@[g]@) by {
            if g == heavy {
                assert forall|w: int| 0 <= w < groups@[g]@.len() implies groups@[g]@[w]
                    < crate::mask::MAX_ITEMS by {
                    if w < h_rest.len() {
                        assert(groups@[g]@[w] == h_rest[w]);
                    } else {
                        assert(groups@[g]@[w] == a_items[w - h_rest.len()]);
                    }
                }
            } else {
                assert(groups@[g] == taken[g]);
            }
        }
    }
    let ranked = update_rank(
        rank,
        groups,
        true,
        lighter_g_idx,
        heavier_g_idx,
        input,
        interactor,
        balancer,
    );
    let ghost mid_rank = rank@;
    let ghost mid_groups = groups@;
    let ghost first_at = *interactor;
    proof {
        let p = choose|p: int|
            lighter_g_idx <= p <= heavier_g_idx && mid_rank == #[trigger] moved(
                start_rank,
                source_place(true, lighter_g_idx, heavier_g_idx),
                p,
            );
        lemma_moved_keeps_rank(start_rank, heavier_g_idx as int, p, groups@.len());
        lemma_moved_stays_in_window(
            start_rank,
            heavier_g_idx as int,
            p,
            lighter_g_idx as int,
            heavier_g_idx as int,
        );
    }
    put_in(groups, to_idx, item_indices_b);
    let ghost given = groups@;
    proof {
        assert(views(given) =~= views(lacking).update(light as int, l_rest + b_items));
        assert forall|g: int| 0 <= g < given.len() implies items_fit(#[trigger] given[g]@) by {
            if g == to_idx {
                assert forall|w: int| 0 <= w < given[g]@.len() implies given[g]@[w]
                    < crate::mask::MAX_ITEMS by {
                    if w < l_rest.len() {
                        assert(given[g]@[w] == l_rest[w]);
                    } else {
                        assert(given[g]@[w] == b_items[w - l_rest.len()]);
                    }
                }
            } else {
                assert(given[g] == mid_groups[g]);
            }
        }
    }
    if ranked {
        let _ = update_rank(
            rank,
            groups,
            false,
            lighter_g_idx,
            heavier_g_idx,
            input,
            interactor,
            balancer,
        );
        proof {
            let p = choose|p: int|
                lighter_g_idx <= p <= heavier_g_idx && rank@ == #[trigger] moved(
                    mid_rank,
                    source_place(false, lighter_g_idx, heavier_g_idx),
                    p,
                );
            lemma_moved_keeps_rank(mid_rank, lighter_g_idx as int, p, groups@.len());
            lemma_moved_stays_in_window(
                mid_rank,
                lighter_g_idx as int,
                p,
                lighter_g_idx as int,
                heavier_g_idx as int,
            );
        }
    }
    proof {
        let l = light as int;
        let h = heavy as int;
        assert(light_rest(given, l, b_items) =~= l_rest);
        assert(heavy_rest(given, h, a_items) =~= h_rest);
        assert(exchanged(before, given, l, h, a_items, b_items));
        lemma_exchanged_keeps_items(before, given, l, h, a_items, b_items);
        lemma_known_stays(items_known, balancer@, a_items, b_items);
        lemma_known_stays(rests_known, balancer@, l_rest, h_rest);
        assert(justified(balancer@, given, l, h, a_items, b_items));
        lemma_log_grows(&rests_at, &first_at, interactor);
        assert forall|later: Seq<Asked>| #[trigger]
            continues(interactor.asked@, later) implies exchange_run(
            old(balancer)@,
            lists,
            start_rank,
            lighter_g_idx,
            heavier_g_idx,
            input.d,
            a_items,
            b_items,
            old(interactor).query_count as nat,
            old(interactor).max_query_count as nat,
            later,
        ) == (Acted {
            lists: views(given),
            rank: rank@,
            k: balancer@,
            count: interactor.query_count as nat,
            accepted: true,
        }) by {
            lemma_continues(rests_at.asked@, interactor.asked@, later);
            lemma_continues(first_at.asked@, interactor.asked@, later);
            assert(continues(rests_at.asked@, later));
            assert(continues(first_at.asked@, later));
        }
    }
    true
}

/// The two sets of a growing exchange, with the memory and the count of the
/// comparisons sent when they are made up.
#[verifier::ext_equal]
pub struct Sides {
    pub a_items: Seq<usize>,
    pub b_items: Seq<usize>,
    pub k: Knowledge,
    pub count: nat,
}

/// The two sets, as they follow from what the first comparison of the items
/// `a` and `b` found. If `a` was found heavier, the heavier side grows by
/// the items `tried`; if it was found lighter, the lighter side grows by
/// them; found equal, the sets stay as they are.
pub open spec fn sides_run(
    first: Finding,
    a: usize,
    b: usize,
    tried: Seq<usize>,
    max: nat,
    answers: Seq<Asked>,
) -> Sides {
    match first.res {
        BalanceResult::Right => {
            let grown = grow_heavier_run(
                Grown { list: seq![b], k: first.k, count: first.count, kept: false },
                seq![a],
                tried,
                max,
                answers,
            );
            Sides { a_items: seq![a], b_items: grown.list, k: grown.k, count: grown.count }
        },
        BalanceResult::Left => {
            let grown = grow_lighter_run(
                Grown { list: seq![a], k: first.k, count: first.count, kept: false },
                seq![b],
                tried,
                max,
                answers,
            );
            Sides { a_items: grown.list, b_items: seq![b], k: grown.k, count: grown.count }
        },
        _ => Sides { a_items: seq![a], b_items: seq![b], k: first.k, count: first.count },
    }
}

/// The items tried for growth belong to what the first comparison of the
/// items `a` and `b` found. After `Right` they are items of the heavier
/// group, at least one and at most `TRIAL_COUNT`; after `Left` they are
/// `TRIAL_COUNT` items of the lighter group; else there are none. Each was
/// picked with the memory and the state of the generator of its trial; `s`
/// is the state in which the first trial finds the generator.
pub open spec fn tried_from(
    first: Finding,
    a: usize,
    b: usize,
    light_group: Seq<usize>,
    heavy_group: Seq<usize>,
    s: u64,
    tried: Seq<usize>,
    max: nat,
    answers: Seq<Asked>,
) -> bool {
    match first.res {
        BalanceResult::Right => {
            &&& 1 <= tried.len() <= TRIAL_COUNT
            &&& heavier_trials_chosen(
                Grown { list: seq![b], k: first.k, count: first.count, kept: false },
                seq![a],
                tried,
                heavy_group,
                s,
                max,
                answers,
            )
        },
        BalanceResult::Left => {
            &&& tried.len() == TRIAL_COUNT
            &&& lighter_trials_chosen(
                Grown { list: seq![a], k: first.k, count: first.count, kept: false },
                seq![b],
                tried,
                light_group,
                s,
                max,
                answers,
            )
        },
        _ => tried.len() == 0,
    }
}

/// The item of the lighter group that a growing exchange begins with: the
/// one drawn with the generator in state `s`.
pub open spec fn first_light(
    lists: Seq<Seq<usize>>,
    rank: Seq<usize>,
    lighter_g_idx: usize,
    s: u64,
) -> usize {
    let group = lists[rank[lighter_g_idx as int] as int];
    group[ranged(s, 0, group.len() as usize)]
}

/// The item of the heavier group that a growing exchange begins with: the
/// one drawn next after the first item of the lighter group.
pub open spec fn first_heavy(
    lists: Seq<Seq<usize>>,
    rank: Seq<usize>,
    heavier_g_idx: usize,
    s: u64,
) -> usize {
    let group = lists[rank[heavier_g_idx as int] as int];
    group[ranged(step(s), 0, group.len() as usize)]
}

/// The growing exchange, as it follows from the memory, the budget, the
/// state of the generator, the items tried for growth and the record of the
/// oracle's answers. One item of each group is drawn, and the two are
/// compared: if nothing is found, nothing is changed but the memory and the
/// count. Else the sets are made up and compared: unless the lighter
/// group's set is found lighter than the other or as heavy, again nothing is
/// changed but the memory and the count. Else the sets are exchanged, if
/// what stays of the groups allows it.
pub open spec fn swap2_run(
    k: Knowledge,
    lists: Seq<Seq<usize>>,
    rank: Seq<usize>,
    lighter_g_idx: usize,
    heavier_g_idx: usize,
    d: usize,
    s: u64,
    tried: Seq<usize>,
    count: nat,
    max: nat,
    answers: Seq<Asked>,
) -> Acted {
    let a = first_light(lists, rank, lighter_g_idx, s);
    let b = first_heavy(lists, rank, heavier_g_idx, s);
    let first = ask(k, seq![a], seq![b], count, max, answers);
    if first.res == BalanceResult::Unknown {
        Acted { lists, rank, k: first.k, count: first.count, accepted: false }
    } else {
        let sides = sides_run(first, a, b, tried, max, answers);
        let checked = ask(sides.k, sides.a_items, sides.b_items, sides.count, max, answers);
        if checked.res != BalanceResult::Left && checked.res != BalanceResult::Equal {
            Acted { lists, rank, k: checked.k, count: checked.count, accepted: false }
        } else {
            exchange_run(
                checked.k,
                lists,
                rank,
                lighter_g_idx,
                heavier_g_idx,
                d,
                sides.a_items,
                sides.b_items,
                checked.count,
                max,
                answers,
            )
        }
    }
}

/// The state that the generator is in after a growing exchange that has
/// tried the items `tried`: two draws for the first items, and one for each
/// item tried.
pub open spec fn drawn_for(tried: Seq<usize>, state_before: u64, state_after: u64) -> bool {
    &&& tried.len() <= TRIAL_COUNT
    &&& state_after == after_draws(state_before, 2 + tried.len())
}

/// Draws from the state after one draw are draws after one more.
proof fn lemma_draws_shift(s: u64, n: nat)
    ensures
        after_draws(step(s), n) == after_draws(s, n + 1),
    decreases n,
{
    if n > 0 {
        lemma_draws_shift(s, (n - 1) as nat);
        assert(after_draws(step(s), n) == step(after_draws(step(s), (n - 1) as nat)));
    } else {
        assert(after_draws(s, 0) == s);
    }
    assert(after_draws(s, n + 1) == step(after_draws(s, n)));
}

/// Exchanges a few items of the group at the lighter place for a few items
/// of the group at the heavier place. It starts with one item of each group
/// drawn by chance. If the first is found heavier, up to `TRIAL_COUNT` more
/// items of the heavier group are tried until the two sets stand the right
/// way; if it is found lighter, up to `TRIAL_COUNT` more items of the lighter
/// group are added as long as the sets still stand the right way. The sets
/// are exchanged if the first is then found at most as heavy as the second,
/// and what stays of the lighter group at most as heavy as what stays of the
/// heavier group. Any other finding leaves the groups as they were.
pub fn action_swap2<O: Oracle>(
    heavier_g_idx: usize,
    lighter_g_idx: usize,
    groups: &mut Vec<Vec<usize>>,
    rank: &mut Vec<usize>,
    input: &Input,
    balancer: &mut Balancer,
    interactor: &mut Interactor<O>,
    rng: &mut Rng,
) -> (accepted: bool)
    requires
        action_ready(old(groups)@, old(rank)@, lighter_g_idx, heavier_g_idx),
        old(groups)@[old(rank)@[lighter_g_idx as int] as int]@.len() > 0,
        old(groups)@[old(rank)@[heavier_g_idx as int] as int]@.len() > 0,
        old(balancer).wf(),
        old(interactor).wf(),
    ensures
        final(balancer).wf(),
        grown_from(final(balancer)@, old(balancer)@),
        final(interactor).follows(old(interactor)),
        groups_fit(final(groups)@),
        final(groups)@.len() == old(groups)@.len(),
        is_rank(final(rank)@, final(groups)@.len()),
        same_outside(old(rank)@, final(rank)@, lighter_g_idx as int, heavier_g_idx as int),
        all_items(final(groups)@) == all_items(old(groups)@),
        !accepted ==> {
            &&& final(rank)@ == old(rank)@
            &&& untouched(old(groups)@, final(groups)@)
            &&& same_masks(old(groups)@, final(groups)@)
            &&& final(interactor).stalled_since(old(interactor)) || items_compared(
                final(balancer)@,
                old(groups)@[old(rank)@[lighter_g_idx as int] as int]@,
                old(groups)@[old(rank)@[heavier_g_idx as int] as int]@,
            )
        },
        final(interactor).query_count - old(interactor).query_count <= 3 + TRIAL_COUNT + 2 * (
        heavier_g_idx - lighter_g_idx),
        exists|tried: Seq<usize>|
            {
                &&& #[trigger] drawn_for(tried, old(rng).state, final(rng).state)
                &&& forall|later: Seq<Asked>| #[trigger]
                    continues(final(interactor).asked@, later) ==> {
                        let a = first_light(
                            views(old(groups)@),
                            old(rank)@,
                            lighter_g_idx,
                            old(rng).state,
                        );
                        let b = first_heavy(
                            views(old(groups)@),
                            old(rank)@,
                            heavier_g_idx,
                            old(rng).state,
                        );
                        &&& tried_from(
                            ask(
                                old(balancer)@,
                                seq![a],
                                seq![b],
                                old(interactor).query_count as nat,
                                old(interactor).max_query_count as nat,
                                later,
                            ),
                            a,
                            b,
                            old(groups)@[old(rank)@[lighter_g_idx as int] as int]@,
                            old(groups)@[old(rank)@[heavier_g_idx as int] as int]@,
                            step(step(old(rng).state)),
                            tried,
                            old(interactor).max_query_count as nat,
                            later,
                        )
                        &&& swap2_run(
                            old(balancer)@,
                            views(old(groups)@),
                            old(rank)@,
                            lighter_g_idx,
                            heavier_g_idx,
                            input.d,
                            old(rng).state,
                            tried,
                            old(interactor).query_count as nat,
                            old(interactor).max_query_count as nat,
                            later,
                        ) == (Acted {
                            lists: views(final(groups)@),
                            rank: final(rank)@,
                            k: final(balancer)@,
                            count: final(interactor).query_count as nat,
                            accepted,
                        })
                    }
            },
        accepted ==> exists|a_items: Seq<usize>, b_items: Seq<usize>|
            {
                &&& #[trigger] exchanged(
                    old(groups)@,
                    final(groups)@,
                    old(rank)@[lighter_g_idx as int] as int,
                    old(rank)@[heavier_g_idx as int] as int,
                    a_items,
                    b_items,
                )
                &&& justified(
                    final(balancer)@,
                    final(groups)@,
                    old(rank)@[lighter_g_idx as int] as int,
                    old(rank)@[heavier_g_idx as int] as int,
                    a_items,
                    b_items,
                )
                &&& 1 <= a_items.len() <= 1 + TRIAL_COUNT
                &&& 1 <= b_items.len() <= 2
                &&& a_items.len() == 1 || b_items.len() == 1
            },
{
    let ghost before = groups@;
    let light: usize = rank[lighter_g_idx];
    let heavy: usize = rank[heavier_g_idx];
    let ghost light_group = before[light as int]@;
    let ghost heavy_group = before[heavy as int]@;
    let ghost lists = views(before);
    let ghost start_rank = rank@;
    let ghost mx = interactor.max_query_count as nat;
    let ghost start_state = rng.state;
    let ghost mut tried: Seq<usize> = Seq::empty();
    let first_a: usize = groups[light][gen_range(rng, 0, groups[light].len())];
    let first_b: usize = groups[heavy][gen_range(rng, 0, groups[heavy].len())];
    let mut item_indices_a: Vec<usize> = Vec::new();
    item_indices_a.push(first_a);
    let mut item_indices_b: Vec<usize> = Vec::new();
    item_indices_b.push(first_b);
    proof {
        assert(items_fit(light_group));
        assert(items_fit(heavy_group));
        assert(light_group.contains(first_a));
        assert(heavy_group.contains(first_b));
        assert(item_indices_a@ =~= seq![first_a]);
        assert(item_indices_b@ =~= seq![first_b]);
        assert(picked_from(item_indices_a@, light_group));
        assert(picked_from(item_indices_b@, heavy_group));
        lemma_picked_fit(item_indices_a@, light_group);
        lemma_picked_fit(item_indices_b@, heavy_group);
    }

    let first = balancer.get_result(&item_indices_a, &item_indices_b, interactor);
    let ghost first_known = balancer@;
    let ghost first_met = *interactor;
    let ghost first_edges = balancer.right_edges@;
    let ghost first_state = rng.state;
    let ghost found = Finding { res: first, k: first_known, count: first_met.query_count as nat };
    proof {
        if first != BalanceResult::Unknown {
            assert(compared(first_known, seq![first_a], seq![first_b]));
        }
        assert(first_state == after_draws(start_state, 2)) by {
            assert(after_draws(start_state, 1) == step(after_draws(start_state, 0)));
            assert(after_draws(start_state, 2) == step(after_draws(start_state, 1)));
        }
        assert(lists[light as int] == light_group);
        assert(lists[heavy as int] == heavy_group);
        assert(first_light(lists, start_rank, lighter_g_idx, start_state) == first_a);
        assert(first_heavy(lists, start_rank, heavier_g_idx, start_state) == first_b);
        assert(first_state == step(step(start_state)));
    }
    match first {
        BalanceResult::Right => {
            grow_heavier_side(
                &item_indices_a,
                &mut item_indices_b,
                &groups[heavy],
                balancer,
                interactor,
                rng,
            );
            proof {
                tried = choose|t: Seq<usize>|
                    {
                        &&& #[trigger] grew_heavier(
                            t,
                            item_indices_a@,
                            seq![first_b],
                            item_indices_b@,
                            heavy_group,
                            first_edges,
                            first_state,
                            rng.state,
                            balancer@,
                            interactor.stalled_since(&first_met),
                        )
                        &&& forall|later: Seq<Asked>| #[trigger]
                            continues(interactor.asked@, later) ==> grow_heavier_run(
                                (Grown {
                                    list: seq![first_b],
                                    k: first_known,
                                    count: first_met.query_count as nat,
                                    kept: false,
                                }),
                                item_indices_a@,
                                t,
                                mx,
                                later,
                            ) == (Grown {
                                list: item_indices_b@,
                                k: balancer@,
                                count: interactor.query_count as nat,
                                kept: item_indices_b@.len() > seq![first_b].len(),
                            }) && heavier_trials_chosen(
                                (Grown {
                                    list: seq![first_b],
                                    k: first_known,
                                    count: first_met.query_count as nat,
                                    kept: false,
                                }),
                                item_indices_a@,
                                t,
                                heavy_group,
                                first_state,
                                mx,
                                later,
                            )
                    };
            }
        },
        BalanceResult::Left => {
            grow_lighter_side(
                &mut item_indices_a,
                &item_indices_b,
                &groups[light],
                balancer,
                interactor,
                rng,
            );
            proof {
                let (t, ls) = choose|t: Seq<usize>, ls: Seq<Seq<usize>>|
                    {
                        &&& #[trigger] grew_lighter(
                            t,
                            ls,
                            item_indices_b@,
                            seq![first_a],
                            item_indices_a@,
                            light_group,
                            first_edges,
                            first_state,
                            rng.state,
                            balancer@,
                            interactor.stalled_since(&first_met),
                        )
                        &&& forall|later: Seq<Asked>| #[trigger]
                            continues(interactor.asked@, later) ==> {
                                let grown = grow_lighter_run(
                                    (Grown {
                                        list: seq![first_a],
                                        k: first_known,
                                        count: first_met.query_count as nat,
                                        kept: false,
                                    }),
                                    item_indices_b@,
                                    t,
                                    mx,
                                    later,
                                );
                                &&& grown.list == item_indices_a@
                                &&& grown.k == balancer@
                                &&& grown.count == interactor.query_count
                                &&& lighter_trials_chosen(
                                    (Grown {
                                        list: seq![first_a],
                                        k: first_known,
                                        count: first_met.query_count as nat,
                                        kept: false,
                                    }),
                                    item_indices_b@,
                                    t,
                                    light_group,
                                    first_state,
                                    mx,
                                    later,
                                )
                            }
                    };
                tried = t;
            }
        },
        BalanceResult::Equal => {},
        BalanceResult::Unknown => {
            proof {
                assert(views(groups@) =~= lists);
                assert(drawn_for(tried, start_state, rng.state));
                assert forall|g: int| 0 <= g < before.len() implies same_members(
                    #[trigger] groups@[g]@,
                    before[g]@,
                ) by {}
                lemma_untouched_keeps_items(before, groups@);
                lemma_untouched_keeps_masks(before, groups@);
            }
            return false;
        },
    }
    proof {
        lemma_picked_fit(item_indices_a@, light_group);
        lemma_picked_fit(item_indices_b@, heavy_group);
        interactor.lemma_stall_stays(&first_met, old(interactor));
        assert(drawn_for(tried, start_state, rng.state)) by {
            lemma_draws_shift(step(start_state), tried.len());
            lemma_draws_shift(start_state, (tried.len() + 1) as nat);
        }
    }
    let ghost grown_met = *interactor;
    let ghost grown_known = balancer@;
    proof {
        assert(first_met.asked@.is_prefix_of(grown_met.asked@));
        assert forall|later: Seq<Asked>| #[trigger]
            continues(grown_met.asked@, later) implies sides_run(
            found,
            first_a,
            first_b,
            tried,
            mx,
            later,
        ) == (Sides {
            a_items: item_indices_a@,
            b_items: item_indices_b@,
            k: grown_known,
            count: grown_met.query_count as nat,
        }) && tried_from(
            found,
            first_a,
            first_b,
            light_group,
            heavy_group,
            first_state,
            tried,
            mx,
            later,
        ) by {}
    }
    match balancer.get_result(&item_indices_a, &item_indices_b, interactor) {
        BalanceResult::Left | BalanceResult::Equal => {},
        _ => {
            proof {
                interactor.lemma_stall_stays(&grown_met, old(interactor));
                lemma_compared_stays(first_known, balancer@, seq![first_a], seq![first_b]);
                assert forall|g: int| 0 <= g < before.len() implies same_members(
                    #[trigger] groups@[g]@,
                    before[g]@,
                ) by {}
                lemma_untouched_keeps_items(before, groups@);
                lemma_untouched_keeps_masks(before, groups@);
                assert(views(groups@) =~= lists);
                lemma_log_grows(&first_met, &grown_met, interactor);
                assert forall|later: Seq<Asked>| #[trigger]
                    continues(interactor.asked@, later) implies continues(
                    first_met.asked@,
                    later,
                ) && continues(grown_met.asked@, later) by {
                    lemma_continues(first_met.asked@, interactor.asked@, later);
                    lemma_continues(grown_met.asked@, interactor.asked@, later);
                }
            }
            return false;
        },
    }
    proof {
        interactor.lemma_stall_stays(&grown_met, old(interactor));
    }
    let ghost checked_met = *interactor;
    let accepted = exchange_sets(
        heavier_g_idx,
        lighter_g_idx,
        &item_indices_a,
        &item_indices_b,
        groups,
        rank,
        input,
        balancer,
        interactor,
    );
    proof {
        interactor.lemma_stall_stays(&checked_met, old(interactor));
        lemma_compared_stays(first_known, balancer@, seq![first_a], seq![first_b]);
        lemma_log_grows(&first_met, &grown_met, &checked_met);
        lemma_log_grows(&grown_met, &checked_met, interactor);
        interactor.lemma_stall_stays(&checked_met, &first_met);
        assert forall|later: Seq<Asked>| #[trigger]
            continues(interactor.asked@, later) implies continues(first_met.asked@, later)
            && continues(grown_met.asked@, later) && continues(checked_met.asked@, later) by {
            lemma_continues(first_met.asked@, interactor.asked@, later);
            lemma_continues(grown_met.asked@, interactor.asked@, later);
            lemma_continues(checked_met.asked@, interactor.asked@, later);
        }
    }
    accepted
}

} // verus!
