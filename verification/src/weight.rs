//! Why the memory of comparisons can be trusted: measured against any
//! weights of the items, a memory that holds only true findings derives only
//! true findings and answers only with true findings. What it backs is then
//! true of the groups: an ordered rank is ordered by weight, and an accepted
//! exchange does not drive two groups further apart.

use crate::action::justified;
use crate::balancer::{
    augmented, derived, derives_in, flipped, inferred, known_at_most, prepared, recorded, rule,
    settled, Knowledge,
};
use crate::def::BalanceResult;
use crate::graph::{hops, reach_limit, reachable, step};
use crate::groups::{exchanged, groups_fit, heavy_rest, light_rest, rank_fits, same_members};
use crate::mask::{
    item_mask, items_fit, lemma_and_commutes, lemma_mask_contains, lemma_shift_width, mask_of,
    popcount, MAX_ITEMS,
};
use crate::rank::{ordered, placed};
use vstd::prelude::*;

verus! {

broadcast use {vstd::seq_lib::group_to_multiset_ensures, vstd::multiset::group_multiset_axioms};

/// The weight of item `i`: what the list says, and nothing for an item that
/// the list does not reach.
pub open spec fn item_weight(w: Seq<nat>, i: int) -> nat {
    if 0 <= i < w.len() {
        w[i]
    } else {
        0
    }
}

/// The mask holds item `i`.
pub open spec fn has_item(m: u128, i: usize) -> bool {
    m & item_mask(i) != 0
}

/// The weight of those items of the mask that are below `n`.
pub open spec fn weight_below(m: u128, w: Seq<nat>, n: nat) -> nat
    decreases n,
{
    if n == 0 {
        0
    } else {
        weight_below(m, w, (n - 1) as nat) + if has_item(m, (n - 1) as usize) {
            item_weight(w, n - 1)
        } else {
            0
        }
    }
}

/// The weight of the set that a mask stands for.
pub open spec fn mask_weight(m: u128, w: Seq<nat>) -> nat {
    weight_below(m, w, MAX_ITEMS as nat)
}

/// Every finding of the memory is true of the weights: an "at most" edge
/// leads to a set that weighs no less, a "more" edge to one that weighs no
/// more.
pub open spec fn truthful(k: Knowledge, w: Seq<nat>) -> bool {
    &&& forall|a: u128, b: u128| #[trigger]
        k.le.contains((a, b)) ==> mask_weight(a, w) <= mask_weight(b, w)
    &&& forall|a: u128, b: u128| #[trigger]
        k.gt.contains((a, b)) ==> mask_weight(a, w) >= mask_weight(b, w)
}

/// A finding on two masks is true of the weights. `Left` claims no more
/// than "at most", `Right` no more than "at least"; `Unknown` claims
/// nothing.
pub open spec fn holds_of(res: BalanceResult, left_hash: u128, right_hash: u128, w: Seq<nat>) -> bool {
    match res {
        BalanceResult::Left => mask_weight(left_hash, w) <= mask_weight(right_hash, w),
        BalanceResult::Right => mask_weight(left_hash, w) >= mask_weight(right_hash, w),
        BalanceResult::Equal => mask_weight(left_hash, w) == mask_weight(right_hash, w),
        BalanceResult::Unknown => true,
    }
}

proof fn lemma_part_bit(v: u128, u: u128, i: u32)
    by (bit_vector)
    requires
        v & u == u,
        i < 128,
    ensures
        u & (1u128 << i) != 0 ==> v & (1u128 << i) != 0,
{
}

proof fn lemma_split_bit(v: u128, u: u128, i: u32)
    by (bit_vector)
    requires
        i < 128,
    ensures
        (v & (1u128 << i) != 0) <==> ((v & u) & (1u128 << i) != 0 || (v ^ (v & u)) & (1u128 << i)
            != 0),
        !((v & u) & (1u128 << i) != 0 && (v ^ (v & u)) & (1u128 << i) != 0),
{
}

/// A part weighs at most as much as the whole.
pub proof fn lemma_part_weighs_less(part: u128, whole: u128, w: Seq<nat>, n: nat)
    requires
        whole & part == part,
        n <= MAX_ITEMS,
    ensures
        weight_below(part, w, n) <= weight_below(whole, w, n),
    decreases n,
{
    if n > 0 {
        lemma_part_weighs_less(part, whole, w, (n - 1) as nat);
        lemma_part_bit(whole, part, (n - 1) as u32);
        lemma_shift_width((n - 1) as usize);
    }
}

/// A set weighs what its common part with another set and the rest of it
/// weigh together.
pub proof fn lemma_weight_splits(v: u128, u: u128, w: Seq<nat>, n: nat)
    requires
        n <= MAX_ITEMS,
    ensures
        weight_below(v, w, n) == weight_below(v & u, w, n) + weight_below(v ^ (v & u), w, n),
    decreases n,
{
    if n > 0 {
        lemma_weight_splits(v, u, w, (n - 1) as nat);
        lemma_split_bit(v, u, (n - 1) as u32);
        lemma_shift_width((n - 1) as usize);
    }
}

/// A chain of true "at most" edges leads to a set that weighs no less.
pub proof fn lemma_chain_rises(k: Knowledge, w: Seq<nat>, a: u128, b: u128, n: nat)
    requires
        truthful(k, w),
        hops(k.le, a, b, n),
    ensures
        mask_weight(a, w) <= mask_weight(b, w),
    decreases n,
{
    if n > 0 {
        let c = choose|c: u128| hops(k.le, a, c, (n - 1) as nat) && #[trigger] step(k.le, c, b);
        lemma_chain_rises(k, w, a, c, (n - 1) as nat);
        assert(k.le.contains((c, b)));
    }
}

/// A chain of true "more" edges leads to a set that weighs no more.
pub proof fn lemma_chain_falls(k: Knowledge, w: Seq<nat>, a: u128, b: u128, n: nat)
    requires
        truthful(k, w),
        hops(k.gt, a, b, n),
    ensures
        mask_weight(a, w) >= mask_weight(b, w),
    decreases n,
{
    if n > 0 {
        let c = choose|c: u128| hops(k.gt, a, c, (n - 1) as nat) && #[trigger] step(k.gt, c, b);
        lemma_chain_falls(k, w, a, c, (n - 1) as nat);
        assert(k.gt.contains((c, b)));
    }
}

/// What a truthful memory answers is true of the weights.
pub proof fn lemma_inferred_is_true(k: Knowledge, w: Seq<nat>, left_hash: u128, right_hash: u128)
    requires
        truthful(k, w),
    ensures
        holds_of(inferred(k, left_hash, right_hash), left_hash, right_hash, w),
{
    if reachable(k.le, left_hash, right_hash) {
        let n = choose|n: nat|
            1 <= n <= reach_limit() && #[trigger] hops(k.le, left_hash, right_hash, n);
        lemma_chain_rises(k, w, left_hash, right_hash, n);
    } else if reachable(k.gt, left_hash, right_hash) {
        let n = choose|n: nat|
            1 <= n <= reach_limit() && #[trigger] hops(k.gt, left_hash, right_hash, n);
        lemma_chain_falls(k, w, left_hash, right_hash, n);
    }
}

/// What follows for a mask from a mask of a truthful memory is true of the
/// weights: the first of the pair weighs at most as much as the second.
pub proof fn lemma_rule_is_true(k: Knowledge, w: Seq<nat>, v: u128, u: u128)
    requires
        truthful(k, w),
    ensures
        rule(k, v, u) matches Some(p) ==> mask_weight(p.0, w) <= mask_weight(p.1, w),
{
    let n = MAX_ITEMS as nat;
    if v & u == u {
        lemma_part_weighs_less(u, v, w, n);
    } else if v & u == v {
        lemma_and_commutes(v, u);
        lemma_part_weighs_less(v, u, w, n);
    } else if popcount(v ^ u) == 2 {
        let common = v & u;
        lemma_and_commutes(v, u);
        lemma_weight_splits(v, u, w, n);
        lemma_weight_splits(u, v, w, n);
        lemma_inferred_is_true(k, w, v ^ common, u ^ common);
    }
}

/// Writing down what follows for a mask keeps a truthful memory truthful.
pub proof fn lemma_augmented_is_truthful(k: Knowledge, w: Seq<nat>, v: u128)
    requires
        truthful(k, w),
    ensures
        truthful(augmented(k, v), w),
{
    let more = augmented(k, v);
    assert forall|p: (u128, u128)| derived(k, v).contains(p) implies mask_weight(p.0, w)
        <= mask_weight(p.1, w) by {
        let rel = if derives_in(k, k.le, v, p) {
            k.le
        } else {
            k.gt
        };
        let u = choose|u: u128|
            crate::balancer::fresh_to(rel, v, u) && #[trigger] rule(k, v, u) == Some(p);
        lemma_rule_is_true(k, w, v, u);
    }
    assert forall|a: u128, b: u128| #[trigger] more.le.contains((a, b)) implies mask_weight(a, w)
        <= mask_weight(b, w) by {
        if !k.le.contains((a, b)) {
            assert(derived(k, v).contains((a, b)));
        }
    }
    assert forall|a: u128, b: u128| #[trigger] more.gt.contains((a, b)) implies mask_weight(a, w)
        >= mask_weight(b, w) by {
        if !k.gt.contains((a, b)) {
            assert(flipped(derived(k, v)).contains((a, b)));
            assert(derived(k, v).contains((b, a)));
        }
    }
}

/// Writing a true finding down keeps a truthful memory truthful.
pub proof fn lemma_recorded_is_truthful(
    k: Knowledge,
    w: Seq<nat>,
    left_hash: u128,
    right_hash: u128,
    res: BalanceResult,
)
    requires
        truthful(k, w),
        holds_of(res, left_hash, right_hash, w),
    ensures
        truthful(recorded(k, left_hash, right_hash, res), w),
{
    let more = recorded(k, left_hash, right_hash, res);
    assert forall|a: u128, b: u128| #[trigger] more.le.contains((a, b)) implies mask_weight(a, w)
        <= mask_weight(b, w) by {
        if !k.le.contains((a, b)) {
        }
    }
    assert forall|a: u128, b: u128| #[trigger] more.gt.contains((a, b)) implies mask_weight(a, w)
        >= mask_weight(b, w) by {
        if !k.gt.contains((a, b)) {
        }
    }
}

/// A comparison of two masks by a truthful memory ends with a true finding
/// and a truthful memory, provided that the answer of the oracle, where the
/// oracle had to be asked, is true. `res` is the finding of the comparison:
/// what the prepared memory settles, or else the answer of the oracle.
pub proof fn lemma_comparison_is_sound(
    k: Knowledge,
    w: Seq<nat>,
    left_hash: u128,
    right_hash: u128,
    res: BalanceResult,
)
    requires
        truthful(k, w),
        settled(k, left_hash, right_hash) != BalanceResult::Unknown ==> res == settled(
            k,
            left_hash,
            right_hash,
        ),
        settled(k, left_hash, right_hash) == BalanceResult::Unknown ==> holds_of(
            res,
            left_hash,
            right_hash,
            w,
        ),
    ensures
        holds_of(res, left_hash, right_hash, w),
        truthful(recorded(prepared(k, left_hash, right_hash), left_hash, right_hash, res), w),
{
    let first = augmented(k, left_hash);
    lemma_augmented_is_truthful(k, w, left_hash);
    lemma_augmented_is_truthful(first, w, right_hash);
    let ready = prepared(k, left_hash, right_hash);
    lemma_inferred_is_true(ready, w, left_hash, right_hash);
    lemma_recorded_is_truthful(ready, w, left_hash, right_hash, res);
}

/// The weight of a list of items: the sum of the weights of its members.
pub open spec fn list_weight(items: Seq<usize>, w: Seq<nat>) -> nat
    decreases items.len(),
{
    if items.len() == 0 {
        0
    } else {
        list_weight(items.drop_last(), w) + item_weight(w, items.last() as int)
    }
}

/// An answer on two lists is what their weights say.
pub open spec fn answers(res: BalanceResult, left_v: Seq<usize>, right_v: Seq<usize>, w: Seq<nat>) -> bool {
    match res {
        BalanceResult::Left => list_weight(left_v, w) < list_weight(right_v, w),
        BalanceResult::Right => list_weight(left_v, w) > list_weight(right_v, w),
        BalanceResult::Equal => list_weight(left_v, w) == list_weight(right_v, w),
        BalanceResult::Unknown => true,
    }
}

proof fn lemma_added_bit(m: u128, x: u32, i: u32)
    by (bit_vector)
    requires
        x < 128,
        i < 128,
    ensures
        ((m | (1u128 << x)) & (1u128 << i) != 0) <==> (m & (1u128 << i) != 0 || i == x),
{
}

/// A mask with one more item weighs more by the weight of that item.
pub proof fn lemma_weight_with_item(m: u128, x: usize, w: Seq<nat>, n: nat)
    requires
        x < MAX_ITEMS,
        n <= MAX_ITEMS,
        !has_item(m, x),
    ensures
        weight_below(m | item_mask(x), w, n) == weight_below(m, w, n) + if x < n {
            item_weight(w, x as int)
        } else {
            0
        },
    decreases n,
{
    if n > 0 {
        lemma_weight_with_item(m, x, w, (n - 1) as nat);
        lemma_added_bit(m, x as u32, (n - 1) as u32);
        lemma_shift_width((n - 1) as usize);
        lemma_shift_width(x);
    }
}

/// The mask of a list that names no item twice weighs what the list weighs.
pub proof fn lemma_mask_weighs_as_list(items: Seq<usize>, w: Seq<nat>)
    requires
        items_fit(items),
        items.no_duplicates(),
    ensures
        mask_weight(mask_of(items), w) == list_weight(items, w),
    decreases items.len(),
{
    if items.len() == 0 {
        lemma_nothing_weighs_nothing(w, MAX_ITEMS as nat);
    } else {
        let rest = items.drop_last();
        let x = items.last();
        lemma_mask_weighs_as_list(rest, w);
        lemma_mask_contains(rest, x);
        assert(!rest.contains(x)) by {
            if rest.contains(x) {
                let j = choose|j: int| 0 <= j < rest.len() && rest[j] == x;
                assert(items[j] == items[items.len() - 1]);
            }
        }
        lemma_weight_with_item(mask_of(rest), x, w, MAX_ITEMS as nat);
    }
}

proof fn lemma_no_bits(i: u32)
    by (bit_vector)
    requires
        i < 128,
    ensures
        0u128 & (1u128 << i) == 0,
{
}

/// The mask without items weighs nothing.
proof fn lemma_nothing_weighs_nothing(w: Seq<nat>, n: nat)
    requires
        n <= MAX_ITEMS,
    ensures
        weight_below(0, w, n) == 0,
    decreases n,
{
    if n > 0 {
        lemma_nothing_weighs_nothing(w, (n - 1) as nat);
        lemma_no_bits((n - 1) as u32);
        lemma_shift_width((n - 1) as usize);
    }
}

/// An answer that is what the weights of two lists say is a true finding on
/// their masks, if neither list names an item twice.
pub proof fn lemma_answer_holds(
    res: BalanceResult,
    left_v: Seq<usize>,
    right_v: Seq<usize>,
    w: Seq<nat>,
)
    requires
        items_fit(left_v),
        items_fit(right_v),
        left_v.no_duplicates(),
        right_v.no_duplicates(),
        answers(res, left_v, right_v, w),
    ensures
        holds_of(res, mask_of(left_v), mask_of(right_v), w),
{
    lemma_mask_weighs_as_list(left_v, w);
    lemma_mask_weighs_as_list(right_v, w);
}

/// Two lists in a row weigh what they weigh one by one.
pub proof fn lemma_list_weight_adds(a: Seq<usize>, b: Seq<usize>, w: Seq<nat>)
    ensures
        list_weight(a + b, w) == list_weight(a, w) + list_weight(b, w),
    decreases b.len(),
{
    if b.len() == 0 {
        assert(a + b =~= a);
    } else {
        lemma_list_weight_adds(a, b.drop_last(), w);
        assert((a + b).drop_last() =~= a + b.drop_last());
        assert((a + b).last() == b.last());
    }
}

/// A list without one of its members weighs less by the weight of that
/// member.
proof fn lemma_list_weight_without(a: Seq<usize>, i: int, w: Seq<nat>)
    requires
        0 <= i < a.len(),
    ensures
        list_weight(a, w) == list_weight(a.remove(i), w) + item_weight(w, a[i] as int),
    decreases a.len(),
{
    if i == a.len() - 1 {
        assert(a.remove(i) =~= a.drop_last());
    } else {
        lemma_list_weight_without(a.drop_last(), i, w);
        assert(a.remove(i).drop_last() =~= a.drop_last().remove(i));
        assert(a.remove(i).last() == a.last());
    }
}

/// Lists with the same members weigh the same.
pub proof fn lemma_same_members_weigh_same(a: Seq<usize>, b: Seq<usize>, w: Seq<nat>)
    requires
        same_members(a, b),
    ensures
        list_weight(a, w) == list_weight(b, w),
    decreases a.len(),
{
    if a.len() == 0 {
        assert(b.to_multiset().len() == 0);
        assert(b.len() == 0);
    } else {
        let x = a.last();
        assert(a =~= a.drop_last().push(x));
        assert(a.to_multiset().count(x) > 0);
        assert(b.contains(x));
        let i = choose|i: int| 0 <= i < b.len() && b[i] == x;
        assert(a.drop_last().to_multiset() =~= a.to_multiset().remove(x));
        assert(b.remove(i).to_multiset() =~= b.to_multiset().remove(x));
        lemma_same_members_weigh_same(a.drop_last(), b.remove(i), w);
        lemma_list_weight_without(b, i, w);
    }
}

/// What the memory backs of two lists that name no item twice is true of
/// their weights, if the memory is truthful.
pub proof fn lemma_known_is_true(k: Knowledge, w: Seq<nat>, light: Seq<usize>, heavy: Seq<usize>)
    requires
        truthful(k, w),
        known_at_most(k, light, heavy),
        items_fit(light),
        items_fit(heavy),
        light.no_duplicates(),
        heavy.no_duplicates(),
    ensures
        list_weight(light, w) <= list_weight(heavy, w),
{
    if light.len() > 0 {
        assert(k.le.contains((mask_of(light), mask_of(heavy))));
        lemma_mask_weighs_as_list(light, w);
        lemma_mask_weighs_as_list(heavy, w);
    }
}

/// The two parts of a list that names no item twice and whose items fit a
/// mask do the same.
proof fn lemma_parts_of_plain_list(a: Seq<usize>, b: Seq<usize>, whole: Seq<usize>)
    requires
        same_members(a + b, whole),
        whole.no_duplicates(),
        items_fit(whole),
    ensures
        a.no_duplicates(),
        b.no_duplicates(),
        items_fit(a),
        items_fit(b),
{
    let joined = a + b;
    whole.lemma_multiset_has_no_duplicates();
    joined.lemma_multiset_has_no_duplicates_conv();
    crate::groups::lemma_same_members(joined, whole);
    assert forall|i: int, j: int| 0 <= i < a.len() && 0 <= j < a.len() && i != j implies a[i]
        != a[j] by {
        assert(joined[i] == a[i] && joined[j] == a[j]);
    }
    assert forall|i: int, j: int| 0 <= i < b.len() && 0 <= j < b.len() && i != j implies b[i]
        != b[j] by {
        assert(joined[a.len() + i] == b[i] && joined[a.len() + j] == b[j]);
    }
    assert forall|i: int| 0 <= i < a.len() implies a[i] < MAX_ITEMS by {
        assert(joined[i] == a[i]);
    }
    assert forall|i: int| 0 <= i < b.len() implies b[i] < MAX_ITEMS by {
        assert(joined[a.len() + i] == b[i]);
    }
}

/// An exchange that a truthful memory backs does not drive the two groups
/// further apart: measured by any weights of which the memory holds only
/// true findings, the weights of the two groups differ after the exchange by
/// no more than the heavier group outweighed the lighter one before.
pub proof fn lemma_backed_exchange_does_not_worsen(
    before: Seq<Vec<usize>>,
    after: Seq<Vec<usize>>,
    k: Knowledge,
    w: Seq<nat>,
    light: int,
    heavy: int,
    a_items: Seq<usize>,
    b_items: Seq<usize>,
)
    requires
        truthful(k, w),
        exchanged(before, after, light, heavy, a_items, b_items),
        justified(k, after, light, heavy, a_items, b_items),
        items_fit(before[light]@),
        items_fit(before[heavy]@),
        before[light]@.no_duplicates(),
        before[heavy]@.no_duplicates(),
    ensures
        list_weight(before[light]@, w) <= list_weight(before[heavy]@, w),
        list_weight(after[heavy]@, w) - list_weight(after[light]@, w) <= list_weight(
            before[heavy]@,
            w,
        ) - list_weight(before[light]@, w),
        list_weight(after[light]@, w) - list_weight(after[heavy]@, w) <= list_weight(
            before[heavy]@,
            w,
        ) - list_weight(before[light]@, w),
{
    let l_rest = light_rest(after, light, b_items);
    let h_rest = heavy_rest(after, heavy, a_items);
    lemma_parts_of_plain_list(l_rest, a_items, before[light]@);
    lemma_parts_of_plain_list(h_rest, b_items, before[heavy]@);
    lemma_same_members_weigh_same(l_rest + a_items, before[light]@, w);
    lemma_same_members_weigh_same(h_rest + b_items, before[heavy]@, w);
    lemma_list_weight_adds(l_rest, a_items, w);
    lemma_list_weight_adds(h_rest, b_items, w);
    lemma_list_weight_adds(l_rest, b_items, w);
    lemma_list_weight_adds(h_rest, a_items, w);
    lemma_known_is_true(k, w, a_items, b_items);
    lemma_known_is_true(k, w, l_rest, h_rest);
}

/// A rank that a truthful memory knows to be ordered is ordered by weight:
/// no group weighs more than a group at a later place.
pub proof fn lemma_ordered_is_sorted(
    k: Knowledge,
    w: Seq<nat>,
    groups: Seq<Vec<usize>>,
    rank: Seq<usize>,
    i: int,
    j: int,
)
    requires
        truthful(k, w),
        ordered(k, groups, rank),
        rank_fits(rank, groups.len()),
        groups_fit(groups),
        forall|g: int| 0 <= g < groups.len() ==> (#[trigger] groups[g]@).no_duplicates(),
        0 <= i <= j < rank.len(),
    ensures
        list_weight(groups[rank[i] as int]@, w) <= list_weight(groups[rank[j] as int]@, w),
    decreases j - i,
{
    if i < j {
        lemma_ordered_is_sorted(k, w, groups, rank, i, j - 1);
        let below = groups[rank[j - 1] as int]@;
        let above = groups[rank[j] as int]@;
        assert(known_at_most(k, below, above));
        assert(items_fit(groups[rank[j - 1] as int]@));
        assert(items_fit(groups[rank[j] as int]@));
        lemma_known_is_true(k, w, below, above);
    }
}

/// A group that a truthful memory knows to be placed between its neighbours
/// weighs no less than the group below it and no more than the group above
/// it, as far as those lie in the window.
pub proof fn lemma_placed_is_true(
    k: Knowledge,
    w: Seq<nat>,
    groups: Seq<Vec<usize>>,
    rank: Seq<usize>,
    p: int,
    low: int,
    high: int,
)
    requires
        truthful(k, w),
        placed(k, groups, rank, p, low, high),
        rank_fits(rank, groups.len()),
        groups_fit(groups),
        forall|g: int| 0 <= g < groups.len() ==> (#[trigger] groups[g]@).no_duplicates(),
        0 <= low <= p <= high < rank.len(),
    ensures
        p > low ==> list_weight(groups[rank[p - 1] as int]@, w) <= list_weight(
            groups[rank[p] as int]@,
            w,
        ),
        p < high ==> list_weight(groups[rank[p] as int]@, w) <= list_weight(
            groups[rank[p + 1] as int]@,
            w,
        ),
{
    assert(items_fit(groups[rank[p] as int]@));
    if p > low {
        assert(items_fit(groups[rank[p - 1] as int]@));
        lemma_known_is_true(k, w, groups[rank[p - 1] as int]@, groups[rank[p] as int]@);
    }
    if p < high {
        assert(items_fit(groups[rank[p + 1] as int]@));
        lemma_known_is_true(k, w, groups[rank[p] as int]@, groups[rank[p + 1] as int]@);
    }
}

} // verus!
