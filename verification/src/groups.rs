//! What holds of the groups of items and of their rank, whatever the search
//! does to them.

use crate::mask::{items_fit, MAX_ITEMS};
use vstd::multiset::Multiset;
use vstd::prelude::*;

verus! {

broadcast use {vstd::seq_lib::group_to_multiset_ensures, vstd::multiset::group_multiset_axioms};

/// Every item of every group is one that a mask can hold.
pub open spec fn groups_fit(groups: Seq<Vec<usize>>) -> bool {
    forall|g: int| 0 <= g < groups.len() ==> items_fit(#[trigger] groups[g]@)
}

/// The lists of the groups, one for each group.
pub open spec fn views(groups: Seq<Vec<usize>>) -> Seq<Seq<usize>> {
    Seq::new(groups.len(), |g: int| groups[g]@)
}

/// All items of all groups, each as often as it occurs.
pub open spec fn all_items(groups: Seq<Vec<usize>>) -> Multiset<usize>
    decreases groups.len(),
{
    if groups.len() == 0 {
        Multiset::empty()
    } else {
        all_items(groups.drop_last()).add(groups.last()@.to_multiset())
    }
}

/// The items from 0 up to `n`, each once.
pub open spec fn first_items(n: nat) -> Multiset<usize>
    decreases n,
{
    if n == 0 {
        Multiset::empty()
    } else {
        first_items((n - 1) as nat).insert((n - 1) as usize)
    }
}

/// The groups part the items from 0 up to `n`: each item lies in exactly
/// one group, once.
pub open spec fn is_partition(groups: Seq<Vec<usize>>, n: nat) -> bool {
    all_items(groups) == first_items(n)
}

/// The list names each of the groups from 0 up to `d` exactly once.
pub open spec fn is_rank(rank: Seq<usize>, d: nat) -> bool {
    &&& rank.len() == d
    &&& forall|i: int| 0 <= i < rank.len() ==> #[trigger] rank[i] < d
    &&& rank.no_duplicates()
}

/// Every member of the list names one of `d` groups.
pub open spec fn rank_fits(rank: Seq<usize>, d: nat) -> bool {
    forall|i: int| 0 <= i < rank.len() ==> #[trigger] rank[i] < d
}

/// The list with the member at `from` taken out and put in again so that it
/// stands at `to`.
pub open spec fn moved(s: Seq<usize>, from: int, to: int) -> Seq<usize> {
    s.remove(from).insert(to, s[from])
}

/// The two lists differ at most at the places from `low` to `high`.
pub open spec fn same_outside(before: Seq<usize>, after: Seq<usize>, low: int, high: int) -> bool {
    &&& after.len() == before.len()
    &&& forall|i: int|
        0 <= i < before.len() && (i < low || i > high) ==> #[trigger] after[i] == before[i]
}

/// Moving a member within a window leaves all places outside the window as
/// they were.
pub proof fn lemma_moved_stays_in_window(s: Seq<usize>, from: int, to: int, low: int, high: int)
    requires
        0 <= low <= from <= high < s.len(),
        low <= to <= high,
    ensures
        same_outside(s, moved(s, from, to), low, high),
{
}

/// Taking a member out and putting it back where it was changes nothing.
pub proof fn lemma_moved_same(s: Seq<usize>, at: int)
    requires
        0 <= at < s.len(),
    ensures
        moved(s, at, at) == s,
{
    assert(moved(s, at, at) =~= s);
}

/// Exchanging two neighbours moves the upper one a place down.
pub proof fn lemma_moved_down(s: Seq<usize>, from: int, pos: int)
    requires
        0 < pos <= from < s.len(),
    ensures
        moved(s, from, pos - 1) == moved(s, from, pos).update(pos - 1, s[from]).update(
            pos,
            s[pos - 1],
        ),
        moved(s, from, pos)[pos] == s[from],
        moved(s, from, pos)[pos - 1] == s[pos - 1],
{
    assert(moved(s, from, pos - 1) =~= moved(s, from, pos).update(pos - 1, s[from]).update(
        pos,
        s[pos - 1],
    ));
}

/// Exchanging two neighbours moves the lower one a place up.
pub proof fn lemma_moved_up(s: Seq<usize>, from: int, pos: int)
    requires
        0 <= from <= pos < s.len() - 1,
    ensures
        moved(s, from, pos + 1) == moved(s, from, pos).update(pos, s[pos + 1]).update(
            pos + 1,
            s[from],
        ),
        moved(s, from, pos)[pos] == s[from],
        moved(s, from, pos)[pos + 1] == s[pos + 1],
{
    assert(moved(s, from, pos + 1) =~= moved(s, from, pos).update(pos, s[pos + 1]).update(
        pos + 1,
        s[from],
    ));
}

/// Moving a member keeps the members: a rank stays a rank.
pub proof fn lemma_moved_keeps_rank(s: Seq<usize>, from: int, to: int, d: nat)
    requires
        0 <= from < s.len(),
        0 <= to < s.len(),
    ensures
        moved(s, from, to).len() == s.len(),
        moved(s, from, to).to_multiset() == s.to_multiset(),
        rank_fits(s, d) ==> rank_fits(moved(s, from, to), d),
        is_rank(s, d) ==> is_rank(moved(s, from, to), d),
{
    let t = s.remove(from);
    let m = moved(s, from, to);
    vstd::seq_lib::to_multiset_remove(s, from);
    vstd::seq_lib::to_multiset_insert(t, to, s[from]);
    assert(m.to_multiset() =~= s.to_multiset());
    assert forall|i: int| 0 <= i < m.len() implies exists|j: int| 0 <= j < s.len() && s[j] == #[trigger] m[i] by {
        if i == to {
            assert(s[from] == m[i]);
        } else {
            let a = if i < to { i } else { i - 1 };
            assert(t[a] == m[i]);
            let b = if a < from { a } else { a + 1 };
            assert(s[b] == t[a]);
        }
    }
    if rank_fits(s, d) {
        assert forall|i: int| 0 <= i < m.len() implies #[trigger] m[i] < d by {
            let j = choose|j: int| 0 <= j < s.len() && s[j] == m[i];
            assert(s[j] < d);
        }
    }
    if is_rank(s, d) {
        s.lemma_multiset_has_no_duplicates();
        m.lemma_multiset_has_no_duplicates_conv();
    }
}

/// The two lists hold the same items, each as often.
pub open spec fn same_members(a: Seq<usize>, b: Seq<usize>) -> bool {
    a.to_multiset() == b.to_multiset()
}

/// Every group holds the items it held before.
pub open spec fn untouched(before: Seq<Vec<usize>>, after: Seq<Vec<usize>>) -> bool {
    &&& after.len() == before.len()
    &&& forall|g: int| 0 <= g < before.len() ==> same_members(#[trigger] after[g]@, before[g]@)
}

/// The part of the light group that stayed: all but the items that came.
pub open spec fn light_rest(after: Seq<Vec<usize>>, light: int, b_items: Seq<usize>) -> Seq<usize> {
    after[light]@.take(after[light]@.len() - b_items.len())
}

/// The part of the heavy group that stayed: all but the items that came.
pub open spec fn heavy_rest(after: Seq<Vec<usize>>, heavy: int, a_items: Seq<usize>) -> Seq<usize> {
    after[heavy]@.take(after[heavy]@.len() - a_items.len())
}

/// The items `a_items` have gone from the group `light` to the end of the
/// group `heavy`, and the items `b_items` from the group `heavy` to the end
/// of the group `light`. What stayed in the two groups may stand in another
/// order; all other groups are as they were.
pub open spec fn exchanged(
    before: Seq<Vec<usize>>,
    after: Seq<Vec<usize>>,
    light: int,
    heavy: int,
    a_items: Seq<usize>,
    b_items: Seq<usize>,
) -> bool {
    &&& after.len() == before.len()
    &&& 0 <= light < before.len()
    &&& 0 <= heavy < before.len()
    &&& light != heavy
    &&& b_items.len() <= after[light]@.len()
    &&& a_items.len() <= after[heavy]@.len()
    &&& after[light]@ == light_rest(after, light, b_items) + b_items
    &&& after[heavy]@ == heavy_rest(after, heavy, a_items) + a_items
    &&& same_members(light_rest(after, light, b_items) + a_items, before[light]@)
    &&& same_members(heavy_rest(after, heavy, a_items) + b_items, before[heavy]@)
    &&& forall|g: int|
        0 <= g < before.len() && g != light && g != heavy ==> #[trigger] after[g] == before[g]
}

/// Taking the member at `i` out by putting the last member in its place
/// leaves the members that taking it out in place leaves.
pub proof fn lemma_swap_remove_members(s: Seq<usize>, i: int)
    requires
        0 <= i < s.len(),
    ensures
        same_members(s.update(i, s.last()).drop_last().push(s[i]), s),
        s.update(i, s.last()).drop_last().to_multiset() == s.to_multiset().remove(s[i]),
{
    let t = s.update(i, s.last()).drop_last();
    assert(s.contains(s[i]));
    assert(s.to_multiset().count(s[i]) > 0);
    if i == s.len() - 1 {
        assert(t =~= s.drop_last());
        assert(t.push(s[i]) =~= s);
    } else {
        let u = s.update(i, s.last());
        let w = u.update(s.len() - 1, s[i]);
        vstd::seq_lib::to_multiset_update(s, i, s.last());
        vstd::seq_lib::to_multiset_update(u, s.len() - 1, s[i]);
        assert(w =~= t.push(s[i]));
        assert(w.to_multiset() =~= s.to_multiset());
    }
    assert(t.push(s[i]).to_multiset() =~= t.to_multiset().insert(s[i]));
    assert(t.to_multiset() =~= s.to_multiset().remove(s[i]));
}

/// Lists with the same members have the same length, and the members of
/// one fit a mask if those of the other do.
pub proof fn lemma_same_members(a: Seq<usize>, b: Seq<usize>)
    requires
        same_members(a, b),
    ensures
        a.len() == b.len(),
        items_fit(a) == items_fit(b),
        forall|x: usize| a.contains(x) == b.contains(x),
{
    assert(a.to_multiset().len() == a.len());
    assert(b.to_multiset().len() == b.len());
    assert forall|x: usize| a.contains(x) == b.contains(x) by {
        assert(a.contains(x) <==> a.to_multiset().count(x) > 0);
        assert(b.contains(x) <==> b.to_multiset().count(x) > 0);
    }
    if items_fit(a) {
        assert forall|j: int| 0 <= j < b.len() implies b[j] < MAX_ITEMS by {
            assert(b.contains(b[j]));
            let w = choose|w: int| 0 <= w < a.len() && a[w] == b[j];
        }
    }
    if items_fit(b) {
        assert forall|j: int| 0 <= j < a.len() implies a[j] < MAX_ITEMS by {
            assert(a.contains(a[j]));
            let w = choose|w: int| 0 <= w < b.len() && b[w] == a[j];
        }
    }
}

/// The items of all groups are those of all groups but one, and those of
/// that one.
proof fn lemma_all_items_split(groups: Seq<Vec<usize>>, g: int)
    requires
        0 <= g < groups.len(),
    ensures
        all_items(groups) == all_items(groups.remove(g)).add(groups[g]@.to_multiset()),
    decreases groups.len(),
{
    if g == groups.len() - 1 {
        assert(groups.remove(g) =~= groups.drop_last());
    } else {
        lemma_all_items_split(groups.drop_last(), g);
        assert(groups.remove(g).drop_last() =~= groups.drop_last().remove(g));
        assert(groups.remove(g).last() == groups.last());
        assert(all_items(groups) =~= all_items(groups.remove(g)).add(groups[g]@.to_multiset()));
    }
}

/// Groups that differ only in the order of their members hold the same
/// items.
proof fn lemma_all_items_same(a: Seq<Vec<usize>>, b: Seq<Vec<usize>>)
    requires
        a.len() == b.len(),
        forall|g: int| 0 <= g < a.len() ==> same_members(#[trigger] a[g]@, b[g]@),
    ensures
        all_items(a) == all_items(b),
    decreases a.len(),
{
    if a.len() > 0 {
        assert forall|g: int| 0 <= g < a.drop_last().len() implies same_members(
            #[trigger] a.drop_last()[g]@,
            b.drop_last()[g]@,
        ) by {
            assert(same_members(a[g]@, b[g]@));
        }
        lemma_all_items_same(a.drop_last(), b.drop_last());
        assert(same_members(a[a.len() - 1]@, b[a.len() - 1]@));
    }
}

/// Groups whose members are the same hold the same items, and fit a mask
/// as before. No item is lost and none comes twice.
pub proof fn lemma_untouched_keeps_items(before: Seq<Vec<usize>>, after: Seq<Vec<usize>>)
    requires
        untouched(before, after),
    ensures
        all_items(after) == all_items(before),
        groups_fit(before) ==> groups_fit(after),
{
    lemma_all_items_same(after, before);
    if groups_fit(before) {
        assert forall|g: int| 0 <= g < after.len() implies items_fit(#[trigger] after[g]@) by {
            assert(same_members(after[g]@, before[g]@));
            lemma_same_members(after[g]@, before[g]@);
            assert(items_fit(before[g]@));
        }
    }
}

/// An exchange between two groups keeps the items of all groups together:
/// no item is lost and none comes twice.
pub proof fn lemma_exchanged_keeps_items(
    before: Seq<Vec<usize>>,
    after: Seq<Vec<usize>>,
    light: int,
    heavy: int,
    a_items: Seq<usize>,
    b_items: Seq<usize>,
)
    requires
        exchanged(before, after, light, heavy, a_items, b_items),
    ensures
        all_items(after) == all_items(before),
        groups_fit(before) ==> groups_fit(after),
{
    let l_rest = light_rest(after, light, b_items);
    let h_rest = heavy_rest(after, heavy, a_items);
    vstd::seq_lib::lemma_multiset_commutative(l_rest, b_items);
    vstd::seq_lib::lemma_multiset_commutative(h_rest, a_items);
    vstd::seq_lib::lemma_multiset_commutative(l_rest, a_items);
    vstd::seq_lib::lemma_multiset_commutative(h_rest, b_items);
    // take the two groups out, the higher place first
    let hi = if light < heavy { heavy } else { light };
    let lo = if light < heavy { light } else { heavy };
    lemma_all_items_split(before, hi);
    lemma_all_items_split(after, hi);
    lemma_all_items_split(before.remove(hi), lo);
    lemma_all_items_split(after.remove(hi), lo);
    let b2 = before.remove(hi).remove(lo);
    let a2 = after.remove(hi).remove(lo);
    assert(a2 =~= b2) by {
        assert forall|g: int| 0 <= g < b2.len() implies a2[g] == b2[g] by {
            let g1 = if g < lo { g } else { g + 1 };
            let g0 = if g1 < hi { g1 } else { g1 + 1 };
            assert(b2[g] == before[g0]);
            assert(a2[g] == after[g0]);
        }
    }
    assert(all_items(after) =~= all_items(before));
    if groups_fit(before) {
        assert forall|g: int| 0 <= g < after.len() implies items_fit(#[trigger] after[g]@) by {
            if g == light || g == heavy {
                assert(items_fit(before[light]@));
                assert(items_fit(before[heavy]@));
                lemma_same_members(l_rest + a_items, before[light]@);
                lemma_same_members(h_rest + b_items, before[heavy]@);
                assert forall|j: int| 0 <= j < after[g]@.len() implies after[g]@[j]
                    < MAX_ITEMS by {
                    if g == light {
                        if j < l_rest.len() {
                            assert((l_rest + a_items)[j] == after[g]@[j]);
                        } else {
                            assert((h_rest + b_items)[h_rest.len() + (j - l_rest.len())]
                                == after[g]@[j]);
                        }
                    } else {
                        if j < h_rest.len() {
                            assert((h_rest + b_items)[j] == after[g]@[j]);
                        } else {
                            assert((l_rest + a_items)[l_rest.len() + (j - h_rest.len())]
                                == after[g]@[j]);
                        }
                    }
                }
            } else {
                assert(after[g] == before[g]);
                assert(items_fit(before[g]@));
            }
        }
    }
}

/// Of the items from 0 up to `n` each is there once, and no other item.
pub proof fn lemma_first_items_count(n: nat, x: usize)
    requires
        n <= usize::MAX,
    ensures
        first_items(n).count(x) == if x < n { 1nat } else { 0nat },
    decreases n,
{
    if n > 0 {
        lemma_first_items_count((n - 1) as nat, x);
    }
}

/// Every item of a group is among the items of all groups.
pub proof fn lemma_group_items_counted(groups: Seq<Vec<usize>>, g: int, x: usize)
    requires
        0 <= g < groups.len(),
    ensures
        all_items(groups).count(x) >= groups[g]@.to_multiset().count(x),
    decreases groups.len(),
{
    if g < groups.len() - 1 {
        lemma_group_items_counted(groups.drop_last(), g, x);
    }
}

/// An item is among the items of all groups at least as often as two of the
/// groups hold it together.
pub proof fn lemma_two_groups_counted(groups: Seq<Vec<usize>>, g: int, h: int, x: usize)
    requires
        0 <= g < h < groups.len(),
    ensures
        all_items(groups).count(x) >= groups[g]@.to_multiset().count(x)
            + groups[h]@.to_multiset().count(x),
    decreases groups.len(),
{
    if h < groups.len() - 1 {
        lemma_two_groups_counted(groups.drop_last(), g, h, x);
    } else {
        lemma_group_items_counted(groups.drop_last(), g, x);
    }
}

/// In groups that part the items from 0 up to `n`, every item of a group is
/// below `n`, no group holds an item twice, and no two groups hold the same
/// item.
pub proof fn lemma_partition_facts(groups: Seq<Vec<usize>>, n: nat)
    requires
        is_partition(groups, n),
        n <= usize::MAX,
    ensures
        forall|g: int, j: int|
            0 <= g < groups.len() && 0 <= j < groups[g]@.len() ==> (#[trigger] groups[g]@[j]) < n,
        forall|g: int| 0 <= g < groups.len() ==> (#[trigger] groups[g]@).no_duplicates(),
        forall|g: int, h: int, x: usize|
            0 <= g < h < groups.len() && (#[trigger] groups[g]@.contains(x)) ==> !(
            #[trigger] groups[h]@.contains(x)),
{
    assert forall|g: int, j: int|
        0 <= g < groups.len() && 0 <= j < groups[g]@.len() implies (#[trigger] groups[g]@[j])
        < n by {
        let x = groups[g]@[j];
        assert(groups[g]@.contains(x));
        lemma_group_items_counted(groups, g, x);
        lemma_first_items_count(n, x);
    }
    assert forall|g: int| 0 <= g < groups.len() implies (#[trigger] groups[g]@).no_duplicates() by {
        assert forall|x: usize| groups[g]@.to_multiset().contains(x) implies groups[g]@.to_multiset().count(
            x,
        ) == 1 by {
            lemma_group_items_counted(groups, g, x);
            lemma_first_items_count(n, x);
        }
        groups[g]@.lemma_multiset_has_no_duplicates_conv();
    }
    assert forall|g: int, h: int, x: usize|
        0 <= g < h < groups.len() && (#[trigger] groups[g]@.contains(x)) implies !(
        #[trigger] groups[h]@.contains(x)) by {
        lemma_two_groups_counted(groups, g, h, x);
        lemma_first_items_count(n, x);
    }
}

/// A new item at the end of one group is one more item of all groups.
pub proof fn lemma_push_adds_item(before: Seq<Vec<usize>>, after: Seq<Vec<usize>>, g: int, x: usize)
    requires
        after.len() == before.len(),
        0 <= g < before.len(),
        after[g]@ == before[g]@.push(x),
        forall|o: int| 0 <= o < before.len() && o != g ==> #[trigger] after[o] == before[o],
    ensures
        all_items(after) == all_items(before).insert(x),
{
    lemma_all_items_split(before, g);
    lemma_all_items_split(after, g);
    assert(after.remove(g) =~= before.remove(g));
    assert(all_items(after) =~= all_items(before).insert(x));
}

/// The first place at which the list holds `x`, and the length of the list
/// if it does not hold `x`.
pub open spec fn first_place(list: Seq<usize>, x: usize) -> int
    decreases list.len(),
{
    if list.len() == 0 {
        0
    } else if list.first() == x {
        0
    } else {
        1 + first_place(list.drop_first(), x)
    }
}

/// The list after each of the items, in their order, is taken out where it
/// first stands. What stays keeps its order.
pub open spec fn without(list: Seq<usize>, items: Seq<usize>) -> Seq<usize>
    decreases items.len(),
{
    if items.len() == 0 {
        list
    } else {
        let shorter = without(list, items.drop_last());
        shorter.remove(first_place(shorter, items.last()))
    }
}

/// A place that holds `x` and has no `x` before it is the first place of
/// `x`.
pub proof fn lemma_first_place(list: Seq<usize>, x: usize, at: int)
    requires
        0 <= at < list.len(),
        list[at] == x,
        forall|j: int| 0 <= j < at ==> list[j] != x,
    ensures
        first_place(list, x) == at,
    decreases list.len(),
{
    if at > 0 {
        let rest = list.drop_first();
        assert(rest[at - 1] == x);
        assert forall|j: int| 0 <= j < at - 1 implies rest[j] != x by {
            assert(rest[j] == list[j + 1]);
        }
        lemma_first_place(rest, x, at - 1);
    }
}

} // verus!
