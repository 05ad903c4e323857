//! The memory of comparisons: what is known of the order of item sets, what
//! follows from it, and when the oracle has to be asked.

use crate::def::BalanceResult;
use crate::graph::{
    connected, has_key, hops, is_reachable, lemma_closed_holds_connected, lemma_edge_reachable,
    lemma_key_has_edge, lemma_reachable_monotone, reach_limit, reachable, relation, step,
    well_formed,
};
use crate::interactor::{continues, Asked, Interactor, Oracle};
use crate::mask::{
    is_single, item_mask, items_fit, lemma_item_mask_single, lemma_mask_contains, lemma_mask_push,
    lemma_masks_differ, lemma_single_is_item, low_zeros, mask_of, popcount, MAX_ITEMS,
};
use std::collections::BTreeMap;
use std::collections::HashSet;
use vstd::prelude::*;
use vstd::std_specs::iter::IteratorSpec;

verus! {

broadcast use {
    vstd::std_specs::hash::group_hash_axioms,
    vstd::std_specs::btree::group_btree_axioms,
    vstd::laws_cmp::group_laws_cmp,
};

/// What a balancer knows, as two relations between masks.
#[verifier::ext_equal]
pub struct Knowledge {
    /// `(a, b)`: the set `a` is known to weigh at most as much as `b`.
    pub le: Set<(u128, u128)>,
    /// `(a, b)`: the set `a` is known to weigh more than `b`, or, where the
    /// pair is the mirror image of an "at most" finding, at least as much.
    pub gt: Set<(u128, u128)>,
}

/// The memory of all comparisons seen or derived so far.
pub struct Balancer {
    /// For each mask the masks known to weigh at least as much.
    pub left_edges: BTreeMap<u128, Vec<u128>>,
    /// For each mask the masks known to weigh less, or at most as much.
    pub right_edges: BTreeMap<u128, Vec<u128>>,
}

impl View for Balancer {
    type V = Knowledge;

    open spec fn view(&self) -> Knowledge {
        Knowledge { le: relation(self.left_edges@), gt: relation(self.right_edges@) }
    }
}

/// What the memory alone says of two masks: the first is lighter if the
/// "at most" relation leads from it to the second within reach, heavier if
/// the "more" relation does, and unknown otherwise.
pub open spec fn inferred(k: Knowledge, left_hash: u128, right_hash: u128) -> BalanceResult {
    if reachable(k.le, left_hash, right_hash) {
        BalanceResult::Left
    } else if reachable(k.gt, left_hash, right_hash) {
        BalanceResult::Right
    } else {
        BalanceResult::Unknown
    }
}

/// The memory after a finding on two masks is written down. A finding of
/// equal weight is kept as "at most".
pub open spec fn recorded(k: Knowledge, left_hash: u128, right_hash: u128, res: BalanceResult) -> Knowledge {
    match res {
        BalanceResult::Left | BalanceResult::Equal => Knowledge {
            le: k.le.insert((left_hash, right_hash)),
            gt: k.gt.insert((right_hash, left_hash)),
        },
        BalanceResult::Right => Knowledge {
            le: k.le.insert((right_hash, left_hash)),
            gt: k.gt.insert((left_hash, right_hash)),
        },
        BalanceResult::Unknown => k,
    }
}

/// What two lists say without any weighing: a list without items is lighter
/// than one with items and equal to another without; two lists with items
/// say nothing.
pub open spec fn empty_comparison(left_v: Seq<usize>, right_v: Seq<usize>) -> BalanceResult {
    if left_v.len() == 0 && right_v.len() > 0 {
        BalanceResult::Left
    } else if left_v.len() > 0 && right_v.len() == 0 {
        BalanceResult::Right
    } else if left_v.len() == 0 && right_v.len() == 0 {
        BalanceResult::Equal
    } else {
        BalanceResult::Unknown
    }
}

/// What follows for a new mask `v` from a mask `u` that the memory holds.
/// If one is part of the other, the part weighs at most as much as the
/// whole. If each has exactly one item that the other lacks, the two sets
/// stand as those two items stand in memory. The pair names the lighter mask
/// first.
pub open spec fn rule(k: Knowledge, v: u128, u: u128) -> Option<(u128, u128)> {
    if v & u == u {
        Some((u, v))
    } else if v & u == v {
        Some((v, u))
    } else if popcount(v ^ u) == 2 {
        let common = v & u;
        match inferred(k, v ^ common, u ^ common) {
            BalanceResult::Left | BalanceResult::Equal => Some((v, u)),
            BalanceResult::Right => Some((u, v)),
            BalanceResult::Unknown => None,
        }
    } else {
        None
    }
}

/// The relation has edges that leave `u` and none that leave `v`.
pub open spec fn fresh_to(rel: Set<(u128, u128)>, v: u128, u: u128) -> bool {
    !has_key(rel, v) && has_key(rel, u)
}

/// The pair follows for `v` from some mask of the relation `rel`, to which
/// `v` is new.
pub open spec fn derives_in(k: Knowledge, rel: Set<(u128, u128)>, v: u128, p: (u128, u128)) -> bool {
    exists|u: u128| fresh_to(rel, v, u) && #[trigger] rule(k, v, u) == Some(p)
}

/// All pairs, lighter mask first, that follow for the mask `v` from the
/// memory `k`.
pub open spec fn derived(k: Knowledge, v: u128) -> Set<(u128, u128)> {
    Set::new(|p: (u128, u128)| derives_in(k, k.le, v, p) || derives_in(k, k.gt, v, p))
}

/// The pairs of a relation, each turned round.
pub open spec fn flipped(rel: Set<(u128, u128)>) -> Set<(u128, u128)> {
    Set::new(|p: (u128, u128)| rel.contains((p.1, p.0)))
}

/// Every finding stands in both relations: what one holds, the other holds
/// turned round.
pub open spec fn mirrored(k: Knowledge) -> bool {
    forall|a: u128, b: u128|
        #![trigger k.le.contains((a, b))]
        #![trigger k.gt.contains((b, a))]
        k.le.contains((a, b)) <==> k.gt.contains((b, a))
}

/// The memory after all that follows for the mask `v` is written down.
pub open spec fn augmented(k: Knowledge, v: u128) -> Knowledge {
    Knowledge { le: k.le.union(derived(k, v)), gt: k.gt.union(flipped(derived(k, v))) }
}

/// The memory once it holds all that follows for the two masks of a
/// comparison, for the left one first.
pub open spec fn prepared(k: Knowledge, left_hash: u128, right_hash: u128) -> Knowledge {
    augmented(augmented(k, left_hash), right_hash)
}

/// What a comparison of two masks finds without the oracle: the answer of
/// the prepared memory.
pub open spec fn settled(k: Knowledge, left_hash: u128, right_hash: u128) -> BalanceResult {
    inferred(prepared(k, left_hash, right_hash), left_hash, right_hash)
}

/// What a comparison finds and what it leaves behind: the finding, the
/// memory, and the count of the comparisons sent.
#[verifier::ext_equal]
pub struct Finding {
    pub res: BalanceResult,
    pub k: Knowledge,
    pub count: nat,
}

/// The comparison of two lists, as it follows from the memory `k`, from the
/// `count` of comparisons sent so far out of `max`, and from the record of
/// the oracle's answers. A list without items settles it and changes
/// nothing. Else the memory is prepared; if it then knows the answer, the
/// answer is written down and nothing is sent. Else, if the budget is used
/// up, nothing is found. Else the comparison is sent: the answer is the one
/// that the record holds at place `count`, and it is written down.
pub open spec fn ask(
    k: Knowledge,
    left_v: Seq<usize>,
    right_v: Seq<usize>,
    count: nat,
    max: nat,
    answers: Seq<Asked>,
) -> Finding {
    let quick = empty_comparison(left_v, right_v);
    let l = mask_of(left_v);
    let r = mask_of(right_v);
    let ready = prepared(k, l, r);
    let known = inferred(ready, l, r);
    if quick != BalanceResult::Unknown {
        Finding { res: quick, k, count }
    } else if known != BalanceResult::Unknown {
        Finding { res: known, k: recorded(ready, l, r, known), count }
    } else if count >= max {
        Finding { res: BalanceResult::Unknown, k: ready, count }
    } else {
        let answer = answers[count as int].answer;
        Finding { res: answer, k: recorded(ready, l, r, answer), count: count + 1 }
    }
}

/// Every edge of `before` is an edge of `after`.
pub open spec fn grown_from(after: Knowledge, before: Knowledge) -> bool {
    before.le.subset_of(after.le) && before.gt.subset_of(after.gt)
}

/// The memory backs that the first list weighs at most as much as the
/// second: the first has no items, or both have items and the memory holds
/// the "at most" edge between their masks and the "more" edge back.
pub open spec fn known_at_most(k: Knowledge, light: Seq<usize>, heavy: Seq<usize>) -> bool {
    if light.len() == 0 {
        true
    } else if heavy.len() == 0 {
        false
    } else {
        k.le.contains((mask_of(light), mask_of(heavy))) && k.gt.contains(
            (mask_of(heavy), mask_of(light)),
        )
    }
}

/// The memory backs a finding on two lists: each finding but `Unknown`
/// says which list weighs at most as much as the other, and `Equal` on lists
/// of which one has no items says that neither has.
pub open spec fn backed(k: Knowledge, left_v: Seq<usize>, right_v: Seq<usize>, res: BalanceResult) -> bool {
    match res {
        BalanceResult::Left => known_at_most(k, left_v, right_v),
        BalanceResult::Equal => known_at_most(k, left_v, right_v) && (left_v.len() == 0
            ==> right_v.len() == 0),
        BalanceResult::Right => known_at_most(k, right_v, left_v) && left_v.len() > 0,
        BalanceResult::Unknown => true,
    }
}

/// What a memory backs, every memory grown from it backs too.
pub proof fn lemma_known_stays(before: Knowledge, after: Knowledge, light: Seq<usize>, heavy: Seq<usize>)
    requires
        grown_from(after, before),
        known_at_most(before, light, heavy),
    ensures
        known_at_most(after, light, heavy),
{
}

/// The item `c` of the group with mask `group_hash` is another item than `v`
/// and known to be lighter: the "more" relation leads from `v` to `c`.
pub open spec fn lighter_candidate(gt: Set<(u128, u128)>, group_hash: u128, v: usize, c: usize) -> bool {
    &&& c < MAX_ITEMS
    &&& c != v
    &&& item_mask(c) & group_hash != 0
    &&& connected(gt, item_mask(v), item_mask(c))
}

/// The state of the walk for a lighter item.
#[verifier::ext_equal]
pub struct Walk {
    /// The masks still to be followed, each with its depth. The last one is
    /// followed next.
    pub stack: Seq<(u128, usize)>,
    /// The masks found so far.
    pub seen: Set<u128>,
    /// The best mask so far, and the depth at which it was found.
    pub best: u128,
    pub best_depth: usize,
}

/// The walk before its first step: only the start is found, and it is the
/// best so far.
pub open spec fn walk_start(root: u128) -> Walk {
    Walk { stack: seq![(root, 0usize)], seen: set![root], best: root, best_depth: 0 }
}

/// The walk after it has looked at the mask `u` behind a mask of depth
/// `depth`. A mask found before changes nothing. A new mask is to be
/// followed later, one deeper than the mask it lies behind; if it is a
/// single item of the group and lies deeper than the best so far, it is the
/// best from now on.
pub open spec fn visit(w: Walk, group_hash: u128, depth: usize, u: u128) -> Walk {
    if w.seen.contains(u) {
        w
    } else {
        let better = is_single(u) && u & group_hash != 0 && depth + 1 > w.best_depth;
        Walk {
            stack: w.stack.push((u, (depth + 1) as usize)),
            seen: w.seen.insert(u),
            best: if better {
                u
            } else {
                w.best
            },
            best_depth: if better {
                (depth + 1) as usize
            } else {
                w.best_depth
            },
        }
    }
}

/// The walk after it has looked at all masks of a list, in their order.
pub open spec fn visit_all(w: Walk, group_hash: u128, depth: usize, list: Seq<u128>) -> Walk
    decreases list.len(),
{
    if list.len() == 0 {
        w
    } else {
        visit(visit_all(w, group_hash, depth, list.drop_last()), group_hash, depth, list.last())
    }
}

/// The walk after one step: the last mask to be followed is taken, and all
/// masks of its list are looked at.
pub open spec fn walk_step(edges: Map<u128, Vec<u128>>, group_hash: u128, w: Walk) -> Walk {
    let top = w.stack.last();
    let rest = Walk { stack: w.stack.drop_last(), ..w };
    if edges.contains_key(top.0) {
        visit_all(rest, group_hash, top.1, edges[top.0]@)
    } else {
        rest
    }
}

/// The walk after `n` steps, or at its end if that comes earlier.
pub open spec fn walk_on(edges: Map<u128, Vec<u128>>, group_hash: u128, w: Walk, n: nat) -> Walk
    decreases n,
{
    if n == 0 || w.stack.len() == 0 {
        w
    } else {
        walk_on(edges, group_hash, walk_step(edges, group_hash, w), (n - 1) as nat)
    }
}

/// The walk from `root` through the table comes to its end with `best` as
/// the best mask.
pub open spec fn walk_ends_with(
    edges: Map<u128, Vec<u128>>,
    group_hash: u128,
    root: u128,
    best: u128,
) -> bool {
    exists|n: nat|
        (#[trigger] walk_on(edges, group_hash, walk_start(root), n)).stack.len() == 0 && walk_on(
            edges,
            group_hash,
            walk_start(root),
            n,
        ).best == best
}

/// A walk that is not at its end after `n` steps is after one more step
/// where a step from there leads.
proof fn lemma_walk_one_more(edges: Map<u128, Vec<u128>>, group_hash: u128, w: Walk, n: nat)
    requires
        walk_on(edges, group_hash, w, n).stack.len() > 0,
    ensures
        walk_on(edges, group_hash, w, n + 1) == walk_step(
            edges,
            group_hash,
            walk_on(edges, group_hash, w, n),
        ),
    decreases n,
{
    if n > 0 {
        lemma_walk_one_more(edges, group_hash, walk_step(edges, group_hash, w), (n - 1) as nat);
    } else {
        assert(walk_on(edges, group_hash, walk_step(edges, group_hash, w), 0) == walk_step(
            edges,
            group_hash,
            w,
        ));
    }
}

/// A walk that has come to its end stays where it is.
proof fn lemma_walk_rests(edges: Map<u128, Vec<u128>>, group_hash: u128, w: Walk, n: nat, m: nat)
    requires
        walk_on(edges, group_hash, w, n).stack.len() == 0,
        n <= m,
    ensures
        walk_on(edges, group_hash, w, m) == walk_on(edges, group_hash, w, n),
    decreases n,
{
    if w.stack.len() > 0 && n > 0 {
        lemma_walk_rests(
            edges,
            group_hash,
            walk_step(edges, group_hash, w),
            (n - 1) as nat,
            (m - 1) as nat,
        );
    }
}

/// The walk for a lighter item ends with one mask only.
pub proof fn lemma_walk_end_is_one(
    edges: Map<u128, Vec<u128>>,
    group_hash: u128,
    root: u128,
    best: u128,
    other: u128,
)
    requires
        walk_ends_with(edges, group_hash, root, best),
        walk_ends_with(edges, group_hash, root, other),
    ensures
        best == other,
{
    let start = walk_start(root);
    let n = choose|n: nat|
        (#[trigger] walk_on(edges, group_hash, start, n)).stack.len() == 0 && walk_on(
            edges,
            group_hash,
            start,
            n,
        ).best == best;
    let m = choose|m: nat|
        (#[trigger] walk_on(edges, group_hash, start, m)).stack.len() == 0 && walk_on(
            edges,
            group_hash,
            start,
            m,
        ).best == other;
    if n <= m {
        lemma_walk_rests(edges, group_hash, start, n, m);
    } else {
        lemma_walk_rests(edges, group_hash, start, m, n);
    }
}

/// The mask `x` lies on the stack.
spec fn stacked(stack: Seq<(u128, usize)>, x: u128) -> bool {
    exists|i: int| 0 <= i < stack.len() && (#[trigger] stack[i]).0 == x
}

/// A found mask is the start, no item of the group, or has been seen to be a
/// candidate.
spec fn accounted(gt: Set<(u128, u128)>, root: u128, group_hash: u128, best_depth: usize, x: u128) -> bool {
    x == root || !(is_single(x) && x & group_hash != 0) || best_depth >= 1
}

/// What the walk through the "more" relation knows of the masks it has
/// found, of its stack and of the masks it is done with.
spec fn walk_inv(
    gt: Set<(u128, u128)>,
    root: u128,
    group_hash: u128,
    found: Set<u128>,
    stack: Seq<(u128, usize)>,
    done: Set<u128>,
    hand: Option<u128>,
    best: u128,
    best_depth: usize,
) -> bool {
    &&& found.contains(root)
    &&& found.finite()
    &&& found.len() <= usize::MAX
    &&& forall|x: u128| #[trigger] found.contains(x) ==> connected(gt, root, x)
    &&& forall|x: u128| #[trigger]
        found.contains(x) ==> accounted(gt, root, group_hash, best_depth, x)
    &&& forall|x: u128| #[trigger]
        found.contains(x) ==> done.contains(x) || stacked(stack, x) || hand == Some(x)
    &&& forall|i: int|
        0 <= i < stack.len() ==> found.contains((#[trigger] stack[i]).0) && stack[i].1
            < found.len() && (stack[i].1 == 0 ==> stack[i].0 == root)
    &&& forall|x: u128, u: u128| done.contains(x) && #[trigger] step(gt, x, u) ==> found.contains(u)
    &&& forall|x: u128| #[trigger] done.contains(x) ==> found.contains(x)
    &&& (done.contains(root) || hand == Some(root) || stack =~= seq![(root, 0usize)])
    &&& (best_depth == 0 ==> best == root)
    &&& (best_depth >= 1 ==> {
        &&& is_single(best)
        &&& best & group_hash != 0
        &&& best != root
        &&& connected(gt, root, best)
    })
}

/// The pair follows for `v` from one of the first `n` masks of the list.
spec fn produced(k: Knowledge, v: u128, keys: Seq<u128>, n: int, p: (u128, u128)) -> bool {
    exists|j: int| 0 <= j < n && #[trigger] rule(k, v, keys[j]) == Some(p)
}

/// The pair stands among the first `n` members of the list.
spec fn listed(list: Seq<(u128, u128)>, n: int, p: (u128, u128)) -> bool {
    exists|j: int| 0 <= j < n && #[trigger] list[j] == p
}

/// The keys of a table, in the order in which the table hands them out.
fn table_keys(edges: &BTreeMap<u128, Vec<u128>>) -> (keys: Vec<u128>)
    ensures
        forall|k: u128| edges@.contains_key(k) <==> keys@.contains(k),
{
    let mut keys: Vec<u128> = Vec::new();
    let ghost order: Seq<u128> = edges.keys().remaining().unref();
    let ghost mut count: int = 0;
    for k in it: edges.keys()
        invariant
            it.seq().unref() == order,
            order.to_set() == edges@.dom(),
            count == it.index(),
            0 <= count <= order.len(),
            forall|j: int| 0 <= j < count ==> keys@.contains(#[trigger] order[j]),
            forall|x: u128| keys@.contains(x) ==> edges@.contains_key(x),
    {
        let ghost prev = keys@;
        proof {
            assert(order[count] == *k);
            assert(order.to_set().contains(*k));
        }
        keys.push(*k);
        proof {
            assert(keys@[prev.len() as int] == *k);
            assert forall|j: int| 0 <= j < count + 1 implies keys@.contains(#[trigger] order[j]) by {
                if j < count {
                    assert(prev.contains(order[j]));
                    let w = choose|w: int| 0 <= w < prev.len() && prev[w] == order[j];
                    assert(keys@[w] == order[j]);
                }
            }
            assert forall|x: u128| keys@.contains(x) implies edges@.contains_key(x) by {
                let w = choose|w: int| 0 <= w < keys@.len() && keys@[w] == x;
                if w < prev.len() {
                    assert(prev.contains(x));
                }
            }
            count = count + 1;
        }
    }
    proof {
        assert forall|k: u128| edges@.contains_key(k) implies keys@.contains(k) by {
            assert(order.to_set().contains(k));
            let j = choose|j: int| 0 <= j < order.len() && order[j] == k;
            assert(keys@.contains(order[j]));
        }
    }
    keys
}

/// Tells whether the list holds `x`.
fn list_holds(list: &Vec<u128>, x: u128) -> (found: bool)
    ensures
        found == list@.contains(x),
{
    let mut i: usize = 0;
    while i < list.len()
        invariant
            i <= list.len(),
            forall|j: int| 0 <= j < i ==> list@[j] != x,
        decreases list.len() - i,
    {
        if list[i] == x {
            return true;
        }
        i += 1;
    }
    false
}

/// Adds the edge from `first_hash` to `second_hash` to a table, unless the
/// table has it. A new edge goes to the end of the list of `first_hash`; all
/// other lists stay as they are.
pub fn add_edge(edges: &mut BTreeMap<u128, Vec<u128>>, first_hash: u128, second_hash: u128)
    requires
        well_formed(old(edges)@),
    ensures
        well_formed(final(edges)@),
        relation(final(edges)@) == relation(old(edges)@).insert((first_hash, second_hash)),
        final(edges)@.dom() == old(edges)@.dom().insert(first_hash),
        forall|k: u128| k != first_hash && old(edges)@.contains_key(k) ==> final(edges)@[k] == old(
            edges,
        )@[k],
        final(edges)@[first_hash]@ == if !old(edges)@.contains_key(first_hash) {
            seq![second_hash]
        } else if old(edges)@[first_hash]@.contains(second_hash) {
            old(edges)@[first_hash]@
        } else {
            old(edges)@[first_hash]@.push(second_hash)
        },
{
    let ghost before = edges@;
    match edges.remove(&first_hash) {
        Some(current) => {
            let mut current = current;
            let ghost prior = current@;
            assert(before.contains_key(first_hash) && before[first_hash] == current);
            if !list_holds(&current, second_hash) {
                current.push(second_hash);
                assert(current@.no_duplicates());
            }
            let ghost list = current@;
            edges.insert(first_hash, current);
            proof {
                assert(edges@.dom() =~= before.dom().insert(first_hash));
                assert forall|p: (u128, u128)|
                    relation(edges@).contains(p) <==> relation(before).insert(
                        (first_hash, second_hash),
                    ).contains(p) by {
                    if p.0 == first_hash {
                        if prior.contains(p.1) {
                            let j = choose|j: int| 0 <= j < prior.len() && prior[j] == p.1;
                            assert(list[j] == p.1);
                        }
                        if list.contains(p.1) && p.1 != second_hash {
                            let j = choose|j: int| 0 <= j < list.len() && list[j] == p.1;
                            assert(prior[j] == p.1);
                        }
                        if p.1 == second_hash && !prior.contains(second_hash) {
                            assert(list[prior.len() as int] == second_hash);
                        }
                    }
                }
                assert(relation(edges@) =~= relation(before).insert((first_hash, second_hash)));
            }
        },
        None => {
            let mut fresh: Vec<u128> = Vec::new();
            fresh.push(second_hash);
            assert(fresh@ =~= seq![second_hash]);
            edges.insert(first_hash, fresh);
            proof {
                assert(!before.contains_key(first_hash));
                assert(edges@.dom() =~= before.dom().insert(first_hash));
                assert forall|p: (u128, u128)|
                    relation(edges@).contains(p) <==> relation(before).insert(
                        (first_hash, second_hash),
                    ).contains(p) by {
                    if p.0 == first_hash {
                        if p.1 == second_hash {
                            assert(edges@[first_hash]@[0] == second_hash);
                        }
                    }
                }
                assert(relation(edges@) =~= relation(before).insert((first_hash, second_hash)));
            }
        },
    }
}

impl Balancer {
    /// Both tables are well formed, and each holds the findings of the
    /// other, turned round.
    pub open spec fn wf(&self) -> bool {
        &&& well_formed(self.left_edges@)
        &&& well_formed(self.right_edges@)
        &&& mirrored(self@)
    }

    /// A balancer that knows nothing.
    pub fn new() -> (b: Balancer)
        ensures
            b.wf(),
            b@.le == Set::<(u128, u128)>::empty(),
            b@.gt == Set::<(u128, u128)>::empty(),
            b.left_edges@ == Map::<u128, Vec<u128>>::empty(),
            b.right_edges@ == Map::<u128, Vec<u128>>::empty(),
    {
        let b = Balancer { left_edges: BTreeMap::new(), right_edges: BTreeMap::new() };
        assert(b@.le =~= Set::<(u128, u128)>::empty());
        assert(b@.gt =~= Set::<(u128, u128)>::empty());
        b
    }

    /// The mask of the single item `v`.
    pub fn hash(&self, v: usize) -> (h: u128)
        requires
            v < MAX_ITEMS,
        ensures
            h == item_mask(v),
    {
        1u128 << v
    }

    /// The mask of a list of items.
    pub fn to_hash(&self, v: &Vec<usize>) -> (h: u128)
        requires
            items_fit(v@),
        ensures
            h == mask_of(v@),
    {
        let mut hash: u128 = 0;
        let mut i: usize = 0;
        while i < v.len()
            invariant
                i <= v.len(),
                items_fit(v@),
                hash == mask_of(v@.take(i as int)),
            decreases v.len() - i,
        {
            hash = hash | self.hash(v[i]);
            proof {
                lemma_mask_push(v@.take(i as int), v@[i as int]);
                assert(v@.take(i as int).push(v@[i as int]) =~= v@.take(i + 1));
            }
            i += 1;
        }
        assert(v@.take(i as int) =~= v@);
        hash
    }

    /// Settles a comparison in which a list has no items.
    pub fn check_empty_comparison(&self, left_v: &Vec<usize>, right_v: &Vec<usize>) -> (res:
        BalanceResult)
        ensures
            res == empty_comparison(left_v@, right_v@),
    {
        if left_v.len() == 0 && right_v.len() > 0 {
            return BalanceResult::Left;
        } else if left_v.len() > 0 && right_v.len() == 0 {
            return BalanceResult::Right;
        } else if left_v.len() == 0 && right_v.len() == 0 {
            return BalanceResult::Equal;
        }
        BalanceResult::Unknown
    }

    /// Answers from memory alone: follows the "at most" edges from the left
    /// mask, then the "more" edges, each within reach.
    pub fn search_result(&self, left_hash: u128, right_hash: u128) -> (res: BalanceResult)
        ensures
            res == inferred(self@, left_hash, right_hash),
    {
        if is_reachable(&self.left_edges, left_hash, right_hash) {
            return BalanceResult::Left;
        } else if is_reachable(&self.right_edges, left_hash, right_hash) {
            return BalanceResult::Right;
        }
        BalanceResult::Unknown
    }

    /// Collects what follows for the mask `v_hash` from the keys of one
    /// table, unless `v_hash` is a key of it.
    fn derive_from(
        &self,
        edges: &BTreeMap<u128, Vec<u128>>,
        v_hash: u128,
        additional: &mut Vec<(u128, u128)>,
    )
        requires
            well_formed(edges@),
        ensures
            forall|p: (u128, u128)| #[trigger]
                final(additional)@.contains(p) <==> old(additional)@.contains(p) || derives_in(
                    self@,
                    relation(edges@),
                    v_hash,
                    p,
                ),
    {
        let ghost rel = relation(edges@);
        let ghost start = additional@;
        proof {
            lemma_key_has_edge(edges@, v_hash);
        }
        if edges.contains_key(&v_hash) {
            return ;
        }
        let keys = table_keys(edges);
        let mut i: usize = 0;
        while i < keys.len()
            invariant
                i <= keys.len(),
                forall|p: (u128, u128)| #[trigger]
                    additional@.contains(p) <==> start.contains(p) || produced(
                        self@,
                        v_hash,
                        keys@,
                        i as int,
                        p,
                    ),
            decreases keys.len() - i,
        {
            let u_hash: u128 = keys[i];
            let ghost before = additional@;
            let ghost found = rule(self@, v_hash, u_hash);
            if (v_hash & u_hash) == u_hash {
                additional.push((u_hash, v_hash));
            } else if (v_hash & u_hash) == v_hash {
                additional.push((v_hash, u_hash));
            } else if (v_hash ^ u_hash).count_ones() == 2 {
                let common: u128 = v_hash & u_hash;
                match self.search_result(v_hash ^ common, u_hash ^ common) {
                    BalanceResult::Left | BalanceResult::Equal => {
                        additional.push((v_hash, u_hash));
                    },
                    BalanceResult::Right => {
                        additional.push((u_hash, v_hash));
                    },
                    BalanceResult::Unknown => {},
                }
            }
            proof {
                assert(found is Some ==> additional@ == before.push(found->0));
                assert(found is None ==> additional@ == before);
                assert forall|p: (u128, u128)| #[trigger]
                    additional@.contains(p) <==> start.contains(p) || produced(
                        self@,
                        v_hash,
                        keys@,
                        i + 1,
                        p,
                    ) by {
                    assert(before.contains(p) <==> start.contains(p) || produced(
                        self@,
                        v_hash,
                        keys@,
                        i as int,
                        p,
                    ));
                    if additional@.contains(p) {
                        let w = choose|w: int| 0 <= w < additional@.len() && additional@[w] == p;
                        if w < before.len() {
                            assert(before[w] == p);
                            assert(before.contains(p));
                        } else {
                            assert(rule(self@, v_hash, keys@[i as int]) == Some(p));
                        }
                    }
                    if before.contains(p) {
                        let w = choose|w: int| 0 <= w < before.len() && before[w] == p;
                        assert(additional@[w] == p);
                    }
                    if produced(self@, v_hash, keys@, i as int, p) {
                        let j = choose|j: int|
                            0 <= j < i && #[trigger] rule(self@, v_hash, keys@[j]) == Some(p);
                        assert(rule(self@, v_hash, keys@[j]) == Some(p));
                    }
                    if produced(self@, v_hash, keys@, i + 1, p) {
                        let j = choose|j: int|
                            0 <= j < i + 1 && #[trigger] rule(self@, v_hash, keys@[j]) == Some(p);
                        if j == i {
                            assert(additional@[before.len() as int] == p);
                        } else {
                            assert(produced(self@, v_hash, keys@, i as int, p));
                        }
                    }
                }
            }
            i += 1;
        }
        proof {
            assert forall|p: (u128, u128)| #[trigger]
                additional@.contains(p) <==> start.contains(p) || derives_in(
                    self@,
                    rel,
                    v_hash,
                    p,
                ) by {
                if derives_in(self@, rel, v_hash, p) {
                    let u = choose|u: u128|
                        fresh_to(rel, v_hash, u) && #[trigger] rule(self@, v_hash, u) == Some(p);
                    lemma_key_has_edge(edges@, u);
                    assert(keys@.contains(u));
                    let j = choose|j: int| 0 <= j < keys@.len() && keys@[j] == u;
                    assert(rule(self@, v_hash, keys@[j]) == Some(p));
                    assert(produced(self@, v_hash, keys@, i as int, p));
                }
                if produced(self@, v_hash, keys@, i as int, p) {
                    let j = choose|j: int|
                        0 <= j < i && #[trigger] rule(self@, v_hash, keys@[j]) == Some(p);
                    assert(keys@.contains(keys@[j]));
                    lemma_key_has_edge(edges@, keys@[j]);
                    assert(fresh_to(rel, v_hash, keys@[j]));
                }
            }
        }
    }

    /// Writes down all that follows for the mask `v_hash` from what the
    /// memory holds, without any weighing: the order of a set and its parts,
    /// and the order of sets that differ in one item on each side.
    pub fn add_additional_edges(&mut self, v_hash: u128)
        requires
            old(self).wf(),
        ensures
            final(self).wf(),
            final(self)@ == augmented(old(self)@, v_hash),
    {
        let mut additional: Vec<(u128, u128)> = Vec::new();
        self.derive_from(&self.left_edges, v_hash, &mut additional);
        let ghost first = additional@;
        self.derive_from(&self.right_edges, v_hash, &mut additional);
        let ghost k = self@;
        proof {
            assert forall|p: (u128, u128)| #[trigger]
                additional@.contains(p) <==> derived(k, v_hash).contains(p) by {
                assert(first.contains(p) <==> derives_in(k, k.le, v_hash, p));
            }
        }
        let mut i: usize = 0;
        while i < additional.len()
            invariant
                i <= additional.len(),
                well_formed(self.left_edges@),
                well_formed(self.right_edges@),
                mirrored(k),
                forall|p: (u128, u128)| #[trigger]
                    self@.le.contains(p) <==> k.le.contains(p) || listed(additional@, i as int, p),
                forall|p: (u128, u128)| #[trigger]
                    self@.gt.contains(p) <==> k.gt.contains(p) || listed(
                        additional@,
                        i as int,
                        (p.1, p.0),
                    ),
            decreases additional.len() - i,
        {
            let pair: (u128, u128) = additional[i];
            let lo: u128 = pair.0;
            let hi: u128 = pair.1;
            let ghost le_before = self@.le;
            let ghost gt_before = self@.gt;
            add_edge(&mut self.left_edges, lo, hi);
            add_edge(&mut self.right_edges, hi, lo);
            proof {
                assert(self@.le == le_before.insert((lo, hi)));
                assert(self@.gt == gt_before.insert((hi, lo)));
                assert forall|p: (u128, u128)| #[trigger]
                    self@.le.contains(p) <==> k.le.contains(p) || listed(
                        additional@,
                        i + 1,
                        p,
                    ) by {
                    assert(le_before.contains(p) <==> k.le.contains(p) || listed(
                        additional@,
                        i as int,
                        p,
                    ));
                    if listed(additional@, i as int, p) {
                        let j = choose|j: int| 0 <= j < i && #[trigger] additional@[j] == p;
                        assert(additional@[j] == p);
                        assert(listed(additional@, i + 1, p));
                    }
                    if listed(additional@, i + 1, p) {
                        let j = choose|j: int| 0 <= j < i + 1 && #[trigger] additional@[j] == p;
                        if j < i {
                            assert(listed(additional@, i as int, p));
                        }
                    }
                    if p == (lo, hi) {
                        assert(additional@[i as int] == p);
                        assert(listed(additional@, i + 1, p));
                    }
                }
                assert forall|p: (u128, u128)| #[trigger]
                    self@.gt.contains(p) <==> k.gt.contains(p) || listed(
                        additional@,
                        i + 1,
                        (p.1, p.0),
                    ) by {
                    let t = (p.1, p.0);
                    assert(gt_before.contains(p) <==> k.gt.contains(p) || listed(
                        additional@,
                        i as int,
                        t,
                    ));
                    if listed(additional@, i as int, t) {
                        let j = choose|j: int| 0 <= j < i && #[trigger] additional@[j] == t;
                        assert(additional@[j] == t);
                        assert(listed(additional@, i + 1, t));
                    }
                    if listed(additional@, i + 1, t) {
                        let j = choose|j: int| 0 <= j < i + 1 && #[trigger] additional@[j] == t;
                        if j < i {
                            assert(listed(additional@, i as int, t));
                        }
                    }
                    if p == (hi, lo) {
                        assert(additional@[i as int] == t);
                        assert(listed(additional@, i + 1, t));
                    }
                }
            }
            i += 1;
        }
        proof {
            let goal = augmented(k, v_hash);
            assert forall|p: (u128, u128)| self@.le.contains(p) <==> goal.le.contains(p) by {
                assert(self@.le.contains(p) <==> k.le.contains(p) || listed(
                    additional@,
                    i as int,
                    p,
                ));
                assert(additional@.contains(p) <==> derived(k, v_hash).contains(p));
                if listed(additional@, i as int, p) {
                    let j = choose|j: int| 0 <= j < i && #[trigger] additional@[j] == p;
                    assert(additional@[j] == p);
                    assert(additional@.contains(p));
                }
                if additional@.contains(p) {
                    let j = choose|j: int| 0 <= j < additional@.len() && additional@[j] == p;
                    assert(additional@[j] == p);
                    assert(listed(additional@, i as int, p));
                }
            }
            assert forall|p: (u128, u128)| self@.gt.contains(p) <==> goal.gt.contains(p) by {
                let t = (p.1, p.0);
                assert(self@.gt.contains(p) <==> k.gt.contains(p) || listed(
                    additional@,
                    i as int,
                    t,
                ));
                assert(additional@.contains(t) <==> derived(k, v_hash).contains(t));
                if listed(additional@, i as int, t) {
                    let j = choose|j: int| 0 <= j < i && #[trigger] additional@[j] == t;
                    assert(additional@[j] == t);
                    assert(additional@.contains(t));
                }
                if additional@.contains(t) {
                    let j = choose|j: int| 0 <= j < additional@.len() && additional@[j] == t;
                    assert(additional@[j] == t);
                    assert(listed(additional@, i as int, t));
                }
            }
            assert(self@ =~= goal);
        }
    }

    /// Looks for an item of the group that is known to be lighter than the
    /// item `v`, by walking the "more" relation from `v` as far as it leads.
    /// Of the items found the deepest wins, and of equally deep ones the one
    /// found first. Without such an item the answer is `v` itself.
    pub fn find_lighter_in_group(&self, v: usize, groups: &Vec<usize>) -> (item: usize)
        requires
            v < MAX_ITEMS,
            items_fit(groups@),
        ensures
            item == v || lighter_candidate(self@.gt, mask_of(groups@), v, item),
            item == v <==> forall|c: usize| !lighter_candidate(self@.gt, mask_of(groups@), v, c),
            groups@.contains(v) ==> groups@.contains(item),
            item < MAX_ITEMS,
            walk_ends_with(self.right_edges@, mask_of(groups@), item_mask(v), item_mask(item)),
    {
        let ghost gt = self@.gt;
        let ghost table = self.right_edges@;
        let ghost mut steps: nat = 0;
        let mut q: Vec<(u128, usize)> = Vec::new();
        let mut seen: HashSet<u128> = HashSet::new();
        let group_hash: u128 = self.to_hash(groups);
        let v_hash: u128 = self.hash(v);
        q.push((v_hash, 0));
        seen.insert(v_hash);

        let mut lightest_v: u128 = v_hash;
        let mut lightest_depth: usize = 0;
        let ghost mut done: Set<u128> = Set::empty();
        proof {
            assert(q@[0] == (v_hash, 0usize));
            assert(stacked(q@, v_hash));
            assert(hops(gt, v_hash, v_hash, 0));
            assert(seen@ =~= Set::<u128>::empty().insert(v_hash));
            vstd::std_specs::hash::axiom_spec_hash_set_len(&seen);
            assert(q@ =~= seq![(v_hash, 0usize)]);
            assert(walk_start(v_hash) =~= (Walk {
                stack: q@,
                seen: seen@,
                best: lightest_v,
                best_depth: lightest_depth,
            }));
        }
        loop
            invariant
                gt == relation(self.right_edges@),
                table == self.right_edges@,
                walk_inv(gt, v_hash, group_hash, seen@, q@, done, None, lightest_v, lightest_depth),
                walk_on(table, group_hash, walk_start(v_hash), steps) == (Walk {
                    stack: q@,
                    seen: seen@,
                    best: lightest_v,
                    best_depth: lightest_depth,
                }),
            ensures
                walk_inv(gt, v_hash, group_hash, seen@, q@, done, None, lightest_v, lightest_depth),
                q@.len() == 0,
                walk_on(table, group_hash, walk_start(v_hash), steps) == (Walk {
                    stack: q@,
                    seen: seen@,
                    best: lightest_v,
                    best_depth: lightest_depth,
                }),
            decreases usize::MAX - seen@.len() + q@.len(),
        {
            let ghost stack_before = q@;
            let ghost reached = Walk {
                stack: q@,
                seen: seen@,
                best: lightest_v,
                best_depth: lightest_depth,
            };
            let ghost measure: int = usize::MAX - seen@.len() + q@.len();
            let top = q.pop();
            if top.is_none() {
                break ;
            }
            let (x, depth) = top.unwrap();
            let ghost popped = Walk { stack: q@, ..reached };
            proof {
                lemma_walk_one_more(table, group_hash, walk_start(v_hash), steps);
                steps = steps + 1;
                assert(q@ =~= stack_before.drop_last());
                assert(stack_before[stack_before.len() - 1] == (x, depth));
                assert forall|y: u128| #[trigger] seen@.contains(y) implies done.contains(y)
                    || stacked(q@, y) || Some(x) == Some(y) by {
                    if !done.contains(y) && y != x {
                        assert(stacked(stack_before, y));
                        let i = choose|i: int|
                            0 <= i < stack_before.len() && (#[trigger] stack_before[i]).0 == y;
                        assert(q@[i] == stack_before[i]);
                    }
                }
                assert forall|i: int| 0 <= i < q@.len() implies seen@.contains((#[trigger] q@[i]).0)
                    && q@[i].1 < seen@.len() && (q@[i].1 == 0 ==> q@[i].0 == v_hash) by {
                    assert(q@[i] == stack_before[i]);
                }
            }
            match self.right_edges.get(&x) {
                None => {
                    proof {
                        assert(!self.right_edges@.contains_key(x));
                    }
                },
                Some(edges) => {
                    assert(self.right_edges@.contains_key(x) && self.right_edges@[x] == *edges);
                    let mut idx: usize = 0;
                    proof {
                        assert(edges@.take(0) =~= Seq::<u128>::empty());
                    }
                    while idx < edges.len()
                        invariant
                            idx <= edges.len(),
                            gt == relation(self.right_edges@),
                            (Walk {
                                stack: q@,
                                seen: seen@,
                                best: lightest_v,
                                best_depth: lightest_depth,
                            }) == visit_all(popped, group_hash, depth, edges@.take(idx as int)),
                            self.right_edges@.contains_key(x),
                            self.right_edges@[x] == *edges,
                            seen@.contains(x),
                            depth < seen@.len(),
                            depth == 0 ==> x == v_hash,
                            depth >= 1 ==> done.contains(v_hash),
                            walk_inv(
                                gt,
                                v_hash,
                                group_hash,
                                seen@,
                                q@,
                                done,
                                Some(x),
                                lightest_v,
                                lightest_depth,
                            ),
                            usize::MAX - seen@.len() + q@.len() == measure - 1,
                            forall|j: int| 0 <= j < idx ==> seen@.contains(#[trigger] edges@[j]),
                        decreases edges.len() - idx,
                    {
                        let u: u128 = edges[idx];
                        let ghost looked = visit_all(
                            popped,
                            group_hash,
                            depth,
                            edges@.take(idx as int),
                        );
                        proof {
                            assert(edges@.take(idx + 1).drop_last() =~= edges@.take(idx as int));
                            assert(edges@.take(idx + 1).last() == u);
                            assert(visit_all(popped, group_hash, depth, edges@.take(idx + 1))
                                == visit(looked, group_hash, depth, u));
                        }
                        idx += 1;
                        if seen.contains(&u) {
                            continue ;
                        }
                        let ghost seen_before = seen@;
                        let ghost stack_now = q@;
                        proof {
                            assert(edges@.contains(u));
                            assert(step(gt, x, u));
                            let n = choose|n: nat| #[trigger] hops(gt, v_hash, x, n);
                            assert(hops(gt, v_hash, u, n + 1));
                            assert(connected(gt, v_hash, u));
                        }
                        if u.count_ones() == 1 && (u & group_hash) > 0 && depth + 1 > lightest_depth {
                            lightest_depth = depth + 1;
                            lightest_v = u;
                        }
                        q.push((u, depth + 1));
                        seen.insert(u);
                        proof {
                            assert((Walk {
                                stack: q@,
                                seen: seen@,
                                best: lightest_v,
                                best_depth: lightest_depth,
                            }) =~= visit(looked, group_hash, depth, u));
                            vstd::std_specs::hash::axiom_spec_hash_set_len(&seen);
                            assert(q@[stack_now.len() as int] == (u, (depth + 1) as usize));
                            assert(stacked(q@, u));
                            assert forall|y: u128| #[trigger] seen@.contains(y) implies done.contains(
                                y,
                            ) || stacked(q@, y) || Some(x) == Some(y) by {
                                if y != u && stacked(stack_now, y) {
                                    let i = choose|i: int|
                                        0 <= i < stack_now.len() && (#[trigger] stack_now[i]).0 == y;
                                    assert(q@[i] == stack_now[i]);
                                }
                            }
                            assert forall|i: int| 0 <= i < q@.len() implies seen@.contains(
                                (#[trigger] q@[i]).0,
                            ) && q@[i].1 < seen@.len() && (q@[i].1 == 0 ==> q@[i].0 == v_hash) by {
                                if i < stack_now.len() {
                                    assert(q@[i] == stack_now[i]);
                                }
                            }
                            assert forall|y: u128| #[trigger] seen@.contains(y) implies accounted(
                                gt,
                                v_hash,
                                group_hash,
                                lightest_depth,
                                y,
                            ) by {
                                if y != u {
                                    assert(seen_before.contains(y));
                                }
                            }
                        }
                    }
                    proof {
                        assert(edges@.take(idx as int) =~= edges@);
                        assert forall|w: u128| #[trigger] step(gt, x, w) implies seen@.contains(w) by {
                            assert(edges@.contains(w));
                            let j = choose|j: int| 0 <= j < edges@.len() && edges@[j] == w;
                            assert(seen@.contains(edges@[j]));
                        }
                    }
                },
            }
            proof {
                done = done.insert(x);
            }
        }
        proof {
            let g = mask_of(groups@);
            lemma_item_mask_single(v);
            assert forall|y: u128, u: u128| seen@.contains(y) && #[trigger] step(gt, y, u) implies seen@.contains(
                u,
            ) by {
                assert(done.contains(y) || stacked(q@, y));
            }
            let end = walk_on(table, group_hash, walk_start(v_hash), steps);
            assert(end.stack.len() == 0 && end.best == lightest_v);
            if lightest_depth == 0 {
                assert forall|c: usize| !lighter_candidate(gt, g, v, c) by {
                    if lighter_candidate(gt, g, v, c) {
                        let u = item_mask(c);
                        lemma_item_mask_single(c);
                        lemma_masks_differ(c, v);
                        let n = choose|n: nat| #[trigger] hops(gt, v_hash, u, n);
                        lemma_closed_holds_connected(gt, seen@, v_hash, u, n);
                        assert(accounted(gt, v_hash, group_hash, lightest_depth, u));
                    }
                }
            } else {
                lemma_single_is_item(lightest_v);
                let c = low_zeros(lightest_v) as usize;
                lemma_mask_contains(groups@, c);
                assert(lighter_candidate(gt, g, v, c));
            }
        }
        lightest_v.trailing_zeros() as usize
    }

    /// Compares the weights of two lists of items. A list without items is
    /// settled at once. Otherwise the memory is asked, after all that
    /// follows for the two sets has been written down; only if it knows
    /// nothing is the oracle asked, and its finding written down too.
    pub fn get_result<O: Oracle>(
        &mut self,
        left_v: &Vec<usize>,
        right_v: &Vec<usize>,
        interactor: &mut Interactor<O>,
    ) -> (res: BalanceResult)
        requires
            old(self).wf(),
            old(interactor).wf(),
            items_fit(left_v@),
            items_fit(right_v@),
        ensures
            final(self).wf(),
            grown_from(final(self)@, old(self)@),
            final(interactor).follows(old(interactor)),
            final(interactor).query_count <= old(interactor).query_count + 1,
            backed(final(self)@, left_v@, right_v@, res),
            res == BalanceResult::Unknown ==> final(interactor).stalled_since(old(interactor)),
            forall|later: Seq<Asked>| #[trigger]
                continues(final(interactor).asked@, later) ==> ask(
                    old(self)@,
                    left_v@,
                    right_v@,
                    old(interactor).query_count as nat,
                    old(interactor).max_query_count as nat,
                    later,
                ) == (Finding {
                    res,
                    k: final(self)@,
                    count: final(interactor).query_count as nat,
                }),
            ({
                let quick = empty_comparison(left_v@, right_v@);
                let l = mask_of(left_v@);
                let r = mask_of(right_v@);
                let k = prepared(old(self)@, l, r);
                let known = settled(old(self)@, l, r);
                let untouched = *final(interactor) == *old(interactor);
                let sent = old(interactor).asked@.push(
                    (Asked { left_v: left_v@, right_v: right_v@, answer: res }),
                );
                if quick != BalanceResult::Unknown {
                    res == quick && *final(self) == *old(self) && untouched
                } else if known != BalanceResult::Unknown {
                    res == known && final(self)@ == recorded(k, l, r, res) && untouched
                } else if old(interactor).exhausted() {
                    res == BalanceResult::Unknown && final(self)@ == k && untouched
                } else {
                    final(self)@ == recorded(k, l, r, res) && final(interactor).asked@ == sent
                }
            }),
    {
        let check_empty_result = self.check_empty_comparison(left_v, right_v);
        if check_empty_result != BalanceResult::Unknown {
            return check_empty_result;
        }
        let left_hash: u128 = self.to_hash(left_v);
        let right_hash: u128 = self.to_hash(right_v);

        self.add_additional_edges(left_hash);
        self.add_additional_edges(right_hash);

        let search_result = self.search_result(left_hash, right_hash);
        if search_result != BalanceResult::Unknown {
            self.record(left_hash, right_hash, search_result);
            return search_result;
        }
        let query_result = interactor.output_query(left_v, right_v);
        self.record(left_hash, right_hash, query_result);
        query_result
    }

    /// Writes a finding on two masks down: as an "at most" edge from the
    /// lighter to the heavier, and as a "more" edge back. `Unknown` leaves
    /// no trace.
    pub fn record(&mut self, left_hash: u128, right_hash: u128, res: BalanceResult)
        requires
            old(self).wf(),
        ensures
            final(self).wf(),
            final(self)@ == recorded(old(self)@, left_hash, right_hash, res),
            res == BalanceResult::Unknown ==> *final(self) == *old(self),
    {
        match res {
            BalanceResult::Left | BalanceResult::Equal => {
                add_edge(&mut self.left_edges, left_hash, right_hash);
                add_edge(&mut self.right_edges, right_hash, left_hash);
            },
            BalanceResult::Right => {
                add_edge(&mut self.left_edges, right_hash, left_hash);
                add_edge(&mut self.right_edges, left_hash, right_hash);
            },
            BalanceResult::Unknown => {},
        }
        assert(self@ =~= recorded(old(self)@, left_hash, right_hash, res));
    }
}

/// Writing down what follows for a mask takes nothing away.
pub proof fn lemma_augmented_grows(k: Knowledge, v: u128)
    ensures
        grown_from(augmented(k, v), k),
{
}

/// Preparing a comparison takes nothing away.
pub proof fn lemma_prepared_grows(k: Knowledge, left_hash: u128, right_hash: u128)
    ensures
        grown_from(prepared(k, left_hash, right_hash), k),
{
    lemma_augmented_grows(k, left_hash);
    lemma_augmented_grows(augmented(k, left_hash), right_hash);
}

/// What a memory answers, every memory grown from it answers too: never
/// `Unknown` again, and `Left` where it was `Left`. Where it was `Right`, the
/// grown memory answers `Right` unless its "at most" relation has come to
/// lead from the first mask to the second.
pub proof fn lemma_answers_are_kept(
    before: Knowledge,
    after: Knowledge,
    left_hash: u128,
    right_hash: u128,
)
    requires
        grown_from(after, before),
        inferred(before, left_hash, right_hash) != BalanceResult::Unknown,
    ensures
        inferred(after, left_hash, right_hash) != BalanceResult::Unknown,
        inferred(before, left_hash, right_hash) == BalanceResult::Left ==> inferred(
            after,
            left_hash,
            right_hash,
        ) == BalanceResult::Left,
        inferred(before, left_hash, right_hash) == BalanceResult::Right && !reachable(
            after.le,
            left_hash,
            right_hash,
        ) ==> inferred(after, left_hash, right_hash) == BalanceResult::Right,
{
    if reachable(before.le, left_hash, right_hash) {
        lemma_reachable_monotone(before.le, after.le, left_hash, right_hash);
    } else {
        lemma_reachable_monotone(before.gt, after.gt, left_hash, right_hash);
    }
}

/// A memory that has a finding on two different masks written down, and
/// whatever else has come to it since, settles the same comparison without
/// the oracle, asked in the same order or the other way round. A finding of
/// lighter or equal is answered as lighter on every later asking. A finding
/// of heavier is answered as heavier unless the "at most" relation has come
/// to lead from the first mask to the second. The other way round the
/// answer is the mirror image, on the same condition.
pub proof fn lemma_memoized(
    k: Knowledge,
    left_hash: u128,
    right_hash: u128,
    res: BalanceResult,
    later: Knowledge,
)
    requires
        left_hash != right_hash,
        res != BalanceResult::Unknown,
        grown_from(later, recorded(k, left_hash, right_hash, res)),
    ensures
        settled(later, left_hash, right_hash) != BalanceResult::Unknown,
        settled(later, right_hash, left_hash) != BalanceResult::Unknown,
        res != BalanceResult::Right ==> settled(later, left_hash, right_hash)
            == BalanceResult::Left,
        res == BalanceResult::Right ==> settled(later, right_hash, left_hash)
            == BalanceResult::Left,
        res == BalanceResult::Right && !reachable(
            prepared(later, left_hash, right_hash).le,
            left_hash,
            right_hash,
        ) ==> settled(later, left_hash, right_hash) == BalanceResult::Right,
        res != BalanceResult::Right && !reachable(
            prepared(later, right_hash, left_hash).le,
            right_hash,
            left_hash,
        ) ==> settled(later, right_hash, left_hash) == BalanceResult::Right,
{
    let first = recorded(k, left_hash, right_hash, res);
    let ahead = prepared(later, left_hash, right_hash);
    let back = prepared(later, right_hash, left_hash);
    lemma_prepared_grows(later, left_hash, right_hash);
    lemma_prepared_grows(later, right_hash, left_hash);
    if res == BalanceResult::Right {
        assert(first.le.contains((right_hash, left_hash)));
        assert(first.gt.contains((left_hash, right_hash)));
        assert(step(ahead.gt, left_hash, right_hash));
        assert(step(back.le, right_hash, left_hash));
        lemma_edge_reachable(ahead.gt, left_hash, right_hash);
        lemma_edge_reachable(back.le, right_hash, left_hash);
    } else {
        assert(first.le.contains((left_hash, right_hash)));
        assert(first.gt.contains((right_hash, left_hash)));
        assert(step(ahead.le, left_hash, right_hash));
        assert(step(back.gt, right_hash, left_hash));
        lemma_edge_reachable(ahead.le, left_hash, right_hash);
        lemma_edge_reachable(back.gt, right_hash, left_hash);
    }
}

/// An edge before a chain makes a chain that is one edge longer.
proof fn lemma_hops_front(rel: Set<(u128, u128)>, a: u128, c: u128, b: u128, n: nat)
    requires
        step(rel, a, c),
        hops(rel, c, b, n),
    ensures
        hops(rel, a, b, n + 1),
    decreases n,
{
    if n == 0 {
        assert(hops(rel, a, a, 0));
        assert(step(rel, a, b));
    } else {
        let e = choose|e: u128| hops(rel, c, e, (n - 1) as nat) && #[trigger] step(rel, e, b);
        lemma_hops_front(rel, a, c, e, (n - 1) as nat);
        assert(hops(rel, a, e, n) && step(rel, e, b));
    }
}

/// Where one relation holds every edge of another turned round, it holds
/// every chain of the other turned round.
proof fn lemma_hops_turned(
    rel: Set<(u128, u128)>,
    back: Set<(u128, u128)>,
    a: u128,
    b: u128,
    n: nat,
)
    requires
        forall|x: u128, y: u128| #[trigger] rel.contains((x, y)) ==> back.contains((y, x)),
        hops(rel, a, b, n),
    ensures
        hops(back, b, a, n),
    decreases n,
{
    if n > 0 {
        let c = choose|c: u128| hops(rel, a, c, (n - 1) as nat) && #[trigger] step(rel, c, b);
        lemma_hops_turned(rel, back, a, c, (n - 1) as nat);
        assert(rel.contains((c, b)));
        assert(step(back, b, c));
        lemma_hops_front(back, b, c, a, (n - 1) as nat);
    }
}

/// In a memory in which every finding stands in both relations, a chain of
/// one relation within reach is a chain of the other within reach, turned
/// round. So what such a memory cannot tell of two masks, it cannot tell of
/// them the other way round, and what it tells as lighter one way it can
/// tell as heavier the other way.
pub proof fn lemma_unknown_both_ways(k: Knowledge, a: u128, b: u128)
    requires
        mirrored(k),
    ensures
        reachable(k.le, a, b) <==> reachable(k.gt, b, a),
        reachable(k.gt, a, b) <==> reachable(k.le, b, a),
        inferred(k, a, b) == BalanceResult::Unknown <==> inferred(k, b, a)
            == BalanceResult::Unknown,
{
    assert forall|x: u128, y: u128| #[trigger] k.le.contains((x, y)) implies k.gt.contains(
        (y, x),
    ) by {}
    assert forall|x: u128, y: u128| #[trigger] k.gt.contains((x, y)) implies k.le.contains(
        (y, x),
    ) by {}
    if reachable(k.le, a, b) {
        let n = choose|n: nat| 1 <= n <= reach_limit() && #[trigger] hops(k.le, a, b, n);
        lemma_hops_turned(k.le, k.gt, a, b, n);
    }
    if reachable(k.gt, b, a) {
        let n = choose|n: nat| 1 <= n <= reach_limit() && #[trigger] hops(k.gt, b, a, n);
        lemma_hops_turned(k.gt, k.le, b, a, n);
    }
    if reachable(k.gt, a, b) {
        let n = choose|n: nat| 1 <= n <= reach_limit() && #[trigger] hops(k.gt, a, b, n);
        lemma_hops_turned(k.gt, k.le, a, b, n);
    }
    if reachable(k.le, b, a) {
        let n = choose|n: nat| 1 <= n <= reach_limit() && #[trigger] hops(k.le, b, a, n);
        lemma_hops_turned(k.le, k.gt, b, a, n);
    }
}

proof fn lemma_part_masks(a: u128, b: u128)
    by (bit_vector)
    requires
        a & b == a,
        a != b,
    ensures
        b & a == a,
        a & b != b,
        b & a != b,
{
}

/// Of two different masks of which the first is a part of the second: if
/// one of the two relations has edges that leave one of them and none that
/// leave the other, their comparison is settled without the oracle, and the
/// part is found lighter.
pub proof fn lemma_part_settled(k: Knowledge, part: u128, whole: u128)
    requires
        part & whole == part,
        part != whole,
        has_key(k.le, part) != has_key(k.le, whole) || has_key(k.gt, part) != has_key(
            k.gt,
            whole,
        ),
    ensures
        settled(k, part, whole) == BalanceResult::Left,
{
    lemma_part_masks(part, whole);
    let first = augmented(k, part);
    let second = augmented(first, whole);
    lemma_augmented_grows(k, part);
    lemma_augmented_grows(first, whole);
    assert(rule(k, part, whole) == Some((part, whole)));
    assert(rule(first, whole, part) == Some((part, whole)));
    if fresh_to(k.le, part, whole) || fresh_to(k.gt, part, whole) {
        assert(derived(k, part).contains((part, whole)));
        assert(first.le.contains((part, whole)));
    } else {
        let rel = if has_key(k.le, part) != has_key(k.le, whole) {
            k.le
        } else {
            k.gt
        };
        let grown = if has_key(k.le, part) != has_key(k.le, whole) {
            first.le
        } else {
            first.gt
        };
        assert(has_key(rel, part) && !has_key(rel, whole));
        let away = choose|away: u128| #[trigger] step(rel, part, away);
        assert(step(grown, part, away));
        assert(has_key(grown, part));
        if has_key(grown, whole) {
            let end = choose|end: u128| #[trigger] step(grown, whole, end);
            assert(!step(rel, whole, end));
            if derived(k, part).contains((whole, end)) {
                let u = choose|u: u128|
                    (fresh_to(k.le, part, u) || fresh_to(k.gt, part, u)) && #[trigger] rule(
                        k,
                        part,
                        u,
                    ) == Some((whole, end));
                assert(u == whole);
            } else {
                assert(derived(k, part).contains((end, whole)));
                let u = choose|u: u128|
                    (fresh_to(k.le, part, u) || fresh_to(k.gt, part, u)) && #[trigger] rule(
                        k,
                        part,
                        u,
                    ) == Some((end, whole));
                assert(u == whole);
                assert(end == part);
                assert(first.le.contains((part, whole)));
            }
        } else {
            assert(fresh_to(grown, whole, part));
            assert(derived(first, whole).contains((part, whole)));
        }
    }
    assert(step(second.le, part, whole));
    lemma_edge_reachable(second.le, part, whole);
}

} // verus!
