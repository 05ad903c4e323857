//! Directed relations between masks, held as adjacency lists, and the
//! bounded search that tells whether one mask leads to another.

use crate::util::Queue;
use std::collections::BTreeMap;
use std::collections::HashSet;
use vstd::prelude::*;

verus! {

broadcast use {
    vstd::std_specs::hash::group_hash_axioms,
    vstd::std_specs::btree::group_btree_axioms,
    vstd::laws_cmp::group_laws_cmp,
};

/// The deepest entry that the bounded search expands.
pub const MAX_DEPTH: u16 = 5;

/// The longest chain of edges that the bounded search can follow.
pub open spec fn reach_limit() -> nat {
    (MAX_DEPTH + 1) as nat
}

/// The pairs that a table of adjacency lists relates: `(a, b)` where the list
/// of `a` holds `b`.
pub open spec fn relation(edges: Map<u128, Vec<u128>>) -> Set<(u128, u128)> {
    Set::new(|p: (u128, u128)| edges.contains_key(p.0) && edges[p.0]@.contains(p.1))
}

/// Every list of the table has a member, and none has a member twice.
pub open spec fn well_formed(edges: Map<u128, Vec<u128>>) -> bool {
    forall|k: u128| #[trigger]
        edges.contains_key(k) ==> edges[k]@.len() > 0 && edges[k]@.no_duplicates()
}

/// The relation holds an edge from `a` to `b`.
pub open spec fn step(rel: Set<(u128, u128)>, a: u128, b: u128) -> bool {
    rel.contains((a, b))
}

/// The relation holds an edge that leaves `a`.
pub open spec fn has_key(rel: Set<(u128, u128)>, a: u128) -> bool {
    exists|b: u128| #[trigger] step(rel, a, b)
}

/// A chain of exactly `n` edges leads from `a` to `b`.
pub open spec fn hops(rel: Set<(u128, u128)>, a: u128, b: u128, n: nat) -> bool
    decreases n,
{
    if n == 0 {
        a == b
    } else {
        exists|c: u128| hops(rel, a, c, (n - 1) as nat) && #[trigger] step(rel, c, b)
    }
}

/// A chain of at least one and at most `limit` edges leads from `a` to `b`.
pub open spec fn linked(rel: Set<(u128, u128)>, a: u128, b: u128, limit: nat) -> bool {
    exists|n: nat| 1 <= n <= limit && #[trigger] hops(rel, a, b, n)
}

/// What the bounded search answers: the two masks differ and a chain within
/// the limit leads from the first to the second.
pub open spec fn reachable(rel: Set<(u128, u128)>, from: u128, to: u128) -> bool {
    from != to && linked(rel, from, to, reach_limit())
}

/// A chain of edges, of whatever length, leads from `a` to `b`.
pub open spec fn connected(rel: Set<(u128, u128)>, a: u128, b: u128) -> bool {
    exists|n: nat| #[trigger] hops(rel, a, b, n)
}

/// A set of masks that holds `a` and the end of every edge that leaves one
/// of its members holds all that `a` leads to.
pub proof fn lemma_closed_holds_connected(
    rel: Set<(u128, u128)>,
    closed: Set<u128>,
    a: u128,
    b: u128,
    n: nat,
)
    requires
        closed.contains(a),
        forall|x: u128, u: u128| closed.contains(x) && #[trigger] step(rel, x, u) ==> closed.contains(u),
        hops(rel, a, b, n),
    ensures
        closed.contains(b),
    decreases n,
{
    if n > 0 {
        let c = choose|c: u128| hops(rel, a, c, (n - 1) as nat) && #[trigger] step(rel, c, b);
        lemma_closed_holds_connected(rel, closed, a, c, (n - 1) as nat);
        assert(step(rel, c, b));
    }
}

/// In a well-formed table the keys are the masks that an edge leaves.
pub proof fn lemma_key_has_edge(edges: Map<u128, Vec<u128>>, a: u128)
    requires
        well_formed(edges),
    ensures
        edges.contains_key(a) <==> has_key(relation(edges), a),
{
    let rel = relation(edges);
    if edges.contains_key(a) {
        let b = edges[a]@[0];
        assert(edges[a]@.contains(b));
        assert(step(rel, a, b));
    }
}

/// A relation with more edges links whatever the smaller one links.
pub proof fn lemma_hops_monotone(
    small: Set<(u128, u128)>,
    large: Set<(u128, u128)>,
    a: u128,
    b: u128,
    n: nat,
)
    requires
        small.subset_of(large),
        hops(small, a, b, n),
    ensures
        hops(large, a, b, n),
    decreases n,
{
    if n > 0 {
        let c = choose|c: u128| hops(small, a, c, (n - 1) as nat) && #[trigger] step(small, c, b);
        lemma_hops_monotone(small, large, a, c, (n - 1) as nat);
        assert(step(large, c, b));
    }
}

/// A relation with more edges reaches whatever the smaller one reaches.
pub proof fn lemma_reachable_monotone(
    small: Set<(u128, u128)>,
    large: Set<(u128, u128)>,
    a: u128,
    b: u128,
)
    requires
        small.subset_of(large),
        reachable(small, a, b),
    ensures
        reachable(large, a, b),
{
    let n = choose|n: nat| 1 <= n <= reach_limit() && #[trigger] hops(small, a, b, n);
    lemma_hops_monotone(small, large, a, b, n);
}

/// A single edge between two different masks is within reach.
pub proof fn lemma_edge_reachable(rel: Set<(u128, u128)>, a: u128, b: u128)
    requires
        step(rel, a, b),
        a != b,
    ensures
        reachable(rel, a, b),
{
    assert(hops(rel, a, a, 0));
    assert(hops(rel, a, b, 1));
}

/// The mask `x` waits in the queue.
spec fn queued(q: Seq<(u128, u16)>, x: u128) -> bool {
    exists|i: int| 0 <= i < q.len() && (#[trigger] q[i]).0 == x
}

/// All edges that leave `x` have been followed: their ends are found, each
/// at most one deeper than `x`, unless `x` lies at the depth limit, where
/// an end may stay unfound if it is not the target.
spec fn expanded(
    rel: Set<(u128, u128)>,
    to: u128,
    found: Set<u128>,
    depth_of: Map<u128, nat>,
    x: u128,
) -> bool {
    forall|u: u128| #[trigger]
        step(rel, x, u) ==> if depth_of[x] < MAX_DEPTH {
            found.contains(u) && depth_of[u] <= depth_of[x] + 1
        } else {
            found.contains(u) || u != to
        }
}

/// What the search knows of the masks it has found.
spec fn found_inv(
    rel: Set<(u128, u128)>,
    from: u128,
    to: u128,
    found: Set<u128>,
    depth_of: Map<u128, nat>,
    level: nat,
) -> bool {
    &&& found.contains(from)
    &&& depth_of[from] == 0
    &&& found.contains(to) ==> to == from
    &&& forall|x: u128| #[trigger]
        found.contains(x) ==> hops(rel, from, x, depth_of[x]) && depth_of[x] <= level + 1
            && depth_of[x] <= MAX_DEPTH
}

/// What the search knows of its queue: entries are found masks with their
/// depths, in rising order, none above the current level.
spec fn queue_inv(q: Seq<(u128, u16)>, found: Set<u128>, depth_of: Map<u128, nat>, level: nat) -> bool {
    &&& forall|i: int|
        0 <= i < q.len() ==> found.contains((#[trigger] q[i]).0) && depth_of[q[i].0] == q[i].1
            && level <= q[i].1
    &&& forall|i: int, j: int| 0 <= i < j < q.len() ==> (#[trigger] q[i]).1 <= (#[trigger] q[j]).1
}

/// What the search knows of the masks it is done with.
spec fn done_inv(
    rel: Set<(u128, u128)>,
    to: u128,
    found: Set<u128>,
    depth_of: Map<u128, nat>,
    done: Set<u128>,
    level: nat,
) -> bool {
    forall|x: u128| #[trigger]
        done.contains(x) ==> found.contains(x) && depth_of[x] <= level && expanded(
            rel,
            to,
            found,
            depth_of,
            x,
        )
}

/// Every found mask is done, waits in the queue, or is the one in hand.
spec fn cover_inv(found: Set<u128>, done: Set<u128>, q: Seq<(u128, u16)>, hand: Option<u128>) -> bool {
    forall|x: u128| #[trigger]
        found.contains(x) ==> done.contains(x) || queued(q, x) || hand == Some(x)
}

/// Once every found mask is expanded, each mask within `n` edges of the start
/// is found, at a depth of at most `n`.
proof fn lemma_found_closed(
    rel: Set<(u128, u128)>,
    from: u128,
    to: u128,
    found: Set<u128>,
    depth_of: Map<u128, nat>,
    x: u128,
    n: nat,
)
    requires
        found.contains(from),
        depth_of[from] == 0,
        forall|y: u128| #[trigger] found.contains(y) ==> expanded(rel, to, found, depth_of, y),
        hops(rel, from, x, n),
        n <= MAX_DEPTH,
    ensures
        found.contains(x),
        depth_of[x] <= n,
    decreases n,
{
    if n > 0 {
        let c = choose|c: u128| hops(rel, from, c, (n - 1) as nat) && #[trigger] step(rel, c, x);
        lemma_found_closed(rel, from, to, found, depth_of, c, (n - 1) as nat);
        assert(expanded(rel, to, found, depth_of, c));
        assert(step(rel, c, x));
    }
}

/// Once every found mask is expanded and the target is not among them, the
/// target is out of reach.
proof fn lemma_unreachable(
    rel: Set<(u128, u128)>,
    from: u128,
    to: u128,
    found: Set<u128>,
    depth_of: Map<u128, nat>,
)
    requires
        found.contains(from),
        depth_of[from] == 0,
        !found.contains(to),
        forall|y: u128| #[trigger] found.contains(y) ==> expanded(rel, to, found, depth_of, y),
    ensures
        !linked(rel, from, to, reach_limit()),
{
    if linked(rel, from, to, reach_limit()) {
        let n = choose|n: nat| 1 <= n <= reach_limit() && #[trigger] hops(rel, from, to, n);
        let c = choose|c: u128| hops(rel, from, c, (n - 1) as nat) && #[trigger] step(rel, c, to);
        lemma_found_closed(rel, from, to, found, depth_of, c, (n - 1) as nat);
        assert(expanded(rel, to, found, depth_of, c));
        assert(step(rel, c, to));
    }
}

/// Tells whether a chain of at most six edges leads from `from_hash` to
/// another mask `to_hash`, by a breadth-first search that expands no entry
/// deeper than `MAX_DEPTH`.
pub fn is_reachable(edges: &BTreeMap<u128, Vec<u128>>, from_hash: u128, to_hash: u128) -> (found: bool)
    ensures
        found == reachable(relation(edges@), from_hash, to_hash),
{
    let ghost rel = relation(edges@);
    let mut q = Queue::default();
    let mut seen: HashSet<u128> = HashSet::new();
    q.push_back((from_hash, 0));
    seen.insert(from_hash);
    let ghost mut depth_of: Map<u128, nat> = Map::empty().insert(from_hash, 0nat);
    let ghost mut done: Set<u128> = Set::empty();
    let ghost mut level: nat = 0;
    proof {
        assert(q@[0] == (from_hash, 0u16));
        assert(queued(q@, from_hash));
        assert(hops(rel, from_hash, from_hash, 0));
    }
    loop
        invariant
            rel == relation(edges@),
            found_inv(rel, from_hash, to_hash, seen@, depth_of, level),
            queue_inv(q@, seen@, depth_of, level),
            done_inv(rel, to_hash, seen@, depth_of, done, level),
            cover_inv(seen@, done, q@, None),
            seen@.finite(),
            seen@.len() + 0 <= usize::MAX,
        decreases usize::MAX - seen@.len() + q@.len(),
    {
        let ghost q_before = q@;
        let ghost measure: int = usize::MAX - seen@.len() + q@.len();
        let front = q.pop_front();
        match front {
            None => {
                proof {
                    assert forall|y: u128| #[trigger] seen@.contains(y) implies expanded(
                        rel,
                        to_hash,
                        seen@,
                        depth_of,
                        y,
                    ) by {
                        assert(done.contains(y) || queued(q_before, y));
                    }
                    if from_hash != to_hash {
                        lemma_unreachable(rel, from_hash, to_hash, seen@, depth_of);
                    }
                }
                return false;
            },
            Some((v, depth)) => {
                proof {
                    assert(q_before[0] == (v, depth));
                    assert(q@ =~= q_before.drop_first());
                    assert forall|i: int| 0 <= i < q@.len() implies seen@.contains(
                        (#[trigger] q@[i]).0,
                    ) && depth_of[q@[i].0] == q@[i].1 && depth as nat <= q@[i].1 by {
                        assert(q@[i] == q_before[i + 1]);
                    }
                    assert forall|i: int, j: int| 0 <= i < j < q@.len() implies (#[trigger] q@[i]).1
                        <= (#[trigger] q@[j]).1 by {
                        assert(q@[i] == q_before[i + 1]);
                        assert(q@[j] == q_before[j + 1]);
                    }
                    assert forall|x: u128| #[trigger] seen@.contains(x) implies done.contains(x)
                        || queued(q@, x) || Some(v) == Some(x) by {
                        if !done.contains(x) && x != v {
                            assert(queued(q_before, x));
                            let i = choose|i: int|
                                0 <= i < q_before.len() && (#[trigger] q_before[i]).0 == x;
                            assert(q@[i - 1] == q_before[i]);
                        }
                    }
                    level = depth as nat;
                }
                match edges.get(&v) {
                    None => {
                        proof {
                            assert(!edges@.contains_key(v));
                            assert forall|u: u128| #[trigger] step(rel, v, u) implies false by {}
                        }
                    },
                    Some(v_edges) => {
                        assert(edges@.contains_key(v) && edges@[v] == *v_edges);
                        let mut idx: usize = 0;
                        while idx < v_edges.len()
                            invariant
                                idx <= v_edges.len(),
                                edges@.contains_key(v),
                                edges@[v] == *v_edges,
                                rel == relation(edges@),
                                level == depth,
                                seen@.contains(v),
                                depth_of[v] == depth,
                                found_inv(rel, from_hash, to_hash, seen@, depth_of, level),
                                queue_inv(q@, seen@, depth_of, level),
                                done_inv(rel, to_hash, seen@, depth_of, done, level),
                                cover_inv(seen@, done, q@, Some(v)),
                                seen@.finite(),
                                seen@.len() + 0 <= usize::MAX,
                                usize::MAX - seen@.len() + q@.len() == measure - 1,
                                forall|j: int|
                                    0 <= j < idx ==> if depth < MAX_DEPTH {
                                        seen@.contains(#[trigger] v_edges@[j]) && depth_of[v_edges@[j]]
                                            <= depth + 1
                                    } else {
                                        seen@.contains(v_edges@[j]) || v_edges@[j] != to_hash
                                    },
                            decreases v_edges.len() - idx,
                        {
                            let u: u128 = v_edges[idx];
                            idx += 1;
                            if seen.contains(&u) {
                                continue;
                            }
                            if u == to_hash {
                                proof {
                                    assert(v_edges@.contains(u));
                                    assert(step(rel, v, u));
                                    assert(hops(rel, from_hash, to_hash, (depth + 1) as nat));
                                }
                                return true;
                            }
                            if depth >= MAX_DEPTH {
                                continue;
                            }
                            let ghost seen_before = seen@;
                            let ghost depth_before = depth_of;
                            let ghost queue_before = q@;
                            seen.insert(u);
                            q.push_back((u, depth + 1));
                            proof {
                                depth_of = depth_of.insert(u, (depth + 1) as nat);
                                assert(v_edges@.contains(u));
                                assert(step(rel, v, u));
                                assert(hops(rel, from_hash, u, (depth + 1) as nat));
                                assert forall|x: u128| #[trigger] done.contains(x) implies expanded(
                                    rel,
                                    to_hash,
                                    seen@,
                                    depth_of,
                                    x,
                                ) by {
                                    assert(expanded(rel, to_hash, seen_before, depth_before, x));
                                    assert forall|w: u128| #[trigger]
                                        step(rel, x, w) implies if depth_of[x] < MAX_DEPTH {
                                        seen@.contains(w) && depth_of[w] <= depth_of[x] + 1
                                    } else {
                                        seen@.contains(w) || w != to_hash
                                    } by {
                                        assert(step(rel, x, w));
                                    }
                                }
                                assert(q@[queue_before.len() as int] == (u, (depth + 1) as u16));
                                assert forall|i: int| 0 <= i < q@.len() implies seen@.contains(
                                    (#[trigger] q@[i]).0,
                                ) && depth_of[q@[i].0] == q@[i].1 && level <= q@[i].1 by {
                                    if i < queue_before.len() {
                                        assert(q@[i] == queue_before[i]);
                                    }
                                }
                                assert forall|i: int, j: int| 0 <= i < j < q@.len() implies (
                                #[trigger] q@[i]).1 <= (#[trigger] q@[j]).1 by {
                                    assert(q@[i] == queue_before[i]);
                                    if j < queue_before.len() {
                                        assert(q@[j] == queue_before[j]);
                                    }
                                }
                                assert forall|x: u128| #[trigger] seen@.contains(x) implies done.contains(
                                    x,
                                ) || queued(q@, x) || Some(v) == Some(x) by {
                                    if x == u {
                                        assert(queued(q@, x));
                                    } else if queued(queue_before, x) {
                                        let i = choose|i: int|
                                            0 <= i < queue_before.len() && (
                                            #[trigger] queue_before[i]).0 == x;
                                        assert(q@[i] == queue_before[i]);
                                    }
                                }
                                vstd::std_specs::hash::axiom_spec_hash_set_len(&seen);
                            }
                        }
                        proof {
                            assert forall|w: u128| #[trigger] step(rel, v, w) implies if depth_of[v]
                                < MAX_DEPTH {
                                seen@.contains(w) && depth_of[w] <= depth_of[v] + 1
                            } else {
                                seen@.contains(w) || w != to_hash
                            } by {
                                assert(v_edges@.contains(w));
                                let j = choose|j: int| 0 <= j < v_edges@.len() && v_edges@[j] == w;
                                assert(v_edges@[j] == w);
                            }
                        }
                    },
                }
                proof {
                    assert(expanded(rel, to_hash, seen@, depth_of, v));
                    done = done.insert(v);
                }
            },
        }
    }
}

} // verus!
