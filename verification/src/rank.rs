//! The rank of the groups: their order by weight as far as it is known, how
//! it is first found and how one group is put back in its place.

use crate::balancer::{
    ask, grown_from, known_at_most, lemma_known_stays, Balancer, Finding, Knowledge,
};
use crate::def::{BalanceResult, Input};
use crate::groups::{
    groups_fit, is_rank, lemma_moved_down, lemma_moved_same, lemma_moved_stays_in_window,
    lemma_moved_up, moved, rank_fits, same_outside, views,
};
use crate::interactor::{continues, lemma_continues, Asked, Interactor, Oracle};
use crate::util::rnd::{gen_range, step, Rng};
use vstd::multiset::Multiset;
use vstd::prelude::*;

verus! {

broadcast use {vstd::seq_lib::group_to_multiset_ensures, vstd::multiset::group_multiset_axioms};

/// From this number of groups on a group is put in its place by halving the
/// window; below it, by exchanging neighbours.
pub const BINARY_FROM: usize = 8;

/// The group at place `p` of the rank is known to weigh at least as much as
/// the group below it and at most as much as the group above it, as far as
/// those lie between the places `low` and `high`.
pub open spec fn placed(
    k: Knowledge,
    groups: Seq<Vec<usize>>,
    rank: Seq<usize>,
    p: int,
    low: int,
    high: int,
) -> bool {
    &&& p > low ==> known_at_most(k, groups[rank[p - 1] as int]@, groups[rank[p] as int]@)
    &&& p < high ==> known_at_most(k, groups[rank[p] as int]@, groups[rank[p + 1] as int]@)
}

/// The place from which a group is moved: the upper end of the window if the
/// group comes from above, else the lower end.
pub open spec fn source_place(from_up: bool, lighter_g_idx: usize, heavier_g_idx: usize) -> int {
    if from_up {
        heavier_g_idx as int
    } else {
        lighter_g_idx as int
    }
}

/// What putting a group in its place leaves behind: the group stands at some
/// place `p` of the window, the groups it passed have moved by one, and if
/// the work was finished the group is known to fit between its neighbours.
pub open spec fn replaced(
    before: Seq<usize>,
    after: Seq<usize>,
    k: Knowledge,
    groups: Seq<Vec<usize>>,
    from_up: bool,
    lighter_g_idx: usize,
    heavier_g_idx: usize,
    ok: bool,
) -> bool {
    exists|p: int|
        lighter_g_idx <= p <= heavier_g_idx && after == #[trigger] moved(
            before,
            source_place(from_up, lighter_g_idx, heavier_g_idx),
            p,
        ) && (ok ==> placed(k, groups, after, p, lighter_g_idx as int, heavier_g_idx as int))
}

/// What putting a group in its place finds and leaves behind: the rank, the
/// memory, the count of the comparisons sent, and whether the work was
/// finished.
#[verifier::ext_equal]
pub struct Ranked {
    pub rank: Seq<usize>,
    pub k: Knowledge,
    pub count: nat,
    pub ok: bool,
}

/// The list with the members at the places `i` and `i + 1` exchanged.
pub open spec fn swapped(rank: Seq<usize>, i: int) -> Seq<usize> {
    rank.update(i, rank[i + 1]).update(i + 1, rank[i])
}

/// Exchanging neighbours, as it follows from the memory, the budget and the
/// record of the oracle's answers, after `done` exchanges. The group on its
/// way is compared with its next neighbour. Found on the wrong side, the
/// two are exchanged and the work goes on with the memory and the count
/// that the comparison has left. The work ends with `true` at the first
/// neighbour found on the right side or of equal weight, and when the end of
/// the window is reached; it ends with `false` at the first comparison that
/// finds nothing.
pub open spec fn linear_run(
    k: Knowledge,
    lists: Seq<Seq<usize>>,
    rank: Seq<usize>,
    from_up: bool,
    low: int,
    high: int,
    done: nat,
    count: nat,
    max: nat,
    answers: Seq<Asked>,
) -> Ranked
    decreases high - low - done,
{
    if done >= high - low {
        Ranked { rank, k, count, ok: true }
    } else {
        let i = if from_up {
            high - 1 - done
        } else {
            low + done
        };
        let found = ask(
            k,
            lists[rank[i] as int],
            lists[rank[i + 1] as int],
            count,
            max,
            answers,
        );
        match found.res {
            BalanceResult::Right => linear_run(
                found.k,
                lists,
                swapped(rank, i),
                from_up,
                low,
                high,
                done + 1,
                found.count,
                max,
                answers,
            ),
            BalanceResult::Unknown => Ranked { rank, k: found.k, count: found.count, ok: false },
            _ => Ranked { rank, k: found.k, count: found.count, ok: true },
        }
    }
}

/// Halving the window, as it follows from the memory, the budget and the
/// record of the oracle's answers. `rest` is the rank without the group
/// `move_g`, which stood at the place `origin`; the group belongs at one of
/// the places from `low` to `high`. It is compared with the group in the
/// middle of the window: found at least as heavy, it belongs above, else
/// below. With the window closed the group goes in at `high`. The first
/// comparison that finds nothing puts it back at `origin`.
pub open spec fn binary_run(
    k: Knowledge,
    lists: Seq<Seq<usize>>,
    rest: Seq<usize>,
    move_g: usize,
    origin: int,
    low: int,
    high: int,
    count: nat,
    max: nat,
    answers: Seq<Asked>,
) -> Ranked
    decreases high - low,
{
    if high <= low {
        Ranked { rank: rest.insert(high, move_g), k, count, ok: true }
    } else {
        let m = low + (high - low - 1) / 2;
        let found = ask(k, lists[rest[m] as int], lists[move_g as int], count, max, answers);
        match found.res {
            BalanceResult::Unknown => Ranked {
                rank: rest.insert(origin, move_g),
                k: found.k,
                count: found.count,
                ok: false,
            },
            BalanceResult::Right => binary_run(
                found.k,
                lists,
                rest,
                move_g,
                origin,
                low,
                m,
                found.count,
                max,
                answers,
            ),
            _ => binary_run(
                found.k,
                lists,
                rest,
                move_g,
                origin,
                m + 1,
                high,
                found.count,
                max,
                answers,
            ),
        }
    }
}

/// Putting the group at one end of the window in its place, as it follows
/// from the memory, the budget and the record of the oracle's answers: by
/// exchanging neighbours with fewer than `BINARY_FROM` groups, else by
/// halving the window.
pub open spec fn rank_run(
    k: Knowledge,
    lists: Seq<Seq<usize>>,
    rank: Seq<usize>,
    from_up: bool,
    lighter_g_idx: usize,
    heavier_g_idx: usize,
    d: usize,
    count: nat,
    max: nat,
    answers: Seq<Asked>,
) -> Ranked {
    if d < BINARY_FROM {
        linear_run(
            k,
            lists,
            rank,
            from_up,
            lighter_g_idx as int,
            heavier_g_idx as int,
            0,
            count,
            max,
            answers,
        )
    } else {
        let origin = source_place(from_up, lighter_g_idx, heavier_g_idx);
        binary_run(
            k,
            lists,
            rank.remove(origin),
            rank[origin],
            origin,
            lighter_g_idx as int,
            heavier_g_idx as int,
            count,
            max,
            answers,
        )
    }
}

/// The place `p` shows that a group has been put in its place.
proof fn lemma_replaced_at(
    before: Seq<usize>,
    after: Seq<usize>,
    k: Knowledge,
    groups: Seq<Vec<usize>>,
    from_up: bool,
    lighter_g_idx: usize,
    heavier_g_idx: usize,
    ok: bool,
    p: int,
)
    requires
        lighter_g_idx <= p <= heavier_g_idx < before.len(),
        after == moved(before, source_place(from_up, lighter_g_idx, heavier_g_idx), p),
        ok ==> placed(k, groups, after, p, lighter_g_idx as int, heavier_g_idx as int),
    ensures
        replaced(before, after, k, groups, from_up, lighter_g_idx, heavier_g_idx, ok),
        same_outside(before, after, lighter_g_idx as int, heavier_g_idx as int),
{
    lemma_moved_stays_in_window(
        before,
        source_place(from_up, lighter_g_idx, heavier_g_idx),
        p,
        lighter_g_idx as int,
        heavier_g_idx as int,
    );
}

/// Puts the group at one end of the window of places from `lighter_g_idx`
/// to `heavier_g_idx` in its place by comparing it with its neighbour and
/// exchanging the two, as long as it is found on the wrong side. Stops with
/// `true` at the first neighbour that is on the right side, and with `false`
/// when a comparison finds nothing.
#[verifier::rlimit(60)]
pub fn update_rank_linear_search<O: Oracle>(
    rank: &mut Vec<usize>,
    groups: &Vec<Vec<usize>>,
    from_up: bool,
    lighter_g_idx: usize,
    heavier_g_idx: usize,
    interactor: &mut Interactor<O>,
    balancer: &mut Balancer,
) -> (ok: bool)
    requires
        old(balancer).wf(),
        old(interactor).wf(),
        groups_fit(groups@),
        rank_fits(old(rank)@, groups@.len()),
        lighter_g_idx < heavier_g_idx ==> heavier_g_idx < old(rank)@.len(),
    ensures
        final(balancer).wf(),
        grown_from(final(balancer)@, old(balancer)@),
        final(interactor).follows(old(interactor)),
        lighter_g_idx < heavier_g_idx ==> final(interactor).query_count - old(
            interactor,
        ).query_count <= heavier_g_idx - lighter_g_idx,
        lighter_g_idx >= heavier_g_idx ==> {
            &&& ok
            &&& final(rank)@ == old(rank)@
            &&& *final(balancer) == *old(balancer)
            &&& *final(interactor) == *old(interactor)
        },
        lighter_g_idx < heavier_g_idx ==> replaced(
            old(rank)@,
            final(rank)@,
            final(balancer)@,
            groups@,
            from_up,
            lighter_g_idx,
            heavier_g_idx,
            ok,
        ),
        same_outside(old(rank)@, final(rank)@, lighter_g_idx as int, heavier_g_idx as int),
        !ok ==> final(interactor).stalled_since(old(interactor)),
        forall|later: Seq<Asked>| #[trigger]
            continues(final(interactor).asked@, later) ==> linear_run(
                old(balancer)@,
                views(groups@),
                old(rank)@,
                from_up,
                lighter_g_idx as int,
                heavier_g_idx as int,
                0,
                old(interactor).query_count as nat,
                old(interactor).max_query_count as nat,
                later,
            ) == (Ranked {
                rank: final(rank)@,
                k: final(balancer)@,
                count: final(interactor).query_count as nat,
                ok,
            }),
{
    if lighter_g_idx >= heavier_g_idx {
        return true;
    }
    let ghost start = rank@;
    let ghost src = source_place(from_up, lighter_g_idx, heavier_g_idx);
    let count: usize = heavier_g_idx - lighter_g_idx;
    let mut done: usize = 0;
    proof {
        lemma_moved_same(start, src);
    }
    while done < count
        invariant
            done <= count,
            start == old(rank)@,
            count == heavier_g_idx - lighter_g_idx,
            lighter_g_idx < heavier_g_idx < start.len(),
            src == source_place(from_up, lighter_g_idx, heavier_g_idx),
            rank@.len() == start.len(),
            rank_fits(start, groups@.len()),
            rank_fits(rank@, groups@.len()),
            groups_fit(groups@),
            balancer.wf(),
            grown_from(balancer@, old(balancer)@),
            interactor.follows(old(interactor)),
            interactor.query_count - old(interactor).query_count <= done,
            forall|later: Seq<Asked>| #[trigger]
                continues(interactor.asked@, later) ==> linear_run(
                    old(balancer)@,
                    views(groups@),
                    start,
                    from_up,
                    lighter_g_idx as int,
                    heavier_g_idx as int,
                    0,
                    old(interactor).query_count as nat,
                    old(interactor).max_query_count as nat,
                    later,
                ) == linear_run(
                    balancer@,
                    views(groups@),
                    rank@,
                    from_up,
                    lighter_g_idx as int,
                    heavier_g_idx as int,
                    done as nat,
                    interactor.query_count as nat,
                    old(interactor).max_query_count as nat,
                    later,
                ),
            from_up ==> rank@ == moved(start, src, heavier_g_idx - done) && (done > 0
                ==> known_at_most(
                balancer@,
                groups@[rank@[heavier_g_idx - done] as int]@,
                groups@[rank@[heavier_g_idx - done + 1] as int]@,
            )),
            !from_up ==> rank@ == moved(start, src, lighter_g_idx + done) && (done > 0
                ==> known_at_most(
                balancer@,
                groups@[rank@[lighter_g_idx + done - 1] as int]@,
                groups@[rank@[lighter_g_idx + done] as int]@,
            )),
        decreases count - done,
    {
        let i: usize = if from_up {
            heavier_g_idx - 1 - done
        } else {
            lighter_g_idx + done
        };
        let ghost pos: int = if from_up {
            heavier_g_idx - done
        } else {
            lighter_g_idx + done
        };
        let ghost memory = balancer@;
        let ghost current = rank@;
        let below: usize = rank[i];
        let above: usize = rank[i + 1];
        let ghost met = *interactor;
        let res = balancer.get_result(&groups[below], &groups[above], interactor);
        proof {
            interactor.lemma_stall_stays(&met, old(interactor));
            assert forall|later: Seq<Asked>| #[trigger]
                continues(interactor.asked@, later) implies linear_run(
                old(balancer)@,
                views(groups@),
                start,
                from_up,
                lighter_g_idx as int,
                heavier_g_idx as int,
                0,
                old(interactor).query_count as nat,
                old(interactor).max_query_count as nat,
                later,
            ) == (match res {
                BalanceResult::Right => linear_run(
                    balancer@,
                    views(groups@),
                    swapped(current, i as int),
                    from_up,
                    lighter_g_idx as int,
                    heavier_g_idx as int,
                    (done + 1) as nat,
                    interactor.query_count as nat,
                    old(interactor).max_query_count as nat,
                    later,
                ),
                BalanceResult::Unknown => Ranked {
                    rank: current,
                    k: balancer@,
                    count: interactor.query_count as nat,
                    ok: false,
                },
                _ => Ranked {
                    rank: current,
                    k: balancer@,
                    count: interactor.query_count as nat,
                    ok: true,
                },
            }) by {
                lemma_continues(met.asked@, interactor.asked@, later);
                assert(continues(met.asked@, later));
            }
            if from_up {
                lemma_moved_down(start, src, pos);
            } else {
                lemma_moved_up(start, src, pos);
            }
            if done > 0 {
                if from_up {
                    lemma_known_stays(
                        memory,
                        balancer@,
                        groups@[current[pos] as int]@,
                        groups@[current[pos + 1] as int]@,
                    );
                } else {
                    lemma_known_stays(
                        memory,
                        balancer@,
                        groups@[current[pos - 1] as int]@,
                        groups@[current[pos] as int]@,
                    );
                }
            }
        }
        match res {
            BalanceResult::Left | BalanceResult::Equal => {
                proof {
                    assert(known_at_most(balancer@, groups@[below as int]@, groups@[above as int]@));
                    assert(placed(
                        balancer@,
                        groups@,
                        rank@,
                        pos,
                        lighter_g_idx as int,
                        heavier_g_idx as int,
                    ));
                    lemma_replaced_at(
                        start,
                        rank@,
                        balancer@,
                        groups@,
                        from_up,
                        lighter_g_idx,
                        heavier_g_idx,
                        true,
                        pos,
                    );
                }
                return true;
            },
            BalanceResult::Right => {
                rank[i] = above;
                rank[i + 1] = below;
                proof {
                    assert(rank@ =~= swapped(current, i as int));
                    assert(known_at_most(balancer@, groups@[above as int]@, groups@[below as int]@));
                    if from_up {
                        assert(rank@ =~= moved(start, src, pos - 1));
                    } else {
                        assert(rank@ =~= moved(start, src, pos + 1));
                    }
                    assert forall|j: int| 0 <= j < rank@.len() implies #[trigger] rank@[j]
                        < groups@.len() by {
                        if j != i && j != i + 1 {
                            assert(rank@[j] == current[j]);
                        }
                    }
                }
            },
            BalanceResult::Unknown => {
                proof {
                    lemma_replaced_at(
                        start,
                        rank@,
                        balancer@,
                        groups@,
                        from_up,
                        lighter_g_idx,
                        heavier_g_idx,
                        false,
                        pos,
                    );
                }
                return false;
            },
        }
        done += 1;
    }
    proof {
        let p: int = if from_up {
            lighter_g_idx as int
        } else {
            heavier_g_idx as int
        };
        assert(placed(balancer@, groups@, rank@, p, lighter_g_idx as int, heavier_g_idx as int));
        lemma_replaced_at(
            start,
            rank@,
            balancer@,
            groups@,
            from_up,
            lighter_g_idx,
            heavier_g_idx,
            true,
            p,
        );
    }
    true
}

/// Puts the group at one end of the window of places from `lighter_g_idx`
/// to `heavier_g_idx` in its place by taking it out and halving the window
/// with one comparison after the other. When a comparison finds nothing, the
/// group goes back where it was and the answer is `false`.
pub fn update_rank_binary_search<O: Oracle>(
    rank: &mut Vec<usize>,
    groups: &Vec<Vec<usize>>,
    from_up: bool,
    lighter_g_idx: usize,
    heavier_g_idx: usize,
    interactor: &mut Interactor<O>,
    balancer: &mut Balancer,
) -> (ok: bool)
    requires
        old(balancer).wf(),
        old(interactor).wf(),
        groups_fit(groups@),
        rank_fits(old(rank)@, groups@.len()),
        lighter_g_idx <= heavier_g_idx < old(rank)@.len(),
    ensures
        final(balancer).wf(),
        grown_from(final(balancer)@, old(balancer)@),
        final(interactor).follows(old(interactor)),
        final(interactor).query_count - old(interactor).query_count <= heavier_g_idx
            - lighter_g_idx,
        lighter_g_idx == heavier_g_idx ==> {
            &&& ok
            &&& final(rank)@ == old(rank)@
            &&& *final(balancer) == *old(balancer)
            &&& *final(interactor) == *old(interactor)
        },
        replaced(
            old(rank)@,
            final(rank)@,
            final(balancer)@,
            groups@,
            from_up,
            lighter_g_idx,
            heavier_g_idx,
            ok,
        ),
        !ok ==> final(rank)@ == old(rank)@,
        same_outside(old(rank)@, final(rank)@, lighter_g_idx as int, heavier_g_idx as int),
        !ok ==> final(interactor).stalled_since(old(interactor)),
        forall|later: Seq<Asked>| #[trigger]
            continues(final(interactor).asked@, later) ==> binary_run(
                old(balancer)@,
                views(groups@),
                old(rank)@.remove(source_place(from_up, lighter_g_idx, heavier_g_idx)),
                old(rank)@[source_place(from_up, lighter_g_idx, heavier_g_idx)],
                source_place(from_up, lighter_g_idx, heavier_g_idx),
                lighter_g_idx as int,
                heavier_g_idx as int,
                old(interactor).query_count as nat,
                old(interactor).max_query_count as nat,
                later,
            ) == (Ranked {
                rank: final(rank)@,
                k: final(balancer)@,
                count: final(interactor).query_count as nat,
                ok,
            }),
{
    let ghost start = rank@;
    let ghost src = source_place(from_up, lighter_g_idx, heavier_g_idx);
    let move_g_idx: usize = if from_up {
        heavier_g_idx
    } else {
        lighter_g_idx
    };
    let move_g: usize = rank[move_g_idx];
    rank.remove(move_g_idx);
    let ghost rest = rank@;
    proof {
        assert forall|j: int| 0 <= j < rest.len() implies #[trigger] rest[j] < groups@.len() by {
            if j < move_g_idx {
                assert(rest[j] == start[j]);
            } else {
                assert(rest[j] == start[j + 1]);
            }
        }
    }
    let mut lo: usize = lighter_g_idx;
    let mut hi: usize = heavier_g_idx;
    while hi > lo
        invariant
            lighter_g_idx <= lo <= hi <= heavier_g_idx < start.len(),
            rank@ == rest,
            start == old(rank)@,
            hi - lo == heavier_g_idx - lighter_g_idx ==> *balancer == *old(balancer)
                && *interactor == *old(interactor),
            rest == start.remove(src),
            rest.len() == start.len() - 1,
            src == move_g_idx,
            src == source_place(from_up, lighter_g_idx, heavier_g_idx),
            move_g == start[src],
            move_g < groups@.len(),
            rank_fits(rest, groups@.len()),
            groups_fit(groups@),
            balancer.wf(),
            grown_from(balancer@, old(balancer)@),
            interactor.follows(old(interactor)),
            interactor.query_count - old(interactor).query_count <= (heavier_g_idx
                - lighter_g_idx) - (hi - lo),
            forall|later: Seq<Asked>| #[trigger]
                continues(interactor.asked@, later) ==> binary_run(
                    old(balancer)@,
                    views(groups@),
                    rest,
                    move_g,
                    src,
                    lighter_g_idx as int,
                    heavier_g_idx as int,
                    old(interactor).query_count as nat,
                    old(interactor).max_query_count as nat,
                    later,
                ) == binary_run(
                    balancer@,
                    views(groups@),
                    rest,
                    move_g,
                    src,
                    lo as int,
                    hi as int,
                    interactor.query_count as nat,
                    old(interactor).max_query_count as nat,
                    later,
                ),
            lo > lighter_g_idx ==> known_at_most(
                balancer@,
                groups@[rest[lo - 1] as int]@,
                groups@[move_g as int]@,
            ),
            hi < heavier_g_idx ==> known_at_most(
                balancer@,
                groups@[move_g as int]@,
                groups@[rest[hi as int] as int]@,
            ),
        decreases hi - lo,
    {
        let m: usize = lo + (hi - lo - 1) / 2;
        let ghost memory = balancer@;
        let ghost met = *interactor;
        let res = balancer.get_result(&groups[rank[m]], &groups[move_g], interactor);
        proof {
            interactor.lemma_stall_stays(&met, old(interactor));
            assert forall|later: Seq<Asked>| #[trigger]
                continues(interactor.asked@, later) implies binary_run(
                old(balancer)@,
                views(groups@),
                rest,
                move_g,
                src,
                lighter_g_idx as int,
                heavier_g_idx as int,
                old(interactor).query_count as nat,
                old(interactor).max_query_count as nat,
                later,
            ) == (match res {
                BalanceResult::Unknown => Ranked {
                    rank: rest.insert(src, move_g),
                    k: balancer@,
                    count: interactor.query_count as nat,
                    ok: false,
                },
                BalanceResult::Right => binary_run(
                    balancer@,
                    views(groups@),
                    rest,
                    move_g,
                    src,
                    lo as int,
                    m as int,
                    interactor.query_count as nat,
                    old(interactor).max_query_count as nat,
                    later,
                ),
                _ => binary_run(
                    balancer@,
                    views(groups@),
                    rest,
                    move_g,
                    src,
                    m + 1,
                    hi as int,
                    interactor.query_count as nat,
                    old(interactor).max_query_count as nat,
                    later,
                ),
            }) by {
                lemma_continues(met.asked@, interactor.asked@, later);
                assert(continues(met.asked@, later));
            }
            if lo > lighter_g_idx {
                lemma_known_stays(
                    memory,
                    balancer@,
                    groups@[rest[lo - 1] as int]@,
                    groups@[move_g as int]@,
                );
            }
            if hi < heavier_g_idx {
                lemma_known_stays(
                    memory,
                    balancer@,
                    groups@[move_g as int]@,
                    groups@[rest[hi as int] as int]@,
                );
            }
        }
        match res {
            BalanceResult::Left | BalanceResult::Equal => {
                lo = m + 1;
            },
            BalanceResult::Right => {
                hi = m;
            },
            BalanceResult::Unknown => {
                rank.insert(move_g_idx, move_g);
                proof {
                    lemma_moved_same(start, src);
                    lemma_replaced_at(
                        start,
                        rank@,
                        balancer@,
                        groups@,
                        from_up,
                        lighter_g_idx,
                        heavier_g_idx,
                        false,
                        src,
                    );
                }
                return false;
            },
        }
    }
    rank.insert(hi, move_g);
    proof {
        assert(rank@ == moved(start, src, hi as int));
        if lighter_g_idx == heavier_g_idx {
            lemma_moved_same(start, src);
        }
        assert(placed(balancer@, groups@, rank@, hi as int, lighter_g_idx as int, heavier_g_idx as int))
            by {
            if hi > lighter_g_idx {
                assert(rank@[hi - 1] == rest[hi - 1]);
            }
            if hi < heavier_g_idx {
                assert(rank@[hi + 1] == rest[hi as int]);
            }
        }
        lemma_replaced_at(
            start,
            rank@,
            balancer@,
            groups@,
            from_up,
            lighter_g_idx,
            heavier_g_idx,
            true,
            hi as int,
        );
    }
    true
}

/// Puts the group whose weight has changed in its place within the window
/// of places from `lighter_g_idx` to `heavier_g_idx`: the group at the upper
/// end if `from_up`, else the group at the lower end. With few groups
/// neighbours are exchanged; with `BINARY_FROM` groups or more the window is
/// halved.
pub fn update_rank<O: Oracle>(
    rank: &mut Vec<usize>,
    groups: &Vec<Vec<usize>>,
    from_up: bool,
    lighter_g_idx: usize,
    heaviest_g_idx: usize,
    input: &Input,
    interactor: &mut Interactor<O>,
    balancer: &mut Balancer,
) -> (ok: bool)
    requires
        old(balancer).wf(),
        old(interactor).wf(),
        groups_fit(groups@),
        rank_fits(old(rank)@, groups@.len()),
        lighter_g_idx <= heaviest_g_idx < old(rank)@.len(),
    ensures
        final(balancer).wf(),
        grown_from(final(balancer)@, old(balancer)@),
        final(interactor).follows(old(interactor)),
        final(interactor).query_count - old(interactor).query_count <= heaviest_g_idx
            - lighter_g_idx,
        lighter_g_idx == heaviest_g_idx ==> {
            &&& ok
            &&& final(rank)@ == old(rank)@
            &&& *final(balancer) == *old(balancer)
            &&& *final(interactor) == *old(interactor)
        },
        replaced(
            old(rank)@,
            final(rank)@,
            final(balancer)@,
            groups@,
            from_up,
            lighter_g_idx,
            heaviest_g_idx,
            ok,
        ),
        same_outside(old(rank)@, final(rank)@, lighter_g_idx as int, heaviest_g_idx as int),
        !ok ==> final(interactor).stalled_since(old(interactor)),
        forall|later: Seq<Asked>| #[trigger]
            continues(final(interactor).asked@, later) ==> rank_run(
                old(balancer)@,
                views(groups@),
                old(rank)@,
                from_up,
                lighter_g_idx,
                heaviest_g_idx,
                input.d,
                old(interactor).query_count as nat,
                old(interactor).max_query_count as nat,
                later,
            ) == (Ranked {
                rank: final(rank)@,
                k: final(balancer)@,
                count: final(interactor).query_count as nat,
                ok,
            }),
{
    if input.d < BINARY_FROM {
        let ok = update_rank_linear_search(
            rank,
            groups,
            from_up,
            lighter_g_idx,
            heaviest_g_idx,
            interactor,
            balancer,
        );
        proof {
            if lighter_g_idx == heaviest_g_idx {
                let src = source_place(from_up, lighter_g_idx, heaviest_g_idx);
                lemma_moved_same(rank@, src);
                lemma_replaced_at(
                    old(rank)@,
                    rank@,
                    balancer@,
                    groups@,
                    from_up,
                    lighter_g_idx,
                    heaviest_g_idx,
                    true,
                    src,
                );
            }
        }
        ok
    } else {
        update_rank_binary_search(
            rank,
            groups,
            from_up,
            lighter_g_idx,
            heaviest_g_idx,
            interactor,
            balancer,
        )
    }
}

/// The members of a list that names groups are still group names when they
/// are put in another order.
proof fn lemma_same_members_fit(a: Seq<usize>, b: Seq<usize>, d: nat)
    requires
        a.to_multiset() == b.to_multiset(),
        rank_fits(a, d),
    ensures
        rank_fits(b, d),
        a.len() == b.len(),
{
    assert(a.to_multiset().len() == a.len());
    assert(b.to_multiset().len() == b.len());
    assert forall|i: int| 0 <= i < b.len() implies #[trigger] b[i] < d by {
        assert(b.contains(b[i]));
        assert(b.to_multiset().count(b[i]) > 0);
        assert(a.contains(b[i]));
        let j = choose|j: int| 0 <= j < a.len() && a[j] == b[i];
        assert(a[j] < d);
    }
}

/// Every group of the list is known to weigh at most as much as the next.
pub open spec fn ordered(k: Knowledge, groups: Seq<Vec<usize>>, rank: Seq<usize>) -> bool {
    forall|i: int|
        0 <= i < rank.len() - 1 ==> known_at_most(
            k,
            groups[(#[trigger] rank[i]) as int]@,
            groups[rank[i + 1] as int]@,
        )
}

/// Every group of the list is known to weigh at most as much as the group
/// `pivot`, if `below`, and at least as much, if not.
spec fn all_beside(
    k: Knowledge,
    groups: Seq<Vec<usize>>,
    list: Seq<usize>,
    pivot: usize,
    below: bool,
) -> bool {
    forall|j: int|
        0 <= j < list.len() ==> if below {
            known_at_most(k, groups[(#[trigger] list[j]) as int]@, groups[pivot as int]@)
        } else {
            known_at_most(k, groups[pivot as int]@, groups[list[j] as int]@)
        }
}

/// What a memory knows of a list and a pivot, a grown memory knows too.
proof fn lemma_beside_stays(
    before: Knowledge,
    after: Knowledge,
    groups: Seq<Vec<usize>>,
    list: Seq<usize>,
    pivot: usize,
    below: bool,
)
    requires
        grown_from(after, before),
        all_beside(before, groups, list, pivot, below),
    ensures
        all_beside(after, groups, list, pivot, below),
{
    assert forall|j: int| 0 <= j < list.len() implies if below {
        known_at_most(after, groups[(#[trigger] list[j]) as int]@, groups[pivot as int]@)
    } else {
        known_at_most(after, groups[pivot as int]@, groups[list[j] as int]@)
    } by {
        if below {
            lemma_known_stays(before, after, groups[list[j] as int]@, groups[pivot as int]@);
        } else {
            lemma_known_stays(before, after, groups[pivot as int]@, groups[list[j] as int]@);
        }
    }
}

/// A list that a memory knows to be ordered, a grown memory knows to be
/// ordered too.
pub proof fn lemma_ordered_stays(
    before: Knowledge,
    after: Knowledge,
    groups: Seq<Vec<usize>>,
    rank: Seq<usize>,
)
    requires
        grown_from(after, before),
        ordered(before, groups, rank),
    ensures
        ordered(after, groups, rank),
{
    assert forall|i: int| 0 <= i < rank.len() - 1 implies known_at_most(
        after,
        groups[(#[trigger] rank[i]) as int]@,
        groups[rank[i + 1] as int]@,
    ) by {
        lemma_known_stays(before, after, groups[rank[i] as int]@, groups[rank[i + 1] as int]@);
    }
}

/// An ordered list of groups below a pivot, the pivot, and an ordered list
/// of groups above it are an ordered list.
proof fn lemma_ordered_joined(
    k: Knowledge,
    groups: Seq<Vec<usize>>,
    lower: Seq<usize>,
    pivot: usize,
    upper: Seq<usize>,
)
    requires
        ordered(k, groups, lower),
        ordered(k, groups, upper),
        all_beside(k, groups, lower, pivot, true),
        all_beside(k, groups, upper, pivot, false),
    ensures
        ordered(k, groups, lower.push(pivot) + upper),
{
    let all = lower.push(pivot) + upper;
    assert forall|i: int| 0 <= i < all.len() - 1 implies known_at_most(
        k,
        groups[(#[trigger] all[i]) as int]@,
        groups[all[i + 1] as int]@,
    ) by {
        if i + 1 < lower.len() {
            assert(all[i] == lower[i] && all[i + 1] == lower[i + 1]);
        } else if i + 1 == lower.len() {
            assert(all[i] == lower[i] && all[i + 1] == pivot);
        } else if i == lower.len() {
            assert(all[i] == pivot && all[i + 1] == upper[0]);
        } else {
            let j = i - lower.len() - 1;
            assert(all[i] == upper[j] && all[i + 1] == upper[j + 1]);
        }
    }
}

/// What is known of every member of a list is known of every member of a
/// list with the same members.
proof fn lemma_beside_same_members(
    k: Knowledge,
    groups: Seq<Vec<usize>>,
    a: Seq<usize>,
    b: Seq<usize>,
    pivot: usize,
    below: bool,
)
    requires
        a.to_multiset() == b.to_multiset(),
        all_beside(k, groups, a, pivot, below),
    ensures
        all_beside(k, groups, b, pivot, below),
{
    assert forall|j: int| 0 <= j < b.len() implies if below {
        known_at_most(k, groups[(#[trigger] b[j]) as int]@, groups[pivot as int]@)
    } else {
        known_at_most(k, groups[pivot as int]@, groups[b[j] as int]@)
    } by {
        assert(b.contains(b[j]));
        assert(b.to_multiset().count(b[j]) > 0);
        assert(a.contains(b[j]));
        let w = choose|w: int| 0 <= w < a.len() && a[w] == b[j];
        assert(a[w] == b[j]);
    }
}

/// What comparing the named groups with a pivot leaves behind: the groups
/// found lighter than the pivot, the others that were compared, those that
/// were not compared, whether a comparison found nothing, the memory, and
/// the count of the comparisons sent.
#[verifier::ext_equal]
pub struct Parted {
    pub lower: Seq<usize>,
    pub upper: Seq<usize>,
    pub rest: Seq<usize>,
    pub stopped: bool,
    pub k: Knowledge,
    pub count: nat,
}

/// Comparing the named groups with the one at `pivot_at`, from the place `i`
/// on, as it follows from the memory, the budget and the record of the
/// oracle's answers. A group that the pivot is found heavier than goes to
/// the lower list; one that the pivot is found lighter than, or as heavy as,
/// goes to the upper list. The first comparison that finds nothing stops the
/// work: that group and all after it go to the rest, and nothing more is
/// compared.
pub open spec fn part_run(
    lists: Seq<Seq<usize>>,
    targets: Seq<usize>,
    pivot_at: int,
    i: int,
    so_far: Parted,
    max: nat,
    answers: Seq<Asked>,
) -> Parted
    decreases targets.len() - i,
{
    if i >= targets.len() {
        so_far
    } else if i == pivot_at {
        part_run(lists, targets, pivot_at, i + 1, so_far, max, answers)
    } else if so_far.stopped {
        part_run(
            lists,
            targets,
            pivot_at,
            i + 1,
            Parted { rest: so_far.rest.push(targets[i]), ..so_far },
            max,
            answers,
        )
    } else {
        let found = ask(
            so_far.k,
            lists[targets[pivot_at] as int],
            lists[targets[i] as int],
            so_far.count,
            max,
            answers,
        );
        let next = match found.res {
            BalanceResult::Right => Parted {
                lower: so_far.lower.push(targets[i]),
                k: found.k,
                count: found.count,
                ..so_far
            },
            BalanceResult::Unknown => Parted {
                rest: so_far.rest.push(targets[i]),
                stopped: true,
                k: found.k,
                count: found.count,
                ..so_far
            },
            _ => Parted {
                upper: so_far.upper.push(targets[i]),
                k: found.k,
                count: found.count,
                ..so_far
            },
        };
        part_run(lists, targets, pivot_at, i + 1, next, max, answers)
    }
}

/// The state in which the comparing with a pivot begins.
pub open spec fn unparted(k: Knowledge, count: nat) -> Parted {
    Parted {
        lower: Seq::empty(),
        upper: Seq::empty(),
        rest: Seq::empty(),
        stopped: false,
        k,
        count,
    }
}

/// Comparing with a pivot puts each group but the pivot in one of the three
/// lists.
pub proof fn lemma_part_sizes(
    lists: Seq<Seq<usize>>,
    targets: Seq<usize>,
    pivot_at: int,
    i: int,
    so_far: Parted,
    max: nat,
    answers: Seq<Asked>,
)
    requires
        0 <= i <= targets.len(),
    ensures
        ({
            let parted = part_run(lists, targets, pivot_at, i, so_far, max, answers);
            parted.lower.len() + parted.upper.len() + parted.rest.len() == so_far.lower.len()
                + so_far.upper.len() + so_far.rest.len() + targets.len() - i - (if i <= pivot_at
                < targets.len() {
                1int
            } else {
                0int
            })
        }),
    decreases targets.len() - i,
{
    if i >= targets.len() {
    } else if i == pivot_at {
        lemma_part_sizes(lists, targets, pivot_at, i + 1, so_far, max, answers);
    } else if so_far.stopped {
        lemma_part_sizes(
            lists,
            targets,
            pivot_at,
            i + 1,
            Parted { rest: so_far.rest.push(targets[i]), ..so_far },
            max,
            answers,
        );
    } else {
        let found = ask(
            so_far.k,
            lists[targets[pivot_at] as int],
            lists[targets[i] as int],
            so_far.count,
            max,
            answers,
        );
        let next = match found.res {
            BalanceResult::Right => Parted {
                lower: so_far.lower.push(targets[i]),
                k: found.k,
                count: found.count,
                ..so_far
            },
            BalanceResult::Unknown => Parted {
                rest: so_far.rest.push(targets[i]),
                stopped: true,
                k: found.k,
                count: found.count,
                ..so_far
            },
            _ => Parted {
                upper: so_far.upper.push(targets[i]),
                k: found.k,
                count: found.count,
                ..so_far
            },
        };
        lemma_part_sizes(lists, targets, pivot_at, i + 1, next, max, answers);
    }
}

/// The place that a generator in state `s` draws in a list of `len` members.
pub open spec fn drawn_place(s: u64, len: nat) -> int
    recommends
        len > 0,
{
    (step(s) as int) % (len as int)
}

/// What ordering groups leaves behind: the order found, the memory, the
/// count of the comparisons sent, and the state of the generator.
#[verifier::ext_equal]
pub struct Sorted {
    pub rank: Seq<usize>,
    pub k: Knowledge,
    pub count: nat,
    pub state: u64,
}

/// Ordering the named groups, as it follows from the memory, the budget, the
/// state of the generator and the record of the oracle's answers. A list of
/// at most one group is left as it is, and nothing is drawn. Else the pivot
/// is drawn, the others are compared with it, the lower list is ordered,
/// then the upper list, and the order is: the lower groups, the pivot, the
/// upper groups, and last the groups that were not compared.
pub open spec fn sort_run(
    k: Knowledge,
    lists: Seq<Seq<usize>>,
    targets: Seq<usize>,
    s: u64,
    count: nat,
    max: nat,
    answers: Seq<Asked>,
) -> Sorted
    decreases targets.len(),
    via sort_run_ends
{
    if targets.len() <= 1 {
        Sorted { rank: targets, k, count, state: s }
    } else {
        let pivot_at = drawn_place(s, targets.len());
        let parted = part_run(lists, targets, pivot_at, 0, unparted(k, count), max, answers);
        let lower = sort_run(parted.k, lists, parted.lower, step(s), parted.count, max, answers);
        let upper = sort_run(lower.k, lists, parted.upper, lower.state, lower.count, max, answers);
        Sorted {
            rank: lower.rank.push(targets[pivot_at]) + upper.rank + parted.rest,
            k: upper.k,
            count: upper.count,
            state: upper.state,
        }
    }
}

#[via_fn]
proof fn sort_run_ends(
    k: Knowledge,
    lists: Seq<Seq<usize>>,
    targets: Seq<usize>,
    s: u64,
    count: nat,
    max: nat,
    answers: Seq<Asked>,
) {
    if targets.len() > 1 {
        let pivot_at = drawn_place(s, targets.len());
        lemma_part_sizes(lists, targets, pivot_at, 0, unparted(k, count), max, answers);
    }
}

/// The list of all groups in the order of their numbers.
pub open spec fn all_groups(d: nat) -> Seq<usize> {
    Seq::new(d, |g: int| g as usize)
}

/// Orders the named groups by weight as far as comparisons tell: one group,
/// picked by chance, is compared with each of the others; those found
/// lighter are ordered among themselves and come before it, the others are
/// ordered among themselves and come after it. Once a comparison finds
/// nothing, the groups not yet compared come last, in the order they had.
fn q_sort<O: Oracle>(
    targets: Vec<usize>,
    groups: &Vec<Vec<usize>>,
    interactor: &mut Interactor<O>,
    balancer: &mut Balancer,
    rng: &mut Rng,
) -> (sorted: Vec<usize>)
    requires
        old(balancer).wf(),
        old(interactor).wf(),
        groups_fit(groups@),
        rank_fits(targets@, groups@.len()),
    ensures
        final(balancer).wf(),
        grown_from(final(balancer)@, old(balancer)@),
        final(interactor).follows(old(interactor)),
        sorted@.to_multiset() == targets@.to_multiset(),
        !final(interactor).stalled_since(old(interactor)) ==> ordered(
            final(balancer)@,
            groups@,
            sorted@,
        ),
        targets@.len() <= 1 ==> {
            &&& sorted@ == targets@
            &&& *final(balancer) == *old(balancer)
            &&& *final(interactor) == *old(interactor)
            &&& *final(rng) == *old(rng)
        },
        forall|later: Seq<Asked>| #[trigger]
            continues(final(interactor).asked@, later) ==> sort_run(
                old(balancer)@,
                views(groups@),
                targets@,
                old(rng).state,
                old(interactor).query_count as nat,
                old(interactor).max_query_count as nat,
                later,
            ) == (Sorted {
                rank: sorted@,
                k: final(balancer)@,
                count: final(interactor).query_count as nat,
                state: final(rng).state,
            }),
    decreases targets@.len(),
{
    if targets.len() <= 1 {
        return targets;
    }
    let ghost d = groups@.len();
    let ghost lists = views(groups@);
    let ghost begun = unparted(old(balancer)@, old(interactor).query_count as nat);
    let ghost mx = old(interactor).max_query_count as nat;
    let pivot_at: usize = gen_range(rng, 0, targets.len());
    let pivot_g_idx: usize = targets[pivot_at];
    let mut left_targets: Vec<usize> = Vec::new();
    let mut right_targets: Vec<usize> = Vec::new();
    let mut rest: Vec<usize> = Vec::new();
    let mut stopped = false;
    let mut i: usize = 0;
    proof {
        assert(targets@.take(0) =~= Seq::<usize>::empty());
    }
    while i < targets.len()
        invariant
            i <= targets.len(),
            pivot_at < targets.len(),
            pivot_g_idx == targets@[pivot_at as int],
            d == groups@.len(),
            groups_fit(groups@),
            rank_fits(targets@, d),
            rank_fits(left_targets@, d),
            rank_fits(right_targets@, d),
            rank_fits(rest@, d),
            balancer.wf(),
            grown_from(balancer@, old(balancer)@),
            interactor.follows(old(interactor)),
            pivot_g_idx < d,
            stopped ==> interactor.stalled_since(old(interactor)),
            !stopped ==> rest@.len() == 0,
            lists == views(groups@),
            begun == unparted(old(balancer)@, old(interactor).query_count as nat),
            mx == old(interactor).max_query_count,
            forall|later: Seq<Asked>| #[trigger]
                continues(interactor.asked@, later) ==> part_run(
                    lists,
                    targets@,
                    pivot_at as int,
                    0,
                    begun,
                    mx,
                    later,
                ) == part_run(
                    lists,
                    targets@,
                    pivot_at as int,
                    i as int,
                    Parted {
                        lower: left_targets@,
                        upper: right_targets@,
                        rest: rest@,
                        stopped,
                        k: balancer@,
                        count: interactor.query_count as nat,
                    },
                    mx,
                    later,
                ),
            all_beside(balancer@, groups@, left_targets@, pivot_g_idx, true),
            all_beside(balancer@, groups@, right_targets@, pivot_g_idx, false),
            left_targets@.len() + right_targets@.len() + rest@.len() + (if pivot_at < i {
                1int
            } else {
                0int
            }) == i,
            left_targets@.to_multiset().add(right_targets@.to_multiset()).add(
                rest@.to_multiset(),
            ).add(
                if pivot_at < i {
                    Multiset::singleton(pivot_g_idx)
                } else {
                    Multiset::empty()
                },
            ) == targets@.take(i as int).to_multiset(),
        decreases targets.len() - i,
    {
        let g_idx: usize = targets[i];
        let ghost seen = targets@.take(i as int);
        proof {
            assert(targets@.take(i + 1) =~= seen.push(g_idx));
        }
        if i == pivot_at {
            proof {
                assert(left_targets@.to_multiset().add(right_targets@.to_multiset()).add(
                    rest@.to_multiset(),
                ).add(Multiset::singleton(pivot_g_idx)) =~= seen.push(g_idx).to_multiset());
            }
            i += 1;
            continue ;
        }
        let ghost left_before = left_targets@;
        let ghost right_before = right_targets@;
        let ghost rest_before = rest@;
        if stopped {
            rest.push(g_idx);
        } else {
            let ghost memory = balancer@;
            let ghost met = *interactor;
            let res = balancer.get_result(&groups[pivot_g_idx], &groups[g_idx], interactor);
            proof {
                interactor.lemma_stall_stays(&met, old(interactor));
                lemma_beside_stays(memory, balancer@, groups@, left_before, pivot_g_idx, true);
                lemma_beside_stays(memory, balancer@, groups@, right_before, pivot_g_idx, false);
                assert forall|later: Seq<Asked>| #[trigger]
                    continues(interactor.asked@, later) implies continues(met.asked@, later) && ask(
                    memory,
                    lists[targets@[pivot_at as int] as int],
                    lists[targets@[i as int] as int],
                    met.query_count as nat,
                    mx,
                    later,
                ) == (Finding { res, k: balancer@, count: interactor.query_count as nat }) by {
                    lemma_continues(met.asked@, interactor.asked@, later);
                }
            }
            match res {
                BalanceResult::Left => right_targets.push(g_idx),
                BalanceResult::Right => left_targets.push(g_idx),
                BalanceResult::Equal => right_targets.push(g_idx),
                BalanceResult::Unknown => {
                    stopped = true;
                    rest.push(g_idx);
                },
            }
            proof {
                assert forall|j: int| 0 <= j < left_targets@.len() implies known_at_most(
                    balancer@,
                    groups@[(#[trigger] left_targets@[j]) as int]@,
                    groups@[pivot_g_idx as int]@,
                ) by {
                    if j < left_before.len() {
                        assert(left_targets@[j] == left_before[j]);
                    }
                }
                assert forall|j: int| 0 <= j < right_targets@.len() implies known_at_most(
                    balancer@,
                    groups@[pivot_g_idx as int]@,
                    groups@[(#[trigger] right_targets@[j]) as int]@,
                ) by {
                    if j < right_before.len() {
                        assert(right_targets@[j] == right_before[j]);
                    }
                }
            }
        }
        i += 1;
        proof {
            let tail = if pivot_at < i {
                Multiset::singleton(pivot_g_idx)
            } else {
                Multiset::empty()
            };
            assert(left_targets@.to_multiset().add(right_targets@.to_multiset()).add(
                rest@.to_multiset(),
            ).add(tail) =~= left_before.to_multiset().add(right_before.to_multiset()).add(
                rest_before.to_multiset(),
            ).add(tail).insert(g_idx));
        }
    }
    proof {
        assert(targets@.take(i as int) =~= targets@);
    }
    let ghost left_seq = left_targets@;
    let ghost right_seq = right_targets@;
    let ghost parted = *interactor;
    let ghost parted_memory = balancer@;
    let ghost parted_state = rng.state;
    let ghost found = Parted {
        lower: left_seq,
        upper: right_seq,
        rest: rest@,
        stopped,
        k: parted_memory,
        count: parted.query_count as nat,
    };
    let mut sorted = q_sort(left_targets, groups, interactor, balancer, rng);
    let ghost halfway = *interactor;
    let ghost halfway_memory = balancer@;
    let ghost halfway_state = rng.state;
    let mut upper = q_sort(right_targets, groups, interactor, balancer, rng);
    let ghost lower_seq = sorted@;
    let ghost upper_seq = upper@;
    let ghost rest_seq = rest@;
    sorted.push(pivot_g_idx);
    sorted.append(&mut upper);
    sorted.append(&mut rest);
    proof {
        halfway.lemma_stall_stays(&parted, old(interactor));
        interactor.lemma_stall_stays(&halfway, old(interactor));
        interactor.lemma_stall_stays(&halfway, &parted);
        if !interactor.stalled_since(old(interactor)) {
            assert(rest_seq.len() == 0);
            assert(!halfway.stalled_since(&parted));
            assert(!interactor.stalled_since(&halfway));
            lemma_ordered_stays(halfway_memory, balancer@, groups@, lower_seq);
            lemma_beside_stays(parted_memory, balancer@, groups@, left_seq, pivot_g_idx, true);
            lemma_beside_stays(parted_memory, balancer@, groups@, right_seq, pivot_g_idx, false);
            lemma_beside_same_members(balancer@, groups@, left_seq, lower_seq, pivot_g_idx, true);
            lemma_beside_same_members(balancer@, groups@, right_seq, upper_seq, pivot_g_idx, false);
            lemma_ordered_joined(balancer@, groups@, lower_seq, pivot_g_idx, upper_seq);
            assert(sorted@ =~= lower_seq.push(pivot_g_idx) + upper_seq);
        }
        assert(sorted@ =~= lower_seq.push(pivot_g_idx) + upper_seq + rest_seq);
        vstd::seq_lib::lemma_multiset_commutative(lower_seq.push(pivot_g_idx), upper_seq);
        vstd::seq_lib::lemma_multiset_commutative(lower_seq.push(pivot_g_idx) + upper_seq, rest_seq);
        assert(sorted@.to_multiset() =~= left_seq.to_multiset().add(right_seq.to_multiset()).add(
            rest_seq.to_multiset(),
        ).add(Multiset::singleton(pivot_g_idx)));
        assert forall|later: Seq<Asked>| #[trigger]
            continues(interactor.asked@, later) implies sort_run(
            old(balancer)@,
            lists,
            targets@,
            old(rng).state,
            old(interactor).query_count as nat,
            mx,
            later,
        ) == (Sorted {
            rank: sorted@,
            k: balancer@,
            count: interactor.query_count as nat,
            state: rng.state,
        }) by {
            lemma_continues(halfway.asked@, interactor.asked@, later);
            lemma_continues(parted.asked@, halfway.asked@, later);
            assert(continues(parted.asked@, later));
            assert(continues(halfway.asked@, later));
            assert(part_run(lists, targets@, pivot_at as int, 0, begun, mx, later) == found);
            assert(sort_run(
                parted_memory,
                lists,
                left_seq,
                parted_state,
                parted.query_count as nat,
                mx,
                later,
            ) == (Sorted {
                rank: lower_seq,
                k: halfway_memory,
                count: halfway.query_count as nat,
                state: halfway_state,
            }));
        }
    }
    sorted
}

/// Finds the first rank of the groups: all groups, ordered by weight as far
/// as comparisons tell.
pub fn sort_groups<O: Oracle>(
    groups: &Vec<Vec<usize>>,
    input: &Input,
    interactor: &mut Interactor<O>,
    balancer: &mut Balancer,
    rng: &mut Rng,
) -> (rank: Vec<usize>)
    requires
        old(balancer).wf(),
        old(interactor).wf(),
        groups_fit(groups@),
    ensures
        final(balancer).wf(),
        grown_from(final(balancer)@, old(balancer)@),
        final(interactor).follows(old(interactor)),
        is_rank(rank@, groups@.len()),
        !final(interactor).stalled_since(old(interactor)) ==> ordered(
            final(balancer)@,
            groups@,
            rank@,
        ),
        groups@.len() <= 1 ==> {
            &&& *final(balancer) == *old(balancer)
            &&& *final(interactor) == *old(interactor)
            &&& *final(rng) == *old(rng)
        },
        forall|later: Seq<Asked>| #[trigger]
            continues(final(interactor).asked@, later) ==> sort_run(
                old(balancer)@,
                views(groups@),
                all_groups(groups@.len()),
                old(rng).state,
                old(interactor).query_count as nat,
                old(interactor).max_query_count as nat,
                later,
            ) == (Sorted {
                rank: rank@,
                k: final(balancer)@,
                count: final(interactor).query_count as nat,
                state: final(rng).state,
            }),
{
    let mut targets: Vec<usize> = Vec::new();
    let mut g: usize = 0;
    while g < groups.len()
        invariant
            g <= groups.len(),
            targets@.len() == g,
            forall|j: int| 0 <= j < g ==> targets@[j] == j,
        decreases groups.len() - g,
    {
        targets.push(g);
        g += 1;
    }
    let ghost all = targets@;
    let rank = q_sort(targets, groups, interactor, balancer, rng);
    proof {
        assert(all =~= all_groups(groups@.len()));
        assert(all.no_duplicates());
        assert(rank_fits(all, groups@.len()));
        lemma_same_members_fit(all, rank@, groups@.len());
        all.lemma_multiset_has_no_duplicates();
        rank@.lemma_multiset_has_no_duplicates_conv();
    }
    rank
}

} // verus!
