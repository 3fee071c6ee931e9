//! Threads: the groups of messages that reply links connect.

use crate::deserialization::{root_of, well_formed, Message};
use crate::merge::strictly_ascending;
use crate::thread_dsu::{lemma_make_set_wf, lemma_union_sets_ascending, member_seqs, ThreadDSU};
use vstd::prelude::*;

verus! {

/// Message `m` is a member of thread `t`.
pub open spec fn in_thread(threads: Seq<Seq<usize>>, t: int, m: usize) -> bool {
    0 <= t < threads.len() && threads[t].contains(m)
}

/// Message `m` is a member of some thread.
pub open spec fn has_thread(threads: Seq<Seq<usize>>, m: usize) -> bool {
    exists|t: int| #[trigger] in_thread(threads, t, m)
}

/// The threads stand in the order of their first messages.
pub open spec fn in_order_of_first(threads: Seq<Seq<usize>>) -> bool {
    forall|t: int, u: int|
        #![trigger threads[t], threads[u]]
        0 <= t < u < threads.len() ==> threads[t].len() > 0 && threads[u].len() > 0
            && threads[t][0] < threads[u][0]
}

/// `threads` are the threads of `messages`, numbered in the order of their
/// first messages.
pub open spec fn is_threading(threads: Seq<Seq<usize>>, messages: Seq<Message>) -> bool {
    is_grouping(threads, messages) && in_order_of_first(threads)
}

/// `group` is one of `groups`.
pub open spec fn is_one_of(groups: Seq<Seq<usize>>, group: Seq<usize>) -> bool {
    exists|j: int| 0 <= j < groups.len() && #[trigger] groups[j] == group
}

/// `threads` group the messages by reply chains: every thread lists, in
/// ascending order, the messages of one reply chain, which are those with
/// one first message; every message is in a thread, and no chain has two
/// threads.
pub open spec fn is_grouping(threads: Seq<Seq<usize>>, messages: Seq<Message>) -> bool {
    &&& forall|t: int|
        0 <= t < threads.len() ==> (#[trigger] threads[t]).len() > 0 && strictly_ascending(
            threads[t],
        )
    &&& forall|t: int, i: int|
        #![trigger threads[t][i]]
        0 <= t < threads.len() && 0 <= i < threads[t].len() ==> threads[t][i] < messages.len()
            && root_of(messages, threads[t][i] as int) == root_of(messages, threads[t][0] as int)
    &&& forall|m: usize| m < messages.len() ==> #[trigger] has_thread(threads, m)
    &&& forall|t: int, u: int|
        #![trigger threads[t], threads[u]]
        0 <= t < threads.len() && 0 <= u < threads.len() && root_of(
            messages,
            threads[t][0] as int,
        ) == root_of(messages, threads[u][0] as int) ==> t == u
}

/// Groups the messages into threads by their reply links, and numbers the
/// threads in the order of their first messages.
pub fn reconstruct_threads(messages: &Vec<Message>) -> (threads: Vec<Vec<usize>>)
    requires
        well_formed(messages@),
    ensures
        is_threading(member_seqs(threads@), messages@),
{
    let groups = connected_groups(messages);
    let ghost unordered = member_seqs(groups@);
    proof {
        assert forall|j: int| 0 <= j < groups@.len() implies (#[trigger] groups@[j])@.len() > 0
            && groups@[j]@[0] < messages@.len() by {
            assert(unordered[j].len() > 0);
            assert(unordered[j][0] < messages@.len());
        }
        assert forall|j: int, k: int|
            0 <= j < groups@.len() && 0 <= k < groups@.len() && j != k implies (
        #[trigger] groups@[j])@[0] != (#[trigger] groups@[k])@[0] by {
            assert(unordered[j][0] == groups@[j]@[0] && unordered[k][0] == groups@[k]@[0]);
            assert(unordered[j].len() > 0 && unordered[k].len() > 0);
        }
    }
    let threads = order_by_first(groups, messages.len());
    proof {
        let ordered = member_seqs(threads@);
        assert forall|t: int| 0 <= t < ordered.len() implies (#[trigger] ordered[t]).len() > 0
            && strictly_ascending(ordered[t]) by {
            assert(is_one_of(unordered, ordered[t]));
        }
        assert forall|t: int, i: int|
            #![trigger ordered[t][i]]
            0 <= t < ordered.len() && 0 <= i < ordered[t].len() implies ordered[t][i]
            < messages@.len() && root_of(messages@, ordered[t][i] as int) == root_of(
            messages@,
            ordered[t][0] as int,
        ) by {
            assert(is_one_of(unordered, ordered[t]));
            let j = choose|j: int| 0 <= j < unordered.len() && #[trigger] unordered[j] == ordered[t];
            assert(unordered[j][i] < messages@.len());
        }
        assert forall|m: usize| m < messages@.len() implies #[trigger] has_thread(ordered, m) by {
            assert(has_thread(unordered, m));
            let j = choose|j: int| #[trigger] in_thread(unordered, j, m);
            assert(is_one_of(ordered, unordered[j]));
            let t = choose|t: int| 0 <= t < ordered.len() && #[trigger] ordered[t] == unordered[j];
            assert(in_thread(ordered, t, m));
        }
        assert forall|t: int, u: int|
            #![trigger ordered[t], ordered[u]]
            0 <= t < ordered.len() && 0 <= u < ordered.len() && root_of(
                messages@,
                ordered[t][0] as int,
            ) == root_of(messages@, ordered[u][0] as int) implies t == u by {
            assert(is_one_of(unordered, ordered[t]));
            assert(is_one_of(unordered, ordered[u]));
            let j = choose|j: int| 0 <= j < unordered.len() && #[trigger] unordered[j] == ordered[t];
            let k = choose|k: int| 0 <= k < unordered.len() && #[trigger] unordered[k] == ordered[u];
            assert(j == k);
            if t < u {
                assert(ordered[t][0] < ordered[u][0]);
            }
            if u < t {
                assert(ordered[u][0] < ordered[t][0]);
            }
        }
    }
    threads
}

/// The groups in the order of their first members. Every group must have a
/// first member below `n`, and no two groups the same one.
pub fn order_by_first(groups: Vec<Vec<usize>>, n: usize) -> (ordered: Vec<Vec<usize>>)
    requires
        forall|j: int|
            0 <= j < groups@.len() ==> (#[trigger] groups@[j])@.len() > 0 && groups@[j]@[0] < n,
        forall|j: int, k: int|
            0 <= j < groups@.len() && 0 <= k < groups@.len() && j != k ==> (
            #[trigger] groups@[j])@[0] != (#[trigger] groups@[k])@[0],
    ensures
        in_order_of_first(member_seqs(ordered@)),
        forall|t: int|
            0 <= t < ordered@.len() ==> is_one_of(
                member_seqs(groups@),
                #[trigger] member_seqs(ordered@)[t],
            ),
        forall|j: int|
            0 <= j < groups@.len() ==> is_one_of(
                member_seqs(ordered@),
                #[trigger] member_seqs(groups@)[j],
            ),
{
    let ghost given = groups@;
    let mut by_first: Vec<Vec<usize>> = Vec::new();
    let mut k: usize = 0;
    while k < n
        invariant
            k <= n,
            by_first@.len() == k,
            forall|i: int| 0 <= i < k ==> (#[trigger] by_first@[i])@.len() == 0,
        decreases n - k,
    {
        by_first.push(Vec::new());
        k += 1;
    }
    for group in it: groups
        invariant
            it.seq() == given,
            by_first@.len() == n,
            forall|j: int|
                0 <= j < given.len() ==> (#[trigger] given[j])@.len() > 0 && given[j]@[0] < n,
            forall|j: int, k: int|
                0 <= j < given.len() && 0 <= k < given.len() && j != k ==> (#[trigger] given[j])@[0]
                    != (#[trigger] given[k])@[0],
            forall|j: int|
                0 <= j < it.index() ==> by_first@[(#[trigger] given[j])@[0] as int]@ == given[j]@,
            forall|i: int|
                0 <= i < n && (#[trigger] by_first@[i])@.len() > 0 ==> by_first@[i]@[0] == i
                    && is_one_of(member_seqs(given), by_first@[i]@),
    {
        let ghost before = by_first@;
        let ghost at = it.index();
        proof {
            assert(group@ == given[at]@);
        }
        let first = group[0];
        by_first.set(first, group);
        proof {
            assert forall|j: int| 0 <= j < at + 1 implies by_first@[(#[trigger] given[j])@[0] as int]@
                == given[j]@ by {
                if j < at {
                    assert(given[j]@[0] != given[at]@[0]);
                    assert(by_first@[given[j]@[0] as int] == before[given[j]@[0] as int]);
                }
            }
            assert forall|i: int|
                0 <= i < n && (#[trigger] by_first@[i])@.len() > 0 implies by_first@[i]@[0] == i
                && is_one_of(member_seqs(given), by_first@[i]@) by {
                if i == first {
                    assert(member_seqs(given)[at] == by_first@[i]@);
                } else {
                    assert(by_first@[i] == before[i]);
                }
            }
        }
    }
    let ghost placed = by_first@;
    let mut ordered: Vec<Vec<usize>> = Vec::new();
    for group in it: by_first
        invariant
            it.seq() == placed,
            placed.len() == n,
            forall|i: int|
                0 <= i < n && (#[trigger] placed[i])@.len() > 0 ==> placed[i]@[0] == i && is_one_of(
                    member_seqs(given),
                    placed[i]@,
                ),
            forall|t: int|
                0 <= t < ordered@.len() ==> (#[trigger] ordered@[t])@.len() > 0 && ordered@[t]@[0]
                    < it.index() && ordered@[t]@ == placed[ordered@[t]@[0] as int]@,
            forall|t: int, u: int|
                0 <= t < u < ordered@.len() ==> (#[trigger] ordered@[t])@[0] < (
                #[trigger] ordered@[u])@[0],
            forall|i: int|
                0 <= i < it.index() && (#[trigger] placed[i])@.len() > 0 ==> is_one_of(
                    member_seqs(ordered@),
                    placed[i]@,
                ),
    {
        let ghost before = ordered@;
        let ghost at = it.index();
        proof {
            assert(group@ == placed[at]@);
        }
        if group.len() > 0 {
            ordered.push(group);
            proof {
                assert(ordered@[before.len() as int]@ == placed[at]@);
                assert forall|t: int, u: int| 0 <= t < u < ordered@.len() implies (
                #[trigger] ordered@[t])@[0] < (#[trigger] ordered@[u])@[0] by {
                    assert(ordered@[t] == before[t]);
                    if u < before.len() {
                        assert(ordered@[u] == before[u]);
                    }
                }
                assert forall|i: int|
                    0 <= i < at + 1 && (#[trigger] placed[i])@.len() > 0 implies is_one_of(
                    member_seqs(ordered@),
                    placed[i]@,
                ) by {
                    if i < at {
                        assert(is_one_of(member_seqs(before), placed[i]@));
                        let s = choose|s: int|
                            0 <= s < member_seqs(before).len() && #[trigger] member_seqs(before)[s]
                                == placed[i]@;
                        assert(member_seqs(ordered@)[s] == placed[i]@);
                    } else {
                        assert(member_seqs(ordered@)[before.len() as int] == placed[i]@);
                    }
                }
                assert forall|t: int| 0 <= t < ordered@.len() implies (#[trigger] ordered@[t])@.len()
                    > 0 && ordered@[t]@[0] < at + 1 && ordered@[t]@ == placed[ordered@[t]@[0] as int]@ by {
                    if t < before.len() {
                        assert(ordered@[t] == before[t]);
                    }
                }
            }
        }
    }
    proof {
        let result = member_seqs(ordered@);
        assert forall|t: int, u: int|
            #![trigger result[t], result[u]]
            0 <= t < u < result.len() implies result[t].len() > 0 && result[u].len() > 0
            && result[t][0] < result[u][0] by {
            assert(ordered@[t]@[0] < ordered@[u]@[0]);
        }
        assert forall|t: int| 0 <= t < ordered@.len() implies is_one_of(
            member_seqs(given),
            #[trigger] result[t],
        ) by {
            let first = ordered@[t]@[0] as int;
            assert(placed[first]@.len() > 0);
        }
        assert forall|j: int| 0 <= j < given.len() implies is_one_of(
            result,
            #[trigger] member_seqs(given)[j],
        ) by {
            let first = given[j]@[0] as int;
            assert(placed[first]@ == given[j]@);
            assert(placed[first]@.len() > 0);
        }
    }
    ordered
}

/// Groups the messages by their reply links. The order of the groups is not
/// fixed.
fn connected_groups(messages: &Vec<Message>) -> (threads: Vec<Vec<usize>>)
    requires
        well_formed(messages@),
    ensures
        is_grouping(member_seqs(threads@), messages@),
{
    let mut dsu = ThreadDSU::new();
    let n = messages.len();
    let mut k: usize = 0;
    while k < n
        invariant
            k <= n,
            n == messages.len(),
            well_formed(messages@),
            dsu@.wf(),
            dsu@.all_singletons(),
            forall|v: usize| dsu@.contains(v) <==> v < k,
        decreases n - k,
    {
        let ghost before = dsu@;
        proof {
            assert(messages@[k as int].id == k);
            assert(!before.contains(k));
            lemma_make_set_wf(before, k);
        }
        dsu.make_set(messages[k].id);
        proof {
            assert forall|v: usize| dsu@.contains(v) <==> v < k + 1 by {
                assert(before.contains(v) <==> v < k);
            }
            assert forall|r: usize| #[trigger] dsu@.threads.contains_key(r) implies dsu@.threads[r]
                == seq![r] by {
                if r != k {
                    assert(before.threads.contains_key(r));
                }
            }
        }
        k += 1;
    }
    proof {
        assert forall|r: usize| #[trigger] dsu@.threads.contains_key(r) implies strictly_ascending(
            dsu@.threads[r],
        ) by {
            assert(dsu@.threads[r] == seq![r]);
        }
        assert forall|v: usize| v < n implies #[trigger] dsu@.parents[v] == v by {
            assert(dsu@.contains(v));
            let r = dsu@.parents[v];
            assert(dsu@.threads[r] == seq![r]);
            assert(dsu@.threads[r].contains(v));
        }
    }
    k = 0;
    while k < n
        invariant
            k <= n,
            n == messages.len(),
            well_formed(messages@),
            dsu@.wf(),
            dsu@.ascending(),
            dsu@.settled_below(k as int),
            forall|v: usize| dsu@.contains(v) <==> v < n,
            forall|v: usize|
                v < n ==> #[trigger] dsu@.parents[v] == if v < k {
                    root_of(messages@, v as int)
                } else {
                    v as int
                },
        decreases n - k,
    {
        let ghost before = dsu@;
        proof {
            assert(messages@[k as int].id == k);
        }
        match messages[k].reply_to_message_id {
            Some(reply_to) => {
                proof {
                    assert(reply_to < k);
                    assert(before.contains(reply_to) && before.contains(k));
                    lemma_union_sets_ascending(before, reply_to, k, k as int);
                    assert(before.parents[reply_to] == root_of(messages@, reply_to as int));
                }
                dsu.union_sets(reply_to, k);
                proof {
                    assert(dsu@.parents == before.parents.insert(k, before.parents[reply_to]));
                    assert forall|v: usize| dsu@.contains(v) <==> v < n by {
                        assert(before.contains(v) <==> v < n);
                    }
                    assert forall|v: usize| v < n implies #[trigger] dsu@.parents[v] == if v < k
                        + 1 {
                        root_of(messages@, v as int)
                    } else {
                        v as int
                    } by {
                        if v != k {
                            assert(dsu@.parents[v] == before.parents[v]);
                        }
                    }
                }
            },
            None => {
                proof {
                    assert forall|r: usize, i: int|
                        #![trigger before.threads[r][i]]
                        before.threads.contains_key(r) && before.threads[r].len() > 1 && 0 <= i
                            < before.threads[r].len() implies before.threads[r][i] < k + 1 by {
                        assert(before.threads[r][i] < k);
                    }
                    assert forall|v: usize| v < n implies #[trigger] dsu@.parents[v] == if v < k
                        + 1 {
                        root_of(messages@, v as int)
                    } else {
                        v as int
                    } by {
                        assert(dsu@.parents[v] == before.parents[v]);
                    }
                }
            },
        }
        k += 1;
    }
    let threads = dsu.get_threads();
    proof {
        let state = dsu@;
        let groups = member_seqs(threads@);
        let roots = choose|roots: Seq<usize>| #[trigger] state.enumerated_by(roots, groups);
        assert forall|t: int, i: int|
            #![trigger groups[t][i]]
            0 <= t < groups.len() && 0 <= i < groups[t].len() implies groups[t][i] < messages@.len()
            && root_of(messages@, groups[t][i] as int) == roots[t] by {
            assert(roots.contains(roots[t]));
            assert(groups[t] == state.threads[roots[t]]);
            let m = state.threads[roots[t]][i];
            assert(state.contains(m));
            assert(state.parents[m] == roots[t]);
        }
        assert forall|t: int| 0 <= t < groups.len() implies (#[trigger] groups[t]).len() > 0
            && strictly_ascending(groups[t]) by {
            assert(roots.contains(roots[t]));
            assert(groups[t] == state.threads[roots[t]]);
            assert(state.threads[roots[t]].contains(roots[t]));
        }
        assert forall|t: int, i: int|
            #![trigger groups[t][i]]
            0 <= t < groups.len() && 0 <= i < groups[t].len() implies groups[t][i] < messages@.len()
            && root_of(messages@, groups[t][i] as int) == root_of(
            messages@,
            groups[t][0] as int,
        ) by {
            assert(root_of(messages@, groups[t][i] as int) == roots[t]);
            assert(root_of(messages@, groups[t][0] as int) == roots[t]);
        }
        assert forall|m: usize| m < messages@.len() implies #[trigger] has_thread(groups, m) by {
            assert(state.contains(m));
            let r = state.parents[m];
            assert(state.threads.contains_key(r));
            assert(roots.contains(r));
            let t = choose|t: int| 0 <= t < roots.len() && roots[t] == r;
            assert(groups[t] == state.threads[roots[t]]);
            assert(in_thread(groups, t, m));
        }
        assert forall|t: int, u: int|
            #![trigger groups[t], groups[u]]
            0 <= t < groups.len() && 0 <= u < groups.len() && root_of(
                messages@,
                groups[t][0] as int,
            ) == root_of(messages@, groups[u][0] as int) implies t == u by {
            assert(root_of(messages@, groups[t][0] as int) == roots[t]);
            assert(root_of(messages@, groups[u][0] as int) == roots[u]);
        }
    }
    threads
}

} // verus!
