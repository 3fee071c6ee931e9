//! The order of search results: the most recent thread first.

use crate::sequences::{lemma_subrange_contains, lemma_take_contains};
use vstd::prelude::*;

verus! {

/// Of two threads, each with the date of its first message, the first is
/// ranked higher: it is the more recent one, or of two equally recent ones
/// that of the smaller number.
pub open spec fn newer(a: (u32, usize), b: (u32, usize)) -> bool {
    a.0 > b.0 || (a.0 == b.0 && a.1 < b.1)
}

/// Every thread is ranked higher than all that follow it.
pub open spec fn ranked(list: Seq<(u32, usize)>) -> bool {
    forall|i: int, j: int| 0 <= i < j < list.len() ==> newer(list[i], list[j])
}

/// No thread is listed twice.
pub open spec fn distinct(list: Seq<(u32, usize)>) -> bool {
    forall|i: int, j: int| 0 <= i < j < list.len() ==> list[i] != list[j]
}

/// Whether the first of two threads is ranked higher.
pub fn is_newer(a: (u32, usize), b: (u32, usize)) -> (r: bool)
    ensures
        r == newer(a, b),
{
    a.0 > b.0 || (a.0 == b.0 && a.1 < b.1)
}

/// Merges two ranked lists that have no thread in common into one.
pub fn merge_ranked(a: &Vec<(u32, usize)>, b: &Vec<(u32, usize)>) -> (out: Vec<(u32, usize)>)
    requires
        ranked(a@),
        ranked(b@),
        forall|i: int, j: int| 0 <= i < a@.len() && 0 <= j < b@.len() ==> a@[i] != b@[j],
        a@.len() + b@.len() <= usize::MAX,
    ensures
        ranked(out@),
        out@.len() == a@.len() + b@.len(),
        forall|x: (u32, usize)| out@.contains(x) <==> (a@.contains(x) || b@.contains(x)),
{
    let mut out: Vec<(u32, usize)> = Vec::new();
    let mut i: usize = 0;
    let mut j: usize = 0;
    while i < a.len() || j < b.len()
        invariant
            i <= a@.len(),
            j <= b@.len(),
            out@.len() == i + j,
            a@.len() + b@.len() <= usize::MAX,
            ranked(a@),
            ranked(b@),
            forall|i: int, j: int| 0 <= i < a@.len() && 0 <= j < b@.len() ==> a@[i] != b@[j],
            ranked(out@),
            forall|k: int, p: int|
                0 <= k < out@.len() && i <= p < a@.len() ==> newer(#[trigger] out@[k], #[trigger] a@[p]),
            forall|k: int, q: int|
                0 <= k < out@.len() && j <= q < b@.len() ==> newer(#[trigger] out@[k], #[trigger] b@[q]),
            forall|x: (u32, usize)|
                out@.contains(x) <==> (a@.take(i as int).contains(x) || b@.take(j as int).contains(
                    x,
                )),
        decreases a@.len() - i + b@.len() - j,
    {
        let ghost before = out@;
        let take_left = if i >= a.len() {
            false
        } else if j >= b.len() {
            true
        } else {
            is_newer(a[i], b[j])
        };
        if take_left {
            let next = a[i];
            out.push(next);
            proof {
                assert forall|x: (u32, usize)|
                    out@.contains(x) <==> (a@.take(i + 1).contains(x) || b@.take(j as int).contains(
                        x,
                    )) by {
                    lemma_take_contains(a@, i as int, x);
                    lemma_take_contains(out@, before.len() as int, x);
                    assert(out@.take(before.len() as int) =~= before);
                    assert(out@.take(before.len() as int + 1) =~= out@);
                }
                assert forall|k: int, q: int|
                    0 <= k < out@.len() && j <= q < b@.len() implies newer(
                    #[trigger] out@[k],
                    #[trigger] b@[q],
                ) by {
                    if k == before.len() {
                        if q > j {
                            assert(newer(b@[j as int], b@[q]));
                        }
                    } else {
                        assert(out@[k] == before[k]);
                    }
                }
                assert forall|k: int, p: int|
                    0 <= k < out@.len() && i + 1 <= p < a@.len() implies newer(
                    #[trigger] out@[k],
                    #[trigger] a@[p],
                ) by {
                    if k == before.len() {
                        assert(newer(a@[i as int], a@[p]));
                    } else {
                        assert(out@[k] == before[k]);
                    }
                }
                assert forall|k: int, l: int| 0 <= k < l < out@.len() implies newer(
                    out@[k],
                    out@[l],
                ) by {
                    assert(out@[k] == before[k]);
                    if l < before.len() {
                        assert(out@[l] == before[l]);
                    } else {
                        assert(newer(before[k], a@[i as int]));
                    }
                }
            }
            i += 1;
        } else {
            let next = b[j];
            out.push(next);
            proof {
                assert forall|x: (u32, usize)|
                    out@.contains(x) <==> (a@.take(i as int).contains(x) || b@.take(j + 1).contains(
                        x,
                    )) by {
                    lemma_take_contains(b@, j as int, x);
                    lemma_take_contains(out@, before.len() as int, x);
                    assert(out@.take(before.len() as int) =~= before);
                    assert(out@.take(before.len() as int + 1) =~= out@);
                }
                assert forall|k: int, p: int|
                    0 <= k < out@.len() && i <= p < a@.len() implies newer(
                    #[trigger] out@[k],
                    #[trigger] a@[p],
                ) by {
                    if k == before.len() {
                        assert(a@[i as int] != b@[j as int]);
                        assert(newer(b@[j as int], a@[i as int]));
                        if p > i {
                            assert(newer(a@[i as int], a@[p]));
                        }
                    } else {
                        assert(out@[k] == before[k]);
                    }
                }
                assert forall|k: int, q: int|
                    0 <= k < out@.len() && j + 1 <= q < b@.len() implies newer(
                    #[trigger] out@[k],
                    #[trigger] b@[q],
                ) by {
                    if k == before.len() {
                        assert(newer(b@[j as int], b@[q]));
                    } else {
                        assert(out@[k] == before[k]);
                    }
                }
                assert forall|k: int, l: int| 0 <= k < l < out@.len() implies newer(
                    out@[k],
                    out@[l],
                ) by {
                    assert(out@[k] == before[k]);
                    if l < before.len() {
                        assert(out@[l] == before[l]);
                    } else {
                        assert(newer(before[k], b@[j as int]));
                    }
                }
            }
            j += 1;
        }
    }
    proof {
        assert(a@.take(i as int) =~= a@);
        assert(b@.take(j as int) =~= b@);
    }
    out
}

/// The threads of `list` from position `lo` up to `hi`, ranked.
pub fn rank_range(list: &Vec<(u32, usize)>, lo: usize, hi: usize) -> (out: Vec<(u32, usize)>)
    requires
        lo <= hi <= list@.len(),
        distinct(list@),
    ensures
        ranked(out@),
        out@.len() == hi - lo,
        forall|x: (u32, usize)| out@.contains(x) <==> list@.subrange(lo as int, hi as int).contains(x),
    decreases hi - lo,
{
    if hi - lo == 0 {
        let out: Vec<(u32, usize)> = Vec::new();
        proof {
            assert(list@.subrange(lo as int, hi as int) =~= Seq::<(u32, usize)>::empty());
        }
        out
    } else if hi - lo == 1 {
        let mut out: Vec<(u32, usize)> = Vec::new();
        out.push(list[lo]);
        proof {
            assert(list@.subrange(lo as int, hi as int) =~= out@);
        }
        out
    } else {
        let mid = lo + (hi - lo) / 2;
        let left = rank_range(list, lo, mid);
        let right = rank_range(list, mid, hi);
        proof {
            assert forall|i: int, j: int|
                0 <= i < left@.len() && 0 <= j < right@.len() implies left@[i] != right@[j] by {
                let first = list@.subrange(lo as int, mid as int);
                let second = list@.subrange(mid as int, hi as int);
                assert(left@.contains(left@[i]));
                assert(right@.contains(right@[j]));
                let p = choose|p: int| 0 <= p < first.len() && first[p] == left@[i];
                let q = choose|q: int| 0 <= q < second.len() && second[q] == right@[j];
                assert(list@[lo + p] != list@[mid + q]);
            }
        }
        let out = merge_ranked(&left, &right);
        proof {
            assert forall|x: (u32, usize)|
                out@.contains(x) <==> list@.subrange(lo as int, hi as int).contains(x) by {
                lemma_subrange_contains(list@, lo as int, mid as int, hi as int, x);
            }
        }
        out
    }
}

/// The threads of `list`, the most recent first and equally recent ones by
/// their number.
pub fn rank(list: &Vec<(u32, usize)>) -> (out: Vec<(u32, usize)>)
    requires
        distinct(list@),
    ensures
        ranked(out@),
        out@.len() == list@.len(),
        forall|x: (u32, usize)| out@.contains(x) <==> list@.contains(x),
{
    proof {
        assert(list@.subrange(0, list@.len() as int) =~= list@);
    }
    rank_range(list, 0, list.len())
}

} // verus!
