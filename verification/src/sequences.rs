//! Facts about membership in parts of a sequence.

use vstd::prelude::*;

verus! {

/// What is among the first `i + 1` elements is among the first `i` or is
/// the one after them.
pub proof fn lemma_take_contains<T>(list: Seq<T>, i: int, x: T)
    requires
        0 <= i < list.len(),
    ensures
        list.take(i + 1).contains(x) <==> (list.take(i).contains(x) || list[i] == x),
{
    let a = list.take(i);
    let b = list.take(i + 1);
    if a.contains(x) {
        let k = choose|k: int| 0 <= k < a.len() && a[k] == x;
        assert(b[k] == x);
    }
    assert(b[i] == list[i]);
    if b.contains(x) {
        let k = choose|k: int| 0 <= k < b.len() && b[k] == x;
        if k < i {
            assert(a[k] == x);
        }
    }
}

/// What is in a range is in its first part or in its second.
pub proof fn lemma_subrange_contains<T>(list: Seq<T>, lo: int, mid: int, hi: int, x: T)
    requires
        0 <= lo <= mid <= hi <= list.len(),
    ensures
        list.subrange(lo, hi).contains(x) <==> (list.subrange(lo, mid).contains(x)
            || list.subrange(mid, hi).contains(x)),
{
    let whole = list.subrange(lo, hi);
    let first = list.subrange(lo, mid);
    let second = list.subrange(mid, hi);
    if whole.contains(x) {
        let k = choose|k: int| 0 <= k < whole.len() && whole[k] == x;
        if k < mid - lo {
            assert(first[k] == x);
        } else {
            assert(second[k - (mid - lo)] == x);
        }
    }
    if first.contains(x) {
        let k = choose|k: int| 0 <= k < first.len() && first[k] == x;
        assert(whole[k] == x);
    }
    if second.contains(x) {
        let k = choose|k: int| 0 <= k < second.len() && second[k] == x;
        assert(whole[k + (mid - lo)] == x);
    }
}

} // verus!
