//! Merging of sorted posting lists: union and intersection.
//!
//! Both merges walk two sequences once, from the front. On ascending,
//! duplicate-free inputs they compute the set union and the set intersection,
//! again ascending and duplicate-free.

use vstd::prelude::*;

verus! {

/// Every element is smaller than all that follow it.
pub open spec fn strictly_ascending(s: Seq<usize>) -> bool {
    forall|i: int, j: int| 0 <= i < j < s.len() ==> s[i] < s[j]
}

/// The union merge: the smaller head is emitted and its side advanced; equal
/// heads are emitted once and both sides advanced; when one side is empty the
/// other is emitted as it stands.
pub open spec fn merge_or(l: Seq<usize>, r: Seq<usize>) -> Seq<usize>
    decreases l.len() + r.len(),
{
    if l.len() == 0 {
        r
    } else if r.len() == 0 {
        l
    } else if l[0] < r[0] {
        seq![l[0]] + merge_or(l.skip(1), r)
    } else if l[0] == r[0] {
        seq![l[0]] + merge_or(l.skip(1), r.skip(1))
    } else {
        seq![r[0]] + merge_or(l, r.skip(1))
    }
}

/// The intersection merge: the side with the smaller head is advanced and
/// nothing emitted; equal heads are emitted once and both sides advanced; it
/// ends as soon as one side is empty.
pub open spec fn merge_and(l: Seq<usize>, r: Seq<usize>) -> Seq<usize>
    decreases l.len() + r.len(),
{
    if l.len() == 0 || r.len() == 0 {
        Seq::empty()
    } else if l[0] < r[0] {
        merge_and(l.skip(1), r)
    } else if l[0] == r[0] {
        seq![l[0]] + merge_and(l.skip(1), r.skip(1))
    } else {
        merge_and(l, r.skip(1))
    }
}

/// What one step of the union merge leaves of the left input: all but the
/// head when the head is emitted, which it is unless the right head is
/// smaller.
pub open spec fn left_after_or(l: Seq<usize>, r: Seq<usize>) -> Seq<usize> {
    if l.len() > 0 && (r.len() == 0 || l[0] <= r[0]) {
        l.skip(1)
    } else {
        l
    }
}

/// What one step of the union merge leaves of the right input.
pub open spec fn right_after_or(l: Seq<usize>, r: Seq<usize>) -> Seq<usize> {
    if r.len() > 0 && (l.len() == 0 || r[0] <= l[0]) {
        r.skip(1)
    } else {
        r
    }
}

/// What one step of the intersection merge leaves of the two inputs: the
/// smaller heads are passed over until two heads are equal, which are then
/// taken, or until one input is used up.
pub open spec fn rests_after_and(l: Seq<usize>, r: Seq<usize>) -> (Seq<usize>, Seq<usize>)
    decreases l.len() + r.len(),
{
    if l.len() == 0 || r.len() == 0 {
        (l, r)
    } else if l[0] < r[0] {
        rests_after_and(l.skip(1), r)
    } else if l[0] == r[0] {
        (l.skip(1), r.skip(1))
    } else {
        rests_after_and(l, r.skip(1))
    }
}

proof fn lemma_contains_head_or_tail(s: Seq<usize>, x: usize)
    requires
        s.len() > 0,
    ensures
        s.contains(x) <==> (x == s[0] || s.skip(1).contains(x)),
{
    if s.contains(x) {
        let i = choose|i: int| 0 <= i < s.len() && s[i] == x;
        if i > 0 {
            assert(s.skip(1)[i - 1] == x);
        }
    }
    if s.skip(1).contains(x) {
        let i = choose|i: int| 0 <= i < s.skip(1).len() && s.skip(1)[i] == x;
        assert(s[i + 1] == x);
    }
}

proof fn lemma_contains_prepend(h: usize, t: Seq<usize>, x: usize)
    ensures
        (seq![h] + t).contains(x) <==> (x == h || t.contains(x)),
{
    let s = seq![h] + t;
    assert(s[0] == h);
    assert(s.skip(1) =~= t);
    lemma_contains_head_or_tail(s, x);
}

proof fn lemma_ascending_tail(s: Seq<usize>)
    requires
        strictly_ascending(s),
        s.len() > 0,
    ensures
        strictly_ascending(s.skip(1)),
        forall|x: usize| #[trigger] s.skip(1).contains(x) ==> s[0] < x,
{
    let t = s.skip(1);
    assert forall|i: int, j: int| 0 <= i < j < t.len() implies t[i] < t[j] by {
        assert(s[i + 1] < s[j + 1]);
    }
    assert forall|x: usize| #[trigger] t.contains(x) implies s[0] < x by {
        let i = choose|i: int| 0 <= i < t.len() && t[i] == x;
        assert(s[0] < s[i + 1]);
    }
}

proof fn lemma_ascending_prepend(h: usize, t: Seq<usize>)
    requires
        strictly_ascending(t),
        forall|x: usize| #[trigger] t.contains(x) ==> h < x,
    ensures
        strictly_ascending(seq![h] + t),
{
    let s = seq![h] + t;
    assert forall|i: int, j: int| 0 <= i < j < s.len() implies s[i] < s[j] by {
        assert(s[j] == t[j - 1]);
        assert(t.contains(t[j - 1]));
        if i > 0 {
            assert(s[i] == t[i - 1]);
        }
    }
}

/// The union merge emits exactly the elements of its inputs, whatever their
/// order.
pub proof fn lemma_merge_or_contains(l: Seq<usize>, r: Seq<usize>, x: usize)
    ensures
        merge_or(l, r).contains(x) <==> (l.contains(x) || r.contains(x)),
    decreases l.len() + r.len(),
{
    if l.len() == 0 {
        assert(!l.contains(x));
    } else if r.len() == 0 {
        assert(!r.contains(x));
    } else {
        lemma_contains_head_or_tail(l, x);
        lemma_contains_head_or_tail(r, x);
        if l[0] < r[0] {
            lemma_merge_or_contains(l.skip(1), r, x);
            lemma_contains_prepend(l[0], merge_or(l.skip(1), r), x);
        } else if l[0] == r[0] {
            lemma_merge_or_contains(l.skip(1), r.skip(1), x);
            lemma_contains_prepend(l[0], merge_or(l.skip(1), r.skip(1)), x);
        } else {
            lemma_merge_or_contains(l, r.skip(1), x);
            lemma_contains_prepend(r[0], merge_or(l, r.skip(1)), x);
        }
    }
}

/// On ascending, duplicate-free inputs the intersection merge emits exactly
/// the elements that both inputs hold.
pub proof fn lemma_merge_and_contains(l: Seq<usize>, r: Seq<usize>, x: usize)
    requires
        strictly_ascending(l),
        strictly_ascending(r),
    ensures
        merge_and(l, r).contains(x) <==> (l.contains(x) && r.contains(x)),
    decreases l.len() + r.len(),
{
    if l.len() == 0 || r.len() == 0 {
        assert(!merge_and(l, r).contains(x));
        if l.len() == 0 {
            assert(!l.contains(x));
        } else {
            assert(!r.contains(x));
        }
    } else {
        lemma_ascending_tail(l);
        lemma_ascending_tail(r);
        lemma_contains_head_or_tail(l, x);
        lemma_contains_head_or_tail(r, x);
        if l[0] < r[0] {
            lemma_merge_and_contains(l.skip(1), r, x);
        } else if l[0] == r[0] {
            lemma_merge_and_contains(l.skip(1), r.skip(1), x);
            lemma_contains_prepend(l[0], merge_and(l.skip(1), r.skip(1)), x);
        } else {
            lemma_merge_and_contains(l, r.skip(1), x);
        }
    }
}

/// Union of ascending, duplicate-free inputs: the output is ascending and
/// duplicate-free, and holds an element exactly when one of the inputs does.
pub proof fn lemma_merge_or_ascending(l: Seq<usize>, r: Seq<usize>)
    requires
        strictly_ascending(l),
        strictly_ascending(r),
    ensures
        strictly_ascending(merge_or(l, r)),
        merge_or(l, r).no_duplicates(),
        merge_or(l, r).to_set() == l.to_set().union(r.to_set()),
    decreases l.len() + r.len(),
{
    if l.len() > 0 && r.len() > 0 {
        lemma_ascending_tail(l);
        lemma_ascending_tail(r);
        let (h, t) = if l[0] < r[0] {
            (l[0], merge_or(l.skip(1), r))
        } else if l[0] == r[0] {
            (l[0], merge_or(l.skip(1), r.skip(1)))
        } else {
            (r[0], merge_or(l, r.skip(1)))
        };
        if l[0] < r[0] {
            lemma_merge_or_ascending(l.skip(1), r);
        } else if l[0] == r[0] {
            lemma_merge_or_ascending(l.skip(1), r.skip(1));
        } else {
            lemma_merge_or_ascending(l, r.skip(1));
        }
        assert forall|x: usize| #[trigger] t.contains(x) implies h < x by {
            lemma_contains_head_or_tail(l, x);
            lemma_contains_head_or_tail(r, x);
            if l[0] < r[0] {
                lemma_merge_or_contains(l.skip(1), r, x);
            } else if l[0] == r[0] {
                lemma_merge_or_contains(l.skip(1), r.skip(1), x);
            } else {
                lemma_merge_or_contains(l, r.skip(1), x);
            }
        }
        lemma_ascending_prepend(h, t);
    }
    lemma_ascending_no_duplicates(merge_or(l, r));
    assert forall|x: usize|
        merge_or(l, r).to_set().contains(x) <==> l.to_set().union(r.to_set()).contains(x) by {
        lemma_merge_or_contains(l, r, x);
    }
    assert(merge_or(l, r).to_set() =~= l.to_set().union(r.to_set()));
}

/// Intersection of ascending, duplicate-free inputs: the output is ascending
/// and duplicate-free, and holds an element exactly when both inputs do.
pub proof fn lemma_merge_and_ascending(l: Seq<usize>, r: Seq<usize>)
    requires
        strictly_ascending(l),
        strictly_ascending(r),
    ensures
        strictly_ascending(merge_and(l, r)),
        merge_and(l, r).no_duplicates(),
        merge_and(l, r).to_set() == l.to_set().intersect(r.to_set()),
    decreases l.len() + r.len(),
{
    if l.len() > 0 && r.len() > 0 {
        lemma_ascending_tail(l);
        lemma_ascending_tail(r);
        if l[0] < r[0] {
            lemma_merge_and_ascending(l.skip(1), r);
        } else if l[0] == r[0] {
            let t = merge_and(l.skip(1), r.skip(1));
            lemma_merge_and_ascending(l.skip(1), r.skip(1));
            assert forall|x: usize| #[trigger] t.contains(x) implies l[0] < x by {
                lemma_merge_and_contains(l.skip(1), r.skip(1), x);
            }
            lemma_ascending_prepend(l[0], t);
        } else {
            lemma_merge_and_ascending(l, r.skip(1));
        }
    }
    lemma_ascending_no_duplicates(merge_and(l, r));
    assert forall|x: usize|
        merge_and(l, r).to_set().contains(x) <==> l.to_set().intersect(r.to_set()).contains(
            x,
        ) by {
        lemma_merge_and_contains(l, r, x);
    }
    assert(merge_and(l, r).to_set() =~= l.to_set().intersect(r.to_set()));
}

/// An ascending sequence holds no element twice.
pub proof fn lemma_ascending_no_duplicates(s: Seq<usize>)
    requires
        strictly_ascending(s),
    ensures
        s.no_duplicates(),
{
    assert forall|i: int, j: int| 0 <= i < s.len() && 0 <= j < s.len() && i != j implies s[i]
        != s[j] by {
        if i < j {
            assert(s[i] < s[j]);
        } else {
            assert(s[j] < s[i]);
        }
    }
}

/// The union of a sequence with itself is that sequence.
pub proof fn lemma_merge_or_idempotent(s: Seq<usize>)
    ensures
        merge_or(s, s) == s,
    decreases s.len(),
{
    if s.len() > 0 {
        lemma_merge_or_idempotent(s.skip(1));
        assert(seq![s[0]] + s.skip(1) =~= s);
    }
}

/// The intersection of a sequence with itself is that sequence.
pub proof fn lemma_merge_and_idempotent(s: Seq<usize>)
    ensures
        merge_and(s, s) == s,
    decreases s.len(),
{
    if s.len() > 0 {
        lemma_merge_and_idempotent(s.skip(1));
        assert(seq![s[0]] + s.skip(1) =~= s);
    } else {
        assert(merge_and(s, s) =~= s);
    }
}

/// The union merge does not depend on which input is left and which is right.
pub proof fn lemma_merge_or_commutative(l: Seq<usize>, r: Seq<usize>)
    ensures
        merge_or(l, r) == merge_or(r, l),
    decreases l.len() + r.len(),
{
    if l.len() == 0 || r.len() == 0 {
        assert(merge_or(l, r) =~= merge_or(r, l));
    } else if l[0] < r[0] {
        lemma_merge_or_commutative(l.skip(1), r);
    } else if l[0] == r[0] {
        lemma_merge_or_commutative(l.skip(1), r.skip(1));
    } else {
        lemma_merge_or_commutative(l, r.skip(1));
    }
}

/// The intersection merge does not depend on which input is left and which is
/// right.
pub proof fn lemma_merge_and_commutative(l: Seq<usize>, r: Seq<usize>)
    ensures
        merge_and(l, r) == merge_and(r, l),
    decreases l.len() + r.len(),
{
    if l.len() == 0 || r.len() == 0 {
    } else if l[0] < r[0] {
        lemma_merge_and_commutative(l.skip(1), r);
    } else if l[0] == r[0] {
        lemma_merge_and_commutative(l.skip(1), r.skip(1));
    } else {
        lemma_merge_and_commutative(l, r.skip(1));
    }
}

/// A union merge in progress over two slices.
pub struct MergeOr<'a> {
    left: &'a [usize],
    right: &'a [usize],
    left_pos: usize,
    right_pos: usize,
}

impl<'a> MergeOr<'a> {
    #[verifier::type_invariant]
    spec fn positions_in_bounds(self) -> bool {
        self.left_pos <= self.left@.len() && self.right_pos <= self.right@.len()
    }

    /// What is left of the left input.
    pub closed spec fn left_rest(&self) -> Seq<usize> {
        self.left@.skip(self.left_pos as int)
    }

    /// What is left of the right input.
    pub closed spec fn right_rest(&self) -> Seq<usize> {
        self.right@.skip(self.right_pos as int)
    }

    /// The elements still to come.
    pub open spec fn pending(&self) -> Seq<usize> {
        merge_or(self.left_rest(), self.right_rest())
    }

    /// Starts a union merge at the front of both inputs.
    pub fn new(left: &'a [usize], right: &'a [usize]) -> (m: Self)
        ensures
            m.left_rest() == left@,
            m.right_rest() == right@,
    {
        MergeOr { left, right, left_pos: 0, right_pos: 0 }
    }

    /// The next element of the union, or `None` once both inputs are used up.
    pub fn next(&mut self) -> (item: Option<usize>)
        ensures
            match item {
                Some(x) => {
                    &&& old(self).pending().len() > 0
                    &&& x == old(self).pending()[0]
                    &&& final(self).pending() == old(self).pending().skip(1)
                },
                None => {
                    &&& old(self).pending().len() == 0
                    &&& final(self).pending() == old(self).pending()
                },
            },
            final(self).left_rest() == left_after_or(old(self).left_rest(), old(self).right_rest()),
            final(self).right_rest() == right_after_or(
                old(self).left_rest(),
                old(self).right_rest(),
            ),
    {
        proof {
            use_type_invariant(&*self);
        }
        let ghost l = self.left_rest();
        let ghost r = self.right_rest();
        if self.left_pos < self.left.len() {
            let x = self.left[self.left_pos];
            if self.right_pos < self.right.len() {
                let y = self.right[self.right_pos];
                if x < y {
                    self.left_pos += 1;
                    proof {
                        assert(self.left_rest() =~= l.skip(1));
                        assert((seq![l[0]] + merge_or(l.skip(1), r)).skip(1) =~= merge_or(
                            l.skip(1),
                            r,
                        ));
                    }
                    Some(x)
                } else if x == y {
                    self.left_pos += 1;
                    self.right_pos += 1;
                    proof {
                        assert(self.left_rest() =~= l.skip(1));
                        assert(self.right_rest() =~= r.skip(1));
                        assert((seq![l[0]] + merge_or(l.skip(1), r.skip(1))).skip(1)
                            =~= merge_or(l.skip(1), r.skip(1)));
                    }
                    Some(x)
                } else {
                    self.right_pos += 1;
                    proof {
                        assert(self.right_rest() =~= r.skip(1));
                        assert((seq![r[0]] + merge_or(l, r.skip(1))).skip(1) =~= merge_or(
                            l,
                            r.skip(1),
                        ));
                    }
                    Some(y)
                }
            } else {
                self.left_pos += 1;
                proof {
                    assert(self.left_rest() =~= l.skip(1));
                    assert(merge_or(l.skip(1), r) =~= l.skip(1)) by {
                        lemma_merge_or_commutative(l.skip(1), r);
                    }
                }
                Some(x)
            }
        } else if self.right_pos < self.right.len() {
            let y = self.right[self.right_pos];
            self.right_pos += 1;
            proof {
                assert(self.right_rest() =~= r.skip(1));
            }
            Some(y)
        } else {
            None
        }
    }

    /// All the elements still to come, in order.
    pub fn collect(self) -> (out: Vec<usize>)
        ensures
            out@ == self.pending(),
    {
        let mut m = self;
        let mut out: Vec<usize> = Vec::new();
        loop
            invariant
                out@ + m.pending() == self.pending(),
            ensures
                out@ == self.pending(),
            decreases m.pending().len(),
        {
            let ghost before = m.pending();
            match m.next() {
                Some(x) => {
                    out.push(x);
                    proof {
                        assert(before =~= seq![x] + before.skip(1));
                        assert(out@ + m.pending() =~= self.pending());
                    }
                },
                None => {
                    proof {
                        assert(out@ + m.pending() =~= out@);
                    }
                    break ;
                },
            }
        }
        out
    }
}

/// An intersection merge in progress over two slices.
pub struct MergeAnd<'a> {
    left: &'a [usize],
    right: &'a [usize],
    left_pos: usize,
    right_pos: usize,
}

impl<'a> MergeAnd<'a> {
    #[verifier::type_invariant]
    spec fn positions_in_bounds(self) -> bool {
        self.left_pos <= self.left@.len() && self.right_pos <= self.right@.len()
    }

    /// What is left of the left input.
    pub closed spec fn left_rest(&self) -> Seq<usize> {
        self.left@.skip(self.left_pos as int)
    }

    /// What is left of the right input.
    pub closed spec fn right_rest(&self) -> Seq<usize> {
        self.right@.skip(self.right_pos as int)
    }

    /// The elements still to come.
    pub open spec fn pending(&self) -> Seq<usize> {
        merge_and(self.left_rest(), self.right_rest())
    }

    /// Starts an intersection merge at the front of both inputs.
    pub fn new(left: &'a [usize], right: &'a [usize]) -> (m: Self)
        ensures
            m.left_rest() == left@,
            m.right_rest() == right@,
    {
        MergeAnd { left, right, left_pos: 0, right_pos: 0 }
    }

    /// The next element of the intersection, or `None` once one input is used
    /// up.
    pub fn next(&mut self) -> (item: Option<usize>)
        ensures
            match item {
                Some(x) => {
                    &&& old(self).pending().len() > 0
                    &&& x == old(self).pending()[0]
                    &&& final(self).pending() == old(self).pending().skip(1)
                },
                None => {
                    &&& old(self).pending().len() == 0
                    &&& final(self).pending() == old(self).pending()
                },
            },
            (final(self).left_rest(), final(self).right_rest()) == rests_after_and(
                old(self).left_rest(),
                old(self).right_rest(),
            ),
    {
        proof {
            use_type_invariant(&*self);
        }
        while self.left_pos < self.left.len() && self.right_pos < self.right.len()
            invariant
                self.left_pos <= self.left@.len(),
                self.right_pos <= self.right@.len(),
                self.left == old(self).left,
                self.right == old(self).right,
                self.pending() == old(self).pending(),
                rests_after_and(self.left_rest(), self.right_rest()) == rests_after_and(
                    old(self).left_rest(),
                    old(self).right_rest(),
                ),
            decreases self.left@.len() - self.left_pos + self.right@.len() - self.right_pos,
        {
            let ghost l = self.left_rest();
            let ghost r = self.right_rest();
            let x = self.left[self.left_pos];
            let y = self.right[self.right_pos];
            if x < y {
                self.left_pos += 1;
                proof {
                    assert(self.left_rest() =~= l.skip(1));
                }
            } else if x == y {
                self.left_pos += 1;
                self.right_pos += 1;
                proof {
                    assert(self.left_rest() =~= l.skip(1));
                    assert(self.right_rest() =~= r.skip(1));
                    assert((seq![l[0]] + merge_and(l.skip(1), r.skip(1))).skip(1) =~= merge_and(
                        l.skip(1),
                        r.skip(1),
                    ));
                }
                return Some(x);
            } else {
                self.right_pos += 1;
                proof {
                    assert(self.right_rest() =~= r.skip(1));
                }
            }
        }
        None
    }

    /// All the elements still to come, in order.
    pub fn collect(self) -> (out: Vec<usize>)
        ensures
            out@ == self.pending(),
    {
        let mut m = self;
        let mut out: Vec<usize> = Vec::new();
        loop
            invariant
                out@ + m.pending() == self.pending(),
            ensures
                out@ == self.pending(),
            decreases m.pending().len(),
        {
            let ghost before = m.pending();
            match m.next() {
                Some(x) => {
                    out.push(x);
                    proof {
                        assert(before =~= seq![x] + before.skip(1));
                        assert(out@ + m.pending() =~= self.pending());
                    }
                },
                None => {
                    proof {
                        assert(out@ + m.pending() =~= out@);
                    }
                    break ;
                },
            }
        }
        out
    }
}

} // verus!
