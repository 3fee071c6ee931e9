//! Grouping of message ids into threads: a disjoint-set structure that keeps,
//! for every group, its members in the order in which they joined.

use std::collections::HashMap;
use vstd::prelude::*;
use vstd::std_specs::iter::IteratorSpec;

verus! {

broadcast use vstd::std_specs::hash::group_hash_axioms;

/// The mathematical content of a [`ThreadDSU`].
pub ghost struct DsuView {
    /// The representative of every registered id.
    pub parents: Map<usize, usize>,
    /// The members of every group, keyed by the group's representative.
    pub threads: Map<usize, Seq<usize>>,
}

impl DsuView {
    /// No id is registered.
    pub open spec fn empty() -> DsuView {
        DsuView { parents: Map::empty(), threads: Map::empty() }
    }

    /// The two maps describe one partition of the registered ids: an id is a
    /// member of exactly the group of its representative, and a
    /// representative is a member of its own group.
    pub open spec fn wf(self) -> bool {
        &&& forall|v: usize| #[trigger]
            self.parents.contains_key(v) ==> self.threads.contains_key(self.parents[v])
                && self.threads[self.parents[v]].contains(v)
        &&& forall|r: usize, i: int|
            #![trigger self.threads[r][i]]
            self.threads.contains_key(r) && 0 <= i < self.threads[r].len()
                ==> self.parents.contains_key(self.threads[r][i])
                && self.parents[self.threads[r][i]] == r
        &&& forall|r: usize| #[trigger]
            self.threads.contains_key(r) ==> self.threads[r].no_duplicates()
                && self.threads[r].contains(r)
    }

    /// Whether `v` is registered.
    pub open spec fn contains(self, v: usize) -> bool {
        self.parents.contains_key(v)
    }

    /// The representative of the group of `v`, if `v` is registered.
    pub open spec fn find_set(self, v: usize) -> Option<usize> {
        if self.parents.contains_key(v) {
            Some(self.parents[v])
        } else {
            None
        }
    }

    /// The state after `v` was registered as a group of its own.
    pub open spec fn make_set(self, v: usize) -> DsuView {
        DsuView { parents: self.parents.insert(v, v), threads: self.threads.insert(v, seq![v]) }
    }

    /// The representative that survives when the groups of the
    /// representatives `ra` and `rb` are merged: that of the larger group,
    /// and `ra` when they are of one size.
    pub open spec fn winner(self, ra: usize, rb: usize) -> usize {
        if self.threads[ra].len() < self.threads[rb].len() {
            rb
        } else {
            ra
        }
    }

    /// The representative that is given up in that merge.
    pub open spec fn loser(self, ra: usize, rb: usize) -> usize {
        if self.threads[ra].len() < self.threads[rb].len() {
            ra
        } else {
            rb
        }
    }

    /// The state after the groups of `a` and `b` were merged. Nothing
    /// changes when one of them is not registered or both are in one group.
    /// Else the members of the smaller group follow those of the larger one.
    pub open spec fn union_sets(self, a: usize, b: usize) -> DsuView {
        if !self.parents.contains_key(a) || !self.parents.contains_key(b) {
            self
        } else if self.parents[a] == self.parents[b] {
            self
        } else {
            let w = self.winner(self.parents[a], self.parents[b]);
            let l = self.loser(self.parents[a], self.parents[b]);
            DsuView {
                parents: Map::new(
                    |v: usize| self.parents.contains_key(v),
                    |v: usize|
                        if self.parents[v] == l {
                            w
                        } else {
                            self.parents[v]
                        },
                ),
                threads: self.threads.remove(l).insert(w, self.threads[w] + self.threads[l]),
            }
        }
    }

    /// The members of every group are in ascending order.
    pub open spec fn ascending(self) -> bool {
        forall|r: usize| #[trigger]
            self.threads.contains_key(r) ==> crate::merge::strictly_ascending(self.threads[r])
    }

    /// Every group of more than one member holds only ids below `bound`.
    pub open spec fn settled_below(self, bound: int) -> bool {
        forall|r: usize, i: int|
            #![trigger self.threads[r][i]]
            self.threads.contains_key(r) && self.threads[r].len() > 1 && 0 <= i
                < self.threads[r].len() ==> self.threads[r][i] < bound
    }

    /// Every group holds its representative and nothing else.
    pub open spec fn all_singletons(self) -> bool {
        forall|r: usize| #[trigger] self.threads.contains_key(r) ==> self.threads[r] == seq![r]
    }

    /// The state after the unions `calls` were made, first to last.
    pub open spec fn after_unions(self, calls: Seq<(usize, usize)>) -> DsuView
        decreases calls.len(),
    {
        if calls.len() == 0 {
            self
        } else {
            self.after_unions(calls.drop_last()).union_sets(calls.last().0, calls.last().1)
        }
    }

    /// `roots` names every group once and `groups` lists their members in
    /// that order.
    pub open spec fn enumerated_by(self, roots: Seq<usize>, groups: Seq<Seq<usize>>) -> bool {
        &&& roots.no_duplicates()
        &&& forall|r: usize| roots.contains(r) <==> self.threads.contains_key(r)
        &&& groups.len() == roots.len()
        &&& forall|i: int| 0 <= i < roots.len() ==> #[trigger] groups[i] == self.threads[roots[i]]
    }
}

/// Registering a new id keeps the partition a partition.
pub proof fn lemma_make_set_wf(s: DsuView, v: usize)
    requires
        s.wf(),
        !s.contains(v),
    ensures
        s.make_set(v).wf(),
{
    let t = s.make_set(v);
    assert(!s.threads.contains_key(v)) by {
        if s.threads.contains_key(v) {
            assert(s.threads[v].contains(v));
            let i = choose|i: int| 0 <= i < s.threads[v].len() && s.threads[v][i] == v;
            assert(s.parents.contains_key(s.threads[v][i]));
        }
    }
    assert(seq![v][0] == v);
    assert forall|x: usize| #[trigger] t.parents.contains_key(x) implies t.threads.contains_key(
        t.parents[x],
    ) && t.threads[t.parents[x]].contains(x) by {
        if x != v {
            assert(s.parents.contains_key(x));
        }
    }
    assert forall|r: usize, i: int|
        #![trigger t.threads[r][i]]
        t.threads.contains_key(r) && 0 <= i < t.threads[r].len() implies t.parents.contains_key(
            t.threads[r][i],
        ) && t.parents[t.threads[r][i]] == r by {
        if r != v {
            assert(s.parents.contains_key(s.threads[r][i]));
        }
    }
    assert forall|r: usize| #[trigger] t.threads.contains_key(r) implies t.threads[r].no_duplicates()
        && t.threads[r].contains(r) by {
        if r != v {
            assert(s.threads.contains_key(r));
        }
    }
}

/// Merging two groups keeps the partition a partition.
pub proof fn lemma_union_sets_wf(s: DsuView, a: usize, b: usize)
    requires
        s.wf(),
    ensures
        s.union_sets(a, b).wf(),
{
    if s.contains(a) && s.contains(b) && s.parents[a] != s.parents[b] {
        let t = s.union_sets(a, b);
        let w = s.winner(s.parents[a], s.parents[b]);
        let l = s.loser(s.parents[a], s.parents[b]);
        let tw = s.threads[w];
        let tl = s.threads[l];
        assert(s.threads.contains_key(w) && s.threads.contains_key(l) && w != l);
        assert(t.threads[w] == tw + tl);
        assert forall|x: usize| #[trigger] t.parents.contains_key(x) implies t.threads.contains_key(
            t.parents[x],
        ) && t.threads[t.parents[x]].contains(x) by {
            assert(s.parents.contains_key(x));
            let p = s.parents[x];
            let i = choose|i: int| 0 <= i < s.threads[p].len() && s.threads[p][i] == x;
            if p == l {
                assert((tw + tl)[tw.len() + i] == x);
            } else if p == w {
                assert((tw + tl)[i] == x);
            } else {
                assert(t.threads[p] == s.threads[p]);
            }
        }
        assert forall|r: usize, i: int|
            #![trigger t.threads[r][i]]
            t.threads.contains_key(r) && 0 <= i < t.threads[r].len() implies t.parents.contains_key(
                t.threads[r][i],
            ) && t.parents[t.threads[r][i]] == r by {
            if r == w {
                if i < tw.len() {
                    assert(t.threads[r][i] == s.threads[w][i]);
                } else {
                    assert(t.threads[r][i] == s.threads[l][i - tw.len()]);
                }
            } else {
                assert(t.threads[r][i] == s.threads[r][i]);
            }
        }
        assert forall|r: usize| #[trigger] t.threads.contains_key(r) implies t.threads[r].no_duplicates()
            && t.threads[r].contains(r) by {
            if r == w {
                assert forall|i: int, j: int|
                    0 <= i < (tw + tl).len() && 0 <= j < (tw + tl).len() && i != j implies (tw
                    + tl)[i] != (tw + tl)[j] by {
                    if i < tw.len() {
                        assert((tw + tl)[i] == s.threads[w][i]);
                    } else {
                        assert((tw + tl)[i] == s.threads[l][i - tw.len()]);
                    }
                    if j < tw.len() {
                        assert((tw + tl)[j] == s.threads[w][j]);
                    } else {
                        assert((tw + tl)[j] == s.threads[l][j - tw.len()]);
                    }
                }
                let k = choose|k: int| 0 <= k < tw.len() && tw[k] == w;
                assert((tw + tl)[k] == w);
            } else {
                assert(s.threads.contains_key(r));
            }
        }
    }
}

/// After `union_sets(a, b)` the two ids have one representative.
pub proof fn lemma_union_sets_joins(s: DsuView, a: usize, b: usize)
    requires
        s.contains(a),
        s.contains(b),
    ensures
        s.union_sets(a, b).find_set(a) is Some,
        s.union_sets(a, b).find_set(a) == s.union_sets(a, b).find_set(b),
{
}

/// Ids that had one representative before `union_sets(a, b)` have one
/// after it, and an id is registered after it exactly when it was before.
pub proof fn lemma_union_sets_keeps_together(s: DsuView, a: usize, b: usize, x: usize, y: usize)
    requires
        s.find_set(x) == s.find_set(y),
    ensures
        s.union_sets(a, b).find_set(x) == s.union_sets(a, b).find_set(y),
        s.union_sets(a, b).contains(x) == s.contains(x),
{
}

/// Joining is transitive: after `union_sets(a, b)` and `union_sets(b, c)`
/// the ids `a` and `c` have one representative.
pub proof fn lemma_union_sets_transitive(s: DsuView, a: usize, b: usize, c: usize)
    requires
        s.contains(a),
        s.contains(b),
        s.contains(c),
    ensures
        s.union_sets(a, b).union_sets(b, c).find_set(a) is Some,
        s.union_sets(a, b).union_sets(b, c).find_set(a) == s.union_sets(a, b).union_sets(
            b,
            c,
        ).find_set(c),
{
    let t = s.union_sets(a, b);
    lemma_union_sets_joins(s, a, b);
    lemma_union_sets_keeps_together(s, a, b, c, c);
    lemma_union_sets_joins(t, b, c);
    lemma_union_sets_keeps_together(t, b, c, a, b);
}

/// Merging two ids of one group changes nothing.
pub proof fn lemma_union_sets_same_group(s: DsuView, a: usize, b: usize)
    requires
        s.find_set(a) == s.find_set(b),
    ensures
        s.union_sets(a, b) == s,
{
}

/// Every call joins an id to a smaller one, and the joined ids grow from call
/// to call.
pub open spec fn ascending_calls(calls: Seq<(usize, usize)>) -> bool {
    &&& forall|k: int| 0 <= k < calls.len() ==> (#[trigger] calls[k]).0 < calls[k].1
    &&& forall|j: int, k: int|
        0 <= j < k < calls.len() ==> (#[trigger] calls[j]).1 < (#[trigger] calls[k]).1
}

/// One union in ascending order: when every larger group holds only ids
/// below `bound`, and `b` is at least `bound` and greater than `a`, then
/// `union_sets(a, b)` appends `b` to the group of `a`, and the groups stay
/// ascending.
pub proof fn lemma_union_sets_ascending(s: DsuView, a: usize, b: usize, bound: int)
    requires
        s.wf(),
        s.ascending(),
        s.settled_below(bound),
        a < b,
        bound <= b,
    ensures
        s.union_sets(a, b).wf(),
        s.union_sets(a, b).ascending(),
        s.union_sets(a, b).settled_below(b + 1),
        s.contains(a) && s.contains(b) ==> {
            &&& s.parents[b] == b
            &&& s.threads[b] == seq![b]
            &&& s.parents[a] != b
            &&& s.union_sets(a, b).parents == s.parents.insert(b, s.parents[a])
            &&& s.union_sets(a, b).threads == s.threads.remove(b).insert(
                s.parents[a],
                s.threads[s.parents[a]].push(b),
            )
        },
{
    lemma_union_sets_wf(s, a, b);
    let t = s.union_sets(a, b);
    if s.contains(a) && s.contains(b) {
        let ra = s.parents[a];
        let rb = s.parents[b];
        let ga = s.threads[ra];
        let gb = s.threads[rb];
        let ia = choose|i: int| 0 <= i < ga.len() && ga[i] == a;
        let ib = choose|i: int| 0 <= i < gb.len() && gb[i] == b;
        assert(gb[ib] == b);
        assert(gb.len() == 1);
        let ir = choose|i: int| 0 <= i < gb.len() && gb[i] == rb;
        assert(rb == b);
        assert(gb =~= seq![b]);
        assert forall|i: int| 0 <= i < ga.len() implies ga[i] < b by {
            if ga.len() > 1 {
                assert(s.threads[ra][i] < bound);
            } else {
                assert(ga[i] == ga[ia]);
            }
        }
        assert(ga[ia] < b);
        assert(ra != rb);
        assert(s.winner(ra, rb) == ra && s.loser(ra, rb) == rb);
        assert(ga + gb =~= ga.push(b));
        assert(t.parents =~= s.parents.insert(b, ra)) by {
            assert forall|v: usize| s.parents.contains_key(v) && s.parents[v] == rb implies v
                == b by {
                let i = choose|i: int| 0 <= i < gb.len() && gb[i] == v;
            }
        }
        assert(crate::merge::strictly_ascending(ga));
        assert(crate::merge::strictly_ascending(ga.push(b)));
        assert forall|r: usize| #[trigger] t.threads.contains_key(r) implies crate::merge::strictly_ascending(
        t.threads[r]) by {
            if r != ra {
                assert(s.threads.contains_key(r));
            }
        }
        assert forall|r: usize, i: int|
            #![trigger t.threads[r][i]]
            t.threads.contains_key(r) && t.threads[r].len() > 1 && 0 <= i
                < t.threads[r].len() implies t.threads[r][i] < b + 1 by {
            if r != ra {
                assert(s.threads[r][i] < bound);
            } else if i < ga.len() {
                assert(ga[i] < b);
            }
        }
    } else {
        assert forall|r: usize, i: int|
            #![trigger t.threads[r][i]]
            t.threads.contains_key(r) && t.threads[r].len() > 1 && 0 <= i
                < t.threads[r].len() implies t.threads[r][i] < b + 1 by {
            assert(s.threads[r][i] < bound);
        }
    }
}

/// Unions made in ascending order keep every group ascending: starting
/// from groups of one id each, whatever the calls are, as long as each joins
/// an id to a smaller one and the joined ids grow from call to call.
pub proof fn lemma_ascending_unions(s: DsuView, calls: Seq<(usize, usize)>)
    requires
        s.wf(),
        s.all_singletons(),
        ascending_calls(calls),
    ensures
        s.after_unions(calls).wf(),
        s.after_unions(calls).ascending(),
        s.after_unions(calls).settled_below(
            if calls.len() == 0 {
                0
            } else {
                calls.last().1 + 1
            },
        ),
    decreases calls.len(),
{
    if calls.len() == 0 {
        assert forall|r: usize| #[trigger] s.threads.contains_key(r) implies crate::merge::strictly_ascending(
        s.threads[r]) by {
            assert(s.threads[r] == seq![r]);
        }
    } else {
        let init = calls.drop_last();
        assert(ascending_calls(init)) by {
            assert forall|k: int| 0 <= k < init.len() implies (#[trigger] init[k]).0
                < init[k].1 by {
                assert(init[k] == calls[k]);
            }
            assert forall|j: int, k: int| 0 <= j < k < init.len() implies (#[trigger] init[j]).1 < (
            #[trigger] init[k]).1 by {
                assert(init[j] == calls[j] && init[k] == calls[k]);
            }
        }
        lemma_ascending_unions(s, init);
        let bound: int = if init.len() == 0 {
            0
        } else {
            init.last().1 + 1
        };
        let k = calls.len() - 1;
        assert(calls[k].0 < calls[k].1);
        if init.len() > 0 {
            assert(init.last() == calls[k - 1]);
            assert(calls[k - 1].1 < calls[k].1);
        }
        lemma_union_sets_ascending(s.after_unions(init), calls.last().0, calls.last().1, bound);
    }
}

/// The member sequences of a list of groups.
pub open spec fn member_seqs(groups: Seq<Vec<usize>>) -> Seq<Seq<usize>> {
    Seq::new(groups.len(), |i: int| groups[i]@)
}

/// A disjoint-set structure over message ids.
pub struct ThreadDSU {
    threads: HashMap<usize, Vec<usize>>,
    parents: HashMap<usize, usize>,
}

impl View for ThreadDSU {
    type V = DsuView;

    closed spec fn view(&self) -> DsuView {
        DsuView {
            parents: self.parents@,
            threads: Map::new(
                |r: usize| self.threads@.contains_key(r),
                |r: usize| self.threads@[r]@,
            ),
        }
    }
}

impl ThreadDSU {
    /// A structure with no id registered.
    pub fn new() -> (d: Self)
        ensures
            d@ == DsuView::empty(),
            d@.wf(),
    {
        let d = ThreadDSU { threads: HashMap::new(), parents: HashMap::new() };
        proof {
            assert(d@.threads =~= Map::empty());
        }
        d
    }

    /// Registers `v` as a group of its own. An id that is registered
    /// already must not be registered again: the groups would no longer be a
    /// partition.
    pub fn make_set(&mut self, v: usize)
        ensures
            final(self)@ == old(self)@.make_set(v),
            old(self)@.wf() && !old(self)@.contains(v) ==> final(self)@.wf(),
    {
        proof {
            if old(self)@.wf() && !old(self)@.contains(v) {
                lemma_make_set_wf(old(self)@, v);
            }
        }
        self.parents.insert(v, v);
        let mut members: Vec<usize> = Vec::new();
        members.push(v);
        self.threads.insert(v, members);
        proof {
            assert(members@ =~= seq![v]);
            assert(self@.threads =~= old(self)@.make_set(v).threads);
        }
    }

    /// The representative of the group of `v`, or `None` when `v` is not
    /// registered.
    pub fn find_set(&self, v: usize) -> (r: Option<usize>)
        ensures
            r == self@.find_set(v),
    {
        match self.parents.get(&v) {
            Some(p) => Some(*p),
            None => None,
        }
    }

    /// Merges the groups of `a` and `b`: the smaller group is appended to the
    /// larger one, and its members take the larger group's representative.
    /// Nothing changes when one of the two is not registered or both are in
    /// one group already.
    pub fn union_sets(&mut self, a: usize, b: usize)
        requires
            old(self)@.wf(),
        ensures
            final(self)@ == old(self)@.union_sets(a, b),
            final(self)@.wf(),
    {
        let ra = match self.find_set(a) {
            Some(r) => r,
            None => { return ; },
        };
        let rb = match self.find_set(b) {
            Some(r) => r,
            None => { return ; },
        };
        if ra == rb {
            return ;
        }
        let ghost before = self@;
        let len_a = self.threads.get(&ra).unwrap().len();
        let len_b = self.threads.get(&rb).unwrap().len();
        let (w, l) = if len_a < len_b {
            (rb, ra)
        } else {
            (ra, rb)
        };
        assert(w == before.winner(ra, rb) && l == before.loser(ra, rb));
        let mut moved = self.threads.remove(&l).unwrap();
        let ghost moved_members = moved@;
        assert(moved_members == before.threads[l]);
        let mut i: usize = 0;
        while i < moved.len()
            invariant
                i <= moved.len(),
                before.wf(),
                before.threads.contains_key(l),
                moved@ == moved_members,
                moved_members == before.threads[l],
                w != l,
                self.threads@ == old(self).threads@.remove(l),
                forall|v: usize| self.parents@.contains_key(v) <==> before.parents.contains_key(v),
                forall|j: int| 0 <= j < i ==> self.parents@[#[trigger] moved@[j]] == w,
                forall|v: usize|
                    before.parents.contains_key(v) && before.parents[v] != l
                        ==> #[trigger] self.parents@[v] == before.parents[v],
            decreases moved.len() - i,
        {
            let v = moved[i];
            assert(before.threads[l][i as int] == v);
            self.parents.insert(v, w);
            i += 1;
        }
        let mut kept = self.threads.remove(&w).unwrap();
        assert(kept@ == before.threads[w]);
        kept.append(&mut moved);
        self.threads.insert(w, kept);
        proof {
            let after = before.union_sets(a, b);
            assert forall|v: usize| before.parents.contains_key(v) implies self.parents@[v]
                == after.parents[v] by {
                if before.parents[v] == l {
                    let j = choose|j: int|
                        0 <= j < before.threads[l].len() && before.threads[l][j] == v;
                    assert(moved_members[j] == v);
                }
            }
            assert(self@.parents =~= after.parents);
            assert(self@.threads =~= after.threads);
            lemma_union_sets_wf(before, a, b);
        }
    }

    /// The groups, each with its members in the order in which they joined.
    /// Every group is listed once; the order of the groups is not fixed.
    pub fn get_threads(&self) -> (out: Vec<Vec<usize>>)
        ensures
            exists|roots: Seq<usize>| #[trigger] self@.enumerated_by(roots, member_seqs(out@)),
    {
        let mut out: Vec<Vec<usize>> = Vec::new();
        let ghost keys = vstd::std_specs::hash::spec_keys_iter(&self.threads).remaining();
        let ghost mut roots: Seq<usize> = Seq::empty();
        for key in it: self.threads.keys()
            invariant
                it.seq() == keys,
                roots.len() == it.index(),
                out@.len() == it.index(),
                forall|j: int| 0 <= j < roots.len() ==> roots[j] == *keys[j],
                forall|j: int|
                    #![trigger roots[j]]
                    0 <= j < roots.len() ==> self.threads@.contains_key(roots[j]) && out@[j]@
                        == self.threads@[roots[j]]@,
        {
            proof {
                assert(keys.unref()[it.index()] == *key);
                assert(keys.unref().to_set().contains(*key));
            }
            let members = self.threads.get(key).unwrap();
            let copy = members.clone();
            assert(*members == self.threads@[*key]);
            assert(copy@ =~= members@);
            out.push(copy);
            proof {
                roots = roots.push(*key);
            }
        }
        proof {
            let groups = member_seqs(out@);
            assert(roots =~= keys.unref());
            assert forall|i: int, j: int|
                0 <= i < roots.len() && 0 <= j < roots.len() && i != j implies roots[i]
                != roots[j] by {
                assert(keys[i] != keys[j]);
            }
            assert forall|r: usize| roots.contains(r) <==> self@.threads.contains_key(r) by {
                assert(roots.to_set().contains(r) <==> self.threads@.dom().contains(r));
            }
            assert(self@.enumerated_by(roots, groups));
        }
        out
    }

    /// For every registered id the representative of its group.
    pub fn get_reverse_mapping(&self) -> (mapping: HashMap<usize, usize>)
        requires
            self@.wf(),
        ensures
            mapping@ == self@.parents,
    {
        let mut mapping: HashMap<usize, usize> = HashMap::new();
        let ghost keys = vstd::std_specs::hash::spec_keys_iter(&self.threads).remaining();
        for key in it: self.threads.keys()
            invariant
                it.seq() == keys,
                self@.wf(),
                forall|v: usize| #[trigger]
                    mapping@.contains_key(v) ==> self@.parents.contains_key(v) && mapping@[v]
                        == self@.parents[v],
                forall|j: int, i: int|
                    #![trigger self@.threads[*keys[j]][i]]
                    0 <= j < it.index() && 0 <= i < self@.threads[*keys[j]].len()
                        ==> mapping@.contains_key(self@.threads[*keys[j]][i]),
        {
            proof {
                assert(keys.unref()[it.index()] == *key);
                assert(keys.unref().to_set().contains(*key));
            }
            let members = self.threads.get(key).unwrap();
            assert(members@ == self@.threads[*key]);
            let mut i: usize = 0;
            while i < members.len()
                invariant
                    i <= members.len(),
                    self@.wf(),
                    self@.threads.contains_key(*key),
                    members@ == self@.threads[*key],
                    0 <= it.index() < keys.len(),
                    *keys[it.index()] == *key,
                    forall|v: usize| #[trigger]
                        mapping@.contains_key(v) ==> self@.parents.contains_key(v) && mapping@[v]
                            == self@.parents[v],
                    forall|j: int, i: int|
                        #![trigger self@.threads[*keys[j]][i]]
                        0 <= j < it.index() && 0 <= i < self@.threads[*keys[j]].len()
                            ==> mapping@.contains_key(self@.threads[*keys[j]][i]),
                    forall|k: int|
                        #![trigger self@.threads[*key][k]]
                        0 <= k < i ==> mapping@.contains_key(self@.threads[*key][k]),
                decreases members.len() - i,
            {
                assert(self@.threads[*key][i as int] == members@[i as int]);
                mapping.insert(members[i], *key);
                i += 1;
            }
        }
        proof {
            assert forall|v: usize| self@.parents.contains_key(v) implies mapping@.contains_key(
                v,
            ) by {
                let r = self@.parents[v];
                assert(self@.threads.contains_key(r));
                assert(keys.unref().to_set().contains(r));
                let j = choose|j: int| 0 <= j < keys.unref().len() && keys.unref()[j] == r;
                let i = choose|i: int|
                    0 <= i < self@.threads[r].len() && self@.threads[r][i] == v;
                assert(mapping@.contains_key(self@.threads[*keys[j]][i]));
            }
            assert(mapping@ =~= self@.parents);
        }
        mapping
    }
}

} // verus!
