//! The inverted index: for every lemma the threads in which it occurs.

use crate::deserialization::{Message, TextEntity};
use crate::lemmatizer::Lemmatizer;
use crate::merge::strictly_ascending;
use crate::sequences::lemma_take_contains;
use crate::text::{lemmas_of_text, text_lemmas, texts};
use vstd::hash_map::StringHashMap;
use vstd::hash_set::StringHashSet;
use rayon::iter::{IntoParallelRefIterator, ParallelIterator};
use vstd::prelude::*;

verus! {

/// The lemmas of the words in the segments of a message that are split into
/// words, in the order of the text.
pub open spec fn entities_lemmas(dict: Map<Seq<char>, Seq<char>>, entities: Seq<TextEntity>) -> Seq<
    Seq<char>,
>
    decreases entities.len(),
{
    if entities.len() == 0 {
        Seq::empty()
    } else {
        entities_lemmas(dict, entities.drop_last()) + (if entities.last() is Lemmatizable {
            text_lemmas(dict, entities.last().content())
        } else {
            Seq::empty()
        })
    }
}

/// The lemmas of the words of a thread, message by message.
pub open spec fn thread_words(
    dict: Map<Seq<char>, Seq<char>>,
    messages: Seq<Message>,
    thread: Seq<usize>,
) -> Seq<Seq<char>>
    decreases thread.len(),
{
    if thread.len() == 0 {
        Seq::empty()
    } else {
        thread_words(dict, messages, thread.drop_last()) + entities_lemmas(
            dict,
            messages[thread.last() as int].text_entities@,
        )
    }
}

/// `seen` followed by the elements of `more` that are new, each where it
/// first occurs.
pub open spec fn distinct_onto(seen: Seq<Seq<char>>, more: Seq<Seq<char>>) -> Seq<Seq<char>>
    decreases more.len(),
{
    if more.len() == 0 {
        seen
    } else {
        let before = distinct_onto(seen, more.drop_last());
        if before.contains(more.last()) {
            before
        } else {
            before.push(more.last())
        }
    }
}

/// The lemmas of a thread, each once, in the order in which they first
/// occur.
pub open spec fn thread_lemmas(
    dict: Map<Seq<char>, Seq<char>>,
    messages: Seq<Message>,
    thread: Seq<usize>,
) -> Seq<Seq<char>> {
    distinct_onto(Seq::empty(), thread_words(dict, messages, thread))
}

/// Taking the new elements of two sequences in turn is taking those of
/// their concatenation.
pub proof fn lemma_distinct_onto_concat(seen: Seq<Seq<char>>, a: Seq<Seq<char>>, b: Seq<Seq<char>>)
    ensures
        distinct_onto(seen, a + b) == distinct_onto(distinct_onto(seen, a), b),
    decreases b.len(),
{
    if b.len() == 0 {
        assert(a + b =~= a);
    } else {
        lemma_distinct_onto_concat(seen, a, b.drop_last());
        assert((a + b).drop_last() =~= a + b.drop_last());
        assert((a + b).last() == b.last());
    }
}

/// A lemma is among the distinct ones exactly when it was seen before or
/// occurs among the new ones.
pub proof fn lemma_distinct_onto_contains(
    seen: Seq<Seq<char>>,
    more: Seq<Seq<char>>,
    lemma: Seq<char>,
)
    ensures
        distinct_onto(seen, more).contains(lemma) <==> (seen.contains(lemma) || more.contains(
            lemma,
        )),
    decreases more.len(),
{
    if more.len() > 0 {
        let init = more.drop_last();
        lemma_distinct_onto_contains(seen, init, lemma);
        let before = distinct_onto(seen, init);
        if more.contains(lemma) {
            let i = choose|i: int| 0 <= i < more.len() && more[i] == lemma;
            if i < init.len() {
                assert(init[i] == lemma);
            }
        }
        if init.contains(lemma) {
            let i = choose|i: int| 0 <= i < init.len() && init[i] == lemma;
            assert(more[i] == lemma);
        }
        assert(more[more.len() - 1] == more.last());
        if !before.contains(more.last()) {
            let after = before.push(more.last());
            assert(after[before.len() as int] == more.last());
            if before.contains(lemma) {
                let i = choose|i: int| 0 <= i < before.len() && before[i] == lemma;
                assert(after[i] == lemma);
            }
            if after.contains(lemma) {
                let i = choose|i: int| 0 <= i < after.len() && after[i] == lemma;
                if i < before.len() {
                    assert(before[i] == lemma);
                }
            }
        }
    }
}

/// A thread is listed under a lemma exactly when the lemma is that of one
/// of its words.
pub proof fn lemma_thread_lemmas_contains(
    dict: Map<Seq<char>, Seq<char>>,
    messages: Seq<Message>,
    thread: Seq<usize>,
    lemma: Seq<char>,
)
    ensures
        thread_lemmas(dict, messages, thread).contains(lemma) <==> thread_words(
            dict,
            messages,
            thread,
        ).contains(lemma),
{
    lemma_distinct_onto_contains(Seq::empty(), thread_words(dict, messages, thread), lemma);
    assert(!Seq::<Seq<char>>::empty().contains(lemma));
}

/// Appends to `lemmas` those of `words` that are not in `seen`, and notes
/// them there.
fn add_distinct(seen: &mut StringHashSet, lemmas: &mut Vec<String>, words: Vec<String>)
    requires
        forall|w: Seq<char>| old(seen)@.contains(w) <==> texts(old(lemmas)@).contains(w),
    ensures
        texts(final(lemmas)@) == distinct_onto(texts(old(lemmas)@), texts(words@)),
        forall|w: Seq<char>| final(seen)@.contains(w) <==> texts(final(lemmas)@).contains(w),
{
    let mut k: usize = 0;
    proof {
        assert(texts(words@).take(0) =~= Seq::<Seq<char>>::empty());
    }
    while k < words.len()
        invariant
            k <= words.len(),
            texts(lemmas@) == distinct_onto(texts(old(lemmas)@), texts(words@).take(k as int)),
            forall|w: Seq<char>| seen@.contains(w) <==> texts(lemmas@).contains(w),
        decreases words.len() - k,
    {
        let ghost before = texts(lemmas@);
        proof {
            assert(texts(words@).take(k + 1).drop_last() =~= texts(words@).take(k as int));
            assert(texts(words@).take(k + 1).last() == words@[k as int]@);
        }
        if !seen.contains(words[k].as_str()) {
            seen.insert(words[k].clone());
            lemmas.push(words[k].clone());
            proof {
                let word = words@[k as int]@;
                assert(texts(lemmas@) =~= before.push(word));
                assert forall|w: Seq<char>| seen@.contains(w) <==> texts(lemmas@).contains(w) by {
                    if before.contains(w) {
                        let i = choose|i: int| 0 <= i < before.len() && before[i] == w;
                        assert(before.push(word)[i] == w);
                    }
                    assert(before.push(word)[before.len() as int] == word);
                    if before.push(word).contains(w) && w != word {
                        let i = choose|i: int|
                            0 <= i < before.push(word).len() && before.push(word)[i] == w;
                        assert(before[i] == w);
                    }
                }
            }
        }
        k += 1;
    }
    proof {
        assert(texts(words@).take(k as int) =~= texts(words@));
    }
}

/// The lemmas of the thread `thread`, each once, in the order in which they
/// first occur in its messages.
pub fn lemmas_of_thread(lemmatizer: &Lemmatizer, messages: &Vec<Message>, thread: &Vec<usize>) -> (out:
    Vec<String>)
    requires
        forall|i: int| 0 <= i < thread@.len() ==> #[trigger] thread@[i] < messages@.len(),
    ensures
        texts(out@) == thread_lemmas(lemmatizer@, messages@, thread@),
{
    let mut seen = StringHashSet::new();
    let mut lemmas: Vec<String> = Vec::new();
    let mut i: usize = 0;
    proof {
        assert(thread@.take(0) =~= Seq::<usize>::empty());
        assert(texts(lemmas@) =~= Seq::<Seq<char>>::empty());
    }
    while i < thread.len()
        invariant
            i <= thread.len(),
            forall|i: int| 0 <= i < thread@.len() ==> #[trigger] thread@[i] < messages@.len(),
            texts(lemmas@) == distinct_onto(
                Seq::empty(),
                thread_words(lemmatizer@, messages@, thread@.take(i as int)),
            ),
            forall|w: Seq<char>| seen@.contains(w) <==> texts(lemmas@).contains(w),
        decreases thread.len() - i,
    {
        let ghost done = thread_words(lemmatizer@, messages@, thread@.take(i as int));
        let message = &messages[thread[i]];
        let mut j: usize = 0;
        proof {
            assert(message.text_entities@.take(0) =~= Seq::<TextEntity>::empty());
            assert(done + Seq::<Seq<char>>::empty() =~= done);
        }
        while j < message.text_entities.len()
            invariant
                j <= message.text_entities.len(),
                texts(lemmas@) == distinct_onto(
                    Seq::empty(),
                    done + entities_lemmas(lemmatizer@, message.text_entities@.take(j as int)),
                ),
                forall|w: Seq<char>| seen@.contains(w) <==> texts(lemmas@).contains(w),
            decreases message.text_entities.len() - j,
        {
            let ghost read = entities_lemmas(lemmatizer@, message.text_entities@.take(j as int));
            proof {
                assert(message.text_entities@.take(j + 1).drop_last()
                    =~= message.text_entities@.take(j as int));
                assert(message.text_entities@.take(j + 1).last() == message.text_entities@[j as int]);
            }
            match &message.text_entities[j] {
                TextEntity::Lemmatizable(text) => {
                    let words = lemmas_of_text(lemmatizer, text.as_str());
                    proof {
                        lemma_distinct_onto_concat(Seq::empty(), done + read, texts(words@));
                        assert((done + read) + texts(words@) =~= done + (read + texts(words@)));
                    }
                    add_distinct(&mut seen, &mut lemmas, words);
                },
                TextEntity::Illemmatizable(_) => {
                    proof {
                        assert(read + Seq::<Seq<char>>::empty() =~= read);
                    }
                },
            }
            j += 1;
        }
        proof {
            assert(message.text_entities@.take(j as int) =~= message.text_entities@);
            assert(thread@.take(i + 1).drop_last() =~= thread@.take(i as int));
            assert(thread@.take(i + 1).last() == thread@[i as int]);
        }
        i += 1;
    }
    proof {
        assert(thread@.take(i as int) =~= thread@);
    }
    lemmas
}

/// The character sequences of the lemma lists of some threads.
pub open spec fn text_lists(lists: Seq<Vec<String>>) -> Seq<Seq<Seq<char>>> {
    Seq::new(lists.len(), |t: int| texts(lists[t]@))
}

/// `rayon`'s `par_iter`, `map` and `collect` on the list of threads: trusted
/// to apply [`lemmas_of_thread`] to every thread, on whichever worker, and to
/// hand back the results in the order of the threads.
#[verifier::external_body]
pub(crate) fn lemmas_of_threads(
    lemmatizer: &Lemmatizer,
    messages: &Vec<Message>,
    threads: &Vec<Vec<usize>>,
) -> (out: Vec<Vec<String>>)
    requires
        forall|t: int, i: int|
            0 <= t < threads@.len() && 0 <= i < threads@[t]@.len() ==> #[trigger] threads@[t]@[i]
                < messages@.len(),
    ensures
        out@.len() == threads@.len(),
        forall|t: int|
            0 <= t < threads@.len() ==> #[trigger] texts(out@[t]@) == thread_lemmas(
                lemmatizer@,
                messages@,
                threads@[t]@,
            ),
{
    threads.par_iter().map(|thread| lemmas_of_thread(lemmatizer, messages, thread)).collect()
}

/// Whether thread `u` is to be found under `lemma` once the lists of the
/// threads before `t` and the first `j` lemmas of thread `t` are indexed.
spec fn listed(
    lists: Seq<Seq<Seq<char>>>,
    t: int,
    j: int,
    lemma: Seq<char>,
    u: usize,
) -> bool {
    (u < t && u < lists.len() && lists[u as int].contains(lemma)) || (u == t && t < lists.len()
        && lists[t].take(j).contains(lemma))
}

/// Whether `lemma` is in the list of thread `u`.
pub open spec fn occurs(lists: Seq<Seq<Seq<char>>>, lemma: Seq<char>, u: usize) -> bool {
    u < lists.len() && lists[u as int].contains(lemma)
}

/// `postings` hold, for every lemma, the threads whose list has the lemma,
/// in ascending order and each once.
pub open spec fn indexes(postings: Map<Seq<char>, Seq<usize>>, lists: Seq<Seq<Seq<char>>>) -> bool {
    &&& forall|lemma: Seq<char>| #[trigger]
        postings.contains_key(lemma) ==> strictly_ascending(postings[lemma])
    &&& forall|lemma: Seq<char>, u: usize|
        #![trigger postings[lemma].contains(u)]
        #![trigger occurs(lists, lemma, u)]
        (postings.contains_key(lemma) && postings[lemma].contains(u)) <==> occurs(lists, lemma, u)
}

/// The posting list of a lemma: empty for a lemma that the index does not
/// know.
pub open spec fn posting(postings: Map<Seq<char>, Seq<usize>>, lemma: Seq<char>) -> Seq<usize> {
    if postings.contains_key(lemma) {
        postings[lemma]
    } else {
        Seq::empty()
    }
}

/// An inverted index from lemmas to ascending lists of thread numbers.
pub struct ThreadIndex {
    slots: StringHashMap<usize>,
    postings: Vec<Vec<usize>>,
}

impl View for ThreadIndex {
    type V = Map<Seq<char>, Seq<usize>>;

    closed spec fn view(&self) -> Map<Seq<char>, Seq<usize>> {
        Map::new(
            |lemma: Seq<char>| self.slots@.contains_key(lemma),
            |lemma: Seq<char>| self.postings@[self.slots@[lemma] as int]@,
        )
    }
}

impl ThreadIndex {
    #[verifier::type_invariant]
    spec fn slots_in_bounds(self) -> bool {
        forall|lemma: Seq<char>| #[trigger]
            self.slots@.contains_key(lemma) ==> self.slots@[lemma] < self.postings@.len()
    }

    /// Builds the index of the lemma lists of the threads, which are
    /// numbered by their position.
    pub fn build(lists: &Vec<Vec<String>>) -> (index: ThreadIndex)
        ensures
            indexes(index@, text_lists(lists@)),
    {
        let ghost all = text_lists(lists@);
        let mut slots: StringHashMap<usize> = StringHashMap::new();
        let mut postings: Vec<Vec<usize>> = Vec::new();
        let mut t: usize = 0;
        while t < lists.len()
            invariant
                t <= lists.len(),
                all == text_lists(lists@),
                build_state(slots@, postings@, all, t as int, 0),
            decreases lists.len() - t,
        {
            let list = &lists[t];
            let mut j: usize = 0;
            while j < list.len()
                invariant
                    t < lists.len(),
                    j <= list.len(),
                    all == text_lists(lists@),
                    *list == lists@[t as int],
                    build_state(slots@, postings@, all, t as int, j as int),
                decreases list.len() - j,
            {
                let ghost lemma = list@[j as int]@;
                let ghost old_slots = slots@;
                let ghost old_postings = postings@;
                proof {
                    assert(all[t as int] == texts(list@));
                    assert(all[t as int].take(j + 1) =~= all[t as int].take(j as int).push(lemma));
                }
                match slots.get(list[j].as_str()) {
                    Some(slot) => {
                        let slot = *slot;
                        let n = postings[slot].len();
                        if n == 0 || postings[slot][n - 1] != t {
                            postings[slot].push(t);
                            proof {
                                lemma_build_push(
                                    old_slots,
                                    old_postings,
                                    postings@,
                                    all,
                                    t as int,
                                    j as int,
                                );
                            }
                        } else {
                            proof {
                                lemma_build_skip(old_slots, old_postings, all, t as int, j as int);
                            }
                        }
                    },
                    None => {
                        let mut fresh: Vec<usize> = Vec::new();
                        fresh.push(t);
                        slots.insert(list[j].clone(), postings.len());
                        postings.push(fresh);
                        proof {
                            lemma_build_new(
                                old_slots,
                                old_postings,
                                slots@,
                                postings@,
                                all,
                                t as int,
                                j as int,
                            );
                        }
                    },
                }
                j += 1;
            }
            proof {
                lemma_build_next(slots@, postings@, all, t as int);
            }
            t += 1;
        }
        let index = ThreadIndex { slots, postings };
        proof {
            lemma_build_done(index.slots@, index.postings@, all, index@);
        }
        index
    }

    /// The threads in which `lemma` occurs, in ascending order.
    pub fn get(&self, lemma: &str) -> (threads: Vec<usize>)
        ensures
            threads@ == posting(self@, lemma@),
    {
        proof {
            use_type_invariant(self);
        }
        match self.slots.get(lemma) {
            Some(slot) => {
                let found = self.postings[*slot].clone();
                assert(found@ =~= self.postings@[*slot as int]@);
                found
            },
            None => Vec::new(),
        }
    }
}

/// What holds of an index under construction when the lists of the threads
/// before `t` and the first `j` lemmas of thread `t` are in it.
spec fn build_state(
    slots: Map<Seq<char>, usize>,
    postings: Seq<Vec<usize>>,
    lists: Seq<Seq<Seq<char>>>,
    t: int,
    j: int,
) -> bool {
    &&& forall|lemma: Seq<char>| #[trigger]
        slots.contains_key(lemma) ==> slots[lemma] < postings.len()
    &&& forall|a: Seq<char>, b: Seq<char>|
        #![trigger slots[a], slots[b]]
        slots.contains_key(a) && slots.contains_key(b) && slots[a] == slots[b] ==> a == b
    &&& forall|lemma: Seq<char>| #[trigger]
        slots.contains_key(lemma) ==> strictly_ascending(postings[slots[lemma] as int]@)
    &&& forall|lemma: Seq<char>, u: usize|
        #![trigger listed(lists, t, j, lemma, u)]
        (slots.contains_key(lemma) && postings[slots[lemma] as int]@.contains(u)) <==> listed(
            lists,
            t,
            j,
            lemma,
            u,
        )
}

proof fn lemma_build_next(
    slots: Map<Seq<char>, usize>,
    postings: Seq<Vec<usize>>,
    lists: Seq<Seq<Seq<char>>>,
    t: int,
)
    requires
        0 <= t < lists.len(),
        build_state(slots, postings, lists, t, lists[t].len() as int),
    ensures
        build_state(slots, postings, lists, t + 1, 0),
{
    assert(lists[t].take(lists[t].len() as int) =~= lists[t]);
    assert(lists[t + 1].take(0) =~= Seq::<Seq<char>>::empty() || t + 1 >= lists.len());
    assert forall|lemma: Seq<char>, u: usize|
        #![trigger listed(lists, t + 1, 0, lemma, u)]
        (slots.contains_key(lemma) && postings[slots[lemma] as int]@.contains(u)) <==> listed(
            lists,
            t + 1,
            0,
            lemma,
            u,
        ) by {
        assert(listed(lists, t, lists[t].len() as int, lemma, u) <==> listed(
            lists,
            t + 1,
            0,
            lemma,
            u,
        )) by {
            if t + 1 < lists.len() {
                assert(lists[t + 1].take(0) =~= Seq::<Seq<char>>::empty());
            }
        }
    }
}

proof fn lemma_build_done(
    slots: Map<Seq<char>, usize>,
    postings: Seq<Vec<usize>>,
    lists: Seq<Seq<Seq<char>>>,
    index: Map<Seq<char>, Seq<usize>>,
)
    requires
        build_state(slots, postings, lists, lists.len() as int, 0),
        forall|lemma: Seq<char>| index.contains_key(lemma) <==> slots.contains_key(lemma),
        forall|lemma: Seq<char>|
            slots.contains_key(lemma) ==> #[trigger] index[lemma] == postings[slots[lemma] as int]@,
    ensures
        indexes(index, lists),
{
    let t = lists.len() as int;
    assert forall|lemma: Seq<char>| #[trigger] index.contains_key(lemma) implies strictly_ascending(
        index[lemma],
    ) by {
        assert(slots.contains_key(lemma));
    }
    assert forall|lemma: Seq<char>, u: usize|
        #![trigger index[lemma].contains(u)]
        #![trigger occurs(lists, lemma, u)]
        (index.contains_key(lemma) && index[lemma].contains(u)) <==> occurs(lists, lemma, u) by {
        assert(listed(lists, t, 0, lemma, u) <==> occurs(lists, lemma, u));
        if index.contains_key(lemma) {
            assert(slots.contains_key(lemma));
        }
    }
}

proof fn lemma_build_skip(
    slots: Map<Seq<char>, usize>,
    postings: Seq<Vec<usize>>,
    lists: Seq<Seq<Seq<char>>>,
    t: int,
    j: int,
)
    requires
        0 <= t < lists.len(),
        0 <= j < lists[t].len(),
        t <= usize::MAX,
        build_state(slots, postings, lists, t, j),
        slots.contains_key(lists[t][j]),
        postings[slots[lists[t][j]] as int]@.len() > 0,
        postings[slots[lists[t][j]] as int]@.last() == t,
    ensures
        build_state(slots, postings, lists, t, j + 1),
{
    let word = lists[t][j];
    let p = postings[slots[word] as int]@;
    assert(p.contains(t as usize)) by {
        assert(p[p.len() - 1] == t);
    }
    assert(listed(lists, t, j, word, t as usize));
    assert forall|lemma: Seq<char>, u: usize|
        #![trigger listed(lists, t, j + 1, lemma, u)]
        (slots.contains_key(lemma) && postings[slots[lemma] as int]@.contains(u)) <==> listed(
            lists,
            t,
            j + 1,
            lemma,
            u,
        ) by {
        lemma_take_contains(lists[t], j, lemma);
        assert(listed(lists, t, j, lemma, u) <==> listed(lists, t, j + 1, lemma, u));
    }
}

proof fn lemma_build_push(
    slots: Map<Seq<char>, usize>,
    old_postings: Seq<Vec<usize>>,
    postings: Seq<Vec<usize>>,
    lists: Seq<Seq<Seq<char>>>,
    t: int,
    j: int,
)
    requires
        0 <= t < lists.len(),
        0 <= j < lists[t].len(),
        t <= usize::MAX,
        build_state(slots, old_postings, lists, t, j),
        slots.contains_key(lists[t][j]),
        old_postings[slots[lists[t][j]] as int]@.len() == 0 || old_postings[slots[lists[t][j]] as int]@.last()
            != t,
        postings.len() == old_postings.len(),
        forall|k: int|
            0 <= k < postings.len() && k != slots[lists[t][j]] ==> #[trigger] postings[k]
                == old_postings[k],
        postings[slots[lists[t][j]] as int]@ == old_postings[slots[lists[t][j]] as int]@.push(
            t as usize,
        ),
    ensures
        build_state(slots, postings, lists, t, j + 1),
{
    let word = lists[t][j];
    let slot = slots[word] as int;
    let p = old_postings[slot]@;
    let q = postings[slot]@;
    // every thread in the list is below t
    assert forall|i: int| 0 <= i < p.len() implies p[i] < t by {
        assert(p.contains(p[i]));
        assert(listed(lists, t, j, word, p[i]));
        if p[i] == t {
            assert(p[i] <= p[p.len() - 1]) by {
                if i < p.len() - 1 {
                    assert(p[i] < p[p.len() - 1]);
                }
            }
            assert(p.contains(p[p.len() - 1]));
            assert(listed(lists, t, j, word, p[p.len() - 1]));
        }
    }
    assert(strictly_ascending(q)) by {
        assert forall|a: int, b: int| 0 <= a < b < q.len() implies q[a] < q[b] by {
            if b < p.len() {
                assert(p[a] < p[b]);
            } else {
                assert(q[a] == p[a]);
            }
        }
    }
    assert forall|lemma: Seq<char>| #[trigger] slots.contains_key(lemma) implies strictly_ascending(
        postings[slots[lemma] as int]@,
    ) by {
        if slots[lemma] != slots[word] {
            assert(postings[slots[lemma] as int] == old_postings[slots[lemma] as int]);
        }
    }
    assert forall|lemma: Seq<char>, u: usize|
        #![trigger listed(lists, t, j + 1, lemma, u)]
        (slots.contains_key(lemma) && postings[slots[lemma] as int]@.contains(u)) <==> listed(
            lists,
            t,
            j + 1,
            lemma,
            u,
        ) by {
        lemma_take_contains(lists[t], j, lemma);
        assert((slots.contains_key(lemma) && old_postings[slots[lemma] as int]@.contains(u))
            <==> listed(lists, t, j, lemma, u));
        if slots.contains_key(lemma) {
            if lemma == word {
                if p.contains(u) {
                    let i = choose|i: int| 0 <= i < p.len() && p[i] == u;
                    assert(q[i] == u);
                }
                assert(q[p.len() as int] == t);
                if q.contains(u) {
                    let i = choose|i: int| 0 <= i < q.len() && q[i] == u;
                    if i < p.len() {
                        assert(p[i] == u);
                    }
                }
            } else {
                assert(slots[lemma] != slots[word]);
                assert(postings[slots[lemma] as int] == old_postings[slots[lemma] as int]);
            }
        }
    }
}

proof fn lemma_build_new(
    old_slots: Map<Seq<char>, usize>,
    old_postings: Seq<Vec<usize>>,
    slots: Map<Seq<char>, usize>,
    postings: Seq<Vec<usize>>,
    lists: Seq<Seq<Seq<char>>>,
    t: int,
    j: int,
)
    requires
        0 <= t < lists.len(),
        0 <= j < lists[t].len(),
        t <= usize::MAX,
        build_state(old_slots, old_postings, lists, t, j),
        !old_slots.contains_key(lists[t][j]),
        old_postings.len() <= usize::MAX,
        slots == old_slots.insert(lists[t][j], old_postings.len() as usize),
        postings.len() == old_postings.len() + 1,
        forall|k: int| 0 <= k < old_postings.len() ==> #[trigger] postings[k] == old_postings[k],
        postings[old_postings.len() as int]@ == seq![t as usize],
    ensures
        build_state(slots, postings, lists, t, j + 1),
{
    let word = lists[t][j];
    let fresh = seq![t as usize];
    assert(fresh[0] == t);
    assert forall|lemma: Seq<char>| #[trigger] slots.contains_key(lemma) implies slots[lemma]
        < postings.len() && strictly_ascending(postings[slots[lemma] as int]@) by {
        if lemma != word {
            assert(old_slots.contains_key(lemma));
            assert(postings[slots[lemma] as int] == old_postings[slots[lemma] as int]);
        }
    }
    assert forall|a: Seq<char>, b: Seq<char>|
        #![trigger slots[a], slots[b]]
        slots.contains_key(a) && slots.contains_key(b) && slots[a] == slots[b] implies a == b by {
        if a != word {
            assert(old_slots.contains_key(a));
        }
        if b != word {
            assert(old_slots.contains_key(b));
        }
        if a != word && b != word {
            assert(old_slots[a] == old_slots[b]);
        }
    }
    assert forall|lemma: Seq<char>, u: usize|
        #![trigger listed(lists, t, j + 1, lemma, u)]
        (slots.contains_key(lemma) && postings[slots[lemma] as int]@.contains(u)) <==> listed(
            lists,
            t,
            j + 1,
            lemma,
            u,
        ) by {
        lemma_take_contains(lists[t], j, lemma);
        assert((old_slots.contains_key(lemma) && old_postings[old_slots[lemma] as int]@.contains(
            u,
        )) <==> listed(lists, t, j, lemma, u));
        if lemma == word {
            if fresh.contains(u) {
                let i = choose|i: int| 0 <= i < fresh.len() && fresh[i] == u;
            }
        } else if old_slots.contains_key(lemma) {
            assert(postings[slots[lemma] as int] == old_postings[slots[lemma] as int]);
        }
    }
}

} // verus!
