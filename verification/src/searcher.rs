//! The searcher: threads, index and dictionary of one loaded message log, and
//! the queries that it answers.

use crate::deserialization::{flat_text, well_formed, Message, TextEntity};
use crate::index::{indexes, lemmas_of_threads, thread_lemmas, ThreadIndex};
use crate::lemmatizer::Lemmatizer;
use crate::merge::{
    lemma_merge_and_ascending, lemma_merge_and_contains, lemma_merge_or_ascending,
    lemma_merge_or_contains, strictly_ascending, MergeAnd, MergeOr,
};
use crate::query::{parse_query, Lexer, Parser, QueryError, QueryView, SearchQuery};
use crate::ranking::{newer, rank, ranked};
use crate::text::{
    contains_text, flat_spans, highlight, lemma_flat_spans_concat, lemma_flat_spans_one,
    lemma_highlight_spells_text,
    lemma_of_word, lemmas_of_text, span_text, spans_after, take_word, text_lemmas, texts,
    word_lemma, word_span, SpanView,
};
use crate::thread_dsu::member_seqs;
use crate::threads::{is_threading, reconstruct_threads};
use std::sync::Arc;
use vstd::prelude::*;

verus! {

/// A piece of a message's text as it is shown.
#[derive(Debug, Clone, PartialEq, Eq)]
pub enum Text {
    /// Text that is shown as it is.
    Plain(String),
    /// A word that matches the query.
    Highlight(String),
}

impl View for Text {
    type V = SpanView;

    open spec fn view(&self) -> SpanView {
        match self {
            Text::Plain(text) => SpanView::Plain(text@),
            Text::Highlight(text) => SpanView::Highlight(text@),
        }
    }
}

/// A thread that matches a query.
#[derive(Debug, Clone, PartialEq, Eq)]
pub struct ThreadSearchResult {
    /// The number of the thread.
    pub thread_id: u32,
    /// The relevance of the thread: zero for every thread.
    pub score: u32,
    /// The text of the thread's first message.
    pub title_text: String,
    /// When the thread's first message was sent.
    pub date_unixtime: u32,
}

impl Text {
    /// The characters of the span.
    pub fn as_str(&self) -> (text: &str)
        ensures
            text@ == span_text(self@),
    {
        match self {
            Text::Plain(text) => text.as_str(),
            Text::Highlight(text) => text.as_str(),
        }
    }
}

impl ThreadSearchResult {
    /// The text of the thread's first message.
    pub fn title_text(&self) -> (text: String)
        ensures
            text@ == self.title_text@,
    {
        self.title_text.clone()
    }
}

/// A message as it is shown.
#[derive(Debug, Clone, PartialEq, Eq)]
pub struct MessageResult {
    /// The number of the message.
    pub message_id: usize,
    /// The text of the message in spans.
    pub text: Vec<Text>,
    /// The text of the message that this one replies to, if any.
    pub reply_to_text: Option<String>,
}

impl MessageResult {
    /// The text of the message: its spans, one after the other.
    pub fn text(&self) -> (text: String)
        ensures
            text@ == flat_spans(spans(self.text@)),
    {
        let mut text = String::new();
        let mut i: usize = 0;
        proof {
            assert(spans(self.text@).take(0) =~= Seq::<SpanView>::empty());
        }
        while i < self.text.len()
            invariant
                i <= self.text.len(),
                text@ == flat_spans(spans(self.text@).take(i as int)),
            decreases self.text.len() - i,
        {
            proof {
                assert(spans(self.text@).take(i + 1).drop_last() =~= spans(self.text@).take(
                    i as int,
                ));
                assert(spans(self.text@).take(i + 1).last() == self.text@[i as int]@);
            }
            text.append(self.text[i].as_str());
            i += 1;
        }
        proof {
            assert(spans(self.text@).take(i as int) =~= spans(self.text@));
        }
        text
    }

    /// The text of the message that this one replies to, if any.
    pub fn reply_to_text(&self) -> (text: Option<String>)
        ensures
            text is Some == self.reply_to_text is Some,
            text is Some ==> text->0@ == self.reply_to_text->0@,
    {
        match &self.reply_to_text {
            Some(text) => Some(text.clone()),
            None => None,
        }
    }
}

/// Why a list of messages cannot be searched.
#[derive(Debug, Clone, Copy, PartialEq, Eq, Structural)]
pub enum DeserializationError {
    /// The list is empty.
    NoMessages,
    /// The list holds more messages than thread numbers can count.
    TooManyMessages,
    /// The message at `position` does not have `position` as its id.
    MisnumberedMessage { position: usize },
    /// The message at `position` replies to itself or to a later message.
    ForwardReply { position: usize },
}

/// What is wrong with the message at position `i`, if anything.
pub open spec fn fault_at(messages: Seq<Message>, i: int) -> Option<DeserializationError> {
    if messages[i].id != i {
        Some(DeserializationError::MisnumberedMessage { position: i as usize })
    } else if messages[i].reply_to_message_id is Some && messages[i].reply_to_message_id->0 >= i {
        Some(DeserializationError::ForwardReply { position: i as usize })
    } else {
        None
    }
}

/// The fault of the first faulty message among the first `upto`.
pub open spec fn first_fault(messages: Seq<Message>, upto: int) -> Option<DeserializationError>
    decreases upto,
{
    if upto <= 0 {
        None
    } else if first_fault(messages, upto - 1) is Some {
        first_fault(messages, upto - 1)
    } else {
        fault_at(messages, upto - 1)
    }
}

/// Whether a list of messages can be searched, and why not.
pub open spec fn checked(messages: Seq<Message>) -> Result<(), DeserializationError> {
    if messages.len() == 0 {
        Err(DeserializationError::NoMessages)
    } else if messages.len() > u32::MAX {
        Err(DeserializationError::TooManyMessages)
    } else {
        match first_fault(messages, messages.len() as int) {
            Some(e) => Err(e),
            None => Ok(()),
        }
    }
}

/// A list without a faulty message is well formed, and a well-formed list
/// has no faulty message.
pub proof fn lemma_first_fault(messages: Seq<Message>, upto: int)
    requires
        0 <= upto <= messages.len(),
    ensures
        first_fault(messages, upto) is None <==> well_formed(messages.take(upto)),
    decreases upto,
{
    if upto > 0 {
        lemma_first_fault(messages, upto - 1);
        let shorter = messages.take(upto - 1);
        let longer = messages.take(upto);
        if well_formed(longer) {
            assert forall|i: int| #![trigger shorter[i]] 0 <= i < shorter.len() implies shorter[i].id
                == i && (shorter[i].reply_to_message_id matches Some(r) ==> r < i) by {
                assert(shorter[i] == longer[i]);
            }
            assert(longer[upto - 1] == messages[upto - 1]);
        }
        if first_fault(messages, upto) is None {
            assert forall|i: int| #![trigger longer[i]] 0 <= i < longer.len() implies longer[i].id
                == i && (longer[i].reply_to_message_id matches Some(r) ==> r < i) by {
                if i < upto - 1 {
                    assert(shorter[i] == longer[i]);
                }
            }
        }
    }
}

/// A fault that was found among the first messages is the one found among
/// more.
pub proof fn lemma_first_fault_stays(messages: Seq<Message>, found: int, upto: int)
    requires
        0 <= found <= upto,
        first_fault(messages, found) is Some,
    ensures
        first_fault(messages, upto) == first_fault(messages, found),
    decreases upto - found,
{
    if found < upto {
        lemma_first_fault_stays(messages, found, upto - 1);
    }
}

/// Checks that a list of messages can be searched: that it is not empty,
/// that thread numbers can count it, that the messages are numbered by
/// their position and that every reply points at an earlier message.
pub fn check_messages(messages: &Vec<Message>) -> (r: Result<(), DeserializationError>)
    ensures
        r == checked(messages@),
        r is Ok ==> well_formed(messages@) && 0 < messages@.len() <= u32::MAX,
{
    if messages.len() == 0 {
        return Err(DeserializationError::NoMessages);
    }
    if messages.len() > u32::MAX as usize {
        return Err(DeserializationError::TooManyMessages);
    }
    let mut i: usize = 0;
    while i < messages.len()
        invariant
            i <= messages.len(),
            0 < messages@.len() <= u32::MAX,
            first_fault(messages@, i as int) is None,
        decreases messages.len() - i,
    {
        proof {
            if fault_at(messages@, i as int) is Some {
                lemma_first_fault_stays(messages@, i + 1, messages@.len() as int);
            }
        }
        if messages[i].id != i {
            return Err(DeserializationError::MisnumberedMessage { position: i });
        }
        match messages[i].reply_to_message_id {
            Some(r) => {
                if r >= i {
                    return Err(DeserializationError::ForwardReply { position: i });
                }
            },
            None => {},
        }
        i += 1;
    }
    proof {
        lemma_first_fault(messages@, messages@.len() as int);
        assert(messages@.take(messages@.len() as int) =~= messages@);
    }
    Ok(())
}

/// The lemma lists of the threads.
pub open spec fn lemma_lists(
    dict: Map<Seq<char>, Seq<char>>,
    messages: Seq<Message>,
    threads: Seq<Seq<usize>>,
) -> Seq<Seq<Seq<char>>> {
    Seq::new(threads.len(), |t: int| thread_lemmas(dict, messages, threads[t]))
}

/// Whether thread `t` matches a query: a word matches a thread that holds
/// the word's lemma, `&` asks for both sides and `|` for one of them.
pub open spec fn thread_matches(
    dict: Map<Seq<char>, Seq<char>>,
    messages: Seq<Message>,
    threads: Seq<Seq<usize>>,
    query: QueryView,
    t: usize,
) -> bool
    decreases query,
{
    match query {
        QueryView::Word(word) => t < threads.len() && thread_lemmas(
            dict,
            messages,
            threads[t as int],
        ).contains(word_lemma(dict, word)),
        QueryView::And(left, right) => thread_matches(dict, messages, threads, *left, t)
            && thread_matches(dict, messages, threads, *right, t),
        QueryView::Or(left, right) => thread_matches(dict, messages, threads, *left, t)
            || thread_matches(dict, messages, threads, *right, t),
    }
}

/// The first of two results comes first in an answer: it is the more
/// recent one, or of two equally recent ones that of the smaller thread
/// number.
pub open spec fn comes_before(a: ThreadSearchResult, b: ThreadSearchResult) -> bool {
    a.date_unixtime > b.date_unixtime || (a.date_unixtime == b.date_unixtime && a.thread_id
        < b.thread_id)
}

/// Thread `t` is among the results.
pub open spec fn has_result(results: Seq<ThreadSearchResult>, t: usize) -> bool {
    exists|i: int| 0 <= i < results.len() && (#[trigger] results[i]).thread_id == t
}

/// The views of a list of spans.
pub open spec fn spans(list: Seq<Text>) -> Seq<SpanView> {
    Seq::new(list.len(), |i: int| list[i]@)
}

/// The spans of a message's text: a segment that is split into words gives
/// the spans of its text, any other segment one plain span.
pub open spec fn message_spans(
    dict: Map<Seq<char>, Seq<char>>,
    entities: Seq<TextEntity>,
    queries: Seq<Seq<char>>,
) -> Seq<SpanView>
    decreases entities.len(),
{
    if entities.len() == 0 {
        Seq::empty()
    } else {
        message_spans(dict, entities.drop_last(), queries) + (match entities.last() {
            TextEntity::Lemmatizable(text) => highlight(dict, text@, queries),
            TextEntity::Illemmatizable(text) => seq![SpanView::Plain(text@)],
        })
    }
}

/// The spans of a message spell the message's text, whatever is marked.
pub proof fn lemma_message_spans_spell_text(
    dict: Map<Seq<char>, Seq<char>>,
    entities: Seq<TextEntity>,
    queries: Seq<Seq<char>>,
)
    ensures
        flat_spans(message_spans(dict, entities, queries)) == flat_text(entities),
    decreases entities.len(),
{
    if entities.len() > 0 {
        lemma_message_spans_spell_text(dict, entities.drop_last(), queries);
        let before = message_spans(dict, entities.drop_last(), queries);
        match entities.last() {
            TextEntity::Lemmatizable(text) => {
                lemma_highlight_spells_text(dict, text@, queries);
                lemma_flat_spans_concat(before, highlight(dict, text@, queries));
            },
            TextEntity::Illemmatizable(text) => {
                let one = seq![SpanView::Plain(text@)];
                lemma_flat_spans_one(SpanView::Plain(text@));
                lemma_flat_spans_concat(before, one);
            },
        }
    }
}

/// There are no more threads than messages.
pub proof fn lemma_thread_count(threads: Seq<Seq<usize>>, messages: Seq<Message>)
    requires
        is_threading(threads, messages),
    ensures
        threads.len() <= messages.len(),
{
    let firsts = Seq::new(threads.len(), |t: int| threads[t][0] as int);
    assert forall|t: int, u: int|
        0 <= t < firsts.len() && 0 <= u < firsts.len() && t != u implies firsts[t]
        != firsts[u] by {
        if firsts[t] == firsts[u] {
            assert(threads[t][0] == threads[u][0]);
            assert(crate::deserialization::root_of(messages, threads[t][0] as int)
                == crate::deserialization::root_of(messages, threads[u][0] as int));
            assert(threads[t].len() > 0 && threads[u].len() > 0);
        }
    }
    assert(firsts.no_duplicates());
    firsts.unique_seq_to_set();
    let range = vstd::set_lib::set_int_range(0, messages.len() as int);
    vstd::set_lib::lemma_int_range(0, messages.len() as int);
    assert forall|x: int| firsts.to_set().contains(x) implies range.contains(x) by {
        let t = choose|t: int| 0 <= t < firsts.len() && firsts[t] == x;
        assert(threads[t].len() > 0);
        assert(threads[t][0] < messages.len());
    }
    vstd::set_lib::lemma_len_subset(firsts.to_set(), range);
}

/// The threads, the index and the dictionary of one list of messages.
pub struct Searcher {
    messages: Vec<Message>,
    threads: Vec<Vec<usize>>,
    lemmatizer: Arc<Lemmatizer>,
    thread_index: ThreadIndex,
}

impl Searcher {
    #[verifier::type_invariant]
    spec fn consistent(self) -> bool {
        &&& well_formed(self.messages@)
        &&& 0 < self.messages@.len() <= u32::MAX
        &&& is_threading(member_seqs(self.threads@), self.messages@)
        &&& indexes(
            self.thread_index@,
            lemma_lists(self.lemmatizer@, self.messages@, member_seqs(self.threads@)),
        )
    }

    /// The messages that are searched.
    pub closed spec fn messages(&self) -> Seq<Message> {
        self.messages@
    }

    /// The threads of the messages, each an ascending list of message ids.
    /// A thread's number is its position here.
    pub closed spec fn threads(&self) -> Seq<Seq<usize>> {
        member_seqs(self.threads@)
    }

    /// The dictionary by which words are reduced to lemmas.
    pub closed spec fn dictionary(&self) -> Map<Seq<char>, Seq<char>> {
        self.lemmatizer@
    }

    /// The inverted index: for every lemma the numbers of the threads that
    /// hold it, in ascending order.
    pub closed spec fn index(&self) -> Map<Seq<char>, Seq<usize>> {
        self.thread_index@
    }

    /// Builds the searcher of a list of messages: groups the messages into
    /// threads and indexes every thread by the lemmas of its words.
    pub fn new(lemmatizer: Arc<Lemmatizer>, messages: Vec<Message>) -> (r: Result<
        Searcher,
        DeserializationError,
    >)
        ensures
            match r {
                Ok(searcher) => {
                    &&& checked(messages@) is Ok
                    &&& searcher.messages() == messages@
                    &&& searcher.dictionary() == lemmatizer@
                    &&& is_threading(searcher.threads(), messages@)
                    &&& indexes(
                        searcher.index(),
                        lemma_lists(lemmatizer@, messages@, searcher.threads()),
                    )
                    &&& well_formed(messages@)
                    &&& 0 < messages@.len() <= u32::MAX
                },
                Err(e) => checked(messages@) == Err::<(), DeserializationError>(e),
            },
    {
        match check_messages(&messages) {
            Ok(_) => {},
            Err(e) => { return Err(e); },
        }
        let threads = reconstruct_threads(&messages);
        proof {
            let groups = member_seqs(threads@);
            assert forall|t: int, i: int|
                0 <= t < threads@.len() && 0 <= i < threads@[t]@.len() implies #[trigger] threads@[t]@[i]
                < messages@.len() by {
                assert(groups[t][i] < messages@.len());
            }
        }
        let lists = lemmas_of_threads(&lemmatizer, &messages, &threads);
        let thread_index = ThreadIndex::build(&lists);
        proof {
            assert(crate::index::text_lists(lists@) =~= lemma_lists(
                lemmatizer@,
                messages@,
                member_seqs(threads@),
            ));
        }
        Ok(Searcher { messages, threads, lemmatizer, thread_index })
    }

    /// Whether thread `t` matches a query.
    pub open spec fn matches(&self, query: QueryView, t: usize) -> bool {
        thread_matches(self.dictionary(), self.messages(), self.threads(), query, t)
    }

    /// The result describes the thread that it names: its score is zero, and
    /// its title and date are those of the thread's first message.
    pub open spec fn describes(&self, result: ThreadSearchResult) -> bool {
        let t = result.thread_id as int;
        &&& t < self.threads().len()
        &&& self.threads()[t].len() > 0
        &&& self.threads()[t][0] < self.messages().len()
        &&& result.score == 0
        &&& result.title_text@ == self.messages()[self.threads()[t][0] as int].content()
        &&& result.date_unixtime == self.messages()[self.threads()[t][0] as int].date_unixtime
    }

    /// `results` present the threads `found`: one result for each, the
    /// most recent first and equally recent ones by thread number.
    pub open spec fn presents(&self, found: Seq<usize>, results: Seq<ThreadSearchResult>) -> bool {
        &&& forall|i: int|
            0 <= i < results.len() ==> self.describes(#[trigger] results[i]) && found.contains(
                results[i].thread_id as usize,
            )
        &&& forall|i: int| 0 <= i < found.len() ==> has_result(results, #[trigger] found[i])
        &&& forall|i: int, j: int|
            0 <= i < j < results.len() ==> comes_before(#[trigger] results[i], #[trigger] results[j])
    }

    /// `results` answer a query: they are the threads that match it, one
    /// result for each, the most recent first and equally recent ones by
    /// thread number.
    pub open spec fn answers(&self, query: QueryView, results: Seq<ThreadSearchResult>) -> bool {
        &&& forall|i: int|
            0 <= i < results.len() ==> self.describes(#[trigger] results[i]) && self.matches(
                query,
                results[i].thread_id as usize,
            )
        &&& forall|t: usize| self.matches(query, t) ==> #[trigger] has_result(results, t)
        &&& forall|i: int, j: int|
            0 <= i < j < results.len() ==> comes_before(#[trigger] results[i], #[trigger] results[j])
    }

    /// How many messages there are.
    pub fn message_count(&self) -> (n: usize)
        ensures
            n == self.messages().len(),
            n > 0,
    {
        proof {
            use_type_invariant(self);
        }
        self.messages.len()
    }

    /// How many threads there are.
    pub fn thread_count(&self) -> (n: usize)
        ensures
            n == self.threads().len(),
            is_threading(self.threads(), self.messages()),
            well_formed(self.messages()),
    {
        proof {
            use_type_invariant(self);
        }
        self.threads.len()
    }

    /// The threads that hold the lemma of `word`, in ascending order.
    pub fn find_threads_by_word(&self, word: &str) -> (found: Vec<usize>)
        ensures
            strictly_ascending(found@),
            forall|t: usize| found@.contains(t) <==> self.matches(QueryView::Word(word@), t),
    {
        proof {
            use_type_invariant(self);
        }
        let lemma = lemma_of_word(&self.lemmatizer, word);
        let found = self.thread_index.get(lemma.as_str());
        proof {
            let lists = lemma_lists(self.lemmatizer@, self.messages@, member_seqs(self.threads@));
            assert forall|t: usize| found@.contains(t) <==> self.matches(
                QueryView::Word(word@),
                t,
            ) by {
                assert(crate::index::occurs(lists, lemma@, t) <==> self.matches(
                    QueryView::Word(word@),
                    t,
                ));
            }
        }
        found
    }

    /// The threads that match a query, in ascending order.
    pub fn find_threads_by_query(&self, query: &SearchQuery) -> (found: Vec<usize>)
        ensures
            strictly_ascending(found@),
            forall|t: usize| found@.contains(t) <==> self.matches(query@, t),
        decreases query,
    {
        match query {
            SearchQuery::Word(word) => self.find_threads_by_word(word.as_str()),
            SearchQuery::Or(pair) => {
                let left = self.find_threads_by_query(&pair.0);
                let right = self.find_threads_by_query(&pair.1);
                let found = MergeOr::new(left.as_slice(), right.as_slice()).collect();
                proof {
                    lemma_merge_or_ascending(left@, right@);
                    assert forall|t: usize| found@.contains(t) <==> self.matches(query@, t) by {
                        lemma_merge_or_contains(left@, right@, t);
                    }
                }
                found
            },
            SearchQuery::And(pair) => {
                let left = self.find_threads_by_query(&pair.0);
                let right = self.find_threads_by_query(&pair.1);
                let found = MergeAnd::new(left.as_slice(), right.as_slice()).collect();
                proof {
                    lemma_merge_and_ascending(left@, right@);
                    assert forall|t: usize| found@.contains(t) <==> self.matches(query@, t) by {
                        lemma_merge_and_contains(left@, right@, t);
                    }
                }
                found
            },
        }
    }

    /// The lemmas of the words of a query string that are longer than three
    /// bytes: what the words of a message are compared with when it is shown.
    pub fn get_query_words(&self, query: String) -> (words: Vec<String>)
        ensures
            texts(words@) == text_lemmas(self.dictionary(), query@),
    {
        lemmas_of_text(&self.lemmatizer, query.as_str())
    }

    /// The threads that match a query, the most recent first.
    pub fn find_threads(&self, query: String) -> (r: Result<Vec<ThreadSearchResult>, QueryError>)
        ensures
            match r {
                Ok(results) => parse_query(query@) is Ok && self.answers(
                    parse_query(query@)->Ok_0,
                    results@,
                ),
                Err(e) => parse_query(query@) == Err::<QueryView, QueryError>(e),
            },
    {
        let mut parser = match Parser::new(Lexer::new(query.as_str())) {
            Ok(parser) => parser,
            Err(e) => { return Err(e); },
        };
        let parsed = match parser.parse() {
            Ok(parsed) => parsed,
            Err(e) => { return Err(e); },
        };
        let found = self.find_threads_by_query(&parsed);
        proof {
            assert forall|i: int| 0 <= i < found@.len() implies #[trigger] found@[i]
                < self.threads().len() by {
                assert(found@.contains(found@[i]));
                lemma_matches_in_range(
                    self.dictionary(),
                    self.messages(),
                    self.threads(),
                    parsed@,
                    found@[i],
                );
            }
        }
        let results = self.thread_results(&found);
        proof {
            assert forall|t: usize| self.matches(parsed@, t) implies #[trigger] has_result(
                results@,
                t,
            ) by {
                assert(found@.contains(t));
                let i = choose|i: int| 0 <= i < found@.len() && found@[i] == t;
                assert(has_result(results@, found@[i]));
            }
        }
        Ok(results)
    }

    /// The results for the threads `found`, the most recent first and
    /// equally recent ones by their number.
    pub fn thread_results(&self, found: &Vec<usize>) -> (results: Vec<ThreadSearchResult>)
        requires
            strictly_ascending(found@),
            forall|i: int| 0 <= i < found@.len() ==> #[trigger] found@[i] < self.threads().len(),
        ensures
            self.presents(found@, results@),
            results@.len() == found@.len(),
    {
        proof {
            use_type_invariant(self);
            lemma_thread_count(member_seqs(self.threads@), self.messages@);
        }
        let mut dated: Vec<(u32, usize)> = Vec::new();
        let mut k: usize = 0;
        while k < found.len()
            invariant
                k <= found.len(),
                forall|i: int| 0 <= i < found@.len() ==> #[trigger] found@[i] < self.threads().len(),
                is_threading(self.threads(), self.messages()),
                self.threads() == member_seqs(self.threads@),
                self.messages() == self.messages@,
                dated@.len() == k,
                forall|i: int|
                    0 <= i < k ==> (#[trigger] dated@[i]).1 == found@[i] && self.dates(dated@[i]),
            decreases found.len() - k,
        {
            let thread_id = found[k];
            proof {
                assert(self.threads()[thread_id as int].len() > 0);
                assert(self.threads()[thread_id as int][0] < self.messages().len());
            }
            let message = &self.messages[self.threads[thread_id][0]];
            dated.push((message.date_unixtime, thread_id));
            k += 1;
        }
        proof {
            assert forall|i: int, j: int| 0 <= i < j < dated@.len() implies dated@[i]
                != dated@[j] by {
                assert(found@[i] < found@[j]);
            }
        }
        let order = rank(&dated);
        let mut results: Vec<ThreadSearchResult> = Vec::new();
        let mut i: usize = 0;
        while i < order.len()
            invariant
                i <= order.len(),
                ranked(order@),
                self.threads().len() <= u32::MAX,
                self.threads() == member_seqs(self.threads@),
                self.messages() == self.messages@,
                forall|x: (u32, usize)| order@.contains(x) <==> dated@.contains(x),
                forall|l: int| 0 <= l < dated@.len() ==> self.dates(#[trigger] dated@[l]),
                results@.len() == i,
                forall|l: int|
                    0 <= l < i ==> self.describes(#[trigger] results@[l]) && results@[l].thread_id
                        == order@[l].1 && results@[l].date_unixtime == order@[l].0,
            decreases order.len() - i,
        {
            let (date_unixtime, thread_id) = order[i];
            proof {
                assert(order@.contains(order@[i as int]));
                let l = choose|l: int| 0 <= l < dated@.len() && dated@[l] == order@[i as int];
                assert(self.dates(dated@[l]));
            }
            let message = &self.messages[self.threads[thread_id][0]];
            results.push(
                ThreadSearchResult {
                    thread_id: thread_id as u32,
                    score: 0,
                    title_text: message.text(),
                    date_unixtime,
                },
            );
            i += 1;
        }
        proof {
            assert forall|l: int| 0 <= l < results@.len() implies found@.contains(
                (#[trigger] results@[l]).thread_id as usize,
            ) by {
                assert(order@.contains(order@[l]));
                let at = choose|at: int| 0 <= at < dated@.len() && dated@[at] == order@[l];
                assert(found@[at] == dated@[at].1);
            }
            assert forall|at: int| 0 <= at < found@.len() implies has_result(
                results@,
                #[trigger] found@[at],
            ) by {
                assert(dated@.contains(dated@[at]));
                assert(order@.contains(dated@[at]));
                let l = choose|l: int| 0 <= l < order@.len() && order@[l] == dated@[at];
                assert(results@[l].thread_id == found@[at]);
            }
            assert forall|a: int, b: int| 0 <= a < b < results@.len() implies comes_before(
                #[trigger] results@[a],
                #[trigger] results@[b],
            ) by {
                assert(newer(order@[a], order@[b]));
            }
        }
        results
    }

    /// The pair names a thread together with the date of its first
    /// message.
    pub open spec fn dates(&self, pair: (u32, usize)) -> bool {
        &&& pair.1 < self.threads().len()
        &&& self.threads()[pair.1 as int].len() > 0
        &&& self.threads()[pair.1 as int][0] < self.messages().len()
        &&& pair.0 == self.messages()[self.threads()[pair.1 as int][0] as int].date_unixtime
    }

    /// The first and the last message of a thread. What is shown of a
    /// thread are all the messages from the one to the other, members of the
    /// thread or not.
    pub fn get_thread_messages(&self, thread_id: usize) -> (range: (usize, usize))
        requires
            thread_id < self.threads().len(),
        ensures
            range.0 == self.threads()[thread_id as int].first(),
            range.1 == self.threads()[thread_id as int].last(),
            range.0 <= range.1 < self.messages().len(),
    {
        proof {
            use_type_invariant(self);
        }
        let thread = &self.threads[thread_id];
        proof {
            let members = member_seqs(self.threads@)[thread_id as int];
            assert(members == thread@);
            assert(members.len() > 0);
            assert(members[members.len() - 1] < self.messages@.len());
            if members.len() > 1 {
                assert(members[0] < members[members.len() - 1]);
            }
        }
        let min_id = thread[0];
        let max_id = thread[thread.len() - 1];
        (min_id, max_id)
    }

    /// The messages from `message_id_min` to `message_id_max`, both
    /// included, as they are shown: with the words marked whose lemma is among
    /// `query_words`, and with the text of the message replied to. Nothing
    /// when the first id is greater than the last.
    pub fn get_message_range(
        &self,
        message_id_min: usize,
        message_id_max: usize,
        query_words: Vec<String>,
    ) -> (out: Vec<MessageResult>)
        requires
            message_id_min <= message_id_max ==> message_id_max < self.messages().len(),
        ensures
            message_id_min > message_id_max ==> out@.len() == 0,
            message_id_min <= message_id_max ==> out@.len() == message_id_max - message_id_min + 1,
            forall|i: int|
                0 <= i < out@.len() ==> self.shows(
                    message_id_min + i,
                    texts(query_words@),
                    #[trigger] out@[i],
                ),
    {
        let mut out: Vec<MessageResult> = Vec::new();
        if message_id_min > message_id_max {
            return out;
        }
        proof {
            use_type_invariant(self);
        }
        let mut id: usize = message_id_min;
        while id <= message_id_max
            invariant
                message_id_min <= id <= message_id_max + 1,
                message_id_max < self.messages@.len() <= usize::MAX,
                self.messages() == self.messages@,
                well_formed(self.messages@),
                out@.len() == id - message_id_min,
                forall|i: int|
                    0 <= i < out@.len() ==> self.shows(
                        message_id_min + i,
                        texts(query_words@),
                        #[trigger] out@[i],
                    ),
            decreases message_id_max + 1 - id,
        {
            let message = &self.messages[id];
            proof {
                assert(self.messages@[id as int].id == id);
            }
            let reply_to_text = match message.reply_to_message_id {
                Some(reply_to_id) => Some(self.messages[reply_to_id].text()),
                None => None,
            };
            let result = MessageResult {
                message_id: message.id,
                text: self.get_highlighted_text(&message.text_entities, query_words.as_slice()),
                reply_to_text,
            };
            out.push(result);
            id += 1;
        }
        out
    }

    /// `result` shows message `id` with the words marked whose lemma is among
    /// `queries`.
    pub open spec fn shows(&self, id: int, queries: Seq<Seq<char>>, result: MessageResult) -> bool {
        let message = self.messages()[id];
        &&& 0 <= id < self.messages().len()
        &&& result.message_id == id
        &&& spans(result.text@) == message_spans(
            self.dictionary(),
            message.text_entities@,
            queries,
        )
        &&& match message.reply_to_message_id {
            Some(reply_to_id) => reply_to_id < id && result.reply_to_text is Some
                && result.reply_to_text->0@ == self.messages()[reply_to_id as int].content(),
            None => result.reply_to_text is None,
        }
    }

    /// The spans of a message's text.
    pub fn get_highlighted_text(&self, text: &Vec<TextEntity>, query_words: &[String]) -> (out: Vec<
        Text,
    >)
        ensures
            spans(out@) == message_spans(self.dictionary(), text@, texts(query_words@)),
    {
        let mut out: Vec<Text> = Vec::new();
        let mut i: usize = 0;
        proof {
            assert(text@.take(0) =~= Seq::<TextEntity>::empty());
            assert(spans(out@) =~= Seq::<SpanView>::empty());
        }
        while i < text.len()
            invariant
                i <= text.len(),
                spans(out@) == message_spans(
                    self.dictionary(),
                    text@.take(i as int),
                    texts(query_words@),
                ),
            decreases text.len() - i,
        {
            let ghost before = out@;
            proof {
                assert(text@.take(i + 1).drop_last() =~= text@.take(i as int));
                assert(text@.take(i + 1).last() == text@[i as int]);
            }
            match &text[i] {
                TextEntity::Lemmatizable(content) => {
                    let mut part = self.highlight_substrings(content.as_str(), query_words);
                    let ghost added = part@;
                    out.append(&mut part);
                    proof {
                        assert(spans(out@) =~= spans(before) + spans(added));
                    }
                },
                TextEntity::Illemmatizable(content) => {
                    out.push(Text::Plain(content.clone()));
                    proof {
                        assert(spans(out@) =~= spans(before) + seq![SpanView::Plain(content@)]);
                    }
                },
            }
            i += 1;
        }
        proof {
            assert(text@.take(i as int) =~= text@);
        }
        out
    }

    /// The span of a word: marked when the word's lemma is among the query
    /// words.
    fn span_of(&self, word: String, queries: &[String]) -> (span: Text)
        ensures
            span@ == word_span(self.dictionary(), word@, texts(queries@)),
    {
        let lemma = lemma_of_word(&self.lemmatizer, word.as_str());
        if contains_text(queries, lemma.as_str()) {
            Text::Highlight(word)
        } else {
            Text::Plain(word)
        }
    }

    /// The spans of a text: its words, marked where their lemma is among the
    /// query words, and between them every other character as a plain span of
    /// its own.
    pub fn highlight_substrings(&self, target: &str, queries: &[String]) -> (out: Vec<Text>)
        ensures
            spans(out@) == highlight(self.dictionary(), target@, texts(queries@)),
    {
        let chars = crate::chars::to_chars(target);
        let mut out: Vec<Text> = Vec::new();
        if chars.len() == 0 {
            proof {
                assert(spans(out@) =~= Seq::<SpanView>::empty());
            }
            return out;
        }
        let (word, end) = take_word(&chars, 0);
        let first = self.span_of(word, queries);
        out.push(first);
        let mut pos: usize = end;
        proof {
            assert(spans(out@) =~= seq![first@]);
        }
        while pos < chars.len()
            invariant
                pos <= chars.len(),
                chars@ == target@,
                spans(out@) + spans_after(
                    self.dictionary(),
                    chars@,
                    pos as int,
                    texts(queries@),
                ) == highlight(self.dictionary(), target@, texts(queries@)),
            decreases chars.len() - pos,
        {
            let ghost before = spans(out@);
            let ghost rest = spans_after(self.dictionary(), chars@, pos as int, texts(queries@));
            let mut separator = String::new();
            separator.push(chars[pos]);
            proof {
                assert(separator@ =~= seq![chars@[pos as int]]);
            }
            let plain = Text::Plain(separator);
            out.push(plain);
            let (word, end) = take_word(&chars, pos + 1);
            let ghost tail = spans_after(self.dictionary(), chars@, end as int, texts(queries@));
            if end > pos + 1 {
                let span = self.span_of(word, queries);
                out.push(span);
                proof {
                    assert(spans(out@) =~= before + seq![plain@, span@]);
                    assert(before + (seq![plain@, span@] + tail) =~= (before + seq![
                        plain@,
                        span@,
                    ]) + tail);
                }
            } else {
                proof {
                    assert(spans(out@) =~= before + seq![plain@]);
                    assert(before + (seq![plain@] + tail) =~= (before + seq![plain@]) + tail);
                }
            }
            pos = end;
        }
        proof {
            assert(spans_after(self.dictionary(), chars@, pos as int, texts(queries@))
                =~= Seq::<SpanView>::empty());
            assert(spans(out@) + Seq::<SpanView>::empty() =~= spans(out@));
        }
        out
    }
}

/// Two answers to one query agree on their first `k` results, as far as
/// they reach.
proof fn lemma_answers_agree(
    s: Searcher,
    query: QueryView,
    a: Seq<ThreadSearchResult>,
    b: Seq<ThreadSearchResult>,
    k: int,
)
    requires
        s.answers(query, a),
        s.answers(query, b),
        0 <= k <= a.len(),
    ensures
        k <= b.len(),
        forall|i: int| 0 <= i < k ==> (#[trigger] a[i]).thread_id == b[i].thread_id,
    decreases k,
{
    if k > 0 {
        lemma_answers_agree(s, query, a, b, k - 1);
        let at = k - 1;
        let t = a[at].thread_id as usize;
        assert(s.describes(a[at]));
        assert(has_result(b, t));
        let j = choose|j: int| 0 <= j < b.len() && (#[trigger] b[j]).thread_id == t;
        assert(s.describes(b[j]));
        if j < at {
            assert(a[j].thread_id == b[j].thread_id);
            assert(comes_before(a[j], a[at]));
            assert(s.describes(a[j]));
        }
        if j > at {
            let u = b[at].thread_id as usize;
            assert(s.describes(b[at]));
            assert(has_result(a, u));
            let i = choose|i: int| 0 <= i < a.len() && (#[trigger] a[i]).thread_id == u;
            assert(s.describes(a[i]));
            assert(comes_before(b[at], b[j]));
            if i < at {
                assert(a[i].thread_id == b[i].thread_id);
                assert(comes_before(b[i], b[at]));
                assert(s.describes(b[i]));
            } else if i > at {
                assert(comes_before(a[at], a[i]));
            }
        }
    }
}

/// A query has one answer: two lists of results that both answer it name
/// the same threads in the same order, with the same titles and dates.
pub proof fn lemma_answer_is_unique(
    s: Searcher,
    query: QueryView,
    a: Seq<ThreadSearchResult>,
    b: Seq<ThreadSearchResult>,
)
    requires
        s.answers(query, a),
        s.answers(query, b),
    ensures
        a.len() == b.len(),
        forall|i: int|
            0 <= i < a.len() ==> (#[trigger] a[i]).thread_id == b[i].thread_id && a[i].score
                == b[i].score && a[i].title_text@ == b[i].title_text@ && a[i].date_unixtime
                == b[i].date_unixtime,
{
    lemma_answers_agree(s, query, a, b, a.len() as int);
    lemma_answers_agree(s, query, b, a, b.len() as int);
    assert forall|i: int| 0 <= i < a.len() implies (#[trigger] a[i]).thread_id == b[i].thread_id
        && a[i].score == b[i].score && a[i].title_text@ == b[i].title_text@ && a[i].date_unixtime
        == b[i].date_unixtime by {
        assert(s.describes(a[i]));
        assert(s.describes(b[i]));
    }
}

/// A thread that matches a query is one of the threads.
pub proof fn lemma_matches_in_range(
    dict: Map<Seq<char>, Seq<char>>,
    messages: Seq<Message>,
    threads: Seq<Seq<usize>>,
    query: QueryView,
    t: usize,
)
    requires
        thread_matches(dict, messages, threads, query, t),
    ensures
        t < threads.len(),
    decreases query,
{
    match query {
        QueryView::Word(_) => {},
        QueryView::And(left, right) => {
            lemma_matches_in_range(dict, messages, threads, *left, t);
        },
        QueryView::Or(left, right) => {
            if thread_matches(dict, messages, threads, *left, t) {
                lemma_matches_in_range(dict, messages, threads, *left, t);
            } else {
                lemma_matches_in_range(dict, messages, threads, *right, t);
            }
        },
    }
}

} // verus!
