//! Words of a text and their lemmas: what the index is built from and what
//! query words and highlighted words are compared by.

use crate::chars::{lemma_word_end, lowercased, to_chars, word_end};
use crate::lemmatizer::{lemma_of, Lemmatizer};
use vstd::prelude::*;

verus! {

/// The character sequences of a list of strings.
pub open spec fn texts(strings: Seq<String>) -> Seq<Seq<char>> {
    Seq::new(strings.len(), |i: int| strings[i]@)
}

/// Whether a word is long enough to be indexed: more than three bytes in
/// UTF-8.
pub open spec fn is_token(word: Seq<char>) -> bool {
    vstd::utf8::encode_utf8(word).len() > 3
}

/// The lemma under which a word of a text is indexed and looked up: that of
/// its lowercase form.
pub open spec fn word_lemma(dict: Map<Seq<char>, Seq<char>>, word: Seq<char>) -> Seq<char> {
    lemma_of(dict, lowercased(word))
}

/// The lemmas of the words of `s` from `pos` on. The words are the pieces
/// between characters that are not alphanumeric; those that are long enough
/// count, each as often as it occurs.
pub open spec fn lemmas_from(dict: Map<Seq<char>, Seq<char>>, s: Seq<char>, pos: int) -> Seq<
    Seq<char>,
>
    decreases s.len() - pos,
{
    if !(0 <= pos < s.len()) {
        Seq::empty()
    } else {
        proof {
            lemma_word_end(s, pos);
        }
        let end = word_end(s, pos);
        let word = s.subrange(pos, end);
        let rest = if end < s.len() {
            lemmas_from(dict, s, end + 1)
        } else {
            Seq::empty()
        };
        if is_token(word) {
            seq![word_lemma(dict, word)] + rest
        } else {
            rest
        }
    }
}

/// The lemmas of the words of a text, in the order of the words.
pub open spec fn text_lemmas(dict: Map<Seq<char>, Seq<char>>, s: Seq<char>) -> Seq<Seq<char>> {
    lemmas_from(dict, s, 0)
}

/// Takes the run of alphanumeric characters of `chars` that starts at `pos`.
pub fn take_word(chars: &Vec<char>, pos: usize) -> (r: (String, usize))
    requires
        pos <= chars.len(),
    ensures
        r.1 == word_end(chars@, pos as int),
        pos <= r.1 <= chars.len(),
        r.0@ == chars@.subrange(pos as int, r.1 as int),
{
    let mut word = String::new();
    let mut end = pos;
    proof {
        lemma_word_end(chars@, pos as int);
    }
    while end < chars.len() && chars[end].is_alphanumeric()
        invariant
            pos <= end <= chars.len(),
            word@ == chars@.subrange(pos as int, end as int),
            word_end(chars@, end as int) == word_end(chars@, pos as int),
        decreases chars.len() - end,
    {
        word.push(chars[end]);
        end += 1;
        proof {
            assert(chars@.subrange(pos as int, end as int) =~= chars@.subrange(
                pos as int,
                end - 1,
            ).push(chars@[end - 1]));
        }
    }
    (word, end)
}

/// The lemma of a word, looked up by the word's lowercase form.
pub fn lemma_of_word(lemmatizer: &Lemmatizer, word: &str) -> (lemma: String)
    ensures
        lemma@ == word_lemma(lemmatizer@, word@),
{
    let lower = word.to_lowercase();
    lemmatizer.lemmatize(lower.as_str()).to_owned()
}

/// The lemmas of the words of a text that are longer than three bytes, in
/// the order of the words.
pub fn lemmas_of_text(lemmatizer: &Lemmatizer, text: &str) -> (out: Vec<String>)
    ensures
        texts(out@) == text_lemmas(lemmatizer@, text@),
{
    let chars = to_chars(text);
    let mut out: Vec<String> = Vec::new();
    let mut pos: usize = 0;
    proof {
        assert(texts(out@) =~= Seq::<Seq<char>>::empty());
    }
    while pos < chars.len()
        invariant
            chars@ == text@,
            texts(out@) + lemmas_from(lemmatizer@, chars@, pos as int) == text_lemmas(
                lemmatizer@,
                text@,
            ),
        decreases chars.len() - pos,
    {
        let ghost before = texts(out@);
        let (word, end) = take_word(&chars, pos);
        let ghost rest = if end < chars.len() {
            lemmas_from(lemmatizer@, chars@, end + 1)
        } else {
            Seq::empty()
        };
        if word.as_str().as_bytes().len() > 3 {
            let lemma = lemma_of_word(lemmatizer, word.as_str());
            out.push(lemma);
            proof {
                assert(texts(out@) =~= before.push(lemma@));
                assert(before.push(lemma@) + rest =~= before + (seq![lemma@] + rest));
            }
        }
        if end < chars.len() {
            pos = end + 1;
        } else {
            pos = end;
        }
    }
    proof {
        assert(lemmas_from(lemmatizer@, chars@, pos as int) =~= Seq::<Seq<char>>::empty());
        assert(texts(out@) + Seq::<Seq<char>>::empty() =~= texts(out@));
    }
    out
}

/// A piece of a message's text as it is shown: plain, or marked as a match.
pub ghost enum SpanView {
    Plain(Seq<char>),
    Highlight(Seq<char>),
}

/// The span for a word: marked when the word's lemma is among `queries`.
pub open spec fn word_span(
    dict: Map<Seq<char>, Seq<char>>,
    word: Seq<char>,
    queries: Seq<Seq<char>>,
) -> SpanView {
    if queries.contains(word_lemma(dict, word)) {
        SpanView::Highlight(word)
    } else {
        SpanView::Plain(word)
    }
}

/// The spans of `s` from the separator at `pos` on: the separator as a
/// plain span of its own, the word after it unless that is empty, and so on
/// to the end.
pub open spec fn spans_after(
    dict: Map<Seq<char>, Seq<char>>,
    s: Seq<char>,
    pos: int,
    queries: Seq<Seq<char>>,
) -> Seq<SpanView>
    decreases s.len() - pos,
{
    if !(0 <= pos < s.len()) {
        Seq::empty()
    } else {
        proof {
            lemma_word_end(s, pos + 1);
        }
        let end = word_end(s, pos + 1);
        let word = s.subrange(pos + 1, end);
        let rest = spans_after(dict, s, end, queries);
        if word.len() > 0 {
            seq![SpanView::Plain(seq![s[pos]]), word_span(dict, word, queries)] + rest
        } else {
            seq![SpanView::Plain(seq![s[pos]])] + rest
        }
    }
}

/// The spans of a text: the word it starts with, be it empty, and then what
/// follows from the first separator on. An empty text has no span.
pub open spec fn highlight(
    dict: Map<Seq<char>, Seq<char>>,
    s: Seq<char>,
    queries: Seq<Seq<char>>,
) -> Seq<SpanView> {
    if s.len() == 0 {
        Seq::empty()
    } else {
        seq![word_span(dict, s.subrange(0, word_end(s, 0)), queries)] + spans_after(
            dict,
            s,
            word_end(s, 0),
            queries,
        )
    }
}

/// The characters of a span.
pub open spec fn span_text(span: SpanView) -> Seq<char> {
    match span {
        SpanView::Plain(text) => text,
        SpanView::Highlight(text) => text,
    }
}

/// The characters of some spans, one span after the other.
pub open spec fn flat_spans(list: Seq<SpanView>) -> Seq<char>
    decreases list.len(),
{
    if list.len() == 0 {
        Seq::empty()
    } else {
        flat_spans(list.drop_last()) + span_text(list.last())
    }
}

/// The characters of two lists of spans in a row are those of the one
/// followed by those of the other.
pub proof fn lemma_flat_spans_concat(a: Seq<SpanView>, b: Seq<SpanView>)
    ensures
        flat_spans(a + b) == flat_spans(a) + flat_spans(b),
    decreases b.len(),
{
    if b.len() == 0 {
        assert(a + b =~= a);
        assert(flat_spans(a) + flat_spans(b) =~= flat_spans(a));
    } else {
        lemma_flat_spans_concat(a, b.drop_last());
        assert((a + b).drop_last() =~= a + b.drop_last());
        assert((a + b).last() == b.last());
        assert(flat_spans(a + b) =~= flat_spans(a) + flat_spans(b));
    }
}

/// One span spells its own characters.
pub proof fn lemma_flat_spans_one(span: SpanView)
    ensures
        flat_spans(seq![span]) == span_text(span),
{
    let list = seq![span];
    assert(list.drop_last() =~= Seq::<SpanView>::empty());
    assert(list.last() == span);
    assert(flat_spans(list.drop_last()) =~= Seq::<char>::empty());
    assert(flat_spans(list) =~= span_text(span));
}

proof fn lemma_spans_after_spell(
    dict: Map<Seq<char>, Seq<char>>,
    s: Seq<char>,
    pos: int,
    queries: Seq<Seq<char>>,
)
    requires
        0 <= pos <= s.len(),
    ensures
        flat_spans(spans_after(dict, s, pos, queries)) == s.skip(pos),
    decreases s.len() - pos,
{
    if pos < s.len() {
        lemma_word_end(s, pos + 1);
        let end = word_end(s, pos + 1);
        let word = s.subrange(pos + 1, end);
        let rest = spans_after(dict, s, end, queries);
        lemma_spans_after_spell(dict, s, end, queries);
        let separator = SpanView::Plain(seq![s[pos]]);
        lemma_flat_spans_one(separator);
        if word.len() > 0 {
            let span = word_span(dict, word, queries);
            let head = seq![separator, span];
            assert(head =~= seq![separator] + seq![span]);
            lemma_flat_spans_concat(seq![separator], seq![span]);
            lemma_flat_spans_one(span);
            lemma_flat_spans_concat(head, rest);
            assert(seq![s[pos]] + word + s.skip(end) =~= s.skip(pos));
        } else {
            lemma_flat_spans_concat(seq![separator], rest);
            assert(seq![s[pos]] + s.skip(end) =~= s.skip(pos));
        }
    } else {
        assert(s.skip(pos) =~= Seq::<char>::empty());
    }
}

/// The spans of a text spell the text: nothing is lost and nothing added.
pub proof fn lemma_highlight_spells_text(
    dict: Map<Seq<char>, Seq<char>>,
    s: Seq<char>,
    queries: Seq<Seq<char>>,
)
    ensures
        flat_spans(highlight(dict, s, queries)) == s,
{
    if s.len() > 0 {
        lemma_word_end(s, 0);
        let end = word_end(s, 0);
        let first = word_span(dict, s.subrange(0, end), queries);
        lemma_spans_after_spell(dict, s, end, queries);
        lemma_flat_spans_concat(seq![first], spans_after(dict, s, end, queries));
        lemma_flat_spans_one(first);
        assert(s.subrange(0, end) + s.skip(end) =~= s);
    } else {
        assert(s =~= Seq::<char>::empty());
    }
}

/// Whether `word` is one of `list`.
pub fn contains_text(list: &[String], word: &str) -> (found: bool)
    ensures
        found == texts(list@).contains(word@),
{
    let mut i: usize = 0;
    while i < list.len()
        invariant
            i <= list.len(),
            forall|j: int| 0 <= j < i ==> texts(list@)[j] != word@,
        decreases list.len() - i,
    {
        if crate::chars::same_text(list[i].as_str(), word) {
            proof {
                assert(texts(list@)[i as int] == word@);
            }
            return true;
        }
        i += 1;
    }
    false
}

} // verus!
