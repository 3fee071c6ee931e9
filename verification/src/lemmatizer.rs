//! The lemma dictionary: a table from inflected word forms to their lemmas.

use std::io::Read;
use vstd::hash_map::StringHashMap;
use vstd::prelude::*;

verus! {

/// The pieces of `s` between the occurrences of `sep`: a string with n
/// separators has n + 1 pieces, some of which may be empty.
pub open spec fn split(s: Seq<char>, sep: char) -> Seq<Seq<char>>
    decreases s.len(),
{
    if s.len() == 0 {
        seq![Seq::empty()]
    } else {
        let before = split(s.drop_last(), sep);
        if s.last() == sep {
            before.push(Seq::empty())
        } else {
            before.drop_last().push(before.last().push(s.last()))
        }
    }
}

/// `dict` after every one of `forms` was mapped to `lemma`.
pub open spec fn add_forms(
    dict: Map<Seq<char>, Seq<char>>,
    lemma: Seq<char>,
    forms: Seq<Seq<char>>,
) -> Map<Seq<char>, Seq<char>>
    decreases forms.len(),
{
    if forms.len() == 0 {
        dict
    } else {
        add_forms(dict, lemma, forms.drop_last()).insert(forms.last(), lemma)
    }
}

/// `dict` after one line of the table: the line's fields are separated by
/// tabs, the first is the lemma and every other one a form of it. A line
/// without a tab, an empty one too, adds nothing.
pub open spec fn add_line(dict: Map<Seq<char>, Seq<char>>, line: Seq<char>) -> Map<
    Seq<char>,
    Seq<char>,
> {
    let fields = split(line, '\t');
    add_forms(dict, fields[0], fields.skip(1))
}

/// `dict` after the lines of a table, first to last: a form that occurs in
/// several lines keeps the lemma of the last one.
pub open spec fn add_lines(dict: Map<Seq<char>, Seq<char>>, lines: Seq<Seq<char>>) -> Map<
    Seq<char>,
    Seq<char>,
>
    decreases lines.len(),
{
    if lines.len() == 0 {
        dict
    } else {
        add_line(add_lines(dict, lines.drop_last()), lines.last())
    }
}

/// The dictionary that a table describes: its lines are separated by line
/// feeds.
pub open spec fn parse_table(text: Seq<char>) -> Map<Seq<char>, Seq<char>> {
    add_lines(Map::empty(), split(text, '\n'))
}

/// The lemma of a word: the dictionary's entry, or the word itself when
/// the dictionary has none.
pub open spec fn lemma_of(dict: Map<Seq<char>, Seq<char>>, word: Seq<char>) -> Seq<char> {
    if dict.contains_key(word) {
        dict[word]
    } else {
        word
    }
}

/// The text that the gzip stream `raw` holds: the content of its first
/// member, decompressed and read as UTF-8. `None` when `raw` does not start
/// with a sound gzip member or the content is not UTF-8.
pub uninterp spec fn gunzip_text(raw: Seq<u8>) -> Option<Seq<char>>;

/// `std::io::Error`, the error of the standard library's readers. Nothing
/// is claimed of what it holds: a value of it is only told from success.
#[verifier::external_type_specification]
#[verifier::external_body]
pub struct ExIoError(std::io::Error);

/// `flate2::read::GzDecoder::new` followed by `std::io::Read::read_to_string`:
/// trusted to decompress the whole first gzip member of `raw`, to fail when the
/// stream is damaged or its content is not UTF-8, and to depend on nothing but
/// the bytes given.
#[verifier::external_body]
fn gunzip(raw: &[u8]) -> (r: Result<String, std::io::Error>)
    ensures
        match r {
            Ok(text) => gunzip_text(raw@) == Some(text@),
            Err(_) => gunzip_text(raw@) is None,
        },
{
    let mut decoder = flate2::read::GzDecoder::new(raw);
    let mut text = String::new();
    match decoder.read_to_string(&mut text) {
        Ok(_) => Ok(text),
        Err(e) => Err(e),
    }
}

/// Why a dictionary could not be loaded.
#[derive(Debug, Clone, Copy, PartialEq, Eq, Structural)]
pub enum DictionaryLoadError {
    /// The data is not a gzip stream of UTF-8 text.
    Decompression,
}

/// The fields of the line in progress that are complete and are forms.
spec fn finished_forms(fields: Seq<Seq<char>>) -> Seq<Seq<char>> {
    if fields.len() <= 1 {
        Seq::empty()
    } else {
        fields.subrange(1, fields.len() - 1)
    }
}

/// What a scan of a table holds after the prefix `read`: the dictionary of
/// the complete lines and of the complete forms of the line in progress, that
/// line's lemma once its first field is complete, and the field in progress.
spec fn scanned(
    dict: Map<Seq<char>, Seq<char>>,
    lemma: Option<Seq<char>>,
    field: Seq<char>,
    read: Seq<char>,
) -> bool {
    let lines = split(read, '\n');
    let fields = split(lines.last(), '\t');
    &&& field == fields.last()
    &&& lemma == if fields.len() == 1 {
        None
    } else {
        Some(fields[0])
    }
    &&& dict == add_forms(
        add_lines(Map::empty(), lines.drop_last()),
        fields[0],
        finished_forms(fields),
    )
}

/// The characters of a string that may be absent.
spec fn text_of(s: Option<String>) -> Option<Seq<char>> {
    match s {
        Some(s) => Some(s@),
        None => None,
    }
}

/// A split has at least one piece.
pub proof fn lemma_split_nonempty(s: Seq<char>, sep: char)
    ensures
        split(s, sep).len() >= 1,
    decreases s.len(),
{
    if s.len() > 0 {
        lemma_split_nonempty(s.drop_last(), sep);
    }
}

proof fn lemma_scan_start()
    ensures
        scanned(Map::empty(), None, Seq::empty(), Seq::empty()),
{
    let lines = split(Seq::<char>::empty(), '\n');
    assert(lines =~= seq![Seq::<char>::empty()]);
    assert(lines.last() =~= Seq::<char>::empty());
    assert(split(lines.last(), '\t') =~= seq![Seq::<char>::empty()]);
    assert(lines.drop_last() =~= Seq::<Seq<char>>::empty());
}

proof fn lemma_scan_char(
    dict: Map<Seq<char>, Seq<char>>,
    lemma: Option<Seq<char>>,
    field: Seq<char>,
    read: Seq<char>,
    c: char,
)
    requires
        scanned(dict, lemma, field, read),
        c != '\n',
        c != '\t',
    ensures
        scanned(dict, lemma, field.push(c), read.push(c)),
{
    let lines = split(read, '\n');
    let line = lines.last();
    let fields = split(line, '\t');
    lemma_split_nonempty(read, '\n');
    lemma_split_nonempty(line, '\t');
    let read2 = read.push(c);
    assert(read2.drop_last() =~= read);
    let lines2 = split(read2, '\n');
    assert(lines2 == lines.drop_last().push(line.push(c)));
    let line2 = lines2.last();
    assert(line2 == line.push(c));
    assert(line2.drop_last() =~= line);
    let fields2 = split(line2, '\t');
    assert(fields2 == fields.drop_last().push(fields.last().push(c)));
    assert(lines2.drop_last() =~= lines.drop_last());
    assert(fields2.len() == fields.len());
    assert(finished_forms(fields2) =~= finished_forms(fields));
    if fields.len() > 1 {
        assert(fields2[0] == fields[0]);
    }
    if fields.len() == 1 {
        assert(finished_forms(fields2) =~= Seq::<Seq<char>>::empty());
    }
}

proof fn lemma_scan_tab(
    dict: Map<Seq<char>, Seq<char>>,
    lemma: Option<Seq<char>>,
    field: Seq<char>,
    read: Seq<char>,
)
    requires
        scanned(dict, lemma, field, read),
    ensures
        lemma is None ==> scanned(dict, Some(field), Seq::empty(), read.push('\t')),
        lemma is Some ==> scanned(
            dict.insert(field, lemma->0),
            lemma,
            Seq::empty(),
            read.push('\t'),
        ),
{
    let lines = split(read, '\n');
    let line = lines.last();
    let fields = split(line, '\t');
    lemma_split_nonempty(read, '\n');
    lemma_split_nonempty(line, '\t');
    let read2 = read.push('\t');
    assert(read2.drop_last() =~= read);
    let lines2 = split(read2, '\n');
    assert(lines2 == lines.drop_last().push(line.push('\t')));
    let line2 = lines2.last();
    assert(line2.drop_last() =~= line);
    let fields2 = split(line2, '\t');
    assert(fields2 == fields.push(Seq::empty()));
    assert(lines2.drop_last() =~= lines.drop_last());
    assert(fields2[0] == fields[0]);
    let base = add_lines(Map::empty(), lines.drop_last());
    if fields.len() == 1 {
        assert(finished_forms(fields2) =~= Seq::<Seq<char>>::empty());
        assert(finished_forms(fields) =~= Seq::<Seq<char>>::empty());
    } else {
        let done2 = finished_forms(fields2);
        assert(done2.drop_last() =~= finished_forms(fields));
        assert(done2.last() == fields.last());
    }
}

proof fn lemma_scan_end_of_line(
    dict: Map<Seq<char>, Seq<char>>,
    lemma: Option<Seq<char>>,
    field: Seq<char>,
    read: Seq<char>,
)
    requires
        scanned(dict, lemma, field, read),
    ensures
        lemma is None ==> parse_table(read) == dict,
        lemma is Some ==> parse_table(read) == dict.insert(field, lemma->0),
{
    let lines = split(read, '\n');
    let line = lines.last();
    let fields = split(line, '\t');
    lemma_split_nonempty(read, '\n');
    lemma_split_nonempty(line, '\t');
    let base = add_lines(Map::empty(), lines.drop_last());
    assert(parse_table(read) == add_forms(base, fields[0], fields.skip(1)));
    if fields.len() == 1 {
        assert(fields.skip(1) =~= Seq::<Seq<char>>::empty());
        assert(finished_forms(fields) =~= Seq::<Seq<char>>::empty());
    } else {
        assert(fields.skip(1).drop_last() =~= finished_forms(fields));
        assert(fields.skip(1).last() == fields.last());
    }
}

proof fn lemma_scan_line_feed(
    dict: Map<Seq<char>, Seq<char>>,
    lemma: Option<Seq<char>>,
    field: Seq<char>,
    read: Seq<char>,
)
    requires
        scanned(dict, lemma, field, read),
    ensures
        scanned(parse_table(read), None, Seq::empty(), read.push('\n')),
{
    let lines = split(read, '\n');
    lemma_split_nonempty(read, '\n');
    let read2 = read.push('\n');
    assert(read2.drop_last() =~= read);
    let lines2 = split(read2, '\n');
    assert(lines2 == lines.push(Seq::empty()));
    assert(lines2.drop_last() =~= lines);
    assert(lines2.last() =~= Seq::<char>::empty());
    let fields2 = split(lines2.last(), '\t');
    assert(fields2 =~= seq![Seq::<char>::empty()]);
    assert(finished_forms(fields2) =~= Seq::<Seq<char>>::empty());
}

/// A dictionary from word forms to lemmas. It does not change once it is
/// built.
pub struct Lemmatizer {
    dict: StringHashMap<String>,
}

impl View for Lemmatizer {
    type V = Map<Seq<char>, Seq<char>>;

    closed spec fn view(&self) -> Map<Seq<char>, Seq<char>> {
        Map::new(|k: Seq<char>| self.dict@.contains_key(k), |k: Seq<char>| self.dict@[k]@)
    }
}

impl Default for Lemmatizer {
    /// The dictionary without entries: every word is its own lemma.
    fn default() -> (l: Self)
        ensures
            l@ == Map::<Seq<char>, Seq<char>>::empty(),
    {
        let l = Lemmatizer { dict: StringHashMap::new() };
        proof {
            assert(l@ =~= Map::<Seq<char>, Seq<char>>::empty());
        }
        l
    }
}

impl Lemmatizer {
    /// Loads the dictionary from a gzip-compressed table.
    pub fn new(raw: &[u8]) -> (r: Result<Lemmatizer, DictionaryLoadError>)
        ensures
            match r {
                Ok(l) => gunzip_text(raw@) is Some && l@ == parse_table(gunzip_text(raw@)->0),
                Err(e) => gunzip_text(raw@) is None && e == DictionaryLoadError::Decompression,
            },
    {
        match gunzip(raw) {
            Ok(text) => Ok(Lemmatizer::from_table(text.as_str())),
            Err(_) => Err(DictionaryLoadError::Decompression),
        }
    }

    /// Builds the dictionary from a table: one lemma per line, followed by
    /// its forms, all separated by tabs.
    pub fn from_table(text: &str) -> (l: Lemmatizer)
        ensures
            l@ == parse_table(text@),
    {
        let mut result = Lemmatizer { dict: StringHashMap::new() };
        let mut lemma: Option<String> = None;
        let mut field = String::new();
        proof {
            lemma_scan_start();
            assert(result@ =~= Map::<Seq<char>, Seq<char>>::empty());
            assert(text@.take(0) =~= Seq::<char>::empty());
        }
        for c in it: text.chars()
            invariant
                it.seq() == text@,
                scanned(result@, text_of(lemma), field@, text@.take(it.index())),
        {
            let ghost read = text@.take(it.index());
            let ghost before = result@;
            let ghost lemma_before = text_of(lemma);
            proof {
                assert(text@.take(it.index() + 1) =~= read.push(c));
            }
            if c == '\n' {
                proof {
                    lemma_scan_end_of_line(before, lemma_before, field@, read);
                    lemma_scan_line_feed(before, lemma_before, field@, read);
                }
                match lemma {
                    Some(l) => {
                        result.add(field, l);
                    },
                    None => {},
                }
                lemma = None;
                field = String::new();
            } else if c == '\t' {
                proof {
                    lemma_scan_tab(before, lemma_before, field@, read);
                }
                match lemma {
                    Some(l) => {
                        result.add(field, l.clone());
                        lemma = Some(l);
                    },
                    None => {
                        lemma = Some(field);
                    },
                }
                field = String::new();
            } else {
                proof {
                    lemma_scan_char(before, lemma_before, field@, read, c);
                }
                field.push(c);
            }
        }
        proof {
            assert(text@.take(text@.len() as int) =~= text@);
            lemma_scan_end_of_line(result@, text_of(lemma), field@, text@);
        }
        match lemma {
            Some(l) => {
                result.add(field, l);
            },
            None => {},
        }
        result
    }

    fn add(&mut self, form: String, lemma: String)
        ensures
            final(self)@ == old(self)@.insert(form@, lemma@),
    {
        self.dict.insert(form, lemma);
        proof {
            assert(self@ =~= old(self)@.insert(form@, lemma@));
        }
    }

    /// The lemma of `word`: the dictionary's entry for exactly this word, or
    /// the word itself when there is none.
    pub fn lemmatize<'a>(&'a self, word: &'a str) -> (lemma: &'a str)
        ensures
            lemma@ == lemma_of(self@, word@),
            self@.contains_key(word@) ==> lemma@ == self@[word@],
            !self@.contains_key(word@) ==> lemma@ == word@,
    {
        match self.dict.get(word) {
            Some(l) => l.as_str(),
            None => word,
        }
    }
}

} // verus!
