//! Character classes and string primitives the rest of the library builds on.

use vstd::prelude::*;
use vstd::string::StringSliceAdditionalSpecFns;

verus! {

/// The Unicode `Alphabetic` or numeric (`Nd`, `Nl`, `No`) property of a character,
/// as the standard library's tables have it.
pub uninterp spec fn alphanumeric(c: char) -> bool;

/// The Unicode `White_Space` property of a character, as the standard library's
/// tables have it.
pub uninterp spec fn whitespace(c: char) -> bool;

/// The lowercase form of a whole string under Unicode's default case conversion.
/// It is a function of the whole string: a character may lowercase to several,
/// and a few lowercase differently by position.
pub uninterp spec fn lowercased(s: Seq<char>) -> Seq<char>;

/// `char::is_alphanumeric` of the standard library: trusted to be the
/// deterministic table lookup that [`alphanumeric`] names.
pub assume_specification[ char::is_alphanumeric ](c: char) -> (b: bool)
    ensures
        b == alphanumeric(c),
;

/// `char::is_whitespace` of the standard library: trusted to be the
/// deterministic table lookup that [`whitespace`] names.
pub assume_specification[ char::is_whitespace ](c: char) -> (b: bool)
    ensures
        b == whitespace(c),
;

/// `str::to_lowercase` of the standard library: trusted to return the string
/// that [`lowercased`] names, which depends on nothing but the input.
pub assume_specification[ str::to_lowercase ](s: &str) -> (r: String)
    ensures
        r@ == lowercased(s@),
;

/// `String::push` of the standard library: trusted to append the character at
/// the end and to leave the rest as it was.
pub assume_specification[ String::push ](s: &mut String, c: char)
    ensures
        final(s)@ == old(s)@.push(c),
;

/// Where the run of alphanumeric characters that starts at `pos` ends: the
/// first position from `pos` on that holds another character, or the end of
/// `s`.
pub open spec fn word_end(s: Seq<char>, pos: int) -> int
    decreases s.len() - pos,
{
    if 0 <= pos < s.len() && alphanumeric(s[pos]) {
        word_end(s, pos + 1)
    } else {
        pos
    }
}

/// Where the run of whitespace that starts at `pos` ends.
pub open spec fn whitespace_end(s: Seq<char>, pos: int) -> int
    decreases s.len() - pos,
{
    if 0 <= pos < s.len() && whitespace(s[pos]) {
        whitespace_end(s, pos + 1)
    } else {
        pos
    }
}

/// A run of alphanumeric characters ends at or after its start, within the
/// string, and all its characters are alphanumeric; the one after it is not.
pub proof fn lemma_word_end(s: Seq<char>, pos: int)
    requires
        0 <= pos <= s.len(),
    ensures
        pos <= word_end(s, pos) <= s.len(),
        forall|i: int| pos <= i < word_end(s, pos) ==> alphanumeric(#[trigger] s[i]),
        word_end(s, pos) < s.len() ==> !alphanumeric(s[word_end(s, pos)]),
        pos < s.len() && alphanumeric(s[pos]) ==> pos < word_end(s, pos),
    decreases s.len() - pos,
{
    if pos < s.len() && alphanumeric(s[pos]) {
        lemma_word_end(s, pos + 1);
    }
}

/// A run of whitespace ends at or after its start, within the string, and
/// the character after it is no whitespace.
pub proof fn lemma_whitespace_end(s: Seq<char>, pos: int)
    requires
        0 <= pos <= s.len(),
    ensures
        pos <= whitespace_end(s, pos) <= s.len(),
        whitespace_end(s, pos) < s.len() ==> !whitespace(s[whitespace_end(s, pos)]),
    decreases s.len() - pos,
{
    if pos < s.len() && whitespace(s[pos]) {
        lemma_whitespace_end(s, pos + 1);
    }
}

/// Whether two strings hold the same characters.
pub fn same_text(a: &str, b: &str) -> (same: bool)
    ensures
        same == (a@ == b@),
{
    let x = a.as_bytes();
    let y = b.as_bytes();
    proof {
        vstd::utf8::encode_utf8_decode_utf8(a@);
        vstd::utf8::encode_utf8_decode_utf8(b@);
    }
    if x.len() != y.len() {
        return false;
    }
    let mut i: usize = 0;
    while i < x.len()
        invariant
            i <= x@.len(),
            x@.len() == y@.len(),
            x@ == a.spec_bytes(),
            y@ == b.spec_bytes(),
            forall|j: int| 0 <= j < i ==> x@[j] == y@[j],
        decreases x@.len() - i,
    {
        if x[i] != y[i] {
            return false;
        }
        i += 1;
    }
    proof {
        assert(x@ =~= y@);
    }
    true
}

/// The characters of a string, in order.
pub fn to_chars(s: &str) -> (v: Vec<char>)
    ensures
        v@ == s@,
{
    let mut v: Vec<char> = Vec::new();
    for c in it: s.chars()
        invariant
            v@ == it.seq().take(it.index() as int),
    {
        v.push(c);
    }
    v
}

} // verus!
