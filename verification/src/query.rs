//! The query language: words joined by `&` and `|`, grouped by parentheses.
//!
//! ```text
//! expression := term ( ( "&" | "|" ) term )*
//! term       := WORD | "(" expression ")"
//! ```
//!
//! Both operators have one precedence and associate to the left.

use crate::chars::{alphanumeric, lemma_whitespace_end, lemma_word_end, whitespace_end, word_end};
use vstd::prelude::*;
use vstd::string::StrSliceExecFns;

verus! {

/// A parsed query.
#[derive(Debug, PartialEq, Eq)]
pub enum SearchQuery {
    Word(String),
    And((Box<SearchQuery>, Box<SearchQuery>)),
    Or((Box<SearchQuery>, Box<SearchQuery>)),
}

/// The mathematical content of a [`SearchQuery`].
pub ghost enum QueryView {
    Word(Seq<char>),
    And(Box<QueryView>, Box<QueryView>),
    Or(Box<QueryView>, Box<QueryView>),
}

impl SearchQuery {
    /// The query as a tree over character sequences.
    pub open spec fn tree(&self) -> QueryView
        decreases self,
    {
        match self {
            SearchQuery::Word(w) => QueryView::Word(w@),
            SearchQuery::And(pair) => QueryView::And(
                Box::new(pair.0.tree()),
                Box::new(pair.1.tree()),
            ),
            SearchQuery::Or(pair) => QueryView::Or(
                Box::new(pair.0.tree()),
                Box::new(pair.1.tree()),
            ),
        }
    }
}

impl View for SearchQuery {
    type V = QueryView;

    open spec fn view(&self) -> QueryView {
        self.tree()
    }
}

/// A token of the query language.
#[derive(Clone, Debug, PartialEq, Eq)]
pub enum Token {
    LParen,
    RParen,
    And,
    Or,
    Word(String),
    Eof,
}

/// The mathematical content of a [`Token`].
pub ghost enum TokenView {
    LParen,
    RParen,
    And,
    Or,
    Word(Seq<char>),
    Eof,
}

impl View for Token {
    type V = TokenView;

    open spec fn view(&self) -> TokenView {
        match self {
            Token::LParen => TokenView::LParen,
            Token::RParen => TokenView::RParen,
            Token::And => TokenView::And,
            Token::Or => TokenView::Or,
            Token::Word(w) => TokenView::Word(w@),
            Token::Eof => TokenView::Eof,
        }
    }
}

/// A character that is neither whitespace nor alphanumeric nor one of `&`,
/// `|`, `(` and `)`: no token starts with it.
#[derive(Debug, Clone, Copy, PartialEq, Eq, Structural)]
pub struct QueryLexError {
    /// The character.
    pub character: char,
}

/// Why the tokens of a query are no expression.
#[derive(Debug, Clone, Copy, PartialEq, Eq, Structural)]
pub enum QueryParseError {
    /// A token other than the one the grammar asks for at its place.
    UnexpectedToken,
    /// The input ended before a `(` was closed.
    UnmatchedOpen,
    /// A `)` follows the expression and closes nothing.
    UnmatchedClose,
    /// The input ended where a word or a `(` had to stand.
    Empty,
}

/// Why a query could not be read.
#[derive(Debug, Clone, Copy, PartialEq, Eq, Structural)]
pub enum QueryError {
    /// The lexer met a character that starts no token.
    Lex(QueryLexError),
    /// The parser met a token that the grammar does not allow at its place.
    Parse(QueryParseError),
}

/// What the lexer finds at a position: a token or an error, and the position
/// at which it stops.
pub ghost struct Lexed {
    pub token: Result<TokenView, QueryLexError>,
    pub pos: int,
}

/// The token that starts at `pos` or after the whitespace there. A word is
/// a longest run of alphanumeric characters. Where the input ends the
/// token is `Eof`. On a character that starts no token the lexer stops in
/// front of it.
pub open spec fn next_token(s: Seq<char>, pos: int) -> Lexed {
    let start = whitespace_end(s, pos);
    if !(0 <= start < s.len()) {
        Lexed { token: Ok(TokenView::Eof), pos: start }
    } else if alphanumeric(s[start]) {
        Lexed {
            token: Ok(TokenView::Word(s.subrange(start, word_end(s, start)))),
            pos: word_end(s, start),
        }
    } else if s[start] == '|' {
        Lexed { token: Ok(TokenView::Or), pos: start + 1 }
    } else if s[start] == '&' {
        Lexed { token: Ok(TokenView::And), pos: start + 1 }
    } else if s[start] == '(' {
        Lexed { token: Ok(TokenView::LParen), pos: start + 1 }
    } else if s[start] == ')' {
        Lexed { token: Ok(TokenView::RParen), pos: start + 1 }
    } else {
        Lexed { token: Err(QueryLexError { character: s[start] }), pos: start }
    }
}

/// The lexer never moves backwards or past the end, and a token other than
/// `Eof` takes at least one character.
pub proof fn lemma_next_token_advances(s: Seq<char>, pos: int)
    requires
        0 <= pos <= s.len(),
    ensures
        pos <= next_token(s, pos).pos <= s.len(),
        next_token(s, pos).token is Ok && next_token(s, pos).token != Ok::<
            TokenView,
            QueryLexError,
        >(TokenView::Eof) ==> pos < next_token(s, pos).pos,
{
    lemma_whitespace_end(s, pos);
    lemma_word_end(s, whitespace_end(s, pos));
}

/// The view of a lexer's answer.
pub open spec fn token_result_view(r: Result<Token, QueryLexError>) -> Result<
    TokenView,
    QueryLexError,
> {
    match r {
        Ok(t) => Ok(t@),
        Err(e) => Err(e),
    }
}

/// The view of a parser's answer.
pub open spec fn query_result_view(r: Result<SearchQuery, QueryError>) -> Result<
    QueryView,
    QueryError,
> {
    match r {
        Ok(q) => Ok(q@),
        Err(e) => Err(e),
    }
}

impl Token {
    /// Whether two tokens are of one kind and, if words, of one spelling.
    pub fn same(&self, other: &Token) -> (b: bool)
        ensures
            b == (self@ == other@),
    {
        match self {
            Token::LParen => matches!(other, Token::LParen),
            Token::RParen => matches!(other, Token::RParen),
            Token::And => matches!(other, Token::And),
            Token::Or => matches!(other, Token::Or),
            Token::Eof => matches!(other, Token::Eof),
            Token::Word(a) => match other {
                Token::Word(b) => {
                    let equal = *a == *b;
                    equal
                },
                _ => false,
            },
        }
    }
}

/// A lexer over a query string.
pub struct Lexer<'a> {
    input: &'a str,
    pos: usize,
}

impl<'a> Lexer<'a> {
    #[verifier::type_invariant]
    spec fn pos_in_bounds(self) -> bool {
        self.pos <= self.input@.len()
    }

    /// The characters of the query.
    pub closed spec fn input(&self) -> Seq<char> {
        self.input@
    }

    /// How many characters were consumed.
    pub closed spec fn pos(&self) -> int {
        self.pos as int
    }

    /// A lexer at the start of `input`.
    pub fn new(input: &'a str) -> (l: Self)
        ensures
            l.input() == input@,
            l.pos() == 0,
    {
        Lexer { input, pos: 0 }
    }

    /// The next token, or the error at the character that starts none.
    pub fn next_token(&mut self) -> (r: Result<Token, QueryLexError>)
        ensures
            token_result_view(r) == next_token(old(self).input(), old(self).pos()).token,
            final(self).pos() == next_token(old(self).input(), old(self).pos()).pos,
            final(self).input() == old(self).input(),
    {
        proof {
            use_type_invariant(&*self);
            lemma_whitespace_end(self.input@, self.pos as int);
        }
        self.skip_whitespace();
        proof {
            use_type_invariant(&*self);
        }
        if self.pos >= self.input.unicode_len() {
            return Ok(Token::Eof);
        }
        let current_char = self.current_char();
        if current_char.is_alphanumeric() {
            return Ok(Token::Word(self.word()));
        }
        if current_char == '|' {
            self.pos += 1;
            Ok(Token::Or)
        } else if current_char == '&' {
            self.pos += 1;
            Ok(Token::And)
        } else if current_char == '(' {
            self.pos += 1;
            Ok(Token::LParen)
        } else if current_char == ')' {
            self.pos += 1;
            Ok(Token::RParen)
        } else {
            Err(QueryLexError { character: current_char })
        }
    }

    /// The character at the position, or `'\0'` at the end of the input.
    pub fn current_char(&self) -> (c: char)
        ensures
            c == if self.pos() < self.input().len() {
                self.input()[self.pos()]
            } else {
                '\0'
            },
    {
        if self.pos < self.input.unicode_len() {
            self.input.get_char(self.pos)
        } else {
            '\0'
        }
    }

    /// Moves over the whitespace at the position.
    pub fn skip_whitespace(&mut self)
        ensures
            final(self).pos() == whitespace_end(old(self).input(), old(self).pos()),
            final(self).input() == old(self).input(),
    {
        proof {
            use_type_invariant(&*self);
        }
        let n = self.input.unicode_len();
        while self.pos < n && self.current_char().is_whitespace()
            invariant
                self.input == old(self).input,
                n == self.input@.len(),
                self.pos <= n,
                whitespace_end(self.input@, self.pos as int) == whitespace_end(
                    self.input@,
                    old(self).pos as int,
                ),
            decreases n - self.pos,
        {
            self.pos += 1;
        }
    }

    /// Takes the run of alphanumeric characters at the position.
    pub fn word(&mut self) -> (w: String)
        ensures
            w@ == old(self).input().subrange(
                old(self).pos(),
                word_end(old(self).input(), old(self).pos()),
            ),
            final(self).pos() == word_end(old(self).input(), old(self).pos()),
            final(self).input() == old(self).input(),
    {
        proof {
            use_type_invariant(&*self);
        }
        let start_pos = self.pos;
        let n = self.input.unicode_len();
        while self.pos < n && self.current_char().is_alphanumeric()
            invariant
                self.input == old(self).input,
                n == self.input@.len(),
                start_pos <= self.pos <= n,
                word_end(self.input@, self.pos as int) == word_end(
                    self.input@,
                    start_pos as int,
                ),
            decreases n - self.pos,
        {
            self.pos += 1;
        }
        self.input.substring_char(start_pos, self.pos).to_owned()
    }
}

/// What a parser stands on: the input, the token it looks at, and how far the
/// lexer has read, which is the end of that token.
pub ghost struct ParserView {
    pub input: Seq<char>,
    pub token: TokenView,
    pub pos: int,
}

/// What a parsing step yields: a query or an error, and where the parser
/// stands after it.
pub ghost struct Parsed {
    pub result: Result<QueryView, QueryError>,
    pub after: ParserView,
}

/// A step that failed with a parse error where the parser stood.
pub open spec fn failed(error: QueryParseError, at: ParserView) -> Parsed {
    Parsed { result: Err(QueryError::Parse(error)), after: at }
}

/// The node that joins two queries under an operator token.
pub open spec fn join(op: TokenView, left: QueryView, right: QueryView) -> QueryView {
    if op is Or {
        QueryView::Or(Box::new(left), Box::new(right))
    } else {
        QueryView::And(Box::new(left), Box::new(right))
    }
}

impl ParserView {
    /// Where a parser stands after the first token of `input` was read, or
    /// the error that the lexer gave for it.
    pub open spec fn start(input: Seq<char>) -> Result<ParserView, QueryError> {
        match next_token(input, 0).token {
            Ok(t) => Ok(ParserView { input, token: t, pos: next_token(input, 0).pos }),
            Err(e) => Err(QueryError::Lex(e)),
        }
    }

    /// The position is within the input.
    pub open spec fn wf(self) -> bool {
        0 <= self.pos <= self.input.len()
    }

    /// A measure of what is left to read: the characters after the
    /// position, and one more while the token is not `Eof`.
    pub open spec fn remaining(self) -> nat {
        let chars = if self.pos < self.input.len() {
            self.input.len() - self.pos
        } else {
            0
        };
        if self.token is Eof {
            chars as nat
        } else {
            (chars + 1) as nat
        }
    }

    /// The parser steps to the next token. When the lexer fails there, the
    /// token stays and the position is the lexer's.
    pub open spec fn advance(self) -> (Result<(), QueryError>, ParserView) {
        let lexed = next_token(self.input, self.pos);
        match lexed.token {
            Ok(t) => (Ok(()), ParserView { input: self.input, token: t, pos: lexed.pos }),
            Err(e) => (
                Err(QueryError::Lex(e)),
                ParserView { input: self.input, token: self.token, pos: lexed.pos },
            ),
        }
    }

    /// The parser steps over the token `expected`. Another token in its
    /// place is an error: the end of the input where a `)` is due means that
    /// a `(` was never closed.
    pub open spec fn eat(self, expected: TokenView) -> (Result<(), QueryError>, ParserView) {
        if self.token == expected {
            self.advance()
        } else if self.token is Eof && expected is RParen {
            (Err(QueryError::Parse(QueryParseError::UnmatchedOpen)), self)
        } else {
            (Err(QueryError::Parse(QueryParseError::UnexpectedToken)), self)
        }
    }

    /// A term: a word, or an expression in parentheses.
    pub open spec fn parse_primary(self) -> Parsed
        decreases self.remaining(), 0nat,
    {
        match self.token {
            TokenView::Word(w) => Parsed {
                result: match self.advance().0 {
                    Ok(_) => Ok(QueryView::Word(w)),
                    Err(e) => Err(e),
                },
                after: self.advance().1,
            },
            TokenView::LParen => match self.advance().0 {
                Err(e) => Parsed { result: Err(e), after: self.advance().1 },
                Ok(_) => {
                    // The comparison holds always, by `lemma_advance`: it
                    // is here to show that the definition ends.
                    if self.advance().1.remaining() < self.remaining() {
                        let inner = self.advance().1.parse_binary_operation();
                        match inner.result {
                            Err(e) => inner,
                            Ok(q) => Parsed {
                                result: match inner.after.eat(TokenView::RParen).0 {
                                    Ok(_) => Ok(q),
                                    Err(e) => Err(e),
                                },
                                after: inner.after.eat(TokenView::RParen).1,
                            },
                        }
                    } else {
                        failed(QueryParseError::UnexpectedToken, self)
                    }
                },
            },
            TokenView::Eof => failed(QueryParseError::Empty, self),
            _ => failed(QueryParseError::UnexpectedToken, self),
        }
    }

    /// The operators and terms that follow the expression `left`: each
    /// operator joins what was read so far with the term after it.
    pub open spec fn parse_operations(self, left: QueryView) -> Parsed
        decreases self.remaining(), 1nat,
    {
        if self.token is And || self.token is Or {
            match self.advance().0 {
                Err(e) => Parsed { result: Err(e), after: self.advance().1 },
                Ok(_) => {
                    // Both comparisons hold always, by `lemma_advance` and
                    // `lemma_parse_consumes`: they are here to show that
                    // the definition ends.
                    if self.advance().1.remaining() < self.remaining() {
                        let right = self.advance().1.parse_primary();
                        match right.result {
                            Err(e) => right,
                            Ok(r) => if right.after.remaining() < self.remaining() {
                                right.after.parse_operations(join(self.token, left, r))
                            } else {
                                failed(QueryParseError::UnexpectedToken, self)
                            },
                        }
                    } else {
                        failed(QueryParseError::UnexpectedToken, self)
                    }
                },
            }
        } else {
            Parsed { result: Ok(left), after: self }
        }
    }

    /// An expression: a term and the operators and terms after it.
    pub open spec fn parse_binary_operation(self) -> Parsed
        decreases self.remaining(), 2nat,
    {
        let first = self.parse_primary();
        match first.result {
            Err(e) => first,
            Ok(q) => if first.after.remaining() <= self.remaining() {
                first.after.parse_operations(q)
            } else {
                failed(QueryParseError::UnexpectedToken, self)
            },
        }
    }

    /// A whole query: an expression, after which no `)` may stand. What
    /// else follows the expression is not read.
    pub open spec fn parse(self) -> Parsed {
        let parsed = self.parse_binary_operation();
        match parsed.result {
            Err(e) => parsed,
            Ok(q) => if parsed.after.token is RParen {
                failed(QueryParseError::UnmatchedClose, parsed.after)
            } else {
                parsed
            },
        }
    }
}

/// The query that a string holds, or the error in it.
pub open spec fn parse_query(input: Seq<char>) -> Result<QueryView, QueryError> {
    match ParserView::start(input) {
        Ok(parser) => parser.parse().result,
        Err(e) => Err(e),
    }
}

/// Stepping to the next token leaves less to read, unless the parser stood
/// on `Eof` already or the lexer fails.
pub proof fn lemma_advance(p: ParserView)
    requires
        p.wf(),
    ensures
        p.advance().1.wf(),
        p.advance().1.input == p.input,
        p.advance().1.remaining() <= p.remaining(),
        p.advance().0 is Ok && !(p.token is Eof) ==> p.advance().1.remaining() < p.remaining(),
{
    lemma_next_token_advances(p.input, p.pos);
}

/// Parsing never leaves more to read than there was, and a term or an
/// expression that was parsed took at least one token.
pub proof fn lemma_parse_consumes(p: ParserView, left: QueryView)
    requires
        p.wf(),
    ensures
        p.parse_primary().after.wf(),
        p.parse_primary().after.input == p.input,
        p.parse_primary().after.remaining() <= p.remaining(),
        p.parse_primary().result is Ok ==> p.parse_primary().after.remaining() < p.remaining(),
        p.parse_operations(left).after.wf(),
        p.parse_operations(left).after.input == p.input,
        p.parse_operations(left).after.remaining() <= p.remaining(),
        p.parse_binary_operation().after.wf(),
        p.parse_binary_operation().after.input == p.input,
        p.parse_binary_operation().after.remaining() <= p.remaining(),
        p.parse_binary_operation().result is Ok ==> p.parse_binary_operation().after.remaining()
            < p.remaining(),
    decreases p.remaining(),
{
    lemma_advance(p);
    let next = p.advance().1;
    // a term
    if p.token is LParen && p.advance().0 is Ok {
        lemma_parse_consumes(next, left);
        let inner = next.parse_binary_operation();
        if inner.result is Ok {
            if inner.after.token is RParen {
                lemma_advance(inner.after);
            }
        }
    }
    // the operators after a term
    if (p.token is And || p.token is Or) && p.advance().0 is Ok {
        lemma_parse_consumes(next, left);
        let right = next.parse_primary();
        if right.result is Ok {
            lemma_parse_consumes(right.after, join(p.token, left, right.result->Ok_0));
        }
    }
    // an expression
    let first = p.parse_primary();
    if first.result is Ok {
        lemma_parse_consumes(first.after, first.result->Ok_0);
    }
}

/// A recursive-descent parser with one token of lookahead.
pub struct Parser<'a> {
    lexer: Lexer<'a>,
    current_token: Token,
}

impl<'a> View for Parser<'a> {
    type V = ParserView;

    closed spec fn view(&self) -> ParserView {
        ParserView {
            input: self.lexer.input(),
            token: self.current_token@,
            pos: self.lexer.pos(),
        }
    }
}

impl<'a> Parser<'a> {
    /// A parser that looks at the first token that `lexer` gives.
    pub fn new(lexer: Lexer<'a>) -> (r: Result<Self, QueryError>)
        ensures
            match r {
                Ok(parser) => {
                    &&& next_token(lexer.input(), lexer.pos()).token == Ok::<
                        TokenView,
                        QueryLexError,
                    >(parser@.token)
                    &&& parser@.pos == next_token(lexer.input(), lexer.pos()).pos
                    &&& parser@.input == lexer.input()
                },
                Err(e) => e is Lex && next_token(lexer.input(), lexer.pos()).token == Err::<
                    TokenView,
                    QueryLexError,
                >(e->Lex_0),
            },
    {
        let mut parser = Parser { lexer, current_token: Token::Eof };
        proof {
            use_type_invariant(&parser.lexer);
            lemma_next_token_advances(parser.lexer.input(), parser.lexer.pos());
        }
        match parser.lexer.next_token() {
            Ok(token) => {
                parser.current_token = token;
                Ok(parser)
            },
            Err(e) => Err(QueryError::Lex(e)),
        }
    }

    /// Parses a query: an expression that no `)` follows.
    pub fn parse(&mut self) -> (r: Result<SearchQuery, QueryError>)
        ensures
            query_result_view(r) == old(self)@.parse().result,
            final(self)@ == old(self)@.parse().after,
    {
        proof {
            use_type_invariant(&self.lexer);
            lemma_parse_consumes(self@, QueryView::Word(Seq::empty()));
        }
        match self.parse_expression() {
            Ok(query) => {
                if matches!(self.current_token, Token::RParen) {
                    Err(QueryError::Parse(QueryParseError::UnmatchedClose))
                } else {
                    Ok(query)
                }
            },
            Err(e) => Err(e),
        }
    }

    /// Parses an expression.
    pub fn parse_expression(&mut self) -> (r: Result<SearchQuery, QueryError>)
        ensures
            query_result_view(r) == old(self)@.parse_binary_operation().result,
            final(self)@ == old(self)@.parse_binary_operation().after,
        decreases old(self)@.remaining(), 3nat,
    {
        proof {
            use_type_invariant(&self.lexer);
        }
        self.parse_binary_operation()
    }

    /// Parses a term and the operators and terms after it, joining to the
    /// left.
    pub fn parse_binary_operation(&mut self) -> (r: Result<SearchQuery, QueryError>)
        ensures
            query_result_view(r) == old(self)@.parse_binary_operation().result,
            final(self)@ == old(self)@.parse_binary_operation().after,
        decreases old(self)@.remaining(), 2nat,
    {
        proof {
            use_type_invariant(&self.lexer);
            lemma_parse_consumes(self@, QueryView::Word(Seq::empty()));
        }
        let mut result = match self.parse_primary() {
            Ok(query) => query,
            Err(e) => { return Err(e); },
        };
        loop
            invariant
                self@.input == old(self)@.input,
                self@.remaining() < old(self)@.remaining(),
                self@.parse_operations(result@) == old(self)@.parse_binary_operation(),
            decreases self@.remaining(),
        {
            let is_or = matches!(self.current_token, Token::Or);
            let is_and = matches!(self.current_token, Token::And);
            if !is_or && !is_and {
                return Ok(result);
            }
            let ghost before = self@;
            let ghost left = result@;
            proof {
                use_type_invariant(&self.lexer);
                lemma_advance(before);
                lemma_parse_consumes(before.advance().1, left);
            }
            let op = if is_or {
                Token::Or
            } else {
                Token::And
            };
            match self.eat(op) {
                Ok(_) => {},
                Err(e) => { return Err(e); },
            }
            let rhs = match self.parse_primary() {
                Ok(query) => query,
                Err(e) => { return Err(e); },
            };
            result = if is_or {
                SearchQuery::Or((Box::new(result), Box::new(rhs)))
            } else {
                SearchQuery::And((Box::new(result), Box::new(rhs)))
            };
            proof {
                assert(result@ == join(before.token, left, rhs@));
            }
        }
    }

    /// Parses a term: a word, or an expression in parentheses.
    pub fn parse_primary(&mut self) -> (r: Result<SearchQuery, QueryError>)
        ensures
            query_result_view(r) == old(self)@.parse_primary().result,
            final(self)@ == old(self)@.parse_primary().after,
        decreases old(self)@.remaining(), 1nat,
    {
        proof {
            use_type_invariant(&self.lexer);
            lemma_advance(self@);
            lemma_parse_consumes(self@, QueryView::Word(Seq::empty()));
        }
        let is_lparen = matches!(self.current_token, Token::LParen);
        let is_eof = matches!(self.current_token, Token::Eof);
        let word: Option<String> = match &self.current_token {
            Token::Word(value) => Some(value.clone()),
            _ => None,
        };
        match word {
            Some(value) => {
                match self.eat(Token::Word(value.clone())) {
                    Ok(_) => Ok(SearchQuery::Word(value)),
                    Err(e) => Err(e),
                }
            },
            None => {
                if is_lparen {
                    match self.eat(Token::LParen) {
                        Ok(_) => {},
                        Err(e) => { return Err(e); },
                    }
                    proof {
                        use_type_invariant(&self.lexer);
                        lemma_parse_consumes(self@, QueryView::Word(Seq::empty()));
                    }
                    let result = match self.parse_expression() {
                        Ok(query) => query,
                        Err(e) => { return Err(e); },
                    };
                    match self.eat(Token::RParen) {
                        Ok(_) => Ok(result),
                        Err(e) => Err(e),
                    }
                } else if is_eof {
                    Err(QueryError::Parse(QueryParseError::Empty))
                } else {
                    Err(QueryError::Parse(QueryParseError::UnexpectedToken))
                }
            },
        }
    }

    /// Steps over the token `token`, or fails when the parser looks at
    /// another one.
    pub fn eat(&mut self, token: Token) -> (r: Result<(), QueryError>)
        ensures
            r == old(self)@.eat(token@).0,
            final(self)@ == old(self)@.eat(token@).1,
    {
        if self.current_token.same(&token) {
            match self.lexer.next_token() {
                Ok(next) => {
                    self.current_token = next;
                    Ok(())
                },
                Err(e) => Err(QueryError::Lex(e)),
            }
        } else if matches!(self.current_token, Token::Eof) && matches!(token, Token::RParen) {
            Err(QueryError::Parse(QueryParseError::UnmatchedOpen))
        } else {
            Err(QueryError::Parse(QueryParseError::UnexpectedToken))
        }
    }
}

} // verus!
