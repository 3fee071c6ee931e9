use chat_searcher::query::{
    Lexer, Parser, QueryError, QueryLexError, QueryParseError, SearchQuery, Token,
};

fn word(text: &str) -> Box<SearchQuery> {
    Box::new(SearchQuery::Word(text.to_string()))
}

fn parse(input: &str) -> Result<SearchQuery, QueryError> {
    let lexer = Lexer::new(input);
    let mut parser = Parser::new(lexer)?;
    parser.parse()
}

#[test]
fn test_basic() {
    let input = String::from("word");
    let lexer = Lexer::new(&input);
    let mut parser = Parser::new(lexer).unwrap();
    let output = parser.parse().unwrap();
    assert_eq!(SearchQuery::Word("word".into()), output);
}

#[test]
fn test_paren() {
    let input = String::from("(word)");
    let lexer = Lexer::new(&input);
    let mut parser = Parser::new(lexer).unwrap();
    let output = parser.parse().unwrap();
    assert_eq!(SearchQuery::Word("word".into()), output);
}

#[test]
fn test_and() {
    let input = String::from("word & word2");
    let lexer = Lexer::new(&input);
    let mut parser = Parser::new(lexer).unwrap();
    let output = parser.parse().unwrap();
    let expected = SearchQuery::And((
        Box::new(SearchQuery::Word("word".to_string())),
        Box::new(SearchQuery::Word("word2".to_string())),
    ));
    assert_eq!(expected, output);
}

#[test]
fn test_or() {
    let input = String::from("word | word2");
    let lexer = Lexer::new(&input);
    let mut parser = Parser::new(lexer).unwrap();
    let output = parser.parse().unwrap();
    let expected = SearchQuery::Or((
        Box::new(SearchQuery::Word("word".to_string())),
        Box::new(SearchQuery::Word("word2".to_string())),
    ));
    assert_eq!(expected, output);
}

#[test]
fn test_or_with_paren() {
    let input = String::from("(слово1 | (слово2))");
    let lexer = Lexer::new(&input);
    let mut parser = Parser::new(lexer).unwrap();
    let output = parser.parse().unwrap();
    let expected = SearchQuery::Or((
        Box::new(SearchQuery::Word("слово1".to_string())),
        Box::new(SearchQuery::Word("слово2".to_string())),
    ));
    assert_eq!(expected, output);
}

#[test]
fn test_complex() {
    let input = String::from("(word1 | word2) & (word3 | word4 | word5)");
    let lexer = Lexer::new(&input);
    let mut parser = Parser::new(lexer).unwrap();
    let output = parser.parse().unwrap();
    let expected = SearchQuery::And((
        Box::new(SearchQuery::Or((
            Box::new(SearchQuery::Word("word1".to_string())),
            Box::new(SearchQuery::Word("word2".to_string())),
        ))),
        Box::new(SearchQuery::Or((
            Box::new(SearchQuery::Or((
                Box::new(SearchQuery::Word("word3".to_string())),
                Box::new(SearchQuery::Word("word4".to_string())),
            ))),
            Box::new(SearchQuery::Word("word5".to_string())),
        ))),
    ));
    assert_eq!(expected, output);
}

#[test]
fn chain_associates_to_the_left() {
    let expected = SearchQuery::And((
        Box::new(SearchQuery::And((word("a"), word("b")))),
        word("c"),
    ));
    assert_eq!(parse("a & b & c"), Ok(expected));
}

#[test]
fn operators_have_one_precedence() {
    let expected = SearchQuery::And((
        Box::new(SearchQuery::Or((word("a"), word("b")))),
        word("c"),
    ));
    assert_eq!(parse("a | b & c"), Ok(expected));
    let expected = SearchQuery::Or((
        Box::new(SearchQuery::And((word("a"), word("b")))),
        word("c"),
    ));
    assert_eq!(parse("a & b | c"), Ok(expected));
}

#[test]
fn whitespace_is_not_needed_around_operators() {
    let expected = SearchQuery::Or((word("a"), word("b")));
    assert_eq!(parse("a|b"), Ok(expected));
    let expected = SearchQuery::And((word("a"), word("b")));
    assert_eq!(parse("  a\t&\nb  "), Ok(expected));
}

#[test]
fn unmatched_open_parenthesis_is_an_error() {
    assert_eq!(parse("(a"), Err(QueryError::Parse(QueryParseError::UnmatchedOpen)));
    assert_eq!(parse("((a)"), Err(QueryError::Parse(QueryParseError::UnmatchedOpen)));
    assert_eq!(parse("(a | b"), Err(QueryError::Parse(QueryParseError::UnmatchedOpen)));
}

#[test]
fn trailing_close_parenthesis_is_an_error() {
    assert_eq!(parse("a)"), Err(QueryError::Parse(QueryParseError::UnmatchedClose)));
    assert_eq!(parse("(a))"), Err(QueryError::Parse(QueryParseError::UnmatchedClose)));
    assert_eq!(parse("a & b )"), Err(QueryError::Parse(QueryParseError::UnmatchedClose)));
}

#[test]
fn empty_input_is_an_error() {
    assert_eq!(parse(""), Err(QueryError::Parse(QueryParseError::Empty)));
    assert_eq!(parse("   "), Err(QueryError::Parse(QueryParseError::Empty)));
    assert_eq!(parse("a &"), Err(QueryError::Parse(QueryParseError::Empty)));
    assert_eq!(parse("("), Err(QueryError::Parse(QueryParseError::Empty)));
}

#[test]
fn unexpected_token_is_an_error() {
    assert_eq!(parse("& a"), Err(QueryError::Parse(QueryParseError::UnexpectedToken)));
    assert_eq!(parse("()"), Err(QueryError::Parse(QueryParseError::UnexpectedToken)));
    assert_eq!(parse("a & | b"), Err(QueryError::Parse(QueryParseError::UnexpectedToken)));
    assert_eq!(parse("(a b)"), Err(QueryError::Parse(QueryParseError::UnexpectedToken)));
    assert_eq!(parse(")"), Err(QueryError::Parse(QueryParseError::UnexpectedToken)));
}

#[test]
fn unexpected_character_is_an_error() {
    assert_eq!(parse("a $"), Err(QueryError::Lex(QueryLexError { character: '$' })));
    assert_eq!(parse("!"), Err(QueryError::Lex(QueryLexError { character: '!' })));
    assert_eq!(parse("a & b-c"), Err(QueryError::Lex(QueryLexError { character: '-' })));
    assert!(matches!(
        Parser::new(Lexer::new("#a")),
        Err(QueryError::Lex(QueryLexError { character: '#' }))
    ));
}

#[test]
fn what_follows_a_complete_expression_is_not_read() {
    assert_eq!(parse("a b"), Ok(SearchQuery::Word("a".to_string())));
    assert_eq!(parse("a b $"), Ok(SearchQuery::Word("a".to_string())));
    assert_eq!(parse("a (b"), Ok(SearchQuery::Word("a".to_string())));
}

#[test]
fn lexer_yields_tokens_in_order() {
    let mut lexer = Lexer::new("(ab1 & привет) | x");
    assert_eq!(lexer.next_token(), Ok(Token::LParen));
    assert_eq!(lexer.next_token(), Ok(Token::Word("ab1".to_string())));
    assert_eq!(lexer.next_token(), Ok(Token::And));
    assert_eq!(lexer.next_token(), Ok(Token::Word("привет".to_string())));
    assert_eq!(lexer.next_token(), Ok(Token::RParen));
    assert_eq!(lexer.next_token(), Ok(Token::Or));
    assert_eq!(lexer.next_token(), Ok(Token::Word("x".to_string())));
    assert_eq!(lexer.next_token(), Ok(Token::Eof));
    assert_eq!(lexer.next_token(), Ok(Token::Eof));
}

#[test]
fn lexer_stops_in_front_of_a_bad_character() {
    let mut lexer = Lexer::new("a ?b");
    assert_eq!(lexer.next_token(), Ok(Token::Word("a".to_string())));
    assert_eq!(lexer.next_token(), Err(QueryLexError { character: '?' }));
    assert_eq!(lexer.next_token(), Err(QueryLexError { character: '?' }));
    assert_eq!(lexer.current_char(), '?');
}

#[test]
fn lexer_primitives() {
    let mut lexer = Lexer::new("  ab cd");
    assert_eq!(lexer.current_char(), ' ');
    lexer.skip_whitespace();
    assert_eq!(lexer.current_char(), 'a');
    assert_eq!(lexer.word(), "ab");
    assert_eq!(lexer.current_char(), ' ');
    lexer.skip_whitespace();
    assert_eq!(lexer.word(), "cd");
    assert_eq!(lexer.current_char(), '\0');
    assert_eq!(lexer.word(), "");
}

#[test]
fn tokens_compare_by_kind_and_spelling() {
    assert!(Token::And.same(&Token::And));
    assert!(!Token::And.same(&Token::Or));
    assert!(Token::Word("a".to_string()).same(&Token::Word("a".to_string())));
    assert!(!Token::Word("a".to_string()).same(&Token::Word("b".to_string())));
    assert!(!Token::Word("a".to_string()).same(&Token::Eof));
}

#[test]
fn parser_steps() {
    let mut parser = Parser::new(Lexer::new("a | (b)")).unwrap();
    assert_eq!(parser.parse_primary(), Ok(SearchQuery::Word("a".to_string())));
    assert_eq!(parser.eat(Token::And), Err(QueryError::Parse(QueryParseError::UnexpectedToken)));
    assert_eq!(parser.eat(Token::Or), Ok(()));
    assert_eq!(parser.parse_expression(), Ok(SearchQuery::Word("b".to_string())));
    assert_eq!(parser.eat(Token::RParen), Err(QueryError::Parse(QueryParseError::UnmatchedOpen)));
    assert_eq!(parser.parse_binary_operation(), Err(QueryError::Parse(QueryParseError::Empty)));
}
