use sentence_lang::lexer::{LexError, LexErrorKind, Lexer};
use sentence_lang::token::{Token, TokenKind};

fn lex(source: &str) -> (Vec<Token>, Vec<LexError>) {
    let mut lexer = Lexer::new(source.to_string());
    let tokens = lexer.tokenize().clone();
    let errors = lexer.errors().clone();
    (tokens, errors)
}

fn s(text: &str) -> String {
    text.to_string()
}

fn spelling(t: &Token) -> String {
    match t {
        Token::Identifier(w) | Token::Verb(w) | Token::Noun(w) | Token::Preposition(w)
        | Token::Determiner(w) => w.clone(),
        _ => String::new(),
    }
}

#[test]
fn keyword_is_classified_as_keyword() {
    let (tokens, errors) = lex("declare");
    assert_eq!(tokens, vec![Token::Verb(s("declare")), Token::Eof]);
    assert!(errors.is_empty());
}

#[test]
fn every_keyword_has_its_category() {
    let (tokens, _) = lex("declare set assign let as to variable thing the an a");
    assert_eq!(
        tokens,
        vec![
            Token::Verb(s("declare")),
            Token::Verb(s("set")),
            Token::Verb(s("assign")),
            Token::Verb(s("let")),
            Token::Preposition(s("as")),
            Token::Preposition(s("to")),
            Token::Noun(s("variable")),
            Token::Noun(s("thing")),
            Token::Determiner(s("the")),
            Token::Determiner(s("an")),
            Token::Determiner(s("a")),
            Token::Eof,
        ]
    );
}

#[test]
fn keyword_match_is_exact_and_case_sensitive() {
    let (tokens, _) = lex("Declare declared as");
    assert_eq!(
        tokens,
        vec![
            Token::Identifier(s("Declare")),
            Token::Identifier(s("declared")),
            Token::Preposition(s("as")),
            Token::Eof,
        ]
    );
}

#[test]
fn keyword_words_round_trip() {
    let source = "  declare\tthe  variable\n\nas\r\nto a ";
    let (tokens, errors) = lex(source);
    assert!(errors.is_empty());
    assert_eq!(tokens.last(), Some(&Token::Eof));
    let words: Vec<String> = tokens[..tokens.len() - 1].iter().map(spelling).collect();
    assert_eq!(words.join(" "), "declare the variable as to a");
    let written: Vec<&str> = source.split_whitespace().collect();
    assert_eq!(words, written);
}

#[test]
fn integer_literal() {
    let (tokens, errors) = lex("42");
    assert_eq!(tokens, vec![Token::Integer(42), Token::Eof]);
    assert!(errors.is_empty());
}

#[test]
fn float_literal_keeps_its_spelling() {
    let (tokens, errors) = lex("4.2");
    assert_eq!(tokens, vec![Token::Float(s("4.2")), Token::Eof]);
    assert!(errors.is_empty());
    match &tokens[0] {
        Token::Float(text) => assert_eq!(text.parse::<f32>().unwrap(), 4.2f32),
        other => panic!("expected a float, got {:?}", other),
    }
}

#[test]
fn second_decimal_point_is_reported() {
    let (tokens, errors) = lex("4.2.1");
    assert_eq!(tokens, vec![Token::Float(s("4.2")), Token::Eof]);
    assert_eq!(errors, vec![LexError { kind: LexErrorKind::InvalidNumeric, line: 1 }]);
}

#[test]
fn trailing_point_makes_a_float() {
    let (tokens, errors) = lex("5.");
    assert_eq!(tokens, vec![Token::Float(s("5.")), Token::Eof]);
    assert!(errors.is_empty());
}

#[test]
fn largest_integer_is_accepted() {
    let (tokens, errors) = lex("2147483647");
    assert_eq!(tokens, vec![Token::Integer(i32::MAX), Token::Eof]);
    assert!(errors.is_empty());
}

#[test]
fn integer_out_of_range_is_illegal() {
    let (tokens, errors) = lex("2147483648 7");
    assert_eq!(tokens, vec![Token::Illegal('2'), Token::Integer(7), Token::Eof]);
    assert_eq!(errors, vec![LexError { kind: LexErrorKind::InvalidNumeric, line: 1 }]);
}

#[test]
fn digits_end_a_word() {
    let (tokens, _) = lex("x1");
    assert_eq!(tokens, vec![Token::Identifier(s("x")), Token::Integer(1), Token::Eof]);
}

#[test]
fn empty_input_gives_end_marker() {
    let (tokens, errors) = lex("");
    assert_eq!(tokens, vec![Token::Eof]);
    assert!(errors.is_empty());
}

#[test]
fn whitespace_only_input_gives_end_marker() {
    let (tokens, errors) = lex(" \n\t\r ");
    assert_eq!(tokens, vec![Token::Eof]);
    assert!(errors.is_empty());
}

#[test]
fn illegal_characters_do_not_stop_the_scan() {
    let (tokens, errors) = lex("@#");
    assert_eq!(tokens, vec![Token::Illegal('@'), Token::Illegal('#'), Token::Eof]);
    assert_eq!(
        errors,
        vec![
            LexError { kind: LexErrorKind::InvalidSymbol('@'), line: 1 },
            LexError { kind: LexErrorKind::InvalidSymbol('#'), line: 1 },
        ]
    );
}

#[test]
fn errors_carry_their_line() {
    let (tokens, errors) = lex("x\n\n  @\n");
    assert_eq!(tokens, vec![Token::Identifier(s("x")), Token::Illegal('@'), Token::Eof]);
    assert_eq!(errors, vec![LexError { kind: LexErrorKind::InvalidSymbol('@'), line: 3 }]);
}

#[test]
fn char_literal() {
    let (tokens, errors) = lex("'a'");
    assert_eq!(tokens, vec![Token::Char('a'), Token::Eof]);
    assert!(errors.is_empty());
}

#[test]
fn unterminated_char_literal() {
    let (tokens, errors) = lex("'");
    assert_eq!(tokens, vec![Token::Illegal('\''), Token::Eof]);
    assert_eq!(errors, vec![LexError { kind: LexErrorKind::UnterminatedChar, line: 1 }]);
}

#[test]
fn char_literal_without_closing_quote() {
    let (tokens, errors) = lex("'ab");
    assert_eq!(tokens, vec![Token::Illegal('\''), Token::Identifier(s("b")), Token::Eof]);
    assert_eq!(errors, vec![LexError { kind: LexErrorKind::InvalidChar, line: 1 }]);
}

#[test]
fn string_literal() {
    let (tokens, errors) = lex("\"hello world\" x");
    assert_eq!(
        tokens,
        vec![Token::String(s("hello world")), Token::Identifier(s("x")), Token::Eof]
    );
    assert!(errors.is_empty());
}

#[test]
fn unterminated_string_runs_to_the_end() {
    let (tokens, errors) = lex("\"abc def");
    assert_eq!(tokens, vec![Token::String(s("abc def")), Token::Eof]);
    assert!(errors.is_empty());
}

#[test]
fn letters_beyond_ascii() {
    let (tokens, errors) = lex("größe ähnlich");
    assert_eq!(
        tokens,
        vec![Token::Identifier(s("größe")), Token::Identifier(s("ähnlich")), Token::Eof]
    );
    assert!(errors.is_empty());
}

#[test]
fn whitespace_beyond_ascii() {
    let (tokens, errors) = lex("a\u{00A0}b\u{2003}c");
    assert_eq!(
        tokens,
        vec![
            Token::Determiner(s("a")),
            Token::Identifier(s("b")),
            Token::Identifier(s("c")),
            Token::Eof,
        ]
    );
    assert!(errors.is_empty());
}

#[test]
fn symbol_beyond_ascii_is_illegal() {
    let (tokens, errors) = lex("½");
    assert_eq!(tokens, vec![Token::Illegal('½'), Token::Eof]);
    assert_eq!(errors, vec![LexError { kind: LexErrorKind::InvalidSymbol('½'), line: 1 }]);
}

#[test]
fn declaration_sentence_tokens() {
    let (tokens, errors) = lex("declare x as 5");
    assert_eq!(
        tokens,
        vec![
            Token::Verb(s("declare")),
            Token::Identifier(s("x")),
            Token::Preposition(s("as")),
            Token::Integer(5),
            Token::Eof,
        ]
    );
    assert!(errors.is_empty());
}

#[test]
fn tokenize_twice_gives_the_same_tokens() {
    let mut lexer = Lexer::new(s("set 5 to x"));
    let first = lexer.tokenize().clone();
    let second = lexer.tokenize().clone();
    assert_eq!(first, second);
    assert_eq!(first.len(), 5);
}

#[test]
fn errors_are_empty_before_tokenize() {
    let lexer = Lexer::new(s("@"));
    assert!(lexer.errors().is_empty());
}

#[test]
fn same_kind_ignores_payload() {
    let a = Token::Identifier(s("x"));
    let b = Token::Identifier(s("y"));
    let c = Token::Verb(s("x"));
    assert!(a.same_kind(&b));
    assert!(!a.same_kind(&c));
    assert_eq!(c.kind(), TokenKind::Verb);
    assert_eq!(Token::Eof.kind(), TokenKind::Eof);
    assert_eq!(a.duplicate(), a);
}
