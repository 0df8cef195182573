use sentence_lang::analyzer::Analyzer;
use sentence_lang::expression::{Expression, Literal};
use sentence_lang::lexer::Lexer;
use sentence_lang::parser::{ParseError, Parser};
use sentence_lang::token::Token;

fn s(text: &str) -> String {
    text.to_string()
}

fn tokens_of(source: &str) -> Vec<Token> {
    let mut lexer = Lexer::new(source.to_string());
    lexer.tokenize().clone()
}

fn parse(source: &str) -> Result<Vec<Expression>, ParseError> {
    let mut parser = Parser::new(tokens_of(source));
    parser.parse_ast().map(|program| {
        program
            .iter()
            .map(|e| match e {
                Expression::VariableDeclaration { verb, identifier, preposition, value } => {
                    Expression::VariableDeclaration {
                        verb: verb.clone(),
                        identifier: identifier.clone(),
                        preposition: preposition.clone(),
                        value: Box::new(match value.as_ref() {
                            Expression::Literal(l) => Expression::Literal(l.clone()),
                            _ => panic!("nested declaration"),
                        }),
                    }
                }
                Expression::Literal(l) => Expression::Literal(l.clone()),
            })
            .collect()
    })
}

fn declaration(verb: Token, identifier: &str, preposition: Token, value: Literal) -> Expression {
    Expression::VariableDeclaration {
        verb,
        identifier: Token::Identifier(s(identifier)),
        preposition,
        value: Box::new(Expression::Literal(value)),
    }
}

fn expected(what: &str, after: &str) -> ParseError {
    ParseError::ExpectedExpressionAfter(s(what), s(after))
}

#[test]
fn bare_identifier_declaration() {
    let program = parse("declare x as 5").unwrap();
    assert_eq!(
        program,
        vec![declaration(
            Token::Verb(s("declare")),
            "x",
            Token::Preposition(s("as")),
            Literal::Integer(5),
        )]
    );
}

#[test]
fn declaration_from_literal_tokens() {
    let tokens = vec![
        Token::Verb(s("declare")),
        Token::Identifier(s("x")),
        Token::Preposition(s("as")),
        Token::Integer(5),
    ];
    let mut parser = Parser::new(tokens);
    let program = parser.parse_ast().ok().unwrap();
    assert_eq!(program.len(), 1);
    assert_eq!(
        program[0],
        declaration(
            Token::Verb(s("declare")),
            "x",
            Token::Preposition(s("as")),
            Literal::Integer(5),
        )
    );
}

#[test]
fn missing_identifier_is_rejected() {
    let result = parse("declare as 5");
    assert_eq!(result, Err(expected("identifier", "declaration verb")));
}

#[test]
fn failure_repeats_on_the_same_tokens() {
    let tokens = tokens_of("declare x as 5 declare as 5");
    let mut first = Parser::new(tokens.clone());
    let mut second = Parser::new(tokens);
    let a = first.parse_ast().err().unwrap();
    let b = second.parse_ast().err().unwrap();
    assert_eq!(a, b);
    let again = first.parse_ast().err().unwrap();
    assert_eq!(a, again);
    assert_eq!(a, expected("identifier", "declaration verb"));
}

#[test]
fn determiner_and_noun_before_identifier() {
    let program = parse("declare the variable x as 4.5").unwrap();
    assert_eq!(
        program,
        vec![declaration(
            Token::Verb(s("declare")),
            "x",
            Token::Preposition(s("as")),
            Literal::Float(s("4.5")),
        )]
    );
}

#[test]
fn literal_first_with_determiner_and_noun() {
    let program = parse("set 5 to the variable x").unwrap();
    assert_eq!(
        program,
        vec![declaration(
            Token::Verb(s("set")),
            "x",
            Token::Preposition(s("to")),
            Literal::Integer(5),
        )]
    );
}

#[test]
fn literal_first_with_bare_identifier() {
    let program = parse("assign 2.5 to y").unwrap();
    assert_eq!(
        program,
        vec![declaration(
            Token::Verb(s("assign")),
            "y",
            Token::Preposition(s("to")),
            Literal::Float(s("2.5")),
        )]
    );
}

#[test]
fn identifier_as_value() {
    let program = parse("let y be").err().unwrap();
    assert_eq!(program, expected("preposition", "identifier"));
    let program = parse("let y as x").unwrap();
    assert_eq!(
        program,
        vec![declaration(
            Token::Verb(s("let")),
            "y",
            Token::Preposition(s("as")),
            Literal::Identifier(s("x")),
        )]
    );
}

#[test]
fn several_statements() {
    let program = parse("declare x as 5\nset 7 to a thing y").unwrap();
    assert_eq!(
        program,
        vec![
            declaration(
                Token::Verb(s("declare")),
                "x",
                Token::Preposition(s("as")),
                Literal::Integer(5),
            ),
            declaration(Token::Verb(s("set")), "y", Token::Preposition(s("to")), Literal::Integer(7)),
        ]
    );
}

#[test]
fn empty_program() {
    assert_eq!(parse(""), Ok(vec![]));
    let mut parser = Parser::new(vec![]);
    assert!(parser.parse_ast().ok().unwrap().is_empty());
}

#[test]
fn statement_must_start_with_a_verb() {
    assert_eq!(parse("x as 5"), Err(expected("statement", "start of sentence")));
}

#[test]
fn determiner_needs_a_noun() {
    assert_eq!(parse("declare the x as 5"), Err(expected("noun", "determiner")));
}

#[test]
fn noun_needs_an_identifier() {
    assert_eq!(parse("declare the variable as 5"), Err(expected("identifier", "noun")));
}

#[test]
fn identifier_needs_a_preposition() {
    assert_eq!(parse("declare x 5"), Err(expected("preposition", "identifier")));
}

#[test]
fn preposition_needs_a_value() {
    assert_eq!(parse("declare x as"), Err(expected("value", "preposition")));
    assert_eq!(parse("declare x as \"text\""), Err(expected("value", "preposition")));
    assert_eq!(parse("declare x as to"), Err(expected("value", "preposition")));
}

#[test]
fn literal_needs_a_preposition() {
    assert_eq!(parse("set 5 x"), Err(expected("preposition", "literal")));
}

#[test]
fn literal_first_needs_a_target() {
    assert_eq!(parse("set 5 to as"), Err(expected("identifier", "preposition")));
}

#[test]
fn later_error_discards_earlier_statements() {
    assert_eq!(parse("declare x as 5 declare y"), Err(expected("preposition", "identifier")));
}

#[test]
fn analyzer_accepts_a_program() {
    let mut parser = Parser::new(tokens_of("declare x as 5"));
    let count = parser.parse_ast().ok().unwrap().len();
    let program = vec![declaration(
        Token::Verb(s("declare")),
        "x",
        Token::Preposition(s("as")),
        Literal::Integer(5),
    )];
    let mut analyzer = Analyzer::new(program);
    analyzer.analyze_ast();
    assert_eq!(count, 1);
}


#[test]
fn program_can_be_taken_out() {
    let mut parser = Parser::new(tokens_of("declare x as 5 let y as x"));
    assert!(parser.parse_ast().is_ok());
    let program = parser.into_program();
    assert_eq!(program.len(), 2);
    let mut analyzer = Analyzer::new(program);
    analyzer.analyze_ast();
}
