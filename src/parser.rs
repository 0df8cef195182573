use vstd::prelude::*;

use crate::expression::{Expression, Literal};
use crate::token::{kind_of, Token, TokenKind};

verus! {

/// A grammar error: what was expected, and after what.
#[derive(Debug, Clone, PartialEq)]
pub enum ParseError {
    ExpectedExpressionAfter(String, String),
}

/// A grammar error as a pair of texts: what was expected, and after what.
pub type Failure = (Seq<char>, Seq<char>);

pub open spec fn failure_of(e: ParseError) -> Failure {
    match e {
        ParseError::ExpectedExpressionAfter(what, after) => (what@, after@),
    }
}

/// The category of the token at `p`, if there is one.
pub open spec fn kind_at(ts: Seq<Token>, p: int) -> Option<TokenKind> {
    if 0 <= p < ts.len() {
        Some(kind_of(ts[p]@))
    } else {
        None
    }
}

/// Whether the token at `p` is a number.
pub open spec fn literal_at(ts: Seq<Token>, p: int) -> bool {
    kind_at(ts, p) == Some(TokenKind::Integer) || kind_at(ts, p) == Some(TokenKind::Float)
}

/// The literal expression that a value token stands for: an identifier, an
/// integer or a float. Other tokens stand for none.
pub open spec fn value_of(t: Token) -> Option<Expression> {
    match t {
        Token::Identifier(s) => Some(Expression::Literal(Literal::Identifier(s))),
        Token::Integer(n) => Some(Expression::Literal(Literal::Integer(n))),
        Token::Float(s) => Some(Expression::Literal(Literal::Float(s))),
        _ => None,
    }
}

/// The target of a declaration at `p`: a bare identifier, or a determiner, a
/// noun and an identifier. On success, the position of the identifier.
/// `after` names what stands before `p`.
pub open spec fn target_at(ts: Seq<Token>, p: int, after: Seq<char>) -> Result<int, Failure> {
    if kind_at(ts, p) == Some(TokenKind::Identifier) {
        Ok(p)
    } else if kind_at(ts, p) == Some(TokenKind::Determiner) {
        if kind_at(ts, p + 1) != Some(TokenKind::Noun) {
            Err(("noun"@, "determiner"@))
        } else if kind_at(ts, p + 2) != Some(TokenKind::Identifier) {
            Err(("identifier"@, "noun"@))
        } else {
            Ok(p + 2)
        }
    } else {
        Err(("identifier"@, after))
    }
}

/// The statement at `p`, and the position after it. The grammar:
///
/// ```text
/// statement := VERB target PREPOSITION value
///            | VERB literal PREPOSITION target
/// target    := IDENTIFIER | DETERMINER NOUN IDENTIFIER
/// value     := IDENTIFIER | INTEGER | FLOAT
/// literal   := INTEGER | FLOAT
/// ```
pub open spec fn statement_at(ts: Seq<Token>, p: int) -> Result<(Expression, int), Failure> {
    if kind_at(ts, p) != Some(TokenKind::Verb) {
        Err(("statement"@, "start of sentence"@))
    } else if literal_at(ts, p + 1) {
        if kind_at(ts, p + 2) != Some(TokenKind::Preposition) {
            Err(("preposition"@, "literal"@))
        } else {
            match target_at(ts, p + 3, "preposition"@) {
                Ok(i) => Ok(
                    (
                        Expression::VariableDeclaration {
                            verb: ts[p],
                            identifier: ts[i],
                            preposition: ts[p + 2],
                            value: Box::new(value_of(ts[p + 1]).unwrap()),
                        },
                        i + 1,
                    ),
                ),
                Err(f) => Err(f),
            }
        }
    } else {
        match target_at(ts, p + 1, "declaration verb"@) {
            Ok(i) => if kind_at(ts, i + 1) != Some(TokenKind::Preposition) {
                Err(("preposition"@, "identifier"@))
            } else if i + 2 >= ts.len() || value_of(ts[i + 2]) is None {
                Err(("value"@, "preposition"@))
            } else {
                Ok(
                    (
                        Expression::VariableDeclaration {
                            verb: ts[p],
                            identifier: ts[i],
                            preposition: ts[i + 1],
                            value: Box::new(value_of(ts[i + 2]).unwrap()),
                        },
                        i + 3,
                    ),
                )
            },
            Err(f) => Err(f),
        }
    }
}

/// Whether no statement starts at `p`: the tokens are used up, or `p` holds `Eof`.
pub open spec fn at_end(ts: Seq<Token>, p: int) -> bool {
    p >= ts.len() || kind_at(ts, p) == Some(TokenKind::Eof)
}

/// The statements from `p` on, or the first grammar error among them.
pub open spec fn parse_from(ts: Seq<Token>, p: int) -> Result<Seq<Expression>, Failure>
    decreases ts.len() - p,
{
    if p < 0 || at_end(ts, p) {
        Ok(Seq::empty())
    } else {
        match statement_at(ts, p) {
            Ok((e, n)) => if p < n <= ts.len() {
                match parse_from(ts, n) {
                    Ok(rest) => Ok(seq![e] + rest),
                    Err(f) => Err(f),
                }
            } else {
                Ok(seq![e])
            },
            Err(f) => Err(f),
        }
    }
}

/// The program that `ts` spells, or its first grammar error.
pub open spec fn parse_program(ts: Seq<Token>) -> Result<Seq<Expression>, Failure> {
    parse_from(ts, 0)
}

fn expected_after(what: &str, after: &str) -> (r: ParseError)
    ensures
        failure_of(r) == (what@, after@),
{
    ParseError::ExpectedExpressionAfter(String::from_str(what), String::from_str(after))
}

/// A recursive-descent parser over a sequence of tokens. It reads the tokens
/// one statement at a time and collects the statements it has parsed.
pub struct Parser {
    tokens: Vec<Token>,
    current: usize,
    expressions: Vec<Expression>,
}

impl Parser {
    /// The tokens being parsed.
    pub closed spec fn token_seq(&self) -> Seq<Token> {
        self.tokens@
    }

    /// The position of the next statement.
    pub closed spec fn position(&self) -> int {
        self.current as int
    }

    /// The statements parsed so far.
    pub closed spec fn parsed(&self) -> Seq<Expression> {
        self.expressions@
    }

    /// The parser's invariant: the position lies within the tokens.
    pub closed spec fn wf(&self) -> bool {
        self.current <= self.tokens@.len() && self.tokens@.len() < usize::MAX - 3
    }

    /// A parser at the start of `tokens`.
    pub fn new(tokens: Vec<Token>) -> (r: Parser)
        requires
            tokens@.len() < usize::MAX - 3,
        ensures
            r.wf(),
            r.token_seq() == tokens@,
            r.position() == 0,
            r.parsed() == Seq::<Expression>::empty(),
    {
        Parser { tokens, current: 0, expressions: Vec::new() }
    }

    /// The statements parsed so far, taken out of the parser.
    pub fn into_program(self) -> (r: Vec<Expression>)
        ensures
            r@ == self.parsed(),
    {
        self.expressions
    }

    /// Whether the token at `p` is of category `kind`.
    fn check(&self, p: usize, kind: TokenKind) -> (r: bool)
        ensures
            r == (kind_at(self.tokens@, p as int) == Some(kind)),
    {
        p < self.tokens.len() && self.tokens[p].kind() == kind
    }

    /// The value expression at `p`, if the token there is a value.
    fn parse_expression(&self, p: usize) -> (r: Option<Expression>)
        requires
            p < self.tokens@.len(),
        ensures
            r == value_of(self.tokens@[p as int]),
    {
        match &self.tokens[p] {
            Token::Identifier(s) => Some(Expression::Literal(Literal::Identifier(s.clone()))),
            Token::Integer(n) => Some(Expression::Literal(Literal::Integer(*n))),
            Token::Float(s) => Some(Expression::Literal(Literal::Float(s.clone()))),
            _ => None,
        }
    }

    /// The target of a declaration at `p`; see `target_at`.
    fn parse_target(&self, p: usize, after: &str) -> (r: Result<usize, ParseError>)
        requires
            p <= self.tokens@.len(),
            self.tokens@.len() < usize::MAX,
        ensures
            match target_at(self.tokens@, p as int, after@) {
                Ok(i) => r is Ok && r->Ok_0 == i,
                Err(f) => r is Err && failure_of(r->Err_0) == f,
            },
    {
        if self.check(p, TokenKind::Identifier) {
            Ok(p)
        } else if self.check(p, TokenKind::Determiner) {
            if !self.check(p + 1, TokenKind::Noun) {
                Err(expected_after("noun", "determiner"))
            } else if !self.check(p + 2, TokenKind::Identifier) {
                Err(expected_after("identifier", "noun"))
            } else {
                Ok(p + 2)
            }
        } else {
            Err(expected_after("identifier", after))
        }
    }

    /// A declaration whose verb stands at `p`; see `statement_at`.
    fn parse_definition_context(&self, p: usize) -> (r: Result<(Expression, usize), ParseError>)
        requires
            p < self.tokens@.len(),
            self.tokens@.len() < usize::MAX - 3,
            kind_at(self.tokens@, p as int) == Some(TokenKind::Verb),
        ensures
            match statement_at(self.tokens@, p as int) {
                Ok((e, n)) => r is Ok && r->Ok_0.0 == e && r->Ok_0.1 == n,
                Err(f) => r is Err && failure_of(r->Err_0) == f,
            },
    {
        let ghost ts = self.tokens@;
        if self.check(p + 1, TokenKind::Integer) || self.check(p + 1, TokenKind::Float) {
            if !self.check(p + 2, TokenKind::Preposition) {
                return Err(expected_after("preposition", "literal"));
            }
            let i = match self.parse_target(p + 3, "preposition") {
                Ok(i) => i,
                Err(e) => return Err(e),
            };
            let value = self.parse_expression(p + 1).unwrap();
            let node = Expression::VariableDeclaration {
                verb: self.tokens[p].duplicate(),
                identifier: self.tokens[i].duplicate(),
                preposition: self.tokens[p + 2].duplicate(),
                value: Box::new(value),
            };
            Ok((node, i + 1))
        } else {
            let i = match self.parse_target(p + 1, "declaration verb") {
                Ok(i) => i,
                Err(e) => return Err(e),
            };
            if !self.check(i + 1, TokenKind::Preposition) {
                return Err(expected_after("preposition", "identifier"));
            }
            if i + 2 >= self.tokens.len() {
                return Err(expected_after("value", "preposition"));
            }
            let value = match self.parse_expression(i + 2) {
                Some(v) => v,
                None => return Err(expected_after("value", "preposition")),
            };
            let node = Expression::VariableDeclaration {
                verb: self.tokens[p].duplicate(),
                identifier: self.tokens[i].duplicate(),
                preposition: self.tokens[i + 1].duplicate(),
                value: Box::new(value),
            };
            Ok((node, i + 3))
        }
    }

    /// The statement at `p`; see `statement_at`.
    fn parse_statement(&self, p: usize) -> (r: Result<(Expression, usize), ParseError>)
        requires
            p < self.tokens@.len(),
            self.tokens@.len() < usize::MAX - 3,
        ensures
            match statement_at(self.tokens@, p as int) {
                Ok((e, n)) => r is Ok && r->Ok_0.0 == e && r->Ok_0.1 == n,
                Err(f) => r is Err && failure_of(r->Err_0) == f,
            },
    {
        if self.check(p, TokenKind::Verb) {
            self.parse_definition_context(p)
        } else {
            Err(expected_after("statement", "start of sentence"))
        }
    }

    /// Parses statements from the current position to the end of the tokens
    /// (or an `Eof` token) and returns all statements parsed so far. The first
    /// grammar error ends the parse and is returned alone. After an error, the
    /// parser stands at the statement that failed, so that parsing again
    /// yields the same error.
    pub fn parse_ast(&mut self) -> (r: Result<&Vec<Expression>, ParseError>)
        requires
            old(self).wf(),
        ensures
            final(self).wf(),
            final(self).token_seq() == old(self).token_seq(),
            match parse_from(old(self).token_seq(), old(self).position()) {
                Ok(es) => r is Ok && r->Ok_0@ == old(self).parsed() + es && final(self).parsed()
                    == r->Ok_0@ && at_end(final(self).token_seq(), final(self).position()),
                Err(f) => r is Err && failure_of(r->Err_0) == f && parse_from(
                    final(self).token_seq(),
                    final(self).position(),
                ) == Err::<Seq<Expression>, Failure>(f),
            },
    {
        let ghost ts = self.tokens@;
        let ghost start = self.current as int;
        let ghost before = self.expressions@;
        let ghost mut done: Seq<Expression> = Seq::empty();
        assert(prefixed(done, parse_from(ts, start)) == parse_from(ts, start)) by {
            lemma_prefixed_empty(parse_from(ts, start));
        }
        while self.current < self.tokens.len() && !self.check(self.current, TokenKind::Eof)
            invariant
                self.wf(),
                self.tokens@ == ts,
                ts == old(self).tokens@,
                start == old(self).current,
                before == old(self).expressions@,
                self.expressions@ == before + done,
                parse_from(ts, start) == prefixed(done, parse_from(ts, self.current as int)),
            decreases self.tokens@.len() - self.current,
        {
            let p = self.current;
            match self.parse_statement(p) {
                Ok((node, next)) => {
                    let ghost e = node;
                    proof {
                        lemma_statement_advances(ts, p as int);
                        lemma_prefixed_push(done, e, parse_from(ts, next as int));
                    }
                    self.expressions.push(node);
                    self.current = next;
                    proof {
                        done = done.push(e);
                        assert(self.expressions@ =~= before + done);
                    }
                },
                Err(err) => {
                    return Err(err);
                },
            }
        }
        assert(before + done + Seq::<Expression>::empty() =~= before + done);
        Ok(&self.expressions)
    }
}

/// `r` with the statements `pre` put in front of its program.
pub open spec fn prefixed(pre: Seq<Expression>, r: Result<Seq<Expression>, Failure>) -> Result<
    Seq<Expression>,
    Failure,
> {
    match r {
        Ok(rest) => Ok(pre + rest),
        Err(f) => Err(f),
    }
}

proof fn lemma_prefixed_empty(r: Result<Seq<Expression>, Failure>)
    ensures
        prefixed(Seq::empty(), r) == r,
{
    match r {
        Ok(rest) => {
            assert(Seq::<Expression>::empty() + rest =~= rest);
        },
        Err(_) => {},
    }
}

proof fn lemma_prefixed_push(
    pre: Seq<Expression>,
    e: Expression,
    r: Result<Seq<Expression>, Failure>,
)
    ensures
        prefixed(pre, prefixed(seq![e], r)) == prefixed(pre.push(e), r),
{
    match r {
        Ok(rest) => {
            assert(pre + (seq![e] + rest) =~= pre.push(e) + rest);
        },
        Err(_) => {},
    }
}

proof fn lemma_statement_advances(ts: Seq<Token>, p: int)
    requires
        0 <= p < ts.len(),
        statement_at(ts, p) is Ok,
    ensures
        p < statement_at(ts, p)->Ok_0.1 <= ts.len(),
{
}

} // verus!
