use vstd::prelude::*;

verus! {

/// One lexical unit of a source text.
///
/// A `Float` carries the decimal spelling of the literal as it was written
/// (digits with one decimal point), so that no precision is lost before a
/// consumer converts it.
#[derive(Debug, Clone, PartialEq)]
pub enum Token {
    Identifier(String),
    Integer(i32),
    Float(String),
    Verb(String),
    Noun(String),
    Preposition(String),
    Determiner(String),
    String(String),
    Char(char),
    Illegal(char),
    Eof,
}

/// The category of a token, without its payload.
#[derive(Debug, Clone, Copy, PartialEq, Eq, Structural)]
pub enum TokenKind {
    Identifier,
    Integer,
    Float,
    Verb,
    Noun,
    Preposition,
    Determiner,
    String,
    Char,
    Illegal,
    Eof,
}

/// A token as a mathematical value: text payloads are character sequences.
pub enum TokenView {
    Identifier(Seq<char>),
    Integer(i32),
    Float(Seq<char>),
    Verb(Seq<char>),
    Noun(Seq<char>),
    Preposition(Seq<char>),
    Determiner(Seq<char>),
    String(Seq<char>),
    Char(char),
    Illegal(char),
    Eof,
}

impl View for Token {
    type V = TokenView;

    open spec fn view(&self) -> TokenView {
        match self {
            Token::Identifier(s) => TokenView::Identifier(s@),
            Token::Integer(n) => TokenView::Integer(*n),
            Token::Float(s) => TokenView::Float(s@),
            Token::Verb(s) => TokenView::Verb(s@),
            Token::Noun(s) => TokenView::Noun(s@),
            Token::Preposition(s) => TokenView::Preposition(s@),
            Token::Determiner(s) => TokenView::Determiner(s@),
            Token::String(s) => TokenView::String(s@),
            Token::Char(c) => TokenView::Char(*c),
            Token::Illegal(c) => TokenView::Illegal(*c),
            Token::Eof => TokenView::Eof,
        }
    }
}

pub open spec fn kind_of(t: TokenView) -> TokenKind {
    match t {
        TokenView::Identifier(_) => TokenKind::Identifier,
        TokenView::Integer(_) => TokenKind::Integer,
        TokenView::Float(_) => TokenKind::Float,
        TokenView::Verb(_) => TokenKind::Verb,
        TokenView::Noun(_) => TokenKind::Noun,
        TokenView::Preposition(_) => TokenKind::Preposition,
        TokenView::Determiner(_) => TokenKind::Determiner,
        TokenView::String(_) => TokenKind::String,
        TokenView::Char(_) => TokenKind::Char,
        TokenView::Illegal(_) => TokenKind::Illegal,
        TokenView::Eof => TokenKind::Eof,
    }
}

/// The word a token was spelled from: the text of identifiers and keywords,
/// empty for every other token.
pub open spec fn word_of(t: TokenView) -> Seq<char> {
    match t {
        TokenView::Identifier(s) => s,
        TokenView::Verb(s) => s,
        TokenView::Noun(s) => s,
        TokenView::Preposition(s) => s,
        TokenView::Determiner(s) => s,
        _ => Seq::empty(),
    }
}

/// The keyword token of the given category spelled `w`.
pub open spec fn keyword_view(k: TokenKind, w: Seq<char>) -> TokenView {
    match k {
        TokenKind::Verb => TokenView::Verb(w),
        TokenKind::Noun => TokenView::Noun(w),
        TokenKind::Preposition => TokenView::Preposition(w),
        _ => TokenView::Determiner(w),
    }
}

/// The views of a sequence of tokens, in order.
pub open spec fn token_views(ts: Seq<Token>) -> Seq<TokenView> {
    ts.map_values(|t: Token| t@)
}

impl Token {
    /// The category of this token.
    pub fn kind(&self) -> (r: TokenKind)
        ensures
            r == kind_of(self@),
    {
        match self {
            Token::Identifier(_) => TokenKind::Identifier,
            Token::Integer(_) => TokenKind::Integer,
            Token::Float(_) => TokenKind::Float,
            Token::Verb(_) => TokenKind::Verb,
            Token::Noun(_) => TokenKind::Noun,
            Token::Preposition(_) => TokenKind::Preposition,
            Token::Determiner(_) => TokenKind::Determiner,
            Token::String(_) => TokenKind::String,
            Token::Char(_) => TokenKind::Char,
            Token::Illegal(_) => TokenKind::Illegal,
            Token::Eof => TokenKind::Eof,
        }
    }

    /// Whether two tokens are of the same category, whatever their payloads.
    pub fn same_kind(&self, other: &Token) -> (r: bool)
        ensures
            r == (kind_of(self@) == kind_of(other@)),
    {
        self.kind() == other.kind()
    }

    /// An exact copy of this token.
    pub fn duplicate(&self) -> (r: Token)
        ensures
            r == *self,
    {
        match self {
            Token::Identifier(s) => Token::Identifier(s.clone()),
            Token::Integer(n) => Token::Integer(*n),
            Token::Float(s) => Token::Float(s.clone()),
            Token::Verb(s) => Token::Verb(s.clone()),
            Token::Noun(s) => Token::Noun(s.clone()),
            Token::Preposition(s) => Token::Preposition(s.clone()),
            Token::Determiner(s) => Token::Determiner(s.clone()),
            Token::String(s) => Token::String(s.clone()),
            Token::Char(c) => Token::Char(*c),
            Token::Illegal(c) => Token::Illegal(*c),
            Token::Eof => Token::Eof,
        }
    }
}

} // verus!
