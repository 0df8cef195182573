use vstd::prelude::*;

use crate::token::{keyword_view, token_views, Token, TokenKind, TokenView};

verus! {

/// Whether `c` has Unicode's Alphabetic property.
pub uninterp spec fn unicode_alphabetic(c: char) -> bool;

/// Whether `c` has Unicode's White_Space property.
pub uninterp spec fn unicode_white_space(c: char) -> bool;

/// Relies on `char::is_alphabetic`: whether `c` has the Alphabetic property.
#[verifier::external_body]
fn char_is_alphabetic(c: char) -> (r: bool)
    ensures
        r == unicode_alphabetic(c),
{
    c.is_alphabetic()
}

/// Relies on `char::is_whitespace`: whether `c` has the White_Space property.
#[verifier::external_body]
fn char_is_whitespace(c: char) -> (r: bool)
    ensures
        r == unicode_white_space(c),
{
    c.is_whitespace()
}

pub open spec fn is_ascii_char(c: char) -> bool {
    (c as u32) < 128
}

pub open spec fn ascii_letter(c: char) -> bool {
    ('a' <= c && c <= 'z') || ('A' <= c && c <= 'Z')
}

pub open spec fn ascii_space(c: char) -> bool {
    c == ' ' || c == '\t' || c == '\n' || c == '\x0B' || c == '\x0C' || c == '\r'
}

/// A letter: within ASCII the Latin letters, beyond it whatever is Alphabetic.
pub open spec fn is_letter(c: char) -> bool {
    if is_ascii_char(c) {
        ascii_letter(c)
    } else {
        unicode_alphabetic(c)
    }
}

/// Whitespace: within ASCII space, tab, line feed, vertical tab, form feed and
/// carriage return; beyond it whatever is White_Space.
pub open spec fn is_space(c: char) -> bool {
    if is_ascii_char(c) {
        ascii_space(c)
    } else {
        unicode_white_space(c)
    }
}

pub open spec fn is_digit(c: char) -> bool {
    '0' <= c && c <= '9'
}

/// The number of line feeds in `s`.
pub open spec fn newlines(s: Seq<char>) -> nat
    decreases s.len(),
{
    if s.len() == 0 {
        0
    } else {
        newlines(s.drop_last()) + if s.last() == '\n' {
            1nat
        } else {
            0nat
        }
    }
}

/// The 1-based line on which position `p` of `s` lies.
pub open spec fn line_at(s: Seq<char>, p: int) -> nat {
    1 + newlines(s.take(p))
}

/// The spellings of the language's keywords and their categories, in the
/// order in which they are declared.
pub open spec fn keyword_table() -> Seq<(Seq<char>, TokenKind)> {
    seq![
        ("declare"@, TokenKind::Verb),
        ("set"@, TokenKind::Verb),
        ("assign"@, TokenKind::Verb),
        ("let"@, TokenKind::Verb),
        ("as"@, TokenKind::Preposition),
        ("to"@, TokenKind::Preposition),
        ("variable"@, TokenKind::Noun),
        ("thing"@, TokenKind::Noun),
        ("the"@, TokenKind::Determiner),
        ("an"@, TokenKind::Determiner),
        ("a"@, TokenKind::Determiner),
    ]
}

/// The category of the first entry of `table` spelled exactly `w`.
pub open spec fn lookup_keyword(table: Seq<(Seq<char>, TokenKind)>, w: Seq<char>) -> Option<
    TokenKind,
>
    decreases table.len(),
{
    if table.len() == 0 {
        None
    } else if table[0].0 == w {
        Some(table[0].1)
    } else {
        lookup_keyword(table.drop_first(), w)
    }
}

pub open spec fn keyword_kind(w: Seq<char>) -> Option<TokenKind> {
    lookup_keyword(keyword_table(), w)
}

/// The end of the run of letters that starts at `p`.
pub open spec fn word_end(s: Seq<char>, p: int) -> int
    decreases s.len() - p,
{
    if 0 <= p < s.len() && is_letter(s[p]) {
        word_end(s, p + 1)
    } else {
        p
    }
}

/// The end of the run of digits and decimal points that starts at `p`.
pub open spec fn number_end(s: Seq<char>, p: int) -> int
    decreases s.len() - p,
{
    if 0 <= p < s.len() && (is_digit(s[p]) || s[p] == '.') {
        number_end(s, p + 1)
    } else {
        p
    }
}

/// The end of the run of digits with at most one decimal point that starts at
/// `p`; `seen_point` tells whether a point was already taken.
pub open spec fn literal_end(s: Seq<char>, p: int, seen_point: bool) -> int
    decreases s.len() - p,
{
    if 0 <= p < s.len() && (is_digit(s[p]) || (s[p] == '.' && !seen_point)) {
        literal_end(s, p + 1, seen_point || s[p] == '.')
    } else {
        p
    }
}

/// The first double quote at or after `q`, or the end of `s`.
pub open spec fn closing_quote(s: Seq<char>, q: int) -> int
    decreases s.len() - q,
{
    if 0 <= q < s.len() && s[q] != '"' {
        closing_quote(s, q + 1)
    } else {
        q
    }
}

pub open spec fn digit_value(c: char) -> int {
    (c as u32) - ('0' as u32)
}

/// The number that the decimal digits `d` spell.
pub open spec fn decimal_value(d: Seq<char>) -> int
    decreases d.len(),
{
    if d.len() == 0 {
        0
    } else {
        decimal_value(d.drop_last()) * 10 + digit_value(d.last())
    }
}

/// What went wrong in a malformed part of the source.
#[derive(Debug, Clone, Copy, PartialEq, Eq, Structural)]
pub enum LexErrorKind {
    /// A character that starts no token.
    InvalidSymbol(char),
    /// A single quote at the end of the source.
    UnterminatedChar,
    /// A single quote and a character that no single quote follows.
    InvalidChar,
    /// A number with a second decimal point, or an integer too large for `i32`.
    InvalidNumeric,
}

/// A lexical error and the 1-based line of the token it was found in.
#[derive(Debug, Clone, Copy, PartialEq, Eq, Structural)]
pub struct LexError {
    pub kind: LexErrorKind,
    pub line: usize,
}

/// One token scanned from a position: the token, where the scan stopped, and
/// the error it reports, if any.
pub struct Scanned {
    pub token: TokenView,
    pub end: int,
    pub error: Option<LexErrorKind>,
}

pub open spec fn scan_word(s: Seq<char>, p: int) -> Scanned {
    let e = word_end(s, p);
    let w = s.subrange(p, e);
    Scanned {
        token: match keyword_kind(w) {
            Some(k) => keyword_view(k, w),
            None => TokenView::Identifier(w),
        },
        end: e,
        error: None,
    }
}

/// A number: the digits and points up to the second point form the literal;
/// the scan goes on over any further digits and points, which are an error.
pub open spec fn scan_number(s: Seq<char>, p: int) -> Scanned {
    let e = number_end(s, p);
    let l = literal_end(s, p, false);
    let lit = s.subrange(p, l);
    if lit.contains('.') {
        Scanned {
            token: TokenView::Float(lit),
            end: e,
            error: if l < e {
                Some(LexErrorKind::InvalidNumeric)
            } else {
                None
            },
        }
    } else if decimal_value(lit) <= i32::MAX {
        Scanned { token: TokenView::Integer(decimal_value(lit) as i32), end: e, error: None }
    } else {
        Scanned {
            token: TokenView::Illegal(s[p]),
            end: e,
            error: Some(LexErrorKind::InvalidNumeric),
        }
    }
}

pub open spec fn scan_char(s: Seq<char>, p: int) -> Scanned {
    if p + 1 >= s.len() {
        Scanned {
            token: TokenView::Illegal('\''),
            end: p + 1,
            error: Some(LexErrorKind::UnterminatedChar),
        }
    } else if p + 2 < s.len() && s[p + 2] == '\'' {
        Scanned { token: TokenView::Char(s[p + 1]), end: p + 3, error: None }
    } else {
        Scanned {
            token: TokenView::Illegal('\''),
            end: p + 2,
            error: Some(LexErrorKind::InvalidChar),
        }
    }
}

/// A string runs to the next double quote; without one, to the end of `s`.
pub open spec fn scan_string(s: Seq<char>, p: int) -> Scanned {
    let q = closing_quote(s, p + 1);
    Scanned {
        token: TokenView::String(s.subrange(p + 1, q)),
        end: if q < s.len() {
            q + 1
        } else {
            q
        },
        error: None,
    }
}

/// The token that starts at `p`, a position of `s` that holds no whitespace.
pub open spec fn scan_at(s: Seq<char>, p: int) -> Scanned {
    let c = s[p];
    if is_letter(c) {
        scan_word(s, p)
    } else if is_digit(c) {
        scan_number(s, p)
    } else if c == '\'' {
        scan_char(s, p)
    } else if c == '"' {
        scan_string(s, p)
    } else {
        Scanned { token: TokenView::Illegal(c), end: p + 1, error: Some(LexErrorKind::InvalidSymbol(c)) }
    }
}

pub open spec fn errors_of(s: Seq<char>, p: int, e: Option<LexErrorKind>) -> Seq<LexError> {
    match e {
        Some(k) => seq![LexError { kind: k, line: line_at(s, p) as usize }],
        None => Seq::empty(),
    }
}

/// The tokens and errors of `s` from position `p` on; the tokens end with `Eof`.
pub open spec fn lex_from(s: Seq<char>, p: int) -> (Seq<TokenView>, Seq<LexError>)
    decreases s.len() - p,
{
    if p < 0 || p >= s.len() {
        (seq![TokenView::Eof], Seq::empty())
    } else if is_space(s[p]) {
        lex_from(s, p + 1)
    } else {
        let sc = scan_at(s, p);
        if p < sc.end <= s.len() {
            let rest = lex_from(s, sc.end);
            (seq![sc.token] + rest.0, errors_of(s, p, sc.error) + rest.1)
        } else {
            (seq![sc.token], Seq::empty())
        }
    }
}

/// The tokens and errors of the whole source `s`.
pub open spec fn lex(s: Seq<char>) -> (Seq<TokenView>, Seq<LexError>) {
    lex_from(s, 0)
}

fn letter(c: char) -> (r: bool)
    ensures
        r == is_letter(c),
{
    if (c as u32) < 128 {
        ('a' <= c && c <= 'z') || ('A' <= c && c <= 'Z')
    } else {
        char_is_alphabetic(c)
    }
}

fn space(c: char) -> (r: bool)
    ensures
        r == is_space(c),
{
    if (c as u32) < 128 {
        c == ' ' || c == '\t' || c == '\n' || c == '\x0B' || c == '\x0C' || c == '\r'
    } else {
        char_is_whitespace(c)
    }
}

fn digit(c: char) -> (r: bool)
    ensures
        r == is_digit(c),
{
    '0' <= c && c <= '9'
}

proof fn lemma_newlines_step(s: Seq<char>, i: int)
    requires
        0 <= i < s.len(),
    ensures
        newlines(s.take(i + 1)) == newlines(s.take(i)) + if s[i] == '\n' {
            1nat
        } else {
            0nat
        },
{
    assert(s.take(i + 1).drop_last() =~= s.take(i));
}

proof fn lemma_newlines_bound(s: Seq<char>)
    ensures
        newlines(s) <= s.len(),
    decreases s.len(),
{
    if s.len() > 0 {
        lemma_newlines_bound(s.drop_last());
    }
}

proof fn lemma_decimal_step(s: Seq<char>, p: int, i: int)
    requires
        0 <= p <= i < s.len(),
    ensures
        decimal_value(s.subrange(p, i + 1)) == decimal_value(s.subrange(p, i)) * 10
            + digit_value(s[i]),
{
    assert(s.subrange(p, i + 1).drop_last() =~= s.subrange(p, i));
}

proof fn lemma_decimal_nonneg(d: Seq<char>)
    requires
        forall|j: int| 0 <= j < d.len() ==> is_digit(#[trigger] d[j]),
    ensures
        decimal_value(d) >= 0,
    decreases d.len(),
{
    if d.len() > 0 {
        lemma_decimal_nonneg(d.drop_last());
    }
}

/// The end of the run of letters at `p`.
fn find_word_end(chars: &Vec<char>, p: usize) -> (r: usize)
    requires
        p <= chars@.len(),
    ensures
        r == word_end(chars@, p as int),
        p <= r <= chars@.len(),
{
    let mut i = p;
    while i < chars.len() && letter(chars[i])
        invariant
            p <= i <= chars@.len(),
            word_end(chars@, p as int) == word_end(chars@, i as int),
        decreases chars@.len() - i,
    {
        i += 1;
    }
    i
}

/// The end of the run of digits and points at `p`.
fn find_number_end(chars: &Vec<char>, p: usize) -> (r: usize)
    requires
        p <= chars@.len(),
    ensures
        r == number_end(chars@, p as int),
        p <= r <= chars@.len(),
{
    let mut i = p;
    while i < chars.len() && (digit(chars[i]) || chars[i] == '.')
        invariant
            p <= i <= chars@.len(),
            number_end(chars@, p as int) == number_end(chars@, i as int),
        decreases chars@.len() - i,
    {
        i += 1;
    }
    i
}

/// The end of the literal at `p`, and whether it holds a decimal point.
fn find_literal_end(chars: &Vec<char>, p: usize) -> (r: (usize, bool))
    requires
        p <= chars@.len(),
    ensures
        r.0 == literal_end(chars@, p as int, false),
        r.1 == chars@.subrange(p as int, r.0 as int).contains('.'),
        p <= r.0 <= chars@.len(),
        forall|j: int| p <= j < r.0 ==> is_digit(#[trigger] chars@[j]) || chars@[j] == '.',
{
    let mut i = p;
    let mut point = false;
    while i < chars.len() && (digit(chars[i]) || (chars[i] == '.' && !point))
        invariant
            p <= i <= chars@.len(),
            literal_end(chars@, p as int, false) == literal_end(chars@, i as int, point),
            point == chars@.subrange(p as int, i as int).contains('.'),
            forall|j: int| p <= j < i ==> is_digit(#[trigger] chars@[j]) || chars@[j] == '.',
        decreases chars@.len() - i,
    {
        proof {
            let a = chars@.subrange(p as int, i as int);
            let b = chars@.subrange(p as int, i + 1);
            assert(b =~= a.push(chars@[i as int]));
            if chars@[i as int] == '.' {
                assert(b[i - p] == '.');
            }
            if b.contains('.') {
                let k = choose|k: int| 0 <= k < b.len() && b[k] == '.';
                if k < a.len() {
                    assert(a[k] == '.');
                }
            }
        }
        if chars[i] == '.' {
            point = true;
        }
        i += 1;
    }
    (i, point)
}

/// The first double quote at or after `q`, or the end.
fn find_closing_quote(chars: &Vec<char>, q: usize) -> (r: usize)
    requires
        q <= chars@.len(),
    ensures
        r == closing_quote(chars@, q as int),
        q <= r <= chars@.len(),
{
    let mut i = q;
    while i < chars.len() && chars[i] != '"'
        invariant
            q <= i <= chars@.len(),
            closing_quote(chars@, q as int) == closing_quote(chars@, i as int),
        decreases chars@.len() - i,
    {
        i += 1;
    }
    i
}

/// The value of the decimal digits in `p..e`, or `None` where it exceeds `i32::MAX`.
fn decimal_in(chars: &Vec<char>, p: usize, e: usize) -> (r: Option<i32>)
    requires
        p <= e <= chars@.len(),
        forall|j: int| p <= j < e ==> is_digit(#[trigger] chars@[j]),
    ensures
        match r {
            Some(v) => v as int == decimal_value(chars@.subrange(p as int, e as int)),
            None => decimal_value(chars@.subrange(p as int, e as int)) > i32::MAX,
        },
{
    let cap: u64 = 2147483648;
    let mut acc: u64 = 0;
    let mut i = p;
    while i < e
        invariant
            p <= i <= e <= chars@.len(),
            forall|j: int| p <= j < e ==> is_digit(#[trigger] chars@[j]),
            cap == 2147483648,
            acc <= cap,
            decimal_value(chars@.subrange(p as int, i as int)) >= cap ==> acc == cap,
            decimal_value(chars@.subrange(p as int, i as int)) < cap ==> acc == decimal_value(
                chars@.subrange(p as int, i as int),
            ),
        decreases e - i,
    {
        proof {
            lemma_decimal_step(chars@, p as int, i as int);
            assert(is_digit(chars@[i as int]));
        }
        let d = (chars[i] as u32 - '0' as u32) as u64;
        acc = acc * 10 + d;
        if acc > cap {
            acc = cap;
        }
        i += 1;
    }
    proof {
        lemma_decimal_nonneg(chars@.subrange(p as int, e as int));
    }
    if acc < cap {
        Some(acc as i32)
    } else {
        None
    }
}

/// Whether the characters in `p..e` spell `word` exactly.
fn span_is(chars: &Vec<char>, p: usize, e: usize, word: &str) -> (r: bool)
    requires
        p <= e <= chars@.len(),
    ensures
        r == (chars@.subrange(p as int, e as int) == word@),
{
    let n = word.unicode_len();
    if e - p != n {
        return false;
    }
    let mut i: usize = 0;
    while i < n
        invariant
            n == word@.len(),
            e - p == n,
            p <= e <= chars@.len(),
            0 <= i <= n,
            forall|j: int| 0 <= j < i ==> chars@[p + j] == word@[j],
        decreases n - i,
    {
        if chars[p + i] != word.get_char(i) {
            assert(chars@.subrange(p as int, e as int)[i as int] != word@[i as int]);
            return false;
        }
        i += 1;
    }
    assert(chars@.subrange(p as int, e as int) =~= word@);
    true
}

/// A keyword: its spelling and the category of token it yields.
struct Keyword {
    spelling: String,
    kind: TokenKind,
}

/// The spellings and categories held by a keyword table.
spec fn keyword_entries(keywords: Seq<Keyword>) -> Seq<(Seq<char>, TokenKind)> {
    keywords.map_values(|k: Keyword| (k.spelling@, k.kind))
}

fn declare_keyword(keywords: &mut Vec<Keyword>, word: &str, kind: TokenKind)
    ensures
        keyword_entries(final(keywords)@) == keyword_entries(old(keywords)@).push((word@, kind)),
{
    keywords.push(Keyword { spelling: String::from_str(word), kind });
    assert(keyword_entries(final(keywords)@) =~= keyword_entries(old(keywords)@).push(
        (word@, kind),
    ));
}

/// A scanner over one source text. It turns the text into tokens once,
/// collecting the lexical errors it meets on the way.
pub struct Lexer {
    source: String,
    chars: Vec<char>,
    current: usize,
    line: usize,
    tokens: Vec<Token>,
    errors: Vec<LexError>,
    keywords: Vec<Keyword>,
    scanned: bool,
}

/// The token for a keyword of category `kind`, spelled `text`.
fn keyword_token(kind: TokenKind, text: String) -> (r: Token)
    ensures
        r@ == keyword_view(kind, text@),
{
    match kind {
        TokenKind::Verb => Token::Verb(text),
        TokenKind::Noun => Token::Noun(text),
        TokenKind::Preposition => Token::Preposition(text),
        _ => Token::Determiner(text),
    }
}

impl Lexer {
    /// The characters of the source text.
    pub closed spec fn text(&self) -> Seq<char> {
        self.chars@
    }

    /// Whether `tokenize` has run.
    pub closed spec fn is_scanned(&self) -> bool {
        self.scanned
    }

    /// The lexer's invariant: the cursor's line matches the text before it,
    /// the keyword table is the language's, and once scanned, the tokens and
    /// errors are those of the whole text.
    pub closed spec fn wf(&self) -> bool {
        &&& self.source@ == self.chars@
        &&& self.chars@.len() < usize::MAX
        &&& keyword_entries(self.keywords@) == keyword_table()
        &&& self.current <= self.chars@.len()
        &&& self.line == line_at(self.chars@, self.current as int)
        &&& self.scanned ==> token_views(self.tokens@) == lex(self.chars@).0 && self.errors@
            == lex(self.chars@).1
        &&& !self.scanned ==> self.current == 0 && self.tokens@.len() == 0 && self.errors@.len()
            == 0
    }

    /// A lexer over `source`, with the language's keywords declared.
    pub fn new(source: String) -> (r: Lexer)
        requires
            source@.len() < usize::MAX,
        ensures
            r.wf(),
            r.text() == source@,
            !r.is_scanned(),
    {
        let mut keywords: Vec<Keyword> = Vec::new();
        declare_keyword(&mut keywords, "declare", TokenKind::Verb);
        declare_keyword(&mut keywords, "set", TokenKind::Verb);
        declare_keyword(&mut keywords, "assign", TokenKind::Verb);
        declare_keyword(&mut keywords, "let", TokenKind::Verb);
        declare_keyword(&mut keywords, "as", TokenKind::Preposition);
        declare_keyword(&mut keywords, "to", TokenKind::Preposition);
        declare_keyword(&mut keywords, "variable", TokenKind::Noun);
        declare_keyword(&mut keywords, "thing", TokenKind::Noun);
        declare_keyword(&mut keywords, "the", TokenKind::Determiner);
        declare_keyword(&mut keywords, "an", TokenKind::Determiner);
        declare_keyword(&mut keywords, "a", TokenKind::Determiner);
        assert(keyword_entries(keywords@) =~= keyword_table());

        let n = source.as_str().unicode_len();
        let mut chars: Vec<char> = Vec::new();
        let mut i: usize = 0;
        while i < n
            invariant
                n == source@.len(),
                i <= n,
                chars@ == source@.take(i as int),
            decreases n - i,
        {
            chars.push(source.as_str().get_char(i));
            i += 1;
            assert(chars@ =~= source@.take(i as int));
        }
        assert(chars@ =~= source@);
        assert(chars@.take(0) =~= Seq::<char>::empty());
        Lexer {
            source,
            chars,
            current: 0,
            line: 1,
            tokens: Vec::new(),
            errors: Vec::new(),
            keywords,
            scanned: false,
        }
    }

    /// Moves the cursor forward to `end`, counting the line feeds passed.
    fn advance_to(&mut self, end: usize)
        requires
            old(self).current <= end <= old(self).chars@.len(),
            old(self).chars@.len() < usize::MAX,
            old(self).line == line_at(old(self).chars@, old(self).current as int),
        ensures
            final(self).current == end,
            final(self).line == line_at(old(self).chars@, end as int),
            final(self).source == old(self).source,
            final(self).chars == old(self).chars,
            final(self).tokens == old(self).tokens,
            final(self).errors == old(self).errors,
            final(self).keywords == old(self).keywords,
            final(self).scanned == old(self).scanned,
    {
        while self.current < end
            invariant
                self.current <= end <= self.chars@.len(),
                self.chars@.len() < usize::MAX,
                self.line == line_at(self.chars@, self.current as int),
                self.source == old(self).source,
                self.chars == old(self).chars,
                self.tokens == old(self).tokens,
                self.errors == old(self).errors,
                self.keywords == old(self).keywords,
                self.scanned == old(self).scanned,
            decreases end - self.current,
        {
            proof {
                lemma_newlines_step(self.chars@, self.current as int);
                lemma_newlines_bound(self.chars@.take(self.current as int));
            }
            if self.chars[self.current] == '\n' {
                self.line += 1;
            }
            self.current += 1;
        }
    }

    /// The category of the keyword spelled by the characters in `p..e`, if any.
    fn keyword_in(&self, p: usize, e: usize) -> (r: Option<TokenKind>)
        requires
            p <= e <= self.chars@.len(),
            keyword_entries(self.keywords@) == keyword_table(),
        ensures
            r == keyword_kind(self.chars@.subrange(p as int, e as int)),
    {
        let ghost w = self.chars@.subrange(p as int, e as int);
        let ghost table = keyword_table();
        assert(table.subrange(0, table.len() as int) =~= table);
        let mut i: usize = 0;
        while i < self.keywords.len()
            invariant
                keyword_entries(self.keywords@) == table,
                table == keyword_table(),
                p <= e <= self.chars@.len(),
                w == self.chars@.subrange(p as int, e as int),
                i <= self.keywords@.len(),
                lookup_keyword(table, w) == lookup_keyword(table.subrange(i as int, table.len() as int), w),
            decreases self.keywords@.len() - i,
        {
            let ghost rest = table.subrange(i as int, table.len() as int);
            assert(rest.drop_first() =~= table.subrange(i + 1, table.len() as int));
            assert(rest[0] == table[i as int]);
            if span_is(&self.chars, p, e, self.keywords[i].spelling.as_str()) {
                return Some(self.keywords[i].kind);
            }
            i += 1;
        }
        assert(table.subrange(i as int, table.len() as int) =~= Seq::<(Seq<char>, TokenKind)>::empty());
        None
    }

    /// An identifier, or a keyword where the word is one.
    fn parse_identifier(&self, p: usize) -> (r: (Token, usize))
        requires
            p < self.chars@.len(),
            self.source@ == self.chars@,
            keyword_entries(self.keywords@) == keyword_table(),
            is_letter(self.chars@[p as int]),
            self.chars@.len() < usize::MAX,
        ensures
            r.0@ == scan_word(self.chars@, p as int).token,
            r.1 == scan_word(self.chars@, p as int).end,
            p < r.1 <= self.chars@.len(),
    {
        let e = find_word_end(&self.chars, p + 1);
        let text = String::from_str(self.source.as_str().substring_char(p, e));
        match self.keyword_in(p, e) {
            Some(kind) => (keyword_token(kind, text), e),
            None => (Token::Identifier(text), e),
        }
    }

    /// A number; see `scan_number`.
    fn parse_numeric(&self, p: usize) -> (r: (Token, usize, Option<LexErrorKind>))
        requires
            p < self.chars@.len(),
            self.source@ == self.chars@,
            is_digit(self.chars@[p as int]),
            self.chars@.len() < usize::MAX,
        ensures
            r.0@ == scan_number(self.chars@, p as int).token,
            r.1 == scan_number(self.chars@, p as int).end,
            r.2 == scan_number(self.chars@, p as int).error,
            p < r.1 <= self.chars@.len(),
    {
        let e = find_number_end(&self.chars, p + 1);
        let (l, point) = find_literal_end(&self.chars, p);
        proof {
            assert(l <= e) by {
                lemma_literal_within_number(self.chars@, p as int, false);
            }
        }
        if point {
            let text = String::from_str(self.source.as_str().substring_char(p, l));
            let error = if l < e {
                Some(LexErrorKind::InvalidNumeric)
            } else {
                None
            };
            (Token::Float(text), e, error)
        } else {
            proof {
                assert forall|j: int| p <= j < l implies is_digit(#[trigger] self.chars@[j]) by {
                    if self.chars@[j] == '.' {
                        assert(self.chars@.subrange(p as int, l as int)[j - p] == '.');
                    }
                }
            }
            match decimal_in(&self.chars, p, l) {
                Some(v) => (Token::Integer(v), e, None),
                None => (Token::Illegal(self.chars[p]), e, Some(LexErrorKind::InvalidNumeric)),
            }
        }
    }

    /// A character literal; see `scan_char`.
    fn parse_char(&self, p: usize) -> (r: (Token, usize, Option<LexErrorKind>))
        requires
            p < self.chars@.len(),
            self.chars@.len() < usize::MAX,
        ensures
            r.0@ == scan_char(self.chars@, p as int).token,
            r.1 == scan_char(self.chars@, p as int).end,
            r.2 == scan_char(self.chars@, p as int).error,
            p < r.1 <= self.chars@.len(),
    {
        let n = self.chars.len();
        if p + 1 >= n {
            (Token::Illegal('\''), p + 1, Some(LexErrorKind::UnterminatedChar))
        } else if p + 2 < n && self.chars[p + 2] == '\'' {
            (Token::Char(self.chars[p + 1]), p + 3, None)
        } else {
            (Token::Illegal('\''), p + 2, Some(LexErrorKind::InvalidChar))
        }
    }

    /// A string literal; see `scan_string`.
    fn parse_string(&self, p: usize) -> (r: (Token, usize))
        requires
            p < self.chars@.len(),
            self.chars@.len() < usize::MAX,
            self.source@ == self.chars@,
        ensures
            r.0@ == scan_string(self.chars@, p as int).token,
            r.1 == scan_string(self.chars@, p as int).end,
            p < r.1 <= self.chars@.len(),
    {
        let q = find_closing_quote(&self.chars, p + 1);
        let text = String::from_str(self.source.as_str().substring_char(p + 1, q));
        let end = if q < self.chars.len() {
            q + 1
        } else {
            q
        };
        (Token::String(text), end)
    }

    /// The token that starts at the cursor, where the scan stopped, and the
    /// error it reports.
    fn next_token(&self) -> (r: (Token, usize, Option<LexErrorKind>))
        requires
            self.source@ == self.chars@,
            self.chars@.len() < usize::MAX,
            keyword_entries(self.keywords@) == keyword_table(),
            self.current < self.chars@.len(),
            !is_space(self.chars@[self.current as int]),
        ensures
            r.0@ == scan_at(self.chars@, self.current as int).token,
            r.1 == scan_at(self.chars@, self.current as int).end,
            r.2 == scan_at(self.chars@, self.current as int).error,
            self.current < r.1 <= self.chars@.len(),
    {
        let p = self.current;
        let c = self.chars[p];
        if letter(c) {
            let (t, e) = self.parse_identifier(p);
            (t, e, None)
        } else if digit(c) {
            self.parse_numeric(p)
        } else if c == '\'' {
            self.parse_char(p)
        } else if c == '"' {
            let (t, e) = self.parse_string(p);
            (t, e, None)
        } else {
            (Token::Illegal(c), p + 1, Some(LexErrorKind::InvalidSymbol(c)))
        }
    }
    /// Turns the whole source into tokens, in source order, ending with `Eof`.
    /// Lexical errors do not stop the scan: each malformed part yields a token
    /// (mostly `Illegal`) and an entry among `errors`. A second call returns
    /// the same tokens.
    pub fn tokenize(&mut self) -> (r: &Vec<Token>)
        requires
            old(self).wf(),
        ensures
            final(self).wf(),
            final(self).is_scanned(),
            final(self).text() == old(self).text(),
            token_views(r@) == lex(old(self).text()).0,
    {
        if self.scanned {
            return &self.tokens;
        }
        while self.current < self.chars.len()
            invariant
                self.source@ == self.chars@,
                self.chars@.len() < usize::MAX,
                keyword_entries(self.keywords@) == keyword_table(),
                self.current <= self.chars@.len(),
                self.line == line_at(self.chars@, self.current as int),
                self.chars@ == old(self).chars@,
                !self.scanned,
                token_views(self.tokens@) + lex_from(self.chars@, self.current as int).0 == lex(
                    self.chars@,
                ).0,
                self.errors@ + lex_from(self.chars@, self.current as int).1 == lex(self.chars@).1,
            decreases self.chars@.len() - self.current,
        {
            let ghost s = self.chars@;
            let ghost p = self.current as int;
            let ghost ts = token_views(self.tokens@);
            let ghost es = self.errors@;
            let c = self.chars[self.current];
            if space(c) {
                self.advance_to(self.current + 1);
            } else {
                let (token, end, error) = self.next_token();
                let ghost rest = lex_from(s, end as int);
                assert(lex_from(s, p).0 == seq![token@] + rest.0);
                match error {
                    Some(kind) => {
                        self.errors.push(LexError { kind, line: self.line });
                    },
                    None => {},
                }
                assert(self.errors@ == es + errors_of(s, p, error));
                self.tokens.push(token);
                assert(token_views(self.tokens@) =~= ts.push(token@));
                assert(ts.push(token@) + rest.0 =~= ts + (seq![token@] + rest.0));
                assert(self.errors@ + rest.1 =~= es + (errors_of(s, p, error) + rest.1));
                self.advance_to(end);
            }
        }
        let ghost ts = token_views(self.tokens@);
        self.tokens.push(Token::Eof);
        assert(token_views(self.tokens@) =~= ts.push(TokenView::Eof));
        assert(ts.push(TokenView::Eof) =~= ts + seq![TokenView::Eof]);
        assert(self.errors@ =~= self.errors@ + Seq::<LexError>::empty());
        self.scanned = true;
        &self.tokens
    }

    /// The lexical errors met by `tokenize`, in source order.
    pub fn errors(&self) -> (r: &Vec<LexError>)
        requires
            self.wf(),
        ensures
            self.is_scanned() ==> r@ == lex(self.text()).1,
            !self.is_scanned() ==> r@.len() == 0,
    {
        &self.errors
    }
}

proof fn lemma_word_end_bound(s: Seq<char>, p: int)
    requires
        0 <= p <= s.len(),
    ensures
        p <= word_end(s, p) <= s.len(),
    decreases s.len() - p,
{
    if p < s.len() && is_letter(s[p]) {
        lemma_word_end_bound(s, p + 1);
    }
}

proof fn lemma_closing_quote_bound(s: Seq<char>, q: int)
    requires
        0 <= q <= s.len(),
    ensures
        q <= closing_quote(s, q) <= s.len(),
    decreases s.len() - q,
{
    if q < s.len() && s[q] != '"' {
        lemma_closing_quote_bound(s, q + 1);
    }
}

/// Every scan consumes at least one character and stays within the source.
pub proof fn lemma_scan_advances(s: Seq<char>, p: int)
    requires
        0 <= p < s.len(),
    ensures
        p < scan_at(s, p).end <= s.len(),
{
    lemma_word_end_bound(s, p + 1);
    lemma_number_end_bound(s, p + 1);
    lemma_closing_quote_bound(s, p + 1);
}

/// Lexing any source ends: it yields at most one token per character plus a
/// final `Eof`, which is always the last token.
pub proof fn lemma_lex_ends_with_eof(s: Seq<char>)
    ensures
        1 <= lex(s).0.len() <= s.len() + 1,
        lex(s).0.last() == TokenView::Eof,
{
    lemma_lex_from_ends_with_eof(s, 0);
}

proof fn lemma_lex_from_ends_with_eof(s: Seq<char>, p: int)
    requires
        0 <= p <= s.len(),
    ensures
        1 <= lex_from(s, p).0.len() <= s.len() - p + 1,
        lex_from(s, p).0.last() == TokenView::Eof,
    decreases s.len() - p,
{
    if p < s.len() {
        if is_space(s[p]) {
            lemma_lex_from_ends_with_eof(s, p + 1);
        } else {
            lemma_scan_advances(s, p);
            let sc = scan_at(s, p);
            lemma_lex_from_ends_with_eof(s, sc.end);
            let rest = lex_from(s, sc.end).0;
            assert((seq![sc.token] + rest).last() == rest.last());
        }
    }
}

proof fn lemma_number_end_bound(s: Seq<char>, p: int)
    requires
        0 <= p <= s.len(),
    ensures
        p <= number_end(s, p) <= s.len(),
    decreases s.len() - p,
{
    if p < s.len() && (is_digit(s[p]) || s[p] == '.') {
        lemma_number_end_bound(s, p + 1);
    }
}

proof fn lemma_literal_within_number(s: Seq<char>, p: int, seen: bool)
    requires
        0 <= p <= s.len(),
    ensures
        p <= literal_end(s, p, seen) <= number_end(s, p),
    decreases s.len() - p,
{
    if p < s.len() && (is_digit(s[p]) || (s[p] == '.' && !seen)) {
        lemma_literal_within_number(s, p + 1, seen || s[p] == '.');
    } else {
        lemma_number_end_bound(s, p);
    }
}

} // verus!
