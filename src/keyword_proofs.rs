use vstd::prelude::*;

use crate::lexer::{
    ascii_letter, ascii_space, is_letter, is_space, keyword_kind, keyword_table, lex, lex_from,
    lookup_keyword, scan_at, word_end,
};
use crate::token::{keyword_view, kind_of, word_of, TokenKind, TokenView};

verus! {

/// Whether `w` is the spelling of a keyword.
pub open spec fn is_keyword(w: Seq<char>) -> bool {
    exists|i: int| 0 <= i < keyword_table().len() && keyword_table()[i].0 == w
}

/// Whether every character of `s` is ASCII whitespace.
pub open spec fn all_ascii_space(s: Seq<char>) -> bool {
    forall|j: int| 0 <= j < s.len() ==> ascii_space(#[trigger] s[j])
}

/// The text `seps[0] ws[0] seps[1] ws[1] ... ws[n-1] seps[n]`.
pub open spec fn layout(ws: Seq<Seq<char>>, seps: Seq<Seq<char>>) -> Seq<char>
    decreases ws.len(),
{
    if ws.len() == 0 || seps.len() == 0 {
        if seps.len() == 0 {
            Seq::empty()
        } else {
            seps[0]
        }
    } else {
        seps[0] + (ws[0] + layout(ws.drop_first(), seps.drop_first()))
    }
}

/// Whether `seps` can separate the words `ws`: one run of ASCII whitespace
/// before, between and after them, where the runs between words are not empty.
pub open spec fn separates(ws: Seq<Seq<char>>, seps: Seq<Seq<char>>) -> bool {
    &&& seps.len() == ws.len() + 1
    &&& forall|i: int| 0 <= i < seps.len() ==> all_ascii_space(#[trigger] seps[i])
    &&& forall|i: int| 1 <= i < ws.len() ==> (#[trigger] seps[i]).len() > 0
}

/// The words joined with single spaces.
pub open spec fn joined(ws: Seq<Seq<char>>) -> Seq<char>
    decreases ws.len(),
{
    if ws.len() == 0 {
        Seq::empty()
    } else if ws.len() == 1 {
        ws[0]
    } else {
        ws[0] + seq![' '] + joined(ws.drop_first())
    }
}

/// The words that the tokens were spelled from.
pub open spec fn spellings(ts: Seq<TokenView>) -> Seq<Seq<char>> {
    ts.map_values(|t: TokenView| word_of(t))
}

proof fn lemma_keyword_letters(i: int)
    requires
        0 <= i < keyword_table().len(),
    ensures
        keyword_table()[i].0.len() > 0,
        forall|j: int|
            0 <= j < keyword_table()[i].0.len() ==> ascii_letter(#[trigger] keyword_table()[i].0[j])
                && (keyword_table()[i].0[j] as u32) < 128,
{
    reveal_strlit("declare");
    reveal_strlit("set");
    reveal_strlit("assign");
    reveal_strlit("let");
    reveal_strlit("as");
    reveal_strlit("to");
    reveal_strlit("variable");
    reveal_strlit("thing");
    reveal_strlit("the");
    reveal_strlit("an");
    reveal_strlit("a");
}

proof fn lemma_lookup_finds(table: Seq<(Seq<char>, TokenKind)>, w: Seq<char>, i: int)
    requires
        0 <= i < table.len(),
        table[i].0 == w,
    ensures
        lookup_keyword(table, w) is Some,
    decreases table.len(),
{
    if table[0].0 != w {
        lemma_lookup_finds(table.drop_first(), w, i - 1);
    }
}

/// A category that keywords can have.
pub open spec fn is_keyword_kind(k: TokenKind) -> bool {
    k == TokenKind::Verb || k == TokenKind::Noun || k == TokenKind::Preposition || k
        == TokenKind::Determiner
}

proof fn lemma_lookup_kind(table: Seq<(Seq<char>, TokenKind)>, w: Seq<char>)
    requires
        forall|i: int| 0 <= i < table.len() ==> is_keyword_kind(#[trigger] table[i].1),
    ensures
        lookup_keyword(table, w) is Some ==> is_keyword_kind(lookup_keyword(table, w)->Some_0),
    decreases table.len(),
{
    if table.len() > 0 && table[0].0 != w {
        assert forall|i: int| 0 <= i < table.drop_first().len() implies is_keyword_kind(
            #[trigger] table.drop_first()[i].1,
        ) by {
            assert(table.drop_first()[i] == table[i + 1]);
        }
        lemma_lookup_kind(table.drop_first(), w);
    }
}

proof fn lemma_skip_spaces(s: Seq<char>, p: int, q: int)
    requires
        0 <= p <= q <= s.len(),
        forall|j: int| p <= j < q ==> is_space(#[trigger] s[j]),
    ensures
        lex_from(s, p) == lex_from(s, q),
    decreases q - p,
{
    if p < q {
        lemma_skip_spaces(s, p + 1, q);
    }
}

proof fn lemma_word_end(s: Seq<char>, p: int, q: int)
    requires
        0 <= p <= q <= s.len(),
        forall|j: int| p <= j < q ==> is_letter(#[trigger] s[j]),
        q == s.len() || !is_letter(s[q]),
    ensures
        word_end(s, p) == q,
    decreases q - p,
{
    if p < q {
        lemma_word_end(s, p + 1, q);
    }
}

proof fn lemma_layout_len(ws: Seq<Seq<char>>, seps: Seq<Seq<char>>)
    requires
        seps.len() == ws.len() + 1,
    ensures
        layout(ws, seps).len() >= seps[0].len(),
        ws.len() > 0 && seps[1].len() > 0 ==> layout(ws, seps).len() > seps[0].len() + ws[0].len()
            && layout(ws, seps)[(seps[0].len() + ws[0].len()) as int] == seps[1][0],
    decreases ws.len(),
{
    if ws.len() > 0 {
        lemma_layout_len(ws.drop_first(), seps.drop_first());
    }
}

/// Lexing a layout of keywords from position `p` of `s` on.
proof fn lemma_lex_layout(s: Seq<char>, p: int, ws: Seq<Seq<char>>, seps: Seq<Seq<char>>)
    requires
        0 <= p <= s.len(),
        s.subrange(p, s.len() as int) == layout(ws, seps),
        separates(ws, seps),
        forall|i: int| 0 <= i < ws.len() ==> is_keyword(#[trigger] ws[i]),
    ensures
        lex_from(s, p).0.len() == ws.len() + 1,
        lex_from(s, p).0.last() == TokenView::Eof,
        spellings(lex_from(s, p).0.drop_last()) == ws,
        forall|i: int|
            0 <= i < ws.len() ==> Some(kind_of(#[trigger] lex_from(s, p).0[i])) == keyword_kind(
                ws[i],
            ),
        lex_from(s, p).1.len() == 0,
    decreases ws.len(),
{
    let sep = seps[0];
    let q = p + sep.len();
    lemma_layout_len(ws, seps);
    assert forall|j: int| p <= j < q implies is_space(#[trigger] s[j]) by {
        assert(s[j] == s.subrange(p, s.len() as int)[j - p]);
        assert(ascii_space(seps[0][j - p]));
    }
    lemma_skip_spaces(s, p, q);
    if ws.len() == 0 {
        assert(q == s.len());
        assert(spellings(lex_from(s, p).0.drop_last()) =~= ws);
    } else {
        let w = ws[0];
        let e = q + w.len();
        let rest_ws = ws.drop_first();
        let rest_seps = seps.drop_first();
        let i = choose|i: int| 0 <= i < keyword_table().len() && keyword_table()[i].0 == w;
        lemma_keyword_letters(i);
        lemma_lookup_finds(keyword_table(), w, i);
        let k = keyword_kind(w)->Some_0;
        lemma_lookup_kind(keyword_table(), w);
        assert(layout(ws, seps) == sep + (w + layout(rest_ws, rest_seps)));
        assert forall|j: int| q <= j < e implies is_letter(#[trigger] s[j]) && s[j] == w[j - q] by {
            assert(s[j] == s.subrange(p, s.len() as int)[j - p]);
            assert(ascii_letter(w[j - q]));
        }
        if e < s.len() {
            assert(s[e] == s.subrange(p, s.len() as int)[e - p]);
            if ws.len() > 1 {
                assert(seps[1].len() > 0);
                assert(ascii_space(seps[1][0]));
            } else {
                assert(rest_ws.len() == 0);
                assert(layout(rest_ws, rest_seps) == rest_seps[0]);
                assert(ascii_space(seps[1][0]));
            }
        }
        lemma_word_end(s, q, e);
        assert(s.subrange(q, e) =~= w);
        assert(is_letter(s[q]));
        assert(scan_at(s, q).token == keyword_view(k, w));
        assert(scan_at(s, q).end == e);
        assert forall|j: int| 0 <= j < s.len() - e implies s.subrange(e, s.len() as int)[j]
            == layout(rest_ws, rest_seps)[j] by {
            assert(s[e + j] == s.subrange(p, s.len() as int)[e + j - p]);
            assert(layout(ws, seps)[e + j - p] == (w + layout(rest_ws, rest_seps))[e + j - q]);
        }
        assert(s.subrange(e, s.len() as int) =~= layout(rest_ws, rest_seps));
        assert forall|i: int| 1 <= i < rest_ws.len() implies (#[trigger] rest_seps[i]).len() > 0 by {
            assert(rest_seps[i] == seps[i + 1]);
        }
        assert forall|i: int| 0 <= i < rest_seps.len() implies all_ascii_space(
            #[trigger] rest_seps[i],
        ) by {
            assert(rest_seps[i] == seps[i + 1]);
        }
        assert forall|i: int| 0 <= i < rest_ws.len() implies is_keyword(#[trigger] rest_ws[i]) by {
            assert(rest_ws[i] == ws[i + 1]);
        }
        lemma_lex_layout(s, e, rest_ws, rest_seps);
        let rest = lex_from(s, e);
        let tok = keyword_view(k, w);
        assert(lex_from(s, q).0 == seq![tok] + rest.0);
        assert(lex_from(s, q).1 =~= rest.1);
        assert(lex_from(s, q).0.drop_last() =~= seq![tok] + rest.0.drop_last());
        assert(spellings(lex_from(s, q).0.drop_last()) =~= ws) by {
            assert(spellings(rest.0.drop_last()) == rest_ws);
            assert forall|j: int| 0 <= j < ws.len() implies spellings(
                lex_from(s, q).0.drop_last(),
            )[j] == ws[j] by {
                if j > 0 {
                    assert(spellings(rest.0.drop_last())[j - 1] == rest_ws[j - 1]);
                }
            }
        }
        assert forall|i: int| 0 <= i < ws.len() implies Some(
            kind_of(#[trigger] lex_from(s, p).0[i]),
        ) == keyword_kind(ws[i]) by {
            if i > 0 {
                assert(lex_from(s, p).0[i] == rest.0[i - 1]);
                assert(rest_ws[i - 1] == ws[i]);
            }
        }
    }
}

/// Words of the keyword vocabulary, laid out with any ASCII whitespace
/// between them, lex to one keyword token per word and a final `Eof`, with no
/// error: the tokens' spellings are the words again, and joined with single
/// spaces they give the words joined with single spaces.
pub proof fn lemma_keyword_round_trip(ws: Seq<Seq<char>>, seps: Seq<Seq<char>>)
    requires
        separates(ws, seps),
        forall|i: int| 0 <= i < ws.len() ==> is_keyword(#[trigger] ws[i]),
    ensures
        lex(layout(ws, seps)).0.len() == ws.len() + 1,
        lex(layout(ws, seps)).0.last() == TokenView::Eof,
        spellings(lex(layout(ws, seps)).0.drop_last()) == ws,
        joined(spellings(lex(layout(ws, seps)).0.drop_last())) == joined(ws),
        forall|i: int|
            0 <= i < ws.len() ==> Some(kind_of(#[trigger] lex(layout(ws, seps)).0[i]))
                == keyword_kind(ws[i]),
        lex(layout(ws, seps)).1.len() == 0,
{
    let s = layout(ws, seps);
    assert(s.subrange(0, s.len() as int) =~= s);
    lemma_lex_layout(s, 0, ws, seps);
}

/// A source that is exactly a keyword's spelling lexes to that keyword's
/// token, never to an identifier, followed by `Eof`.
pub proof fn lemma_keyword_precedence(i: int)
    requires
        0 <= i < keyword_table().len(),
    ensures
        lex(keyword_table()[i].0) == (
            seq![keyword_view(keyword_table()[i].1, keyword_table()[i].0), TokenView::Eof],
            Seq::<crate::lexer::LexError>::empty(),
        ),
{
    let w = keyword_table()[i].0;
    let ws = seq![w];
    let seps = seq![Seq::<char>::empty(), Seq::<char>::empty()];
    assert(ws.drop_first() =~= Seq::<Seq<char>>::empty());
    assert(layout(ws, seps) =~= w) by {
        assert(seps.drop_first()[0] == Seq::<char>::empty());
        assert(layout(ws.drop_first(), seps.drop_first()) == Seq::<char>::empty());
    }
    assert(is_keyword(ws[0]));
    lemma_keyword_round_trip(ws, seps);
    reveal_strlit("declare");
    reveal_strlit("set");
    reveal_strlit("assign");
    reveal_strlit("let");
    reveal_strlit("as");
    reveal_strlit("to");
    reveal_strlit("variable");
    reveal_strlit("thing");
    reveal_strlit("the");
    reveal_strlit("an");
    reveal_strlit("a");
    let toks = lex(w).0;
    reveal_with_fuel(lookup_keyword, 12);
    assert(keyword_kind(w) == Some(keyword_table()[i].1));
    assert(word_of(toks[0]) == w);
    assert(toks =~= seq![keyword_view(keyword_table()[i].1, w), TokenView::Eof]);
    assert(lex(w).1 =~= Seq::<crate::lexer::LexError>::empty());
}

} // verus!
