//! The lexer round-trip law.
//!
//! For an input composed of identifier, integer and symbol lexemes separated
//! by single spaces, lexing the whole input reproduces exactly the sequence
//! of classified token kinds — keyword and symbol payloads included — and
//! the lexemes are exactly the input's non-whitespace content, in order.
//! [`lex_kinds`] is the token-kind stream a text lexes to, written over the
//! same run and classification functions that state [`crate::lexer::Lexer::parse`];
//! [`theorem_lexer_round_trip`] is the law itself.

use vstd::prelude::*;

use crate::chars::{alphabetic_char, numeric_char, whitespace_char, word_char};
use crate::lexer::{
    dec_digit, keyword_of, lemma_word_end_bounds, lemma_ws_end_bounds, lex_kinds, parse_u128_seq,
    symbol_of, word_end, ws_end,
};
use crate::token::TokenType;

verus! {

/// An identifier-or-keyword lexeme: a letter or `_`, then word characters,
/// none of them whitespace.
pub open spec fn word_unit(w: Seq<char>) -> bool {
    &&& w.len() >= 1
    &&& alphabetic_char(w[0]) || w[0] == '_'
    &&& forall|k: int| 1 <= k < w.len() ==> word_char(#[trigger] w[k])
    &&& forall|k: int| 0 <= k < w.len() ==> !whitespace_char(#[trigger] w[k])
}

/// An integer lexeme: decimal digits spelling a 128-bit value.
pub open spec fn int_unit(w: Seq<char>) -> bool {
    &&& w.len() >= 1
    &&& forall|k: int| 0 <= k < w.len() ==> dec_digit(#[trigger] w[k])
    &&& parse_u128_seq(w) is Ok
}

/// A symbol lexeme: one character of the fixed symbol set.
pub open spec fn symbol_unit(w: Seq<char>) -> bool {
    w.len() == 1 && symbol_of(w[0]) is Some
}

/// One lexeme of the round-trip alphabet.
pub open spec fn unit_wf(w: Seq<char>) -> bool {
    word_unit(w) || int_unit(w) || symbol_unit(w)
}

/// The token kind a lexeme classifies to.
pub open spec fn unit_token_type(w: Seq<char>) -> TokenType {
    if symbol_unit(w) {
        TokenType::Symbol(symbol_of(w[0])->Some_0)
    } else if word_unit(w) {
        match keyword_of(w) {
            Some(k) => TokenType::Keyword(k),
            None => TokenType::Identifier,
        }
    } else {
        TokenType::Integer
    }
}

/// The lexemes joined by single spaces.
pub open spec fn join_units(units: Seq<Seq<char>>) -> Seq<char>
    decreases units.len(),
{
    if units.len() == 0 {
        Seq::empty()
    } else if units.len() == 1 {
        units[0]
    } else {
        units[0] + seq![' '] + join_units(units.drop_first())
    }
}

/// The lexemes concatenated: the non-whitespace content of the joined text.
pub open spec fn concat_units(units: Seq<Seq<char>>) -> Seq<char>
    decreases units.len(),
{
    if units.len() == 0 {
        Seq::empty()
    } else {
        units[0] + concat_units(units.drop_first())
    }
}

/// A text with its whitespace characters removed, in order.
pub open spec fn non_ws(s: Seq<char>) -> Seq<char>
    decreases s.len(),
{
    if s.len() == 0 {
        Seq::empty()
    } else if whitespace_char(s[0]) {
        non_ws(s.drop_first())
    } else {
        seq![s[0]] + non_ws(s.drop_first())
    }
}

proof fn lemma_non_ws_add(a: Seq<char>, b: Seq<char>)
    ensures
        non_ws(a + b) == non_ws(a) + non_ws(b),
    decreases a.len(),
{
    if a.len() == 0 {
        assert(a + b =~= b);
        assert(non_ws(a) + non_ws(b) =~= non_ws(b));
    } else {
        assert((a + b).drop_first() =~= a.drop_first() + b);
        lemma_non_ws_add(a.drop_first(), b);
        if !whitespace_char(a[0]) {
            assert(seq![a[0]] + (non_ws(a.drop_first()) + non_ws(b)) =~= (seq![a[0]] + non_ws(
                a.drop_first(),
            )) + non_ws(b));
        }
    }
}

proof fn lemma_non_ws_kept(w: Seq<char>)
    requires
        forall|k: int| 0 <= k < w.len() ==> !whitespace_char(#[trigger] w[k]),
    ensures
        non_ws(w) == w,
    decreases w.len(),
{
    if w.len() > 0 {
        lemma_non_ws_kept(w.drop_first());
        assert(seq![w[0]] + w.drop_first() =~= w);
    }
}

/// No character of a lexeme is whitespace.
proof fn lemma_unit_not_ws(w: Seq<char>)
    requires
        unit_wf(w),
    ensures
        forall|k: int| 0 <= k < w.len() ==> !whitespace_char(#[trigger] w[k]),
{
}

/// Every character after the first of a lexeme is a word character, for the
/// word and integer forms; a symbol lexeme has no such characters.
proof fn lemma_unit_word_chars(w: Seq<char>)
    requires
        unit_wf(w),
        !symbol_unit(w),
    ensures
        forall|k: int| 1 <= k < w.len() ==> word_char(#[trigger] w[k]),
{
}

/// A word run over exactly the word characters `s[i..e]`.
proof fn lemma_word_end_exact(s: Seq<char>, i: int, e: int)
    requires
        0 <= i <= e <= s.len(),
        forall|k: int| i <= k < e ==> word_char(#[trigger] s[k]),
        e == s.len() || !word_char(s[e]),
    ensures
        word_end(s, i) == e,
    decreases e - i,
{
    if i < e {
        lemma_word_end_exact(s, i + 1, e);
    }
}

/// Skipping one space: the kind stream at a space is the kind stream just
/// past it.
proof fn lemma_lex_kinds_space(s: Seq<char>, m: int)
    requires
        0 <= m < s.len(),
        s[m] == ' ',
    ensures
        lex_kinds(s, m) == lex_kinds(s, m + 1),
{
    assert(ws_end(s, m) == ws_end(s, m + 1));
}

/// One lexeme at the cursor, followed by end of input or a space, lexes to
/// exactly its kind, and the stream continues just past it.
proof fn lemma_lex_kinds_unit_step(s: Seq<char>, i: int, w: Seq<char>)
    requires
        unit_wf(w),
        0 <= i,
        i + w.len() <= s.len(),
        s.subrange(i, i + w.len()) == w,
        i + w.len() == s.len() || s[i + w.len()] == ' ',
    ensures
        lex_kinds(s, i) == seq![unit_token_type(w)] + lex_kinds(s, i + w.len()),
{
    let e = i + w.len();
    assert(s[i] == w[0]);
    assert(!whitespace_char(s[i])) by {
        lemma_unit_not_ws(w);
    }
    assert(ws_end(s, i) == i);
    if symbol_unit(w) {
        assert(!(alphabetic_char(s[i]) || s[i] == '_'));
        assert(!numeric_char(s[i]));
        assert(lex_kinds(s, i) == seq![unit_token_type(w)] + lex_kinds(s, i + 1));
    } else {
        assert(forall|k: int| i + 1 <= k < e ==> word_char(#[trigger] s[k])) by {
            lemma_unit_word_chars(w);
            assert(forall|k: int| i + 1 <= k < e ==> s[k] == w[k - i]);
        }
        assert(e == s.len() || !word_char(s[e]));
        lemma_word_end_exact(s, i + 1, e);
        if word_unit(w) {
            assert(s.subrange(i, e) =~= w);
            assert(lex_kinds(s, i) == seq![unit_token_type(w)] + lex_kinds(s, e));
        } else {
            assert(int_unit(w));
            assert(dec_digit(w[0]));
            assert(numeric_char(s[i]) && !(alphabetic_char(s[i]) || s[i] == '_'));
            assert(e == s.len() || s[e] != '.');
            assert(s.subrange(i, e) =~= w);
            assert(lex_kinds(s, i) == seq![unit_token_type(w)] + lex_kinds(s, e));
        }
    }
}

/// The round-trip law from a cursor: the rest of the text is the joined
/// lexemes, and it lexes to exactly their kinds.
proof fn lemma_round_trip_from(s: Seq<char>, i: int, units: Seq<Seq<char>>)
    requires
        0 <= i <= s.len(),
        forall|k: int| 0 <= k < units.len() ==> unit_wf(#[trigger] units[k]),
        s.subrange(i, s.len() as int) == join_units(units),
    ensures
        lex_kinds(s, i) == units.map_values(|w: Seq<char>| unit_token_type(w)),
    decreases units.len(),
{
    let f = |w: Seq<char>| unit_token_type(w);
    if units.len() == 0 {
        assert(s.len() - i == 0);
        assert(ws_end(s, i) == i);
        assert(lex_kinds(s, i) =~= units.map_values(f));
    } else {
        let w = units[0];
        let rest = units.drop_first();
        let e = i + w.len();
        if units.len() == 1 {
            assert(join_units(units) == w);
            assert(e == s.len());
            assert(s.subrange(i, e) =~= w);
            lemma_lex_kinds_unit_step(s, i, w);
            assert(s.subrange(e, s.len() as int) =~= join_units(rest));
            lemma_round_trip_from(s, e, rest);
        } else {
            assert(join_units(units) == w + seq![' '] + join_units(rest));
            assert(e + 1 <= s.len());
            assert(s.subrange(i, e) =~= w) by {
                assert(forall|k: int|
                    0 <= k < w.len() ==> s.subrange(i, s.len() as int)[k] == #[trigger] s[i + k]);
            }
            assert(s[e] == ' ') by {
                assert(s.subrange(i, s.len() as int)[w.len() as int] == s[e]);
                assert((w + seq![' '] + join_units(rest))[w.len() as int] == ' ');
            }
            lemma_lex_kinds_unit_step(s, i, w);
            lemma_lex_kinds_space(s, e);
            assert(s.subrange(e + 1, s.len() as int) =~= join_units(rest)) by {
                assert(forall|k: int|
                    0 <= k < s.len() - e - 1 ==> #[trigger] s.subrange(e + 1, s.len() as int)[k]
                        == s.subrange(i, s.len() as int)[w.len() + 1 + k]);
            }
            lemma_round_trip_from(s, e + 1, rest);
        }
        assert(units.map_values(f) =~= seq![f(w)] + rest.map_values(f));
    }
}

/// Lexer round trip. For any input made of identifier, integer and symbol
/// lexemes separated by single spaces: lexing the joined text yields exactly
/// one token kind per lexeme — the keyword or symbol payload included — and
/// the input's non-whitespace content is exactly the lexemes in order.
pub proof fn theorem_lexer_round_trip(units: Seq<Seq<char>>)
    requires
        forall|k: int| 0 <= k < units.len() ==> unit_wf(#[trigger] units[k]),
    ensures
        lex_kinds(join_units(units), 0) == units.map_values(|w: Seq<char>| unit_token_type(w)),
        non_ws(join_units(units)) == concat_units(units),
    decreases units.len(),
{
    let s = join_units(units);
    assert(s.subrange(0, s.len() as int) =~= s);
    lemma_round_trip_from(s, 0, units);
    if units.len() == 0 {
    } else if units.len() == 1 {
        lemma_unit_not_ws(units[0]);
        lemma_non_ws_kept(units[0]);
        assert(concat_units(units.drop_first()) == Seq::<char>::empty());
        assert(units[0] + Seq::<char>::empty() =~= units[0]);
    } else {
        let w = units[0];
        let rest = units.drop_first();
        theorem_lexer_round_trip(rest);
        lemma_non_ws_add(w + seq![' '], join_units(rest));
        lemma_non_ws_add(w, seq![' ']);
        lemma_unit_not_ws(w);
        lemma_non_ws_kept(w);
        assert(seq![' '].drop_first() =~= Seq::<char>::empty());
        assert(non_ws(Seq::<char>::empty()) == Seq::<char>::empty());
        assert(non_ws(seq![' ']) =~= Seq::<char>::empty());
        assert(w + seq![' '] + join_units(rest) =~= (w + seq![' ']) + join_units(rest));
        assert(non_ws(w) + non_ws(seq![' ']) =~= w);
        assert(w + non_ws(join_units(rest)) =~= concat_units(units));
    }
}

} // verus!
