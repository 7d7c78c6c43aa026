//! The tokenizer.
//!
//! A [`Lexer`] is a cursor over a borrowed source slice: a character index
//! and the `(row, col)` position of that index. Each [`Lexer::parse`] call
//! skips a maximal whitespace run (folding it into the next token's start
//! position: a newline steps the row and resets the column, any other
//! whitespace steps the column), classifies the first character left, and
//! returns one token with its span, `Ok(None)` exactly at end of input, or a
//! lexical error carrying the offending span. [`lex_post`] is the full
//! statement of one such step; the contracts of the helpers below feed it.
//!
//! [`Peekable`] decorates the lexer with a one-token lookahead buffer.

use vstd::arithmetic::div_mod::lemma_fundamental_div_mod;
use vstd::prelude::*;

use crate::chars::{
    alphabetic_char, is_alphabetic, is_numeric, is_whitespace, is_word_char, numeric_char,
    whitespace_char, word_char,
};
use crate::error::Initial;
use crate::interner::{
    handle_for, intern, intern_post, tbl_after, tbl_contains, tbl_extends, tbl_index, tbl_wf,
    Interner, ThinStr,
};
use crate::span::{CodePoint, Span};
use crate::token::{
    finite_bits, kinds_of, Error, ErrorType, FloatErrorKind, IntErrorKind, Keyword, LexError,
    Real, Symbol, Token, TokenData, TokenType,
};

verus! {

/// The index just past the maximal whitespace run starting at `i`.
pub open spec fn ws_end(s: Seq<char>, i: int) -> int
    decreases s.len() - i when 0 <= i <= s.len()
{
    if i < s.len() && whitespace_char(s[i]) {
        ws_end(s, i + 1)
    } else {
        i
    }
}

/// The index just past the maximal run of word characters starting at `i`.
pub open spec fn word_end(s: Seq<char>, i: int) -> int
    decreases s.len() - i when 0 <= i <= s.len()
{
    if i < s.len() && word_char(s[i]) {
        word_end(s, i + 1)
    } else {
        i
    }
}

/// How one consumed character moves the position: a newline steps the row
/// and resets the column to 1, anything else steps the column.
pub open spec fn pos_step(q: CodePoint, c: char) -> CodePoint {
    if c == '\n' {
        CodePoint { row: (q.row + 1) as u32, col: 1u32 }
    } else {
        CodePoint { row: q.row, col: (q.col + 1) as u32 }
    }
}

/// The position after consuming the characters `s[i..j]`, starting from `p`.
pub open spec fn advance_pos(p: CodePoint, s: Seq<char>, i: int, j: int) -> CodePoint
    decreases j - i when i <= j
{
    if i >= j {
        p
    } else {
        advance_pos(pos_step(p, s[i]), s, i + 1, j)
    }
}

/// The position `n` columns to the right of `p`.
pub open spec fn col_plus(p: CodePoint, n: int) -> CodePoint {
    CodePoint { row: p.row, col: (p.col + n) as u32 }
}

/// The span of a token of `n` characters starting at `p`.
pub open spec fn span_from(p: CodePoint, n: int) -> Span {
    Span { start: p, end: col_plus(p, n) }
}

/// A token of `n` characters starting at `p`.
pub open spec fn tok(d: TokenData, p: CodePoint, n: int) -> Token {
    Token { data: d, span: span_from(p, n) }
}

/// An innermost lexical error value.
pub open spec fn lex_err(e: ErrorType, sp: Span) -> LexError {
    crate::error::Error { err: Error { err: e, span: sp }, cause: None::<Initial> }
}

/// The reserved word spelled `w`, if any.
pub open spec fn keyword_of(w: Seq<char>) -> Option<Keyword> {
    if w == "let"@ {
        Some(Keyword::Let)
    } else if w == "mut"@ {
        Some(Keyword::Mut)
    } else if w == "match"@ {
        Some(Keyword::Match)
    } else if w == "loop"@ {
        Some(Keyword::Loop)
    } else if w == "break"@ {
        Some(Keyword::Break)
    } else if w == "continue"@ {
        Some(Keyword::Continue)
    } else if w == "return"@ {
        Some(Keyword::Return)
    } else if w == "type"@ {
        Some(Keyword::Type)
    } else {
        None
    }
}

/// The symbol spelled by the single character `c`, if any.
pub open spec fn symbol_of(c: char) -> Option<Symbol> {
    if c == '+' {
        Some(Symbol::Add)
    } else if c == '-' {
        Some(Symbol::Sub)
    } else if c == '*' {
        Some(Symbol::Mul)
    } else if c == '/' {
        Some(Symbol::Div)
    } else if c == '.' {
        Some(Symbol::Dot)
    } else if c == '=' {
        Some(Symbol::Assign)
    } else if c == ';' {
        Some(Symbol::Semicolon)
    } else {
        None
    }
}

/// A decimal digit.
pub open spec fn dec_digit(c: char) -> bool {
    0x30 <= c as u32 && c as u32 <= 0x39
}

/// The value of a decimal digit.
pub open spec fn digit_val(c: char) -> int {
    c as u32 - 0x30
}

/// Reading `s[i..]` as further decimal digits of the value `acc`: fails on
/// the first character that is no digit, or on the first digit that pushes
/// the value past 128 bits — whichever comes first, as the standard decimal
/// scan does.
pub open spec fn parse_u128_rec(s: Seq<char>, i: int, acc: u128) -> Result<u128, IntErrorKind>
    decreases s.len() - i when 0 <= i <= s.len()
{
    if i >= s.len() {
        Ok(acc)
    } else if !dec_digit(s[i]) {
        Err(IntErrorKind::InvalidDigit)
    } else if acc * 10 + digit_val(s[i]) > u128::MAX {
        Err(IntErrorKind::Overflow)
    } else {
        parse_u128_rec(s, i + 1, (acc * 10 + digit_val(s[i])) as u128)
    }
}

/// The 128-bit unsigned value spelled by `s`, or why there is none.
pub open spec fn parse_u128_seq(s: Seq<char>) -> Result<u128, IntErrorKind> {
    parse_u128_rec(s, 0, 0)
}

/// What one float-lexeme outcome looks like, for a given answer `fb` from
/// the supplied float parser (`None`: the lexeme does not parse): a finite
/// bit pattern becomes a float token covering the lexeme, anything else a
/// float error at the lexeme's span that consumes nothing beyond whitespace.
pub open spec fn float_result(
    fb: Option<u64>,
    p: CodePoint,
    j: int,
    e2: int,
    post_idx: int,
    post_start: CodePoint,
    r: Result<Option<Token>, LexError>,
) -> bool {
    match fb {
        Some(bits) => if finite_bits(bits) {
            &&& post_idx == e2
            &&& post_start == col_plus(p, e2 - j)
            &&& r == Ok::<Option<Token>, LexError>(
                Some(tok(TokenData::Float(Real { bits }), p, e2 - j)),
            )
        } else {
            &&& post_idx == j
            &&& post_start == p
            &&& r == Err::<Option<Token>, LexError>(
                lex_err(ErrorType::InvalidFloat(FloatErrorKind::NonFinite), span_from(p, e2 - j)),
            )
        },
        None => {
            &&& post_idx == j
            &&& post_start == p
            &&& r == Err::<Option<Token>, LexError>(
                lex_err(ErrorType::InvalidFloat(FloatErrorKind::Unparsable), span_from(p, e2 - j)),
            )
        },
    }
}

/// A float lexeme (a numeric run followed by `.`) sits at the cursor, after
/// the whitespace skip.
pub open spec fn float_head<'i>(lx: Lexer<'i>) -> bool {
    let s = lx.input@;
    let j = ws_end(s, lx.idx as int);
    &&& j < s.len()
    &&& !(alphabetic_char(s[j]) || s[j] == '_')
    &&& numeric_char(s[j])
    &&& word_end(s, j + 1) < s.len() && s[word_end(s, j + 1)] == '.'
}

/// On a float lexeme, the step's outcome is [`float_result`] for the answer
/// the supplied parser actually gives on the lexeme: what `call_ensures`
/// admits for `fp` on a slice spelling it.
pub open spec fn float_tied<'i, F: Fn(&str) -> Option<u64>>(
    pre: Lexer<'i>,
    post: Lexer<'i>,
    fp: F,
    r: Result<Option<Token>, LexError>,
) -> bool {
    let s = pre.input@;
    let j = ws_end(s, pre.idx as int);
    let q = advance_pos(pre.start, s, pre.idx as int, j);
    float_head(pre) ==> ({
        let e2 = word_end(s, word_end(s, j + 1) + 1);
        exists|a: &str, fb: Option<u64>|
            a@ == s.subrange(j, e2) && #[trigger] call_ensures(fp, (a,), fb) && float_result(
                fb,
                q,
                j,
                e2,
                post.idx as int,
                post.start,
                r,
            )
    })
}

/// The token stream from `i` runs to a clean end of input: it stops neither
/// at a lexical error nor at a float lexeme.
pub open spec fn lex_ends_clean(s: Seq<char>, i: int) -> bool
    decreases s.len() - i when 0 <= i <= s.len() via lex_ends_clean_dec
{
    let j = ws_end(s, i);
    if !(0 <= j && j < s.len()) {
        true
    } else {
        let c = s[j];
        if alphabetic_char(c) || c == '_' {
            lex_ends_clean(s, word_end(s, j + 1))
        } else if numeric_char(c) {
            let e1 = word_end(s, j + 1);
            if e1 < s.len() && s[e1] == '.' {
                false
            } else {
                match parse_u128_seq(s.subrange(j, e1)) {
                    Ok(_) => lex_ends_clean(s, e1),
                    Err(_) => false,
                }
            }
        } else {
            match symbol_of(c) {
                Some(_) => lex_ends_clean(s, j + 1),
                None => false,
            }
        }
    }
}

#[via_fn]
proof fn lex_ends_clean_dec(s: Seq<char>, i: int) {
    lemma_ws_end_bounds(s, i);
    let j = ws_end(s, i);
    if 0 <= j && j < s.len() {
        lemma_word_end_bounds(s, j + 1);
    }
}

/// A whitespace run ends no earlier than it starts and within the text.
pub proof fn lemma_ws_end_bounds(s: Seq<char>, i: int)
    requires
        0 <= i <= s.len(),
    ensures
        i <= ws_end(s, i) <= s.len(),
    decreases s.len() - i,
{
    if i < s.len() && whitespace_char(s[i]) {
        lemma_ws_end_bounds(s, i + 1);
    }
}

/// A word run ends no earlier than it starts and within the text.
pub proof fn lemma_word_end_bounds(s: Seq<char>, i: int)
    requires
        0 <= i <= s.len(),
    ensures
        i <= word_end(s, i) <= s.len(),
    decreases s.len() - i,
{
    if i < s.len() && word_char(s[i]) {
        lemma_word_end_bounds(s, i + 1);
    }
}

/// Within the stated budget, advancing over `s[i..j]` keeps the position
/// 1-indexed and moves each coordinate by at most the number of characters.
proof fn lemma_advance_pos_bounds(p: CodePoint, s: Seq<char>, i: int, j: int)
    requires
        0 <= i <= j <= s.len(),
        1 <= p.row,
        1 <= p.col,
        p.row + (j - i) <= u32::MAX,
        p.col + (j - i) <= u32::MAX,
    ensures
        1 <= advance_pos(p, s, i, j).row,
        1 <= advance_pos(p, s, i, j).col,
        advance_pos(p, s, i, j).row <= p.row + (j - i),
        advance_pos(p, s, i, j).col <= p.col + (j - i),
    decreases j - i,
{
    if i < j {
        lemma_advance_pos_bounds(pos_step(p, s[i]), s, i + 1, j);
    }
}

/// Advancing one more character is one position step.
proof fn lemma_advance_pos_snoc(p: CodePoint, s: Seq<char>, i: int, j: int)
    requires
        0 <= i <= j < s.len(),
    ensures
        advance_pos(p, s, i, j + 1) == pos_step(advance_pos(p, s, i, j), s[j]),
    decreases j - i,
{
    if i == j {
        assert(advance_pos(p, s, i, j + 1) == advance_pos(pos_step(p, s[i]), s, i + 1, j + 1));
        assert(advance_pos(pos_step(p, s[i]), s, i + 1, j + 1) == pos_step(p, s[i]));
    } else {
        lemma_advance_pos_snoc(pos_step(p, s[i]), s, i + 1, j);
        assert(advance_pos(p, s, i, j + 1) == advance_pos(pos_step(p, s[i]), s, i + 1, j + 1));
        assert(advance_pos(p, s, i, j) == advance_pos(pos_step(p, s[i]), s, i + 1, j));
    }
}

/// What one [`Lexer::parse`] call does, as a function of the starting state:
/// `pre`/`post` are the lexer before and after, `tbl0`/`tbl1` the interner
/// contents before and after, and `r` the result. After the whitespace skip
/// (to index `j`, position `p`): at end of input the call yields `Ok(None)`;
/// a word (alphabetic or `_` start) yields its keyword or its interned
/// identifier; a numeric start yields an integer, or a float when a `.`
/// follows the first run, or the matching lexical error, which consumes
/// nothing beyond the whitespace; any other character yields its symbol or
/// an unknown-character error. Every token's span runs from `p` over the
/// lexeme's characters.
pub open spec fn lex_post<'i>(
    pre: Lexer<'i>,
    post: Lexer<'i>,
    tbl0: Seq<Seq<char>>,
    tbl1: Seq<Seq<char>>,
    r: Result<Option<Token>, LexError>,
) -> bool {
    let s = pre.input@;
    let j = ws_end(s, pre.idx as int);
    let p = advance_pos(pre.start, s, pre.idx as int, j);
    &&& post.input == pre.input
    &&& if j == s.len() {
        &&& r == Ok::<Option<Token>, LexError>(None)
        &&& post.idx == j
        &&& post.start == p
        &&& tbl1 == tbl0
    } else {
        let c = s[j];
        if alphabetic_char(c) || c == '_' {
            let e = word_end(s, j + 1);
            let w = s.subrange(j, e);
            &&& post.idx == e
            &&& post.start == col_plus(p, e - j)
            &&& match keyword_of(w) {
                Some(k) => tbl1 == tbl0 && r == Ok::<Option<Token>, LexError>(
                    Some(tok(TokenData::Keyword(k), p, e - j)),
                ),
                None => exists|h: ThinStr|
                    intern_post(tbl0, tbl1, h, w) && r == Ok::<Option<Token>, LexError>(
                        Some(tok(TokenData::Identifier(h), p, e - j)),
                    ),
            }
        } else if numeric_char(c) {
            let e1 = word_end(s, j + 1);
            if e1 < s.len() && s[e1] == '.' {
                let e2 = word_end(s, e1 + 1);
                &&& tbl1 == tbl0
                &&& exists|fb: Option<u64>|
                    #[trigger] float_result(fb, p, j, e2, post.idx as int, post.start, r)
            } else {
                let w = s.subrange(j, e1);
                &&& tbl1 == tbl0
                &&& match parse_u128_seq(w) {
                    Ok(v) => {
                        &&& post.idx == e1
                        &&& post.start == col_plus(p, e1 - j)
                        &&& r == Ok::<Option<Token>, LexError>(
                            Some(tok(TokenData::Integer(v), p, e1 - j)),
                        )
                    },
                    Err(k) => {
                        &&& post.idx == j
                        &&& post.start == p
                        &&& r == Err::<Option<Token>, LexError>(
                            lex_err(ErrorType::InvalidInt(k), span_from(p, e1 - j)),
                        )
                    },
                }
            }
        } else {
            &&& tbl1 == tbl0
            &&& match symbol_of(c) {
                Some(sym) => {
                    &&& post.idx == j + 1
                    &&& post.start == col_plus(p, 1)
                    &&& r == Ok::<Option<Token>, LexError>(
                        Some(tok(TokenData::Symbol(sym), p, 1)),
                    )
                },
                None => {
                    &&& post.idx == j
                    &&& post.start == p
                    &&& r == Err::<Option<Token>, LexError>(
                        lex_err(ErrorType::UnknownCharacter(c), span_from(p, 1)),
                    )
                },
            }
        }
    }
}

/// The token kinds a text lexes to, from index `i` on: the kind stream ends
/// at end of input, at a lexical error, and at a float lexeme (whose outcome
/// belongs to the float parser, not to the text alone).
pub open spec fn lex_kinds(s: Seq<char>, i: int) -> Seq<TokenType>
    decreases s.len() - i when 0 <= i <= s.len() via lex_kinds_dec
{
    let j = ws_end(s, i);
    if !(0 <= j && j < s.len()) {
        Seq::empty()
    } else {
        let c = s[j];
        if alphabetic_char(c) || c == '_' {
            let e = word_end(s, j + 1);
            let kind = match keyword_of(s.subrange(j, e)) {
                Some(k) => TokenType::Keyword(k),
                None => TokenType::Identifier,
            };
            seq![kind] + lex_kinds(s, e)
        } else if numeric_char(c) {
            let e1 = word_end(s, j + 1);
            if e1 < s.len() && s[e1] == '.' {
                Seq::empty()
            } else {
                match parse_u128_seq(s.subrange(j, e1)) {
                    Ok(_) => seq![TokenType::Integer] + lex_kinds(s, e1),
                    Err(_) => Seq::empty(),
                }
            }
        } else {
            match symbol_of(c) {
                Some(sym) => seq![TokenType::Symbol(sym)] + lex_kinds(s, j + 1),
                None => Seq::empty(),
            }
        }
    }
}

#[via_fn]
proof fn lex_kinds_dec(s: Seq<char>, i: int) {
    lemma_ws_end_bounds(s, i);
    let j = ws_end(s, i);
    if 0 <= j && j < s.len() {
        lemma_word_end_bounds(s, j + 1);
    }
}

/// One successful step of the tokenizer produces exactly the head of the
/// kind stream at its cursor, and leaves the cursor where the stream's tail
/// begins. (Stated away from float lexemes, whose outcome belongs to the
/// float parser and which the kind stream does not model.)
pub proof fn lemma_parse_step_matches_kinds<'i>(
    pre: Lexer<'i>,
    post: Lexer<'i>,
    tbl0: Seq<Seq<char>>,
    tbl1: Seq<Seq<char>>,
    t: Token,
)
    requires
        pre.wf(),
        lex_post(pre, post, tbl0, tbl1, Ok::<Option<Token>, LexError>(Some(t))),
        !({
            let s = pre.input@;
            let j = ws_end(s, pre.idx as int);
            &&& j < s.len()
            &&& numeric_char(s[j])
            &&& !(alphabetic_char(s[j]) || s[j] == '_')
            &&& word_end(s, j + 1) < s.len()
            &&& s[word_end(s, j + 1)] == '.'
        }),
    ensures
        lex_kinds(pre.input@, pre.idx as int) == seq![t.data.tok_type_spec()] + lex_kinds(
            pre.input@,
            post.idx as int,
        ),
{
    reveal_with_fuel(lex_kinds, 2);
    let s = pre.input@;
    let j = ws_end(s, pre.idx as int);
    lemma_ws_end_bounds(s, pre.idx as int);
    assert(j < s.len());
    let c = s[j];
    if alphabetic_char(c) || c == '_' {
        let e = word_end(s, j + 1);
        lemma_word_end_bounds(s, j + 1);
        let w = s.subrange(j, e);
        assert(post.idx == e);
        assert(lex_kinds(s, pre.idx as int) == seq![
            match keyword_of(w) {
                Some(kk) => TokenType::Keyword(kk),
                None => TokenType::Identifier,
            },
        ] + lex_kinds(s, e));
        match keyword_of(w) {
            Some(k) => {
                assert(t.data.tok_type_spec() == TokenType::Keyword(k));
                assert(lex_kinds(s, pre.idx as int) == seq![TokenType::Keyword(k)] + lex_kinds(
                    s,
                    e,
                ));
            },
            None => {
                let h = choose|h: ThinStr|
                    intern_post(tbl0, tbl1, h, w) && Ok::<
                        Option<Token>,
                        LexError,
                    >(Some(t)) == Ok::<Option<Token>, LexError>(
                        Some(tok(TokenData::Identifier(h), pos_of(pre), e - j)),
                    );
                assert(t.data.tok_type_spec() == TokenType::Identifier);
                assert(lex_kinds(s, pre.idx as int) == seq![TokenType::Identifier] + lex_kinds(
                    s,
                    e,
                ));
            },
        }
    } else if numeric_char(c) {
        let e1 = word_end(s, j + 1);
        lemma_word_end_bounds(s, j + 1);
        assert(!(e1 < s.len() && s[e1] == '.'));
        assert(parse_u128_seq(s.subrange(j, e1)) is Ok);
        assert(t.data.tok_type_spec() == TokenType::Integer);
        assert(post.idx == e1);
        assert(lex_kinds(s, pre.idx as int) == seq![TokenType::Integer] + lex_kinds(s, e1));
    } else {
        let sym = symbol_of(c)->Some_0;
        assert(symbol_of(c) is Some);
        assert(t.data.tok_type_spec() == TokenType::Symbol(sym));
        assert(post.idx == j + 1);
        assert(lex_kinds(s, pre.idx as int) == seq![TokenType::Symbol(sym)] + lex_kinds(s, j + 1));
    }
}

/// When the kind stream at the cursor is not empty, one lexing step cannot
/// fail: it yields a token of exactly the head kind, and leaves the cursor
/// where the stream's tail begins.
pub proof fn lemma_lex_step_head<'i>(
    pre: Lexer<'i>,
    post: Lexer<'i>,
    tbl0: Seq<Seq<char>>,
    tbl1: Seq<Seq<char>>,
    r: Result<Option<Token>, LexError>,
)
    requires
        pre.wf(),
        lex_post(pre, post, tbl0, tbl1, r),
        lex_kinds(pre.input@, pre.idx as int).len() > 0,
    ensures
        match r {
            Ok(Some(t)) => t.data.tok_type_spec() == lex_kinds(pre.input@, pre.idx as int)[0]
                && lex_kinds(pre.input@, post.idx as int) == lex_kinds(
                pre.input@,
                pre.idx as int,
            ).drop_first() && lex_ends_clean(pre.input@, post.idx as int) == lex_ends_clean(
                pre.input@,
                pre.idx as int,
            ),
            _ => false,
        },
{
    let s = pre.input@;
    let i = pre.idx as int;
    let ks = lex_kinds(s, i);
    let j = ws_end(s, i);
    lemma_ws_end_bounds(s, i);
    assert(j < s.len());
    let c = s[j];
    if alphabetic_char(c) || c == '_' {
        let e = word_end(s, j + 1);
        lemma_word_end_bounds(s, j + 1);
        let w = s.subrange(j, e);
        match keyword_of(w) {
            Some(k) => {
                assert(ks == seq![TokenType::Keyword(k)] + lex_kinds(s, e));
                assert(ks.drop_first() =~= lex_kinds(s, e));
            },
            None => {
                assert(ks == seq![TokenType::Identifier] + lex_kinds(s, e));
                assert(ks.drop_first() =~= lex_kinds(s, e));
                let h = choose|h: ThinStr|
                    intern_post(tbl0, tbl1, h, w) && r == Ok::<Option<Token>, LexError>(
                        Some(tok(TokenData::Identifier(h), pos_of(pre), e - j)),
                    );
                assert(r == Ok::<Option<Token>, LexError>(
                    Some(tok(TokenData::Identifier(h), pos_of(pre), e - j)),
                ));
            },
        }
    } else if numeric_char(c) {
        let e1 = word_end(s, j + 1);
        lemma_word_end_bounds(s, j + 1);
        if e1 < s.len() && s[e1] == '.' {
            assert(ks.len() == 0);
        } else {
            match parse_u128_seq(s.subrange(j, e1)) {
                Ok(v) => {
                    assert(ks == seq![TokenType::Integer] + lex_kinds(s, e1));
                    assert(ks.drop_first() =~= lex_kinds(s, e1));
                },
                Err(_) => {
                    assert(ks.len() == 0);
                },
            }
        }
    } else {
        match symbol_of(c) {
            Some(sym) => {
                assert(ks == seq![TokenType::Symbol(sym)] + lex_kinds(s, j + 1));
                assert(ks.drop_first() =~= lex_kinds(s, j + 1));
            },
            None => {
                assert(ks.len() == 0);
            },
        }
    }
}

/// The lookahead sits exactly at a clean end of input: nothing buffered and
/// only whitespace left.
pub open spec fn at_clean_end<'i>(p: Peekable<'i>) -> bool {
    p.buffered is None && ws_end(p.inner.input@, p.inner.idx as int) == p.inner.input@.len()
}

/// The text ahead of the lookahead buffer runs to a clean end of input.
pub open spec fn pk_ends_clean<'i>(p: Peekable<'i>) -> bool {
    lex_ends_clean(p.inner.input@, p.inner.idx as int)
}

/// The very next consuming step must fail lexically: nothing is buffered,
/// the kind stream is empty, yet neither a clean end of input nor a float
/// lexeme (whose outcome is the float parser's) sits at the cursor.
pub open spec fn pk_lex_fails<'i>(p: Peekable<'i>) -> bool {
    &&& p.buffered is None
    &&& lex_kinds(p.inner.input@, p.inner.idx as int).len() == 0
    &&& ws_end(p.inner.input@, p.inner.idx as int) != p.inner.input@.len()
    &&& !float_head(p.inner)
}

/// The kind stream still ahead of a lookahead buffer: the buffered token's
/// kind, then the kinds the rest of the text lexes to.
pub open spec fn pk_kinds<'i>(p: Peekable<'i>) -> Seq<TokenType> {
    match p.buffered {
        Some(t) => seq![t.data.tok_type_spec()] + lex_kinds(p.inner.input@, p.inner.idx as int),
        None => lex_kinds(p.inner.input@, p.inner.idx as int),
    }
}

/// The full token stream a text lexes to, from index `i`, position `p`,
/// with the interner holding `tbl`: the tokens with their spans and interned
/// handles, threading the table through each interned identifier. Like
/// [`lex_kinds`], the stream ends at end of input, at a lexical error, and
/// at a float lexeme.
pub open spec fn lex_tokens(s: Seq<char>, i: int, p: CodePoint, tbl: Seq<Seq<char>>) -> Seq<Token>
    decreases s.len() - i when 0 <= i <= s.len() via lex_tokens_dec
{
    let j = ws_end(s, i);
    let q = advance_pos(p, s, i, j);
    if !(0 <= j && j < s.len()) {
        Seq::empty()
    } else {
        let c = s[j];
        if alphabetic_char(c) || c == '_' {
            let e = word_end(s, j + 1);
            let w = s.subrange(j, e);
            let endp = col_plus(q, e - j);
            match keyword_of(w) {
                Some(k) => seq![tok(TokenData::Keyword(k), q, e - j)] + lex_tokens(
                    s,
                    e,
                    endp,
                    tbl,
                ),
                None => seq![tok(TokenData::Identifier(handle_for(tbl, w)), q, e - j)]
                    + lex_tokens(s, e, endp, tbl_after(tbl, w)),
            }
        } else if numeric_char(c) {
            let e1 = word_end(s, j + 1);
            if e1 < s.len() && s[e1] == '.' {
                Seq::empty()
            } else {
                match parse_u128_seq(s.subrange(j, e1)) {
                    Ok(v) => seq![tok(TokenData::Integer(v), q, e1 - j)] + lex_tokens(
                        s,
                        e1,
                        col_plus(q, e1 - j),
                        tbl,
                    ),
                    Err(_) => Seq::empty(),
                }
            }
        } else {
            match symbol_of(c) {
                Some(sym) => seq![tok(TokenData::Symbol(sym), q, 1)] + lex_tokens(
                    s,
                    j + 1,
                    col_plus(q, 1),
                    tbl,
                ),
                None => Seq::empty(),
            }
        }
    }
}

#[via_fn]
proof fn lex_tokens_dec(s: Seq<char>, i: int, p: CodePoint, tbl: Seq<Seq<char>>) {
    lemma_ws_end_bounds(s, i);
    let j = ws_end(s, i);
    if 0 <= j && j < s.len() {
        lemma_word_end_bounds(s, j + 1);
    }
}

/// The token stream still ahead of a lookahead buffer, with the interner
/// holding `tbl`.
pub open spec fn pk_tokens<'i>(p: Peekable<'i>, tbl: Seq<Seq<char>>) -> Seq<Token> {
    match p.buffered {
        Some(t) => seq![t] + lex_tokens(p.inner.input@, p.inner.idx as int, p.inner.start, tbl),
        None => lex_tokens(p.inner.input@, p.inner.idx as int, p.inner.start, tbl),
    }
}

/// The token stream's kinds are exactly the kind stream.
pub proof fn lemma_tokens_kinds(s: Seq<char>, i: int, p: CodePoint, tbl: Seq<Seq<char>>)
    requires
        0 <= i <= s.len(),
    ensures
        kinds_of(lex_tokens(s, i, p, tbl)) == lex_kinds(s, i),
    decreases s.len() - i,
{
    let j = ws_end(s, i);
    let q = advance_pos(p, s, i, j);
    lemma_ws_end_bounds(s, i);
    if !(0 <= j && j < s.len()) {
        assert(kinds_of(lex_tokens(s, i, p, tbl)) =~= lex_kinds(s, i));
    } else {
        let c = s[j];
        if alphabetic_char(c) || c == '_' {
            let e = word_end(s, j + 1);
            lemma_word_end_bounds(s, j + 1);
            let w = s.subrange(j, e);
            let endp = col_plus(q, e - j);
            match keyword_of(w) {
                Some(k) => {
                    lemma_tokens_kinds(s, e, endp, tbl);
                    assert(kinds_of(seq![tok(TokenData::Keyword(k), q, e - j)] + lex_tokens(
                        s,
                        e,
                        endp,
                        tbl,
                    )) =~= seq![TokenType::Keyword(k)] + kinds_of(lex_tokens(s, e, endp, tbl)));
                },
                None => {
                    lemma_tokens_kinds(s, e, endp, tbl_after(tbl, w));
                    assert(kinds_of(
                        seq![tok(TokenData::Identifier(handle_for(tbl, w)), q, e - j)]
                            + lex_tokens(s, e, endp, tbl_after(tbl, w)),
                    ) =~= seq![TokenType::Identifier] + kinds_of(
                        lex_tokens(s, e, endp, tbl_after(tbl, w)),
                    ));
                },
            }
        } else if numeric_char(c) {
            let e1 = word_end(s, j + 1);
            lemma_word_end_bounds(s, j + 1);
            if e1 < s.len() && s[e1] == '.' {
                assert(kinds_of(lex_tokens(s, i, p, tbl)) =~= lex_kinds(s, i));
            } else {
                match parse_u128_seq(s.subrange(j, e1)) {
                    Ok(v) => {
                        lemma_tokens_kinds(s, e1, col_plus(q, e1 - j), tbl);
                        assert(kinds_of(seq![tok(TokenData::Integer(v), q, e1 - j)] + lex_tokens(
                            s,
                            e1,
                            col_plus(q, e1 - j),
                            tbl,
                        )) =~= seq![TokenType::Integer] + kinds_of(
                            lex_tokens(s, e1, col_plus(q, e1 - j), tbl),
                        ));
                    },
                    Err(_) => {
                        assert(kinds_of(lex_tokens(s, i, p, tbl)) =~= lex_kinds(s, i));
                    },
                }
            }
        } else {
            match symbol_of(c) {
                Some(sym) => {
                    lemma_tokens_kinds(s, j + 1, col_plus(q, 1), tbl);
                    assert(kinds_of(seq![tok(TokenData::Symbol(sym), q, 1)] + lex_tokens(
                        s,
                        j + 1,
                        col_plus(q, 1),
                        tbl,
                    )) =~= seq![TokenType::Symbol(sym)] + kinds_of(
                        lex_tokens(s, j + 1, col_plus(q, 1), tbl),
                    ));
                },
                None => {
                    assert(kinds_of(lex_tokens(s, i, p, tbl)) =~= lex_kinds(s, i));
                },
            }
        }
    }
}

/// The token stream ahead of a lookahead buffer maps to its kind stream.
pub proof fn lemma_pk_tokens_kinds<'i>(p: Peekable<'i>, tbl: Seq<Seq<char>>)
    requires
        p.inner.idx <= p.inner.input@.len(),
    ensures
        kinds_of(pk_tokens(p, tbl)) == pk_kinds(p),
{
    lemma_tokens_kinds(p.inner.input@, p.inner.idx as int, p.inner.start, tbl);
    match p.buffered {
        Some(t) => {
            assert(kinds_of(seq![t] + lex_tokens(
                p.inner.input@,
                p.inner.idx as int,
                p.inner.start,
                tbl,
            )) =~= seq![t.data.tok_type_spec()] + kinds_of(
                lex_tokens(p.inner.input@, p.inner.idx as int, p.inner.start, tbl),
            ));
        },
        None => {},
    }
}

/// When the kind stream at the cursor is not empty, one lexing step yields
/// exactly the head of the token stream, and leaves the stream's tail (over
/// the updated table) at the cursor.
pub proof fn lemma_lex_step_token<'i>(
    pre: Lexer<'i>,
    post: Lexer<'i>,
    tbl0: Seq<Seq<char>>,
    tbl1: Seq<Seq<char>>,
    r: Result<Option<Token>, LexError>,
)
    requires
        pre.wf(),
        tbl_wf(tbl0),
        lex_post(pre, post, tbl0, tbl1, r),
        lex_kinds(pre.input@, pre.idx as int).len() > 0,
    ensures
        match r {
            Ok(Some(t)) => ({
                let ts = lex_tokens(pre.input@, pre.idx as int, pre.start, tbl0);
                ts.len() > 0 && t == ts[0] && lex_tokens(
                    pre.input@,
                    post.idx as int,
                    post.start,
                    tbl1,
                ) == ts.drop_first()
            }),
            _ => false,
        },
{
    lemma_lex_step_head(pre, post, tbl0, tbl1, r);
    let s = pre.input@;
    let i = pre.idx as int;
    let ts = lex_tokens(s, i, pre.start, tbl0);
    let j = ws_end(s, i);
    let q = advance_pos(pre.start, s, i, j);
    lemma_ws_end_bounds(s, i);
    let c = s[j];
    if alphabetic_char(c) || c == '_' {
        let e = word_end(s, j + 1);
        lemma_word_end_bounds(s, j + 1);
        let w = s.subrange(j, e);
        match keyword_of(w) {
            Some(k) => {
                assert(ts == seq![tok(TokenData::Keyword(k), q, e - j)] + lex_tokens(
                    s,
                    e,
                    col_plus(q, e - j),
                    tbl0,
                ));
                assert(ts.drop_first() =~= lex_tokens(s, e, col_plus(q, e - j), tbl0));
            },
            None => {
                let h = choose|h: ThinStr|
                    intern_post(tbl0, tbl1, h, w) && r == Ok::<Option<Token>, LexError>(
                        Some(tok(TokenData::Identifier(h), q, e - j)),
                    );
                assert(intern_post(tbl0, tbl1, h, w));
                if tbl_contains(tbl0, w) {
                    let ci = tbl_index(tbl0, w);
                    assert(0 <= ci < tbl0.len() && tbl0[ci] == w);
                    assert(tbl0[h.id as int] == w);
                    assert(ci == h.id as int);
                    assert(h == handle_for(tbl0, w));
                    assert(tbl1 == tbl_after(tbl0, w));
                } else {
                    assert(h == handle_for(tbl0, w));
                    assert(tbl1 == tbl_after(tbl0, w));
                }
                assert(ts == seq![tok(TokenData::Identifier(handle_for(tbl0, w)), q, e - j)]
                    + lex_tokens(s, e, col_plus(q, e - j), tbl_after(tbl0, w)));
                assert(ts.drop_first() =~= lex_tokens(s, e, col_plus(q, e - j), tbl_after(tbl0, w)));
            },
        }
    } else if numeric_char(c) {
        let e1 = word_end(s, j + 1);
        lemma_word_end_bounds(s, j + 1);
        if e1 < s.len() && s[e1] == '.' {
            assert(lex_kinds(s, i).len() == 0);
        } else {
            match parse_u128_seq(s.subrange(j, e1)) {
                Ok(v) => {
                    assert(ts == seq![tok(TokenData::Integer(v), q, e1 - j)] + lex_tokens(
                        s,
                        e1,
                        col_plus(q, e1 - j),
                        tbl0,
                    ));
                    assert(ts.drop_first() =~= lex_tokens(s, e1, col_plus(q, e1 - j), tbl0));
                },
                Err(_) => {
                    assert(lex_kinds(s, i).len() == 0);
                },
            }
        }
    } else {
        match symbol_of(c) {
            Some(sym) => {
                assert(ts == seq![tok(TokenData::Symbol(sym), q, 1)] + lex_tokens(
                    s,
                    j + 1,
                    col_plus(q, 1),
                    tbl0,
                ));
                assert(ts.drop_first() =~= lex_tokens(s, j + 1, col_plus(q, 1), tbl0));
            },
            None => {
                assert(lex_kinds(s, i).len() == 0);
            },
        }
    }
}

/// When the kind stream ahead is not empty, one consuming step yields
/// exactly the head of the token stream ahead and leaves its tail.
pub proof fn lemma_step_yields_token<'i>(
    pre: Peekable<'i>,
    post: Peekable<'i>,
    tbl0: Seq<Seq<char>>,
    tbl1: Seq<Seq<char>>,
    r: Result<Option<Token>, LexError>,
)
    requires
        pre.wf(),
        tbl_wf(tbl0),
        step_result(pre, post, tbl0, tbl1, r),
        pk_kinds(pre).len() > 0,
    ensures
        match r {
            Ok(Some(t)) => ({
                let ts = pk_tokens(pre, tbl0);
                ts.len() > 0 && t == ts[0] && pk_tokens(post, tbl1) == ts.drop_first()
            }),
            _ => false,
        },
{
    match pre.buffered {
        Some(t) => {
            assert(pk_tokens(pre, tbl0).drop_first() =~= lex_tokens(
                pre.inner.input@,
                pre.inner.idx as int,
                pre.inner.start,
                tbl0,
            ));
        },
        None => {
            lemma_lex_step_token(pre.inner, post.inner, tbl0, tbl1, r);
        },
    }
}

/// When the kind stream ahead is not empty, a peek yields exactly the head
/// of the token stream ahead and leaves the whole stream.
pub proof fn lemma_peek_yields_token<'i>(
    pre: Peekable<'i>,
    post: Peekable<'i>,
    tbl0: Seq<Seq<char>>,
    tbl1: Seq<Seq<char>>,
    r: Result<Option<Token>, LexError>,
)
    requires
        pre.wf(),
        tbl_wf(tbl0),
        peek_result(pre, post, tbl0, tbl1, r),
        pk_kinds(pre).len() > 0,
    ensures
        match r {
            Ok(Some(t)) => ({
                let ts = pk_tokens(pre, tbl0);
                ts.len() > 0 && t == ts[0] && pk_tokens(post, tbl1) == ts
            }),
            _ => false,
        },
{
    match pre.buffered {
        Some(_) => {},
        None => {
            lemma_lex_step_token(pre.inner, post.inner, tbl0, tbl1, r);
            lemma_lex_step_head(pre.inner, post.inner, tbl0, tbl1, r);
            match r {
                Ok(Some(t)) => {
                    assert(post.buffered == Some(t));
                    assert(pk_tokens(post, tbl1) =~= pk_tokens(pre, tbl0));
                },
                _ => {},
            }
        },
    }
}

/// When the kind stream ahead is not empty, one consuming step cannot fail:
/// it yields a token of exactly the head kind and leaves the tail ahead.
pub proof fn lemma_step_yields_head<'i>(
    pre: Peekable<'i>,
    post: Peekable<'i>,
    tbl0: Seq<Seq<char>>,
    tbl1: Seq<Seq<char>>,
    r: Result<Option<Token>, LexError>,
)
    requires
        pre.wf(),
        step_result(pre, post, tbl0, tbl1, r),
        pk_kinds(pre).len() > 0,
    ensures
        match r {
            Ok(Some(t)) => t.data.tok_type_spec() == pk_kinds(pre)[0] && pk_kinds(post)
                == pk_kinds(pre).drop_first() && pk_ends_clean(post) == pk_ends_clean(pre),
            _ => false,
        },
{
    match pre.buffered {
        Some(t) => {
            assert(pk_kinds(pre).drop_first() =~= lex_kinds(
                pre.inner.input@,
                pre.inner.idx as int,
            ));
        },
        None => {
            lemma_lex_step_head(pre.inner, post.inner, tbl0, tbl1, r);
        },
    }
}

/// When the kind stream ahead is not empty, a peek cannot fail: it yields a
/// token of exactly the head kind and leaves the whole stream ahead.
pub proof fn lemma_peek_yields_head<'i>(
    pre: Peekable<'i>,
    post: Peekable<'i>,
    tbl0: Seq<Seq<char>>,
    tbl1: Seq<Seq<char>>,
    r: Result<Option<Token>, LexError>,
)
    requires
        pre.wf(),
        peek_result(pre, post, tbl0, tbl1, r),
        pk_kinds(pre).len() > 0,
    ensures
        match r {
            Ok(Some(t)) => t.data.tok_type_spec() == pk_kinds(pre)[0] && pk_kinds(post)
                == pk_kinds(pre) && pk_ends_clean(post) == pk_ends_clean(pre),
            _ => false,
        },
{
    match pre.buffered {
        Some(_) => {},
        None => {
            lemma_lex_step_head(pre.inner, post.inner, tbl0, tbl1, r);
            match r {
                Ok(Some(t)) => {
                    assert(post.buffered == Some(t));
                    assert(pk_kinds(post) =~= pk_kinds(pre));
                },
                _ => {},
            }
        },
    }
}

/// An empty kind stream that runs to a clean end sits at end of input.
pub proof fn lemma_clean_empty(s: Seq<char>, i: int)
    requires
        0 <= i <= s.len(),
        lex_kinds(s, i).len() == 0,
        lex_ends_clean(s, i),
    ensures
        ws_end(s, i) == s.len(),
{
    lemma_ws_end_bounds(s, i);
}

/// Where the next step must fail lexically, it does: one consuming step on
/// such a state yields an error.
pub proof fn lemma_step_fails<'i>(
    pre: Peekable<'i>,
    post: Peekable<'i>,
    tbl0: Seq<Seq<char>>,
    tbl1: Seq<Seq<char>>,
    r: Result<Option<Token>, LexError>,
)
    requires
        pre.wf(),
        step_result(pre, post, tbl0, tbl1, r),
        pk_lex_fails(pre),
    ensures
        r is Err,
{
    let s = pre.inner.input@;
    let i = pre.inner.idx as int;
    let j = ws_end(s, i);
    lemma_ws_end_bounds(s, i);
    if j < s.len() {
        let c = s[j];
        if alphabetic_char(c) || c == '_' {
            assert(lex_kinds(s, i).len() > 0);
        } else if numeric_char(c) {
            let e1 = word_end(s, j + 1);
            if e1 < s.len() && s[e1] == '.' {
                assert(float_head(pre.inner));
            } else {
                match parse_u128_seq(s.subrange(j, e1)) {
                    Ok(_) => {
                        assert(lex_kinds(s, i).len() > 0);
                    },
                    Err(_) => {},
                }
            }
        } else {
            match symbol_of(c) {
                Some(_) => {
                    assert(lex_kinds(s, i).len() > 0);
                },
                None => {},
            }
        }
    }
}

/// The position of the cursor after the whitespace skip of one step.
pub open spec fn pos_of<'i>(pre: Lexer<'i>) -> CodePoint {
    advance_pos(pre.start, pre.input@, pre.idx as int, ws_end(pre.input@, pre.idx as int))
}

/// A cursor over a borrowed source slice: the characters still to be read
/// begin at character index `idx`, whose source position is `start`.
pub struct Lexer<'input> {
    pub input: &'input str,
    pub idx: usize,
    pub start: CodePoint,
}

impl<'input> Lexer<'input> {
    /// The cursor is inside the text, the position is 1-indexed, and enough
    /// row/column headroom remains that no position computation overflows.
    pub open spec fn wf(self) -> bool {
        &&& self.idx <= self.input@.len()
        &&& 1 <= self.start.row
        &&& 1 <= self.start.col
        &&& self.start.row + (self.input@.len() - self.idx as int) <= u32::MAX
        &&& self.start.col + (self.input@.len() - self.idx as int) <= u32::MAX
    }

    /// A lexer at the start of `input`, position (1, 1). The length bound is
    /// what keeps 32-bit row/column positions from overflowing.
    pub fn new(input: &'input str) -> (r: Self)
        requires
            input@.len() + 1 <= u32::MAX,
        ensures
            r.wf(),
            r.input == input,
            r.idx == 0,
            r.start == (CodePoint { row: 1, col: 1 }),
    {
        Lexer { input, idx: 0, start: CodePoint::new_unchecked(1, 1) }
    }

    /// Whether the character at `idx` exists and is whitespace.
    fn at_whitespace(&self, n: usize) -> (r: bool)
        requires
            n == self.input@.len(),
            self.idx <= n,
        ensures
            r == (self.idx < self.input@.len() && whitespace_char(
                self.input@[self.idx as int],
            )),
    {
        if self.idx < n {
            is_whitespace(self.input.get_char(self.idx))
        } else {
            false
        }
    }

    /// Skips the maximal whitespace run at the cursor, folding it into the
    /// position: this is how whitespace reaches the next token's start.
    fn skip_whitespace(&mut self)
        requires
            old(self).wf(),
        ensures
            final(self).wf(),
            final(self).input == old(self).input,
            final(self).idx == ws_end(old(self).input@, old(self).idx as int),
            final(self).start == advance_pos(
                old(self).start,
                old(self).input@,
                old(self).idx as int,
                ws_end(old(self).input@, old(self).idx as int),
            ),
    {
        let n = self.input.unicode_len();
        while self.at_whitespace(n)
            invariant
                self.wf(),
                n == self.input@.len(),
                self.input == old(self).input,
                old(self).idx <= self.idx,
                ws_end(self.input@, old(self).idx as int) == ws_end(self.input@, self.idx as int),
                self.start == advance_pos(
                    old(self).start,
                    self.input@,
                    old(self).idx as int,
                    self.idx as int,
                ),
            decreases n - self.idx,
        {
            let c = self.input.get_char(self.idx);
            let ghost pre_idx = self.idx as int;
            if c == '\n' {
                self.start = CodePoint::new_unchecked(self.start.row() + 1, 1);
            } else {
                self.start = CodePoint::new_unchecked(self.start.row(), self.start.col() + 1);
            }
            self.idx = self.idx + 1;
            proof {
                lemma_advance_pos_snoc(
                    old(self).start,
                    self.input@,
                    old(self).idx as int,
                    pre_idx,
                );
            }
        }
    }

    /// Whether the character at `k` exists and may continue a word.
    fn at_word_char(&self, k: usize, n: usize) -> (r: bool)
        requires
            n == self.input@.len(),
            k <= n,
        ensures
            r == (k < self.input@.len() && word_char(self.input@[k as int])),
    {
        if k < n {
            is_word_char(self.input.get_char(k))
        } else {
            false
        }
    }

    /// The index just past the word-character run starting at `from`.
    fn scan_word(&self, from: usize) -> (j: usize)
        requires
            from <= self.input@.len(),
        ensures
            j == word_end(self.input@, from as int),
            from <= j <= self.input@.len(),
    {
        let n = self.input.unicode_len();
        let mut k = from;
        while self.at_word_char(k, n)
            invariant
                from <= k <= n,
                n == self.input@.len(),
                word_end(self.input@, from as int) == word_end(self.input@, k as int),
            decreases n - k,
        {
            k = k + 1;
        }
        proof {
            lemma_word_end_bounds(self.input@, from as int);
        }
        k
    }

    /// One lexing step; [`lex_post`] states it in full over the cursor, the
    /// interner and the result. `fp` reads a float lexeme as the bit pattern
    /// of a 64-bit float (`None` where the text does not parse as one); the
    /// step is correct for every answer it may give.
    pub fn parse<F: Copy + Fn(&str) -> Option<u64>>(
        &mut self,
        it: &mut Interner,
        fp: F,
    ) -> (r: Result<Option<Token>, LexError>)
        requires
            old(self).wf(),
            old(it).wf(),
            forall|a: &str| #[trigger] call_requires(fp, (a,)),
        ensures
            final(self).wf(),
            final(it).wf(),
            tbl_extends(final(it)@, old(it)@),
            lex_post(*old(self), *final(self), old(it)@, final(it)@, r),
            float_tied(*old(self), *final(self), fp, r),
    {
        let ghost s = self.input@;
        let ghost i0 = self.idx as int;
        let ghost p0 = self.start;
        self.skip_whitespace();
        let ghost j = self.idx as int;
        let ghost p = self.start;
        let n = self.input.unicode_len();
        if self.idx == n {
            return Ok(None);
        }
        let c = self.input.get_char(self.idx);
        let start = self.start;
        if is_alphabetic(c) || c == '_' {
            let e = self.scan_word(self.idx + 1);
            let w = self.input.substring_char(self.idx, e);
            let len_tok = e - self.idx;
            let endp = CodePoint::new_unchecked(start.row(), start.col() + len_tok as u32);
            let span = start.span(endp);
            self.idx = e;
            self.start = endp;
            match keyword_lookup(w) {
                Some(k) => Ok(Some(Token { data: TokenData::Keyword(k), span })),
                None => {
                    let h = intern(it, w);
                    Ok(Some(Token { data: TokenData::Identifier(h), span }))
                },
            }
        } else if is_numeric(c) {
            let e1 = self.scan_word(self.idx + 1);
            let dot_follows = e1 < n && self.input.get_char(e1) == '.';
            if dot_follows {
                let e2 = self.scan_word(e1 + 1);
                let w = self.input.substring_char(self.idx, e2);
                let len_tok = e2 - self.idx;
                let endp = CodePoint::new_unchecked(start.row(), start.col() + len_tok as u32);
                let span = start.span(endp);
                let fb = fp(w);
                let result: Result<Option<Token>, LexError> = match fb {
                    Some(bits) => match Real::new(bits) {
                        Some(value) => {
                            self.idx = e2;
                            self.start = endp;
                            Ok(Some(Token { data: TokenData::Float(value), span }))
                        },
                        None => Err(
                            crate::error::Error::new(
                                Error {
                                    err: ErrorType::InvalidFloat(FloatErrorKind::NonFinite),
                                    span,
                                },
                            ),
                        ),
                    },
                    None => Err(
                        crate::error::Error::new(
                            Error { err: ErrorType::InvalidFloat(FloatErrorKind::Unparsable), span },
                        ),
                    ),
                };
                proof {
                    assert(float_result(
                        fb,
                        p,
                        j,
                        e2 as int,
                        self.idx as int,
                        self.start,
                        result,
                    ));
                    assert(call_ensures(fp, (w,), fb) && float_result(
                        fb,
                        p,
                        j,
                        e2 as int,
                        self.idx as int,
                        self.start,
                        result,
                    ));
                }
                result
            } else {
                let w_end = e1;
                let len_tok = w_end - self.idx;
                let endp = CodePoint::new_unchecked(start.row(), start.col() + len_tok as u32);
                let span = start.span(endp);
                match parse_u128_range(self.input, self.idx, w_end) {
                    Ok(v) => {
                        self.idx = w_end;
                        self.start = endp;
                        Ok(Some(Token { data: TokenData::Integer(v), span }))
                    },
                    Err(k) => Err(
                        crate::error::Error::new(
                            Error { err: ErrorType::InvalidInt(k), span },
                        ),
                    ),
                }
            }
        } else {
            let endp = CodePoint::new_unchecked(start.row(), start.col() + 1);
            let span = start.span(endp);
            match symbol_lookup(c) {
                Some(sym) => {
                    self.idx = self.idx + 1;
                    self.start = endp;
                    Ok(Some(Token { data: TokenData::Symbol(sym), span }))
                },
                None => Err(
                    crate::error::Error::new(
                        Error { err: ErrorType::UnknownCharacter(c), span },
                    ),
                ),
            }
        }
    }

    /// Wraps this lexer in a one-token lookahead buffer.
    pub fn peekable(self) -> (r: Peekable<'input>)
        ensures
            r.inner == self,
            r.buffered is None,
    {
        Peekable { inner: self, buffered: None }
    }
}

/// The reserved word spelled by `w`, if any.
fn keyword_lookup(w: &str) -> (r: Option<Keyword>)
    ensures
        r == keyword_of(w@),
{
    proof {
        reveal_strlit("let");
        reveal_strlit("mut");
        reveal_strlit("match");
        reveal_strlit("loop");
        reveal_strlit("break");
        reveal_strlit("continue");
        reveal_strlit("return");
        reveal_strlit("type");
    }
    let n = w.unicode_len();
    if n == 3 {
        let c0 = w.get_char(0);
        let c1 = w.get_char(1);
        let c2 = w.get_char(2);
        if c0 == 'l' && c1 == 'e' && c2 == 't' {
            proof {
                assert(w@ =~= "let"@);
            }
            return Some(Keyword::Let);
        }
        if c0 == 'm' && c1 == 'u' && c2 == 't' {
            proof {
                assert(w@ =~= "mut"@);
            }
            return Some(Keyword::Mut);
        }
        return None;
    }
    if n == 4 {
        let c0 = w.get_char(0);
        let c1 = w.get_char(1);
        let c2 = w.get_char(2);
        let c3 = w.get_char(3);
        if c0 == 'l' && c1 == 'o' && c2 == 'o' && c3 == 'p' {
            proof {
                assert(w@ =~= "loop"@);
            }
            return Some(Keyword::Loop);
        }
        if c0 == 't' && c1 == 'y' && c2 == 'p' && c3 == 'e' {
            proof {
                assert(w@ =~= "type"@);
            }
            return Some(Keyword::Type);
        }
        return None;
    }
    if n == 5 {
        let c0 = w.get_char(0);
        let c1 = w.get_char(1);
        let c2 = w.get_char(2);
        let c3 = w.get_char(3);
        let c4 = w.get_char(4);
        if c0 == 'm' && c1 == 'a' && c2 == 't' && c3 == 'c' && c4 == 'h' {
            proof {
                assert(w@ =~= "match"@);
            }
            return Some(Keyword::Match);
        }
        if c0 == 'b' && c1 == 'r' && c2 == 'e' && c3 == 'a' && c4 == 'k' {
            proof {
                assert(w@ =~= "break"@);
            }
            return Some(Keyword::Break);
        }
        return None;
    }
    if n == 6 {
        let c0 = w.get_char(0);
        let c1 = w.get_char(1);
        let c2 = w.get_char(2);
        let c3 = w.get_char(3);
        let c4 = w.get_char(4);
        let c5 = w.get_char(5);
        if c0 == 'r' && c1 == 'e' && c2 == 't' && c3 == 'u' && c4 == 'r' && c5 == 'n' {
            proof {
                assert(w@ =~= "return"@);
            }
            return Some(Keyword::Return);
        }
        return None;
    }
    if n == 8 {
        let c0 = w.get_char(0);
        let c1 = w.get_char(1);
        let c2 = w.get_char(2);
        let c3 = w.get_char(3);
        let c4 = w.get_char(4);
        let c5 = w.get_char(5);
        let c6 = w.get_char(6);
        let c7 = w.get_char(7);
        if c0 == 'c' && c1 == 'o' && c2 == 'n' && c3 == 't' && c4 == 'i' && c5 == 'n' && c6 == 'u'
            && c7 == 'e' {
            proof {
                assert(w@ =~= "continue"@);
            }
            return Some(Keyword::Continue);
        }
        return None;
    }
    None
}

/// The symbol spelled by `c`, if any.
fn symbol_lookup(c: char) -> (r: Option<Symbol>)
    ensures
        r == symbol_of(c),
{
    if c == '+' {
        Some(Symbol::Add)
    } else if c == '-' {
        Some(Symbol::Sub)
    } else if c == '*' {
        Some(Symbol::Mul)
    } else if c == '/' {
        Some(Symbol::Div)
    } else if c == '.' {
        Some(Symbol::Dot)
    } else if c == '=' {
        Some(Symbol::Assign)
    } else if c == ';' {
        Some(Symbol::Semicolon)
    } else {
        None
    }
}

/// Reads `input[from..to]` as a decimal 128-bit unsigned integer.
fn parse_u128_range(input: &str, from: usize, to: usize) -> (r: Result<u128, IntErrorKind>)
    requires
        from <= to <= input@.len(),
    ensures
        r == parse_u128_seq(input@.subrange(from as int, to as int)),
{
    let ghost w = input@.subrange(from as int, to as int);
    let mut acc: u128 = 0;
    let mut k = from;
    while k < to
        invariant
            from <= k <= to <= input@.len(),
            w == input@.subrange(from as int, to as int),
            parse_u128_seq(w) == parse_u128_rec(w, k - from, acc),
        decreases to - k,
    {
        let c = input.get_char(k);
        let cu = c as u32;
        if cu < 0x30 || cu > 0x39 {
            return Err(IntErrorKind::InvalidDigit);
        }
        let d = (cu - 0x30) as u128;
        let limit = u128::MAX / 10;
        proof {
            lemma_fundamental_div_mod(u128::MAX as int, 10);
        }
        if acc > limit || (acc == limit && d > u128::MAX % 10) {
            return Err(IntErrorKind::Overflow);
        }
        acc = acc * 10 + d;
        k = k + 1;
    }
    Ok(acc)
}

/// A one-token lookahead buffer over a lexer.
pub struct Peekable<'input> {
    pub inner: Lexer<'input>,
    pub buffered: Option<Token>,
}

/// How many characters are left to consume, counting a buffered token as
/// one: the measure that shrinks as tokens are consumed.
pub open spec fn remaining<'i>(p: Peekable<'i>) -> int {
    p.inner.input@.len() - p.inner.idx + if p.buffered is Some {
        1int
    } else {
        0int
    }
}

/// What one consuming step of a [`Peekable`] does: hand out the buffered
/// token, or run one fresh lexing step; either way the buffer ends empty.
pub open spec fn step_result<'i>(
    pre: Peekable<'i>,
    post: Peekable<'i>,
    tbl0: Seq<Seq<char>>,
    tbl1: Seq<Seq<char>>,
    r: Result<Option<Token>, LexError>,
) -> bool {
    &&& post.buffered is None
    &&& match pre.buffered {
        Some(t) => r == Ok::<Option<Token>, LexError>(Some(t)) && post.inner == pre.inner && tbl1
            == tbl0,
        None => lex_post(pre.inner, post.inner, tbl0, tbl1, r),
    }
}

/// What one peek of a [`Peekable`] does: the buffered token unchanged, or
/// one fresh lexing step whose token (or clean end) is cached.
pub open spec fn peek_result<'i>(
    pre: Peekable<'i>,
    post: Peekable<'i>,
    tbl0: Seq<Seq<char>>,
    tbl1: Seq<Seq<char>>,
    r: Result<Option<Token>, LexError>,
) -> bool {
    match pre.buffered {
        Some(t) => r == Ok::<Option<Token>, LexError>(Some(t)) && post == pre && tbl1 == tbl0,
        None => {
            &&& lex_post(pre.inner, post.inner, tbl0, tbl1, r)
            &&& post.buffered == match r {
                Ok(t) => t,
                Err(_) => None::<Token>,
            }
        },
    }
}

/// A lexing step only moves the cursor forward, and a step that yields a
/// token consumes at least one character.
pub proof fn lemma_lex_post_consumes<'i>(
    pre: Lexer<'i>,
    post: Lexer<'i>,
    tbl0: Seq<Seq<char>>,
    tbl1: Seq<Seq<char>>,
    r: Result<Option<Token>, LexError>,
)
    requires
        pre.wf(),
        lex_post(pre, post, tbl0, tbl1, r),
    ensures
        post.input == pre.input,
        pre.idx <= post.idx,
        r matches Ok(t) && t is Some ==> pre.idx < post.idx,
{
    let s = pre.input@;
    let j = ws_end(s, pre.idx as int);
    lemma_ws_end_bounds(s, pre.idx as int);
    if j < s.len() {
        let c = s[j];
        if alphabetic_char(c) || c == '_' {
            lemma_word_end_bounds(s, j + 1);
        } else if numeric_char(c) {
            let e1 = word_end(s, j + 1);
            lemma_word_end_bounds(s, j + 1);
            if e1 < s.len() && s[e1] == '.' {
                lemma_word_end_bounds(s, e1 + 1);
            }
        }
    }
}

impl<'input> Peekable<'input> {
    pub open spec fn wf(self) -> bool {
        self.inner.wf()
    }

    /// The next token without consuming it: lexes and caches at most one
    /// token ahead.
    pub fn peek<F: Copy + Fn(&str) -> Option<u64>>(
        &mut self,
        it: &mut Interner,
        fp: F,
    ) -> (r: Result<Option<Token>, LexError>)
        requires
            old(self).wf(),
            old(it).wf(),
            forall|a: &str| #[trigger] call_requires(fp, (a,)),
        ensures
            final(self).wf(),
            final(it).wf(),
            peek_result(*old(self), *final(self), old(it)@, final(it)@, r),
            old(self).buffered is None ==> float_tied(old(self).inner, final(self).inner, fp, r),
            tbl_extends(final(it)@, old(it)@),
            remaining(*final(self)) <= remaining(*old(self)),
            final(self).inner.input == old(self).inner.input,
    {
        match self.buffered {
            Some(t) => Ok(Some(t)),
            None => {
                let r = self.inner.parse(it, fp);
                proof {
                    lemma_lex_post_consumes(old(self).inner, self.inner, old(it)@, it@, r);
                }
                match r {
                    Ok(t) => {
                        self.buffered = t;
                        Ok(t)
                    },
                    Err(e) => Err(e),
                }
            },
        }
    }

    /// The next token, consuming it: the cached token if one is buffered,
    /// otherwise one fresh lexing step.
    pub fn parse<F: Copy + Fn(&str) -> Option<u64>>(
        &mut self,
        it: &mut Interner,
        fp: F,
    ) -> (r: Result<Option<Token>, LexError>)
        requires
            old(self).wf(),
            old(it).wf(),
            forall|a: &str| #[trigger] call_requires(fp, (a,)),
        ensures
            final(self).wf(),
            final(it).wf(),
            step_result(*old(self), *final(self), old(it)@, final(it)@, r),
            old(self).buffered is None ==> float_tied(old(self).inner, final(self).inner, fp, r),
            tbl_extends(final(it)@, old(it)@),
            remaining(*final(self)) <= remaining(*old(self)),
            r matches Ok(t) && t is Some ==> remaining(*final(self)) < remaining(*old(self)),
            final(self).inner.input == old(self).inner.input,
    {
        match self.buffered {
            Some(t) => {
                self.buffered = None;
                Ok(Some(t))
            },
            None => {
                let r = self.inner.parse(it, fp);
                proof {
                    lemma_lex_post_consumes(old(self).inner, self.inner, old(it)@, it@, r);
                }
                r
            },
        }
    }
}

} // verus!
