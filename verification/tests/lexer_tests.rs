use lexparse::interner::Interner;
use lexparse::lexer::Lexer;
use lexparse::span::CodePoint;
use lexparse::token::{
    ErrorType, FloatErrorKind, IntErrorKind, Keyword, Real, Symbol, TokenData, TokenType,
};

fn float_bits(s: &str) -> Option<u64> {
    match s.parse::<f64>() {
        Ok(v) => Some(v.to_bits()),
        Err(_) => None,
    }
}

#[test]
fn keyword_let_boundary() {
    let mut it = Interner::new();
    let mut lx = Lexer::new("let");
    let tok = lx.parse(&mut it, float_bits).unwrap().unwrap();
    assert_eq!(tok.data, TokenData::Keyword(Keyword::Let));
    assert_eq!(tok.span.start, CodePoint { row: 1, col: 1 });
    assert_eq!(tok.span.end, CodePoint { row: 1, col: 4 });
    assert_eq!(lx.parse(&mut it, float_bits).unwrap(), None);
}

#[test]
fn identifier_lets_boundary() {
    let mut it = Interner::new();
    let mut lx = Lexer::new("lets");
    let tok = lx.parse(&mut it, float_bits).unwrap().unwrap();
    match tok.data {
        TokenData::Identifier(h) => assert_eq!(h.to_str(&it), "lets"),
        other => panic!("expected an identifier, got {:?}", other),
    }
}

#[test]
fn keyword_mut_recognised() {
    let mut it = Interner::new();
    let mut lx = Lexer::new("mut");
    let tok = lx.parse(&mut it, float_bits).unwrap().unwrap();
    assert_eq!(tok.data, TokenData::Keyword(Keyword::Mut));
}

#[test]
fn all_keywords_recognised() {
    let mut it = Interner::new();
    let input = "let mut match loop break continue return type";
    let mut lx = Lexer::new(input);
    let expected = [
        Keyword::Let,
        Keyword::Mut,
        Keyword::Match,
        Keyword::Loop,
        Keyword::Break,
        Keyword::Continue,
        Keyword::Return,
        Keyword::Type,
    ];
    for kw in expected {
        let tok = lx.parse(&mut it, float_bits).unwrap().unwrap();
        assert_eq!(tok.data, TokenData::Keyword(kw));
    }
    assert_eq!(lx.parse(&mut it, float_bits).unwrap(), None);
}

#[test]
fn integer_classification() {
    let mut it = Interner::new();
    let mut lx = Lexer::new("123");
    let tok = lx.parse(&mut it, float_bits).unwrap().unwrap();
    assert_eq!(tok.data, TokenData::Integer(123));
    assert_eq!(tok.span.end, CodePoint { row: 1, col: 4 });
}

#[test]
fn float_classification() {
    let mut it = Interner::new();
    let mut lx = Lexer::new("123.45");
    let tok = lx.parse(&mut it, float_bits).unwrap().unwrap();
    assert_eq!(
        tok.data,
        TokenData::Float(Real {
            bits: 123.45f64.to_bits()
        })
    );
    assert_eq!(tok.span.start, CodePoint { row: 1, col: 1 });
    assert_eq!(tok.span.end, CodePoint { row: 1, col: 7 });
}

#[test]
fn integer_overflow_rejected() {
    let nines = "99999999999999999999999999999999999999999999";
    let mut it = Interner::new();
    let mut lx = Lexer::new(nines);
    let err = lx.parse(&mut it, float_bits).unwrap_err();
    assert_eq!(
        err.err().err,
        ErrorType::InvalidInt(IntErrorKind::Overflow)
    );
    // the error span covers the full lexeme
    assert_eq!(err.err().span.start, CodePoint { row: 1, col: 1 });
    assert_eq!(
        err.err().span.end,
        CodePoint {
            row: 1,
            col: 1 + nines.len() as u32
        }
    );
    assert!(err.cause().is_none());
}

#[test]
fn integer_invalid_digit_rejected() {
    let mut it = Interner::new();
    let mut lx = Lexer::new("12a4");
    let err = lx.parse(&mut it, float_bits).unwrap_err();
    assert_eq!(
        err.err().err,
        ErrorType::InvalidInt(IntErrorKind::InvalidDigit)
    );
}

#[test]
fn float_non_finite_rejected() {
    let mut it = Interner::new();
    let mut lx = Lexer::new("1.0e999999");
    let err = lx.parse(&mut it, float_bits).unwrap_err();
    assert_eq!(
        err.err().err,
        ErrorType::InvalidFloat(FloatErrorKind::NonFinite)
    );
}

#[test]
fn float_unparsable_rejected() {
    let mut it = Interner::new();
    let mut lx = Lexer::new("1._");
    let err = lx.parse(&mut it, float_bits).unwrap_err();
    assert_eq!(
        err.err().err,
        ErrorType::InvalidFloat(FloatErrorKind::Unparsable)
    );
}

#[test]
fn unknown_character_rejected() {
    let mut it = Interner::new();
    let mut lx = Lexer::new("#");
    let err = lx.parse(&mut it, float_bits).unwrap_err();
    assert_eq!(err.err().err, ErrorType::UnknownCharacter('#'));
    assert_eq!(err.err().span.start, CodePoint { row: 1, col: 1 });
    assert_eq!(err.err().span.end, CodePoint { row: 1, col: 2 });
    // a lexical error consumes nothing: the next call reports it again
    let again = lx.parse(&mut it, float_bits).unwrap_err();
    assert_eq!(again.err().err, ErrorType::UnknownCharacter('#'));
}

#[test]
fn newline_advances_row() {
    let mut it = Interner::new();
    let mut lx = Lexer::new("a\n  b");
    let a = lx.parse(&mut it, float_bits).unwrap().unwrap();
    assert_eq!(a.span.start, CodePoint { row: 1, col: 1 });
    let b = lx.parse(&mut it, float_bits).unwrap().unwrap();
    assert_eq!(b.span.start, CodePoint { row: 2, col: 3 });
    assert_eq!(b.span.end, CodePoint { row: 2, col: 4 });
}

#[test]
fn relex_reproduces_kinds() {
    let input = "foo 123 + let ;";
    let expected = [
        TokenType::Identifier,
        TokenType::Integer,
        TokenType::Symbol(Symbol::Add),
        TokenType::Keyword(Keyword::Let),
        TokenType::Symbol(Symbol::Semicolon),
    ];
    let mut it = Interner::new();
    let mut first = Vec::new();
    let mut lx = Lexer::new(input);
    while let Some(tok) = lx.parse(&mut it, float_bits).unwrap() {
        first.push(tok);
    }
    let mut second = Vec::new();
    let mut lx = Lexer::new(input);
    while let Some(tok) = lx.parse(&mut it, float_bits).unwrap() {
        second.push(tok);
    }
    assert_eq!(first.len(), expected.len());
    for (tok, want) in first.iter().zip(expected.iter()) {
        assert_eq!(tok.data.tok_type(), *want);
    }
    // re-lexing reproduces the tokens exactly, interned payloads included
    assert_eq!(first, second);
}

#[test]
fn symbols_all_lex() {
    let mut it = Interner::new();
    let mut lx = Lexer::new("+ - * / . = ;");
    let expected = [
        Symbol::Add,
        Symbol::Sub,
        Symbol::Mul,
        Symbol::Div,
        Symbol::Dot,
        Symbol::Assign,
        Symbol::Semicolon,
    ];
    for sym in expected {
        let tok = lx.parse(&mut it, float_bits).unwrap().unwrap();
        assert_eq!(tok.data, TokenData::Symbol(sym));
    }
    assert_eq!(lx.parse(&mut it, float_bits).unwrap(), None);
}

#[test]
fn unicode_identifier_lexes() {
    let mut it = Interner::new();
    let mut lx = Lexer::new("épée");
    let tok = lx.parse(&mut it, float_bits).unwrap().unwrap();
    match tok.data {
        TokenData::Identifier(h) => assert_eq!(h.to_str(&it), "épée"),
        other => panic!("expected an identifier, got {:?}", other),
    }
    // the span counts characters, not bytes
    assert_eq!(tok.span.end, CodePoint { row: 1, col: 5 });
}

#[test]
fn unicode_digit_is_not_decimal() {
    // U+0663 is numeric, so it starts a numeric lexeme, but it is no
    // decimal digit of a 128-bit integer
    let mut it = Interner::new();
    let mut lx = Lexer::new("٣");
    let err = lx.parse(&mut it, float_bits).unwrap_err();
    assert_eq!(
        err.err().err,
        ErrorType::InvalidInt(IntErrorKind::InvalidDigit)
    );
}

#[test]
fn same_identifier_same_handle() {
    let mut it = Interner::new();
    let mut lx = Lexer::new("foo bar foo");
    let a = lx.parse(&mut it, float_bits).unwrap().unwrap();
    let b = lx.parse(&mut it, float_bits).unwrap().unwrap();
    let c = lx.parse(&mut it, float_bits).unwrap().unwrap();
    match (a.data, b.data, c.data) {
        (
            TokenData::Identifier(ha),
            TokenData::Identifier(hb),
            TokenData::Identifier(hc),
        ) => {
            assert_eq!(ha, hc);
            assert_ne!(ha, hb);
        }
        other => panic!("expected identifiers, got {:?}", other),
    }
}

#[test]
fn peek_does_not_consume() {
    let mut it = Interner::new();
    let mut pk = Lexer::new("let x").peekable();
    let p1 = pk.peek(&mut it, float_bits).unwrap().unwrap();
    let p2 = pk.peek(&mut it, float_bits).unwrap().unwrap();
    assert_eq!(p1, p2);
    let c1 = pk.parse(&mut it, float_bits).unwrap().unwrap();
    assert_eq!(c1, p1);
    let c2 = pk.parse(&mut it, float_bits).unwrap().unwrap();
    assert_eq!(c2.data.tok_type(), TokenType::Identifier);
    assert_eq!(pk.parse(&mut it, float_bits).unwrap(), None);
}

#[test]
fn real_accepts_only_finite_bits() {
    assert_eq!(
        Real::new(2.5f64.to_bits()),
        Some(Real {
            bits: 2.5f64.to_bits()
        })
    );
    assert_eq!(Real::new(f64::NAN.to_bits()), None);
    assert_eq!(Real::new(f64::INFINITY.to_bits()), None);
    assert_eq!(Real::new(f64::NEG_INFINITY.to_bits()), None);
    let r = Real::new(0.5f64.to_bits()).unwrap();
    assert_eq!(r.get(), 0.5f64.to_bits());
}

#[test]
fn tok_type_erases_payload() {
    let mut it = Interner::new();
    let mut lx = Lexer::new("x 1 2.5 = let");
    let kinds: [TokenType; 5] = [
        TokenType::Identifier,
        TokenType::Integer,
        TokenType::Float,
        TokenType::Symbol(Symbol::Assign),
        TokenType::Keyword(Keyword::Let),
    ];
    for want in kinds {
        let tok = lx.parse(&mut it, float_bits).unwrap().unwrap();
        assert_eq!(tok.data.tok_type(), want);
    }
}

#[test]
fn mixed_whitespace_positions() {
    let mut it = Interner::new();
    let mut lx = Lexer::new("a\tb\r\nc");
    let a = lx.parse(&mut it, float_bits).unwrap().unwrap();
    assert_eq!(a.span.start, CodePoint { row: 1, col: 1 });
    // a tab advances the column by one, like any non-newline whitespace
    let b = lx.parse(&mut it, float_bits).unwrap().unwrap();
    assert_eq!(b.span.start, CodePoint { row: 1, col: 3 });
    // a carriage return advances the column, the newline resets it
    let c = lx.parse(&mut it, float_bits).unwrap().unwrap();
    assert_eq!(c.span.start, CodePoint { row: 2, col: 1 });
    assert_eq!(lx.parse(&mut it, float_bits).unwrap(), None);
}
