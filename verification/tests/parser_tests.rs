use lexparse::ast::{Error, Expr, HAst, Literal};
use lexparse::span::{CodePoint, Span};
use lexparse::error::Error as Layered;
use lexparse::context::{Context, LocalContext, SyncContext};
use lexparse::interner::Interner;
use lexparse::lexer::Lexer;
use lexparse::local::LocalArena;
use lexparse::parser::Parser;
use lexparse::token::{ErrorType, Real, Symbol, TokenData, TokenType};

fn float_bits(s: &str) -> Option<u64> {
    match s.parse::<f64>() {
        Ok(v) => Some(v.to_bits()),
        Err(_) => None,
    }
}

#[test]
fn end_to_end_let_mut_precedence() {
    let mut ctx: LocalContext = Context::new();
    let mut it = Interner::new();
    let mut parser = Parser::new(Lexer::new("let mut x = 1 + 2 * 3;"));
    let root = parser.parse(&mut ctx, &mut it, float_bits).unwrap().unwrap();
    let HAst::Let(lid) = root else {
        panic!("expected a let statement")
    };
    let node = ctx.let_node.get(lid);
    assert!(node.kw_mut.is_some());
    match node.ident.data {
        TokenData::Identifier(h) => assert_eq!(h.to_str(&it), "x"),
        other => panic!("expected an identifier, got {:?}", other),
    }
    assert_eq!(node.sym_assign.data, TokenData::Symbol(Symbol::Assign));
    assert_eq!(node.sym_semi.data, TokenData::Symbol(Symbol::Semicolon));
    // `*` binds tighter than `+`: Binary(1, Add, Binary(2, Mul, 3))
    let Expr::Binary(left, Symbol::Add, right) = node.value else {
        panic!("expected an addition at the top, got {:?}", node.value)
    };
    match ctx.expr.get(left) {
        Expr::Literal(Literal::Integer(t)) => assert_eq!(t.data, TokenData::Integer(1)),
        other => panic!("expected the literal 1, got {:?}", other),
    }
    let Expr::Binary(l2, Symbol::Mul, r2) = *ctx.expr.get(right) else {
        panic!("expected a multiplication on the right")
    };
    match ctx.expr.get(l2) {
        Expr::Literal(Literal::Integer(t)) => assert_eq!(t.data, TokenData::Integer(2)),
        other => panic!("expected the literal 2, got {:?}", other),
    }
    match ctx.expr.get(r2) {
        Expr::Literal(Literal::Integer(t)) => assert_eq!(t.data, TokenData::Integer(3)),
        other => panic!("expected the literal 3, got {:?}", other),
    }
}

#[test]
fn missing_assign_fails_with_expected() {
    let mut ctx: LocalContext = Context::new();
    let mut it = Interner::new();
    let mut parser = Parser::new(Lexer::new("let x 1;"));
    let err = parser.parse(&mut ctx, &mut it, float_bits).unwrap_err();
    // the failure is anchored at the span of the offending token `1`
    assert_eq!(
        *err.err(),
        Error::Expected(
            TokenType::Symbol(Symbol::Assign),
            Some(Span {
                start: CodePoint { row: 1, col: 7 },
                end: CodePoint { row: 1, col: 8 }
            })
        )
    );
    assert!(err.cause().is_none());
}

#[test]
fn parse_without_mut() {
    let mut ctx: LocalContext = Context::new();
    let mut it = Interner::new();
    let mut parser = Parser::new(Lexer::new("let y = 8 / 2 - 1;"));
    let root = parser.parse(&mut ctx, &mut it, float_bits).unwrap().unwrap();
    let HAst::Let(lid) = root else {
        panic!("expected a let statement")
    };
    let node = ctx.let_node.get(lid);
    assert!(node.kw_mut.is_none());
    // left associative: Binary(Binary(8, Div, 2), Sub, 1)
    let Expr::Binary(left, Symbol::Sub, right) = node.value else {
        panic!("expected a subtraction at the top, got {:?}", node.value)
    };
    let Expr::Binary(l2, Symbol::Div, r2) = *ctx.expr.get(left) else {
        panic!("expected a division on the left")
    };
    match ctx.expr.get(l2) {
        Expr::Literal(Literal::Integer(t)) => assert_eq!(t.data, TokenData::Integer(8)),
        other => panic!("expected the literal 8, got {:?}", other),
    }
    match ctx.expr.get(r2) {
        Expr::Literal(Literal::Integer(t)) => assert_eq!(t.data, TokenData::Integer(2)),
        other => panic!("expected the literal 2, got {:?}", other),
    }
    match ctx.expr.get(right) {
        Expr::Literal(Literal::Integer(t)) => assert_eq!(t.data, TokenData::Integer(1)),
        other => panic!("expected the literal 1, got {:?}", other),
    }
}

#[test]
fn parse_float_literal_value() {
    let mut ctx: LocalContext = Context::new();
    let mut it = Interner::new();
    let mut parser = Parser::new(Lexer::new("let f = 1.5;"));
    let root = parser.parse(&mut ctx, &mut it, float_bits).unwrap().unwrap();
    let HAst::Let(lid) = root else {
        panic!("expected a let statement")
    };
    match ctx.let_node.get(lid).value {
        Expr::Literal(Literal::Float(t)) => assert_eq!(
            t.data,
            TokenData::Float(Real {
                bits: 1.5f64.to_bits()
            })
        ),
        other => panic!("expected a float literal, got {:?}", other),
    }
}

#[test]
fn empty_input_parses_to_none() {
    let mut ctx: LocalContext = Context::new();
    let mut it = Interner::new();
    let mut parser = Parser::new(Lexer::new(""));
    assert!(parser.parse(&mut ctx, &mut it, float_bits).unwrap().is_none());
}

#[test]
fn non_let_leading_token_rejected() {
    let mut ctx: LocalContext = Context::new();
    let mut it = Interner::new();
    let mut parser = Parser::new(Lexer::new("42"));
    let err = parser.parse(&mut ctx, &mut it, float_bits).unwrap_err();
    assert_eq!(
        *err.err(),
        Error::Expected(
            TokenType::Keyword(lexparse::token::Keyword::Let),
            Some(Span {
                start: CodePoint { row: 1, col: 1 },
                end: CodePoint { row: 1, col: 3 }
            })
        )
    );
    assert!(err.cause().is_none());
}

#[test]
fn lexical_error_is_wrapped_with_cause() {
    let mut ctx: LocalContext = Context::new();
    let mut it = Interner::new();
    let mut parser = Parser::new(Lexer::new("let x = $;"));
    let err = parser.parse(&mut ctx, &mut it, float_bits).unwrap_err();
    assert_eq!(*err.err(), Error::LexError);
    let cause = err.cause().expect("the lexical cause is kept");
    assert_eq!(cause.err().err, ErrorType::UnknownCharacter('$'));
}

#[test]
fn missing_value_fails_with_expected_one_of() {
    let mut ctx: LocalContext = Context::new();
    let mut it = Interner::new();
    let mut parser = Parser::new(Lexer::new("let x = ;"));
    let err = parser.parse(&mut ctx, &mut it, float_bits).unwrap_err();
    match err.err() {
        Error::ExpectedOneOf(kinds, sp) => {
            assert_eq!(
                kinds.as_slice(),
                &[
                    TokenType::Identifier,
                    TokenType::Integer,
                    TokenType::Float
                ]
            );
            // anchored at the offending `;`
            assert_eq!(
                *sp,
                Some(Span {
                    start: CodePoint { row: 1, col: 9 },
                    end: CodePoint { row: 1, col: 10 }
                })
            );
        }
        other => panic!("expected an expected-one-of error, got {:?}", other),
    }
}

#[test]
fn missing_ident_fails_with_expected_one_of() {
    let mut ctx: LocalContext = Context::new();
    let mut it = Interner::new();
    let mut parser = Parser::new(Lexer::new("let = 1;"));
    let err = parser.parse(&mut ctx, &mut it, float_bits).unwrap_err();
    match err.err() {
        Error::ExpectedOneOf(kinds, sp) => {
            assert_eq!(
                kinds.as_slice(),
                &[
                    TokenType::Keyword(lexparse::token::Keyword::Mut),
                    TokenType::Identifier
                ]
            );
            // anchored at the offending `=`
            assert_eq!(
                *sp,
                Some(Span {
                    start: CodePoint { row: 1, col: 5 },
                    end: CodePoint { row: 1, col: 6 }
                })
            );
        }
        other => panic!("expected an expected-one-of error, got {:?}", other),
    }
}

#[test]
fn same_parser_runs_over_sync_arenas() {
    let mut ctx: SyncContext = Context::new();
    let mut it = Interner::new();
    let mut parser = Parser::new(Lexer::new("let mut z = 4 * 5;"));
    let root = parser.parse(&mut ctx, &mut it, float_bits).unwrap().unwrap();
    let HAst::Let(lid) = root else {
        panic!("expected a let statement")
    };
    let node = ctx.let_node.get(lid);
    assert!(node.kw_mut.is_some());
    let Expr::Binary(l, Symbol::Mul, r) = node.value else {
        panic!("expected a multiplication, got {:?}", node.value)
    };
    match (ctx.expr.get(l), ctx.expr.get(r)) {
        (
            Expr::Literal(Literal::Integer(a)),
            Expr::Literal(Literal::Integer(b)),
        ) => {
            assert_eq!(a.data, TokenData::Integer(4));
            assert_eq!(b.data, TokenData::Integer(5));
        }
        other => panic!("expected two integer literals, got {:?}", other),
    }
}

#[test]
fn two_statements_parse_in_sequence() {
    let mut ctx: Context<LocalArena<HAst>, LocalArena<lexparse::ast::Let>, LocalArena<Expr>> =
        Context::new();
    let mut it = Interner::new();
    let mut parser = Parser::new(Lexer::new("let a = 1;\nlet b = a + 2;"));
    let first = parser.parse(&mut ctx, &mut it, float_bits).unwrap().unwrap();
    let second = parser.parse(&mut ctx, &mut it, float_bits).unwrap().unwrap();
    let (HAst::Let(l1), HAst::Let(l2)) = (first, second) else {
        panic!("expected two let statements")
    };
    // the first node is untouched by the second parse
    match ctx.let_node.get(l1).value {
        Expr::Literal(Literal::Integer(t)) => assert_eq!(t.data, TokenData::Integer(1)),
        other => panic!("expected the literal 1, got {:?}", other),
    }
    let Expr::Binary(l, Symbol::Add, _) = ctx.let_node.get(l2).value else {
        panic!("expected an addition")
    };
    match ctx.expr.get(l) {
        Expr::Identifier(t) => match t.data {
            TokenData::Identifier(h) => assert_eq!(h.to_str(&it), "a"),
            other => panic!("expected an identifier, got {:?}", other),
        },
        other => panic!("expected an identifier operand, got {:?}", other),
    }
    assert!(parser.parse(&mut ctx, &mut it, float_bits).unwrap().is_none());
}

#[test]
fn error_context_layers_compose() {
    let inner: Layered<&str> = Layered::initial("inner");
    let outer = inner.clone().with_context("outer");
    assert_eq!(*outer.err(), "outer");
    assert_eq!(outer.cause(), Some(&inner));
    assert_eq!(*outer.cause().unwrap().err(), "inner");
    assert!(outer.cause().unwrap().cause().is_none());
}
