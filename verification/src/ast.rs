//! The abstract syntax tree and parse errors.
//!
//! Composite nodes live in arenas (see [`crate::context`]); a child is a
//! [`NodeId`] into the expression arena. Every node keeps the tokens of its
//! syntactic pieces, so exact source text positions stay recoverable.

use vstd::prelude::*;

use crate::arena::NodeId;
use crate::span::Span;
use crate::token::{LexError, Symbol, Token, TokenType};

verus! {

/// A parse error: a failed expectation, or a lexical error met while the
/// parser was requesting a token. A failed expectation carries the span of
/// the offending token, or `None` when the input ended where a token was
/// required; a lexical failure's span travels in the wrapped cause.
#[derive(Debug, Clone, PartialEq, Eq)]
pub enum Error {
    /// The lexer failed; the wrapped cause carries the lexical detail.
    LexError,
    /// A specific token kind was required and not found.
    Expected(TokenType, Option<Span>),
    /// One of several acceptable token kinds was required and not found.
    ExpectedOneOf(Vec<TokenType>, Option<Span>),
}

/// A parse error wrapped over the lexical error that may have caused it.
pub type ParseError = crate::error::Error<Error, LexError>;

/// A handle for a statement node in the statement arena.
pub type HAstPtr = NodeId;

/// A handle for an expression node in the expression arena.
pub type ExprPtr = NodeId;

/// A top-level program item.
#[derive(Debug, Clone, Copy, PartialEq, Eq, Structural)]
pub enum HAst {
    /// A `let` statement, held in the `let` arena.
    Let(NodeId),
    /// An assignment statement; reserved for the fuller grammar, which
    /// reuses the same expression machinery.
    Assign(NodeId),
}

/// An expression. Composite operands are handles into the expression arena.
#[derive(Debug, Clone, Copy, PartialEq, Eq, Structural)]
pub enum Expr {
    Literal(Literal),
    Identifier(Token),
    Prefix(Symbol, ExprPtr),
    Postfix(ExprPtr, Symbol),
    Binary(ExprPtr, Symbol, ExprPtr),
}

/// A literal expression; the token keeps the parsed payload and the span.
#[derive(Debug, Clone, Copy, PartialEq, Eq, Structural)]
pub enum Literal {
    Integer(Token),
    Float(Token),
    String(Token),
}

/// A `let` statement: `let mut? ident = value ;`. Every consumed token is
/// kept in place.
#[derive(Debug, Clone, Copy, PartialEq, Eq, Structural)]
pub struct Let {
    pub kw_let: Token,
    pub kw_mut: Option<Token>,
    pub ident: Token,
    pub sym_assign: Token,
    pub value: Expr,
    pub sym_semi: Token,
}

/// An assignment statement: `ident = value ;`. The grammar in scope does
/// not yet produce it; the node shape is reserved for the fuller grammar.
#[derive(Debug, Clone, Copy, PartialEq, Eq, Structural)]
pub struct Assign {
    pub ident: Token,
    pub sym_assign: Token,
    pub value: Expr,
    pub sym_semi: Token,
}

} // verus!
