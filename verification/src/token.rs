//! Token and lexical-error types.
//!
//! A [`Token`] pairs a [`TokenData`] payload with the [`Span`] it was read
//! from. [`TokenType`] is the payload-erased projection used for lookahead
//! and expectation matching. [`Real`] stands for a finite 64-bit float by its
//! bit pattern, so that float payloads stay exact, comparable values.

use vstd::prelude::*;

use crate::interner::ThinStr;
use crate::span::Span;

verus! {

/// A lexical error: what went wrong, and the span of the offending lexeme.
#[derive(Debug, Clone, Copy, PartialEq, Eq, Structural)]
pub struct Error {
    pub err: ErrorType,
    pub span: Span,
}

#[derive(Debug, Clone, Copy, PartialEq, Eq, Structural)]
pub enum ErrorType {
    /// A character that starts no token.
    UnknownCharacter(char),
    /// A numeric lexeme with a fractional part that is no finite float.
    InvalidFloat(FloatErrorKind),
    /// A numeric lexeme that is no 128-bit unsigned integer.
    InvalidInt(IntErrorKind),
}

#[derive(Debug, Clone, Copy, PartialEq, Eq, Structural)]
pub enum FloatErrorKind {
    /// The lexeme does not parse as a float at all.
    Unparsable,
    /// The lexeme parses, but to an infinity or a not-a-number value.
    NonFinite,
}

#[derive(Debug, Clone, Copy, PartialEq, Eq, Structural)]
pub enum IntErrorKind {
    /// A character of the lexeme is no decimal digit.
    InvalidDigit,
    /// The value does not fit in 128 bits.
    Overflow,
}

/// A finite 64-bit float, held as its bit pattern. Two values compare equal
/// exactly when their bit patterns do.
#[derive(Debug, Clone, Copy, PartialEq, Eq, Structural, Hash)]
pub struct Real {
    pub bits: u64,
}

/// Whether `bits`, read as a 64-bit float, is finite: a float is an infinity
/// or not-a-number exactly when its eleven exponent bits are all ones.
pub open spec fn finite_bits(bits: u64) -> bool {
    (bits >> 52) & 0x7ff != 0x7ff
}

impl Real {
    /// Accepts the bit pattern of a finite float, rejects infinities and
    /// not-a-number patterns.
    pub fn new(bits: u64) -> (r: Option<Self>)
        ensures
            r == if finite_bits(bits) {
                Some(Real { bits })
            } else {
                None::<Real>
            },
    {
        if (bits >> 52) & 0x7ff != 0x7ff {
            Some(Real { bits })
        } else {
            None
        }
    }

    /// The bit pattern of the float.
    pub fn get(self) -> (r: u64)
        ensures
            r == self.bits,
    {
        self.bits
    }
}

/// The half-open range of character positions a string literal covers in the
/// source text; the literal's contents are the characters of that range.
#[derive(Debug, Clone, Copy, PartialEq, Eq, Structural, Hash)]
pub struct CharRange {
    pub start: usize,
    pub end: usize,
}

/// One token: its classified payload and the source span it covers.
#[derive(Debug, Clone, Copy, PartialEq, Eq, Structural)]
pub struct Token {
    pub data: TokenData,
    pub span: Span,
}

#[derive(Debug, Clone, Copy, PartialEq, Eq, Structural)]
pub enum TokenData {
    Symbol(Symbol),
    Keyword(Keyword),
    Identifier(ThinStr),
    Integer(u128),
    Float(Real),
    StringLiteral(CharRange),
}

/// The payload-erased shape of a token: symbols and keywords keep their
/// payload (it is part of the kind), the other payloads are dropped.
#[derive(Debug, Clone, Copy, PartialEq, Eq, Structural, Hash)]
pub enum TokenType {
    Symbol(Symbol),
    Keyword(Keyword),
    Identifier,
    Integer,
    Float,
    StringLiteral,
}

impl TokenData {
    /// The payload-erased projection of this payload.
    pub open spec fn tok_type_spec(self) -> TokenType {
        match self {
            TokenData::Symbol(sym) => TokenType::Symbol(sym),
            TokenData::Keyword(kw) => TokenType::Keyword(kw),
            TokenData::Identifier(_) => TokenType::Identifier,
            TokenData::Integer(_) => TokenType::Integer,
            TokenData::Float(_) => TokenType::Float,
            TokenData::StringLiteral(_) => TokenType::StringLiteral,
        }
    }

    pub fn tok_type(self) -> (r: TokenType)
        ensures
            r == self.tok_type_spec(),
    {
        match self {
            TokenData::Symbol(sym) => TokenType::Symbol(sym),
            TokenData::Keyword(kw) => TokenType::Keyword(kw),
            TokenData::Identifier(_) => TokenType::Identifier,
            TokenData::Integer(_) => TokenType::Integer,
            TokenData::Float(_) => TokenType::Float,
            TokenData::StringLiteral(_) => TokenType::StringLiteral,
        }
    }
}

#[derive(Debug, Clone, Copy, PartialEq, Eq, Structural, Hash)]
pub enum Symbol {
    Assign,
    Dot,
    Semicolon,
    Add,
    Sub,
    Mul,
    Div,
    Rem,
    Equal,
    NotEqual,
    LessThan,
    GreaterThan,
    LessEqual,
    GreaterEqual,
}

#[derive(Debug, Clone, Copy, PartialEq, Eq, Structural, Hash)]
pub enum Keyword {
    Let,
    Mut,
    Match,
    Loop,
    Break,
    Continue,
    Return,
    Type,
}

/// The kinds of a token sequence, in order.
pub open spec fn kinds_of(ts: Seq<Token>) -> Seq<TokenType> {
    ts.map_values(|t: Token| t.data.tok_type_spec())
}

/// A lexical error wrapped as the innermost layer of an error chain.
pub type LexError = crate::error::Error<Error>;

} // verus!
