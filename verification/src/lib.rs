//! Front end of a small compiler: a tokenizer with source-position tracking,
//! a recursive-descent precedence-climbing parser, bump-allocation arenas
//! that own every parsed node, and a deduplicating string interner.

pub mod arena;
pub mod ast;
pub mod chars;
pub mod context;
pub mod error;
pub mod interner;
pub mod lexer;
pub mod local;
pub mod parser;
pub mod roundtrip;
pub mod span;
pub mod sync;
pub mod token;
