//! The statement and expression parser.
//!
//! A recursive-descent, precedence-climbing parser over a [`Peekable`]
//! lexer. Composite nodes go into the arenas of a [`Context`]; a parse
//! returns a root [`HAst`] value, `Ok(None)` exactly at clean end of input,
//! or the first error met, with its full causal chain — there is no
//! recovery.
//!
//! Contracts: `expect`, `expect_any` and `parse_primary` are stated in full
//! against one lexing step ([`step_result`]). The climbing levels and the
//! statement parser guarantee the shape of what they store — every arena
//! handle they hand out is valid, every stored node is well shaped and
//! closed ([`ctx_wf`]), and nothing already stored is ever touched
//! ([`ctx_extends`]).

use vstd::prelude::*;

use crate::arena::{extends, Arena, NodeId};
use crate::ast::{Error, Expr, HAst, Let, Literal, ParseError};
use crate::context::Context;
use crate::interner::{tbl_extends, Interner};
use crate::span::Span;
use crate::lexer::{
    at_clean_end, lemma_clean_empty, lemma_peek_yields_head, lemma_peek_yields_token,
    lemma_pk_tokens_kinds, lemma_step_fails, lemma_step_yields_head, lemma_step_yields_token,
    pk_ends_clean, pk_kinds, pk_lex_fails, pk_tokens, remaining, step_result, Lexer, Peekable,
};
use crate::token::{kinds_of, Keyword, LexError, Symbol, Token, TokenData, TokenType};

verus! {

/// A parse error without an underlying lexical cause.
pub open spec fn plain_err(e: Error) -> ParseError {
    crate::error::Error { err: e, cause: None::<LexError> }
}

/// A lexical error wrapped as a parse error.
pub open spec fn wrap_lex(le: LexError) -> ParseError {
    crate::error::Error { err: Error::LexError, cause: Some(le) }
}

/// `r` is an `ExpectedOneOf` error listing exactly `exp`, anchored at `sp`,
/// with no cause.
pub open spec fn is_one_of_err<T>(
    r: Result<T, ParseError>,
    exp: Seq<TokenType>,
    sp: Option<Span>,
) -> bool {
    &&& r matches Err(e)
    &&& e.cause is None
    &&& e.err matches Error::ExpectedOneOf(v, s) && v@ == exp && s == sp
}

/// The immediate children of an expression are valid handles.
pub open spec fn expr_children_valid<C: Arena<Value = Expr>>(a: C, e: Expr) -> bool {
    match e {
        Expr::Binary(l, _, r) => a.valid(l) && a.valid(r),
        Expr::Prefix(_, p) => a.valid(p),
        Expr::Postfix(p, _) => a.valid(p),
        Expr::Literal(_) => true,
        Expr::Identifier(_) => true,
    }
}

/// Every stored expression's children are themselves stored: a handle read
/// out of the arena can be followed without ever leaving it.
pub open spec fn exprs_closed<C: Arena<Value = Expr>>(a: C) -> bool {
    forall|i: NodeId| #[trigger] a.valid(i) ==> expr_children_valid(a, a.at(i))
}

/// The shape of a stored `let` node: each kept token is of the kind its
/// field names, and the value's children are stored expressions.
pub open spec fn let_node_wf<C: Arena<Value = Expr>>(a: C, l: Let) -> bool {
    &&& l.kw_let.data == TokenData::Keyword(Keyword::Let)
    &&& match l.kw_mut {
        Some(t) => t.data == TokenData::Keyword(Keyword::Mut),
        None => true,
    }
    &&& l.ident.data is Identifier
    &&& l.sym_assign.data == TokenData::Symbol(Symbol::Assign)
    &&& l.sym_semi.data == TokenData::Symbol(Symbol::Semicolon)
    &&& expr_children_valid(a, l.value)
}

/// Every stored `let` node is well shaped.
pub open spec fn lets_closed<B: Arena<Value = Let>, C: Arena<Value = Expr>>(b: B, c: C) -> bool {
    forall|i: NodeId| #[trigger] b.valid(i) ==> let_node_wf(c, b.at(i))
}

/// Every stored statement points at a stored `let` node (the grammar in
/// scope stores no assignments).
pub open spec fn hasts_closed<A: Arena<Value = HAst>, B: Arena<Value = Let>>(a: A, b: B) -> bool {
    forall|i: NodeId| #[trigger] a.valid(i) ==> match a.at(i) {
        HAst::Let(l) => b.valid(l),
        HAst::Assign(_) => false,
    }
}

/// The parser's invariant over a context: the arena invariants hold and
/// everything stored is closed and well shaped.
pub open spec fn ctx_wf<A: Arena<Value = HAst>, B: Arena<Value = Let>, C: Arena<Value = Expr>>(
    ctx: Context<A, B, C>,
) -> bool {
    &&& ctx.high_ast.wf()
    &&& ctx.let_node.wf()
    &&& ctx.expr.wf()
    &&& exprs_closed(ctx.expr)
    &&& lets_closed(ctx.let_node, ctx.expr)
    &&& hasts_closed(ctx.high_ast, ctx.let_node)
}

/// Parsing only ever adds nodes: every handle valid before is valid after,
/// with its value unchanged.
pub open spec fn ctx_extends<A: Arena<Value = HAst>, B: Arena<Value = Let>, C: Arena<
    Value = Expr,
>>(post: Context<A, B, C>, pre: Context<A, B, C>) -> bool {
    &&& extends(post.high_ast, pre.high_ast)
    &&& extends(post.let_node, pre.let_node)
    &&& extends(post.expr, pre.expr)
}

/// What [`Parser::expect`] does: one consuming lexer step `lr`, and the
/// result judged against the wanted kind — the token when it is of that
/// kind, an `Expected` error otherwise (end of input included), the wrapped
/// lexical error when lexing itself failed.
pub open spec fn expect_case<'i>(
    pre: Peekable<'i>,
    post: Peekable<'i>,
    tbl0: Seq<Seq<char>>,
    tbl1: Seq<Seq<char>>,
    lr: Result<Option<Token>, LexError>,
    tok_type: TokenType,
    r: Result<Token, ParseError>,
) -> bool {
    &&& step_result(pre, post, tbl0, tbl1, lr)
    &&& match lr {
        Ok(Some(t)) => if t.data.tok_type_spec() == tok_type {
            r == Ok::<Token, ParseError>(t)
        } else {
            r == Err::<Token, ParseError>(
                plain_err(Error::Expected(tok_type, Some(t.span))),
            )
        },
        Ok(None) => r == Err::<Token, ParseError>(plain_err(Error::Expected(tok_type, None))),
        Err(le) => r == Err::<Token, ParseError>(wrap_lex(le)),
    }
}

/// What [`Parser::expect_any`] does, judged against a list of acceptable
/// kinds.
pub open spec fn expect_any_case<'i>(
    pre: Peekable<'i>,
    post: Peekable<'i>,
    tbl0: Seq<Seq<char>>,
    tbl1: Seq<Seq<char>>,
    lr: Result<Option<Token>, LexError>,
    exp: Seq<TokenType>,
    r: Result<Token, ParseError>,
) -> bool {
    &&& step_result(pre, post, tbl0, tbl1, lr)
    &&& match lr {
        Ok(Some(t)) => if exp.contains(t.data.tok_type_spec()) {
            r == Ok::<Token, ParseError>(t)
        } else {
            is_one_of_err(r, exp, Some(t.span))
        },
        Ok(None) => is_one_of_err(r, exp, None),
        Err(le) => r == Err::<Token, ParseError>(wrap_lex(le)),
    }
}

/// The kinds a primary expression may start with.
pub open spec fn primary_expected() -> Seq<TokenType> {
    seq![TokenType::Identifier, TokenType::Integer, TokenType::Float]
}

/// What [`Parser::parse_primary`] does: one consuming lexer step `lr`, the
/// token turned into the leaf expression of its kind, or the grammar error.
pub open spec fn primary_case<'i>(
    pre: Peekable<'i>,
    post: Peekable<'i>,
    tbl0: Seq<Seq<char>>,
    tbl1: Seq<Seq<char>>,
    lr: Result<Option<Token>, LexError>,
    r: Result<Expr, ParseError>,
) -> bool {
    &&& step_result(pre, post, tbl0, tbl1, lr)
    &&& match lr {
        Ok(Some(t)) => match t.data {
            TokenData::Identifier(_) => r == Ok::<Expr, ParseError>(Expr::Identifier(t)),
            TokenData::Integer(_) => r == Ok::<Expr, ParseError>(
                Expr::Literal(Literal::Integer(t)),
            ),
            TokenData::Float(_) => r == Ok::<Expr, ParseError>(Expr::Literal(Literal::Float(t))),
            TokenData::StringLiteral(_) => r == Ok::<Expr, ParseError>(
                Expr::Literal(Literal::String(t)),
            ),
            TokenData::Symbol(_) => is_one_of_err(r, primary_expected(), Some(t.span)),
            TokenData::Keyword(_) => is_one_of_err(r, primary_expected(), Some(t.span)),
        },
        Ok(None) => is_one_of_err(r, primary_expected(), None),
        Err(le) => r == Err::<Expr, ParseError>(wrap_lex(le)),
    }
}

/// A kind that starts a primary expression.
pub open spec fn is_primary_kind(t: TokenType) -> bool {
    ||| t == TokenType::Identifier
    ||| t == TokenType::Integer
    ||| t == TokenType::Float
    ||| t == TokenType::StringLiteral
}

/// A multiplication-tier operator kind.
pub open spec fn is_mul_kind(t: TokenType) -> bool {
    t == TokenType::Symbol(Symbol::Mul) || t == TokenType::Symbol(Symbol::Div)
}

/// An addition-tier operator kind.
pub open spec fn is_add_kind(t: TokenType) -> bool {
    t == TokenType::Symbol(Symbol::Add) || t == TokenType::Symbol(Symbol::Sub)
}

/// How many kinds the multiplication tier's fold consumes after its first
/// primary: pairs of a `*`/`/` operator and a primary, stopping at anything
/// else; `None` where an operator is not followed by a primary.
pub open spec fn prod_more(ks: Seq<TokenType>) -> Option<int>
    decreases ks.len(),
{
    if ks.len() == 0 || !is_mul_kind(ks[0]) {
        Some(0)
    } else if ks.len() < 2 || !is_primary_kind(ks[1]) {
        None
    } else {
        match prod_more(ks.skip(2)) {
            Some(m) => Some(2 + m),
            None => None,
        }
    }
}

/// How many kinds one multiplication-tier expression consumes, if the
/// stream starts with one.
pub open spec fn prod_end(ks: Seq<TokenType>) -> Option<int> {
    if ks.len() == 0 || !is_primary_kind(ks[0]) {
        None
    } else {
        match prod_more(ks.skip(1)) {
            Some(m) => Some(1 + m),
            None => None,
        }
    }
}

proof fn lemma_prod_more_bounds(ks: Seq<TokenType>)
    ensures
        match prod_more(ks) {
            Some(m) => 0 <= m <= ks.len(),
            None => true,
        },
    decreases ks.len(),
{
    if ks.len() >= 2 && is_mul_kind(ks[0]) && is_primary_kind(ks[1]) {
        lemma_prod_more_bounds(ks.skip(2));
    }
}

proof fn lemma_prod_end_bounds(ks: Seq<TokenType>)
    ensures
        match prod_end(ks) {
            Some(m) => 1 <= m <= ks.len(),
            None => true,
        },
{
    if ks.len() > 0 && is_primary_kind(ks[0]) {
        lemma_prod_more_bounds(ks.skip(1));
    }
}

proof fn lemma_sum_more_bounds(ks: Seq<TokenType>)
    ensures
        match sum_more(ks) {
            Some(n) => 0 <= n <= ks.len(),
            None => true,
        },
    decreases ks.len(),
{
    if ks.len() > 0 && is_add_kind(ks[0]) {
        lemma_prod_end_bounds(ks.skip(1));
        match prod_end(ks.skip(1)) {
            Some(m) => {
                lemma_sum_more_bounds(ks.skip(1 + m));
            },
            None => {},
        }
    }
}

/// How many kinds the addition tier's fold consumes after its first
/// product: pairs of a `+`/`-` operator and a whole product, stopping at
/// anything else; `None` where an operator is not followed by a product.
pub open spec fn sum_more(ks: Seq<TokenType>) -> Option<int>
    decreases ks.len() via sum_more_dec
{
    if ks.len() == 0 || !is_add_kind(ks[0]) {
        Some(0)
    } else {
        match prod_end(ks.skip(1)) {
            Some(m) => match sum_more(ks.skip(1 + m)) {
                Some(n) => Some(1 + m + n),
                None => None,
            },
            None => None,
        }
    }
}

#[via_fn]
proof fn sum_more_dec(ks: Seq<TokenType>) {
    if ks.len() > 0 && is_add_kind(ks[0]) {
        lemma_prod_end_bounds(ks.skip(1));
    }
}

/// How many kinds one whole expression consumes, if the stream starts with
/// one: a product, then the addition tier's fold.
pub open spec fn expr_end_kinds(ks: Seq<TokenType>) -> Option<int> {
    match prod_end(ks) {
        Some(m) => match sum_more(ks.skip(m)) {
            Some(n) => Some(m + n),
            None => None,
        },
        None => None,
    }
}

proof fn lemma_expr_end_bounds(ks: Seq<TokenType>)
    ensures
        match expr_end_kinds(ks) {
            Some(m) => 1 <= m <= ks.len(),
            None => true,
        },
{
    lemma_prod_end_bounds(ks);
    match prod_end(ks) {
        Some(p) => {
            lemma_sum_more_bounds(ks.skip(p));
        },
        None => {},
    }
}

/// The kind stream of a whole `let` statement body (everything after the
/// `let` keyword): `mut`? identifier `=` expression `;`.
pub open spec fn let_body_ok(ks: Seq<TokenType>) -> bool {
    let p: int = if ks.len() > 0 && ks[0] == TokenType::Keyword(Keyword::Mut) {
        1int
    } else {
        0int
    };
    &&& p < ks.len() && ks[p] == TokenType::Identifier
    &&& p + 1 < ks.len() && ks[p + 1] == TokenType::Symbol(Symbol::Assign)
    &&& match expr_end_kinds(ks.skip(p + 2)) {
        Some(q) => p + 2 + q < ks.len() && ks[p + 2 + q] == TokenType::Symbol(Symbol::Semicolon),
        None => false,
    }
}

/// How many kinds a whole well-formed `let` statement body consumes:
/// `mut`? identifier `=` expression `;`.
pub open spec fn let_body_len(ks: Seq<TokenType>) -> int {
    let p: int = if ks.len() > 0 && ks[0] == TokenType::Keyword(Keyword::Mut) {
        1int
    } else {
        0int
    };
    match expr_end_kinds(ks.skip(p + 2)) {
        Some(q) => p + 2 + q + 1,
        None => 0,
    }
}

/// A statement body whose one flaw is that the token after the identifier
/// is not `=`.
pub open spec fn assign_missing(ks: Seq<TokenType>) -> bool {
    let p: int = if ks.len() > 0 && ks[0] == TokenType::Keyword(Keyword::Mut) {
        1int
    } else {
        0int
    };
    &&& p < ks.len() && ks[p] == TokenType::Identifier
    &&& p + 1 < ks.len() && ks[p + 1] != TokenType::Symbol(Symbol::Assign)
}

/// The cause discipline of parse errors: a lexer failure surfaces as
/// `LexError` with the lexical cause attached; a grammar failure carries
/// no cause.
pub open spec fn err_pedigree<T>(r: Result<T, ParseError>) -> bool {
    match r {
        Ok(_) => true,
        Err(e) => match e.err {
            Error::LexError => e.cause is Some,
            Error::Expected(_, _) => e.cause is None,
            Error::ExpectedOneOf(_, _) => e.cause is None,
        },
    }
}

/// The leaf expression a single token parses to.
pub open spec fn leaf_expr(t: Token) -> Expr {
    match t.data {
        TokenData::Identifier(_) => Expr::Identifier(t),
        TokenData::Integer(_) => Expr::Literal(Literal::Integer(t)),
        TokenData::Float(_) => Expr::Literal(Literal::Float(t)),
        TokenData::StringLiteral(_) => Expr::Literal(Literal::String(t)),
        TokenData::Symbol(_) => Expr::Identifier(t),
        TokenData::Keyword(_) => Expr::Identifier(t),
    }
}

/// The symbol a symbol token carries.
pub open spec fn sym_of_token(t: Token) -> Symbol {
    match t.data {
        TokenData::Symbol(sym) => sym,
        _ => Symbol::Add,
    }
}

/// `e` is, in the arena `a`, the left-associated fold of the odd-length
/// token sequence `ts` (`leaf (op leaf)*`): a single leaf, or a `Binary`
/// whose right child is the last leaf, whose operator is the last operator
/// token's symbol, and whose left child denotes the rest.
pub open spec fn denote_prod<C: Arena<Value = Expr>>(a: C, e: Expr, ts: Seq<Token>) -> bool
    decreases ts.len(),
{
    if ts.len() == 0 {
        false
    } else if ts.len() == 1 {
        e == leaf_expr(ts[0])
    } else {
        ts.len() >= 3 && (e matches Expr::Binary(l, op, r) && a.valid(l) && a.valid(r) && op
            == sym_of_token(ts[ts.len() - 2]) && a.at(r) == leaf_expr(ts[ts.len() - 1])
            && denote_prod(a, a.at(l), ts.subrange(0, ts.len() - 2)))
    }
}

/// Growing the arena never un-denotes a tree.
proof fn lemma_denote_prod_extends<C: Arena<Value = Expr>>(pre: C, post: C, e: Expr, ts: Seq<Token>)
    requires
        extends(post, pre),
        denote_prod(pre, e, ts),
    ensures
        denote_prod(post, e, ts),
    decreases ts.len(),
{
    if ts.len() >= 3 {
        match e {
            Expr::Binary(l, op, r) => {
                lemma_denote_prod_extends(pre, post, pre.at(l), ts.subrange(0, ts.len() - 2));
            },
            _ => {},
        }
    }
}

/// A successful multiplication-tier scan is unaffected by tokens appended
/// after it, provided the first appended kind is no `*`/`/` operator.
proof fn lemma_prod_more_append(ks: Seq<TokenType>, ext: Seq<TokenType>)
    requires
        prod_more(ks) is Some,
        ext.len() == 0 || !is_mul_kind(ext[0]),
    ensures
        prod_more(ks + ext) == prod_more(ks),
    decreases ks.len(),
{
    if ks.len() == 0 {
        assert(ks + ext =~= ext);
    } else if !is_mul_kind(ks[0]) {
        assert((ks + ext)[0] == ks[0]);
    } else {
        assert((ks + ext)[0] == ks[0]);
        assert((ks + ext)[1] == ks[1]);
        assert((ks + ext).skip(2) =~= ks.skip(2) + ext);
        lemma_prod_more_append(ks.skip(2), ext);
    }
}

/// The same, for a whole product.
proof fn lemma_prod_end_append(ks: Seq<TokenType>, ext: Seq<TokenType>)
    requires
        prod_end(ks) is Some,
        ext.len() == 0 || !is_mul_kind(ext[0]),
    ensures
        prod_end(ks + ext) == prod_end(ks),
{
    assert((ks + ext)[0] == ks[0]);
    assert((ks + ext).skip(1) =~= ks.skip(1) + ext);
    lemma_prod_more_append(ks.skip(1), ext);
}

/// A successful multiplication-tier scan is unaffected by cutting the
/// stream anywhere at or past its end.
proof fn lemma_prod_more_truncate(ks: Seq<TokenType>, n: int)
    requires
        match prod_more(ks) {
            Some(m) => m <= n,
            None => false,
        },
        0 <= n <= ks.len(),
    ensures
        prod_more(ks.subrange(0, n)) == prod_more(ks),
    decreases ks.len(),
{
    lemma_prod_more_bounds(ks);
    if n == 0 {
        assert(ks.subrange(0, 0) =~= Seq::<TokenType>::empty());
    } else if ks.len() == 0 || !is_mul_kind(ks[0]) {
        assert(ks.subrange(0, n)[0] == ks[0]);
    } else {
        assert(ks.len() >= 2 && is_primary_kind(ks[1]));
        assert(prod_more(ks.skip(2)) is Some);
        lemma_prod_more_bounds(ks.skip(2));
        assert(n >= 2);
        assert(ks.subrange(0, n)[0] == ks[0]);
        assert(ks.subrange(0, n)[1] == ks[1]);
        assert(ks.subrange(0, n).skip(2) =~= ks.skip(2).subrange(0, n - 2));
        lemma_prod_more_truncate(ks.skip(2), n - 2);
    }
}

/// The same, for a whole product.
proof fn lemma_prod_end_truncate(ks: Seq<TokenType>, n: int)
    requires
        match prod_end(ks) {
            Some(m) => m <= n,
            None => false,
        },
        0 <= n <= ks.len(),
    ensures
        prod_end(ks.subrange(0, n)) == prod_end(ks),
{
    lemma_prod_end_bounds(ks);
    assert(prod_more(ks.skip(1)) is Some);
    lemma_prod_more_bounds(ks.skip(1));
    assert(n >= 1);
    assert(ks.subrange(0, n)[0] == ks[0]);
    assert(ks.subrange(0, n).skip(1) =~= ks.skip(1).subrange(0, n - 1));
    lemma_prod_more_truncate(ks.skip(1), n - 1);
}

/// `e` is, in `a`, the left fold over `e0` of the `+`/`-` hops spelled by
/// `ts`: a sequence of (operator, whole product) pairs, folded in order,
/// each step a `Binary` whose left child holds the fold so far.
pub open spec fn denote_sum_fold<C: Arena<Value = Expr>>(
    a: C,
    e0: Expr,
    ts: Seq<Token>,
    e: Expr,
) -> bool
    decreases ts.len(),
{
    if ts.len() == 0 {
        e == e0
    } else {
        let ks = kinds_of(ts);
        &&& is_add_kind(ks[0])
        &&& match prod_end(ks.skip(1)) {
            Some(p) => 1 <= p <= ts.len() - 1 && (exists|l: NodeId, rr: NodeId|
                #![all_triggers]
                a.valid(l) && a.valid(rr) && a.at(l) == e0 && denote_prod(
                    a,
                    a.at(rr),
                    ts.subrange(1, 1 + p),
                ) && denote_sum_fold(
                    a,
                    Expr::Binary(l, sym_of_token(ts[0]), rr),
                    ts.skip(1 + p),
                    e,
                )),
            None => false,
        }
    }
}

/// `e` is, in `a`, the precedence tree of the whole expression `ts`: its
/// leading product, with the remaining `+`/`-` hops folded on, left first.
pub open spec fn denote_expr<C: Arena<Value = Expr>>(a: C, e: Expr, ts: Seq<Token>) -> bool {
    let ks = kinds_of(ts);
    match prod_end(ks) {
        Some(p) => exists|e0: Expr|
            #![all_triggers]
            denote_prod(a, e0, ts.subrange(0, p)) && denote_sum_fold(a, e0, ts.skip(p), e),
        None => false,
    }
}

/// Growing the arena never un-denotes a fold.
proof fn lemma_denote_sum_fold_extends<C: Arena<Value = Expr>>(
    pre: C,
    post: C,
    e0: Expr,
    ts: Seq<Token>,
    e: Expr,
)
    requires
        extends(post, pre),
        denote_sum_fold(pre, e0, ts, e),
    ensures
        denote_sum_fold(post, e0, ts, e),
    decreases ts.len(),
{
    if ts.len() > 0 {
        let ks = kinds_of(ts);
        lemma_prod_end_bounds(ks.skip(1));
        match prod_end(ks.skip(1)) {
            Some(p) => {
                let (l, rr) = choose|l: NodeId, rr: NodeId|
                    #![all_triggers]
                    pre.valid(l) && pre.valid(rr) && pre.at(l) == e0 && denote_prod(
                        pre,
                        pre.at(rr),
                        ts.subrange(1, 1 + p),
                    ) && denote_sum_fold(
                        pre,
                        Expr::Binary(l, sym_of_token(ts[0]), rr),
                        ts.skip(1 + p),
                        e,
                    );
                lemma_denote_prod_extends(pre, post, pre.at(rr), ts.subrange(1, 1 + p));
                lemma_denote_sum_fold_extends(
                    pre,
                    post,
                    Expr::Binary(l, sym_of_token(ts[0]), rr),
                    ts.skip(1 + p),
                    e,
                );
                assert(post.valid(l) && post.valid(rr) && post.at(l) == e0 && denote_prod(
                    post,
                    post.at(rr),
                    ts.subrange(1, 1 + p),
                ) && denote_sum_fold(
                    post,
                    Expr::Binary(l, sym_of_token(ts[0]), rr),
                    ts.skip(1 + p),
                    e,
                ));
            },
            None => {},
        }
    }
}

/// Appending one `(operator, product)` hop to a fold: folding `seg` onto
/// `e0` gives `mid`, and one more `Binary` step over the hop gives `e`.
proof fn lemma_sum_fold_snoc<C: Arena<Value = Expr>>(
    a: C,
    e0: Expr,
    seg: Seq<Token>,
    mid: Expr,
    hop: Seq<Token>,
    l: NodeId,
    rr: NodeId,
    e: Expr,
)
    requires
        denote_sum_fold(a, e0, seg, mid),
        hop.len() >= 2,
        is_add_kind(hop[0].data.tok_type_spec()),
        prod_end(kinds_of(hop).skip(1)) == Some(hop.len() - 1),
        a.valid(l),
        a.valid(rr),
        a.at(l) == mid,
        denote_prod(a, a.at(rr), hop.subrange(1, hop.len() as int)),
        e == Expr::Binary(l, sym_of_token(hop[0]), rr),
    ensures
        denote_sum_fold(a, e0, seg + hop, e),
    decreases seg.len(),
{
    let khop = kinds_of(hop);
    if seg.len() == 0 {
        assert(seg + hop =~= hop);
        assert(hop.subrange(1, 1 + (hop.len() - 1)) =~= hop.subrange(1, hop.len() as int));
        assert(hop.skip(1 + (hop.len() - 1)) =~= Seq::<Token>::empty());
        assert(denote_sum_fold(a, Expr::Binary(l, sym_of_token(hop[0]), rr), hop.skip(
            1 + (hop.len() - 1),
        ), e));
        assert(denote_sum_fold(a, e0, hop, e));
    } else {
        let kseg = kinds_of(seg);
        let kall = kinds_of(seg + hop);
        assert(kall =~= kseg + khop);
        lemma_prod_end_bounds(kseg.skip(1));
        match prod_end(kseg.skip(1)) {
            Some(p) => {
                assert(kall.skip(1) =~= kseg.skip(1) + khop);
                lemma_prod_end_append(kseg.skip(1), khop);
                let (l1, rr1) = choose|l1: NodeId, rr1: NodeId|
                    #![all_triggers]
                    a.valid(l1) && a.valid(rr1) && a.at(l1) == e0 && denote_prod(
                        a,
                        a.at(rr1),
                        seg.subrange(1, 1 + p),
                    ) && denote_sum_fold(
                        a,
                        Expr::Binary(l1, sym_of_token(seg[0]), rr1),
                        seg.skip(1 + p),
                        mid,
                    );
                lemma_sum_fold_snoc(
                    a,
                    Expr::Binary(l1, sym_of_token(seg[0]), rr1),
                    seg.skip(1 + p),
                    mid,
                    hop,
                    l,
                    rr,
                    e,
                );
                assert((seg + hop).subrange(1, 1 + p) =~= seg.subrange(1, 1 + p));
                assert((seg + hop).skip(1 + p) =~= seg.skip(1 + p) + hop);
                assert((seg + hop)[0] == seg[0]);
                assert(denote_sum_fold(a, e0, seg + hop, e)) by {
                    assert(a.valid(l1) && a.valid(rr1) && a.at(l1) == e0 && denote_prod(
                        a,
                        a.at(rr1),
                        (seg + hop).subrange(1, 1 + p),
                    ) && denote_sum_fold(
                        a,
                        Expr::Binary(l1, sym_of_token((seg + hop)[0]), rr1),
                        (seg + hop).skip(1 + p),
                        e,
                    ));
                }
            },
            None => {},
        }
    }
}

/// One iteration of the addition tier's fold, assembled: the fold so far
/// survives the two allocations, the freshly parsed product denotes its
/// segment, and the new `Binary` node is the fold extended by one hop.
proof fn lemma_sum_step<C: Arena<Value = Expr>>(
    aexpr_head: C,
    amid: C,
    apost: C,
    first: Expr,
    left: Expr,
    right: Expr,
    folded: Expr,
    ts0: Seq<Token>,
    ks0: Seq<TokenType>,
    p0: int,
    c: int,
    p: int,
    left_id: NodeId,
    right_id: NodeId,
)
    requires
        kinds_of(ts0) == ks0,
        1 <= p0 <= c,
        c + 1 + p <= ks0.len(),
        1 <= p,
        is_add_kind(ks0[c]),
        prod_end(ks0.skip(c + 1)) == Some(p),
        denote_prod(aexpr_head, first, ts0.subrange(0, p0)),
        denote_sum_fold(aexpr_head, first, ts0.subrange(p0, c), left),
        denote_prod(amid, right, ts0.skip(c + 1).subrange(0, p)),
        extends(amid, aexpr_head),
        extends(apost, amid),
        apost.valid(left_id),
        apost.at(left_id) == left,
        apost.valid(right_id),
        apost.at(right_id) == right,
        folded == Expr::Binary(left_id, sym_of_token(ts0[c]), right_id),
    ensures
        denote_prod(apost, first, ts0.subrange(0, p0)),
        denote_sum_fold(apost, first, ts0.subrange(p0, c + 1 + p), folded),
{
    assert(ks0.len() == ts0.len());
    let rseg = ts0.subrange(c + 1, c + 1 + p);
    assert(ts0.skip(c + 1).subrange(0, p) =~= rseg);
    lemma_denote_prod_extends(amid, apost, right, rseg);
    lemma_denote_prod_extends(aexpr_head, apost, first, ts0.subrange(0, p0));
    lemma_denote_sum_fold_extends(aexpr_head, apost, first, ts0.subrange(p0, c), left);
    let hop = ts0.subrange(c, c + 1 + p);
    assert(hop[0] == ts0[c]);
    assert(kinds_of(hop) =~= ks0.subrange(c, c + 1 + p)) by {
        assert(forall|k: int|
            0 <= k < hop.len() ==> #[trigger] kinds_of(hop)[k] == kinds_of(ts0)[c + k]);
    }
    assert(kinds_of(hop).skip(1) =~= ks0.skip(c + 1).subrange(0, p));
    lemma_prod_end_truncate(ks0.skip(c + 1), p);
    assert(hop.subrange(1, hop.len() as int) =~= rseg);
    lemma_sum_fold_snoc(
        apost,
        first,
        ts0.subrange(p0, c),
        left,
        hop,
        left_id,
        right_id,
        folded,
    );
    assert(ts0.subrange(p0, c) + hop =~= ts0.subrange(p0, c + 1 + p));
}

/// Copies a list of token kinds (for carrying the acceptable kinds into an
/// error value).
fn copy_types(v: &Vec<TokenType>) -> (r: Vec<TokenType>)
    ensures
        r@ == v@,
{
    let mut r: Vec<TokenType> = Vec::new();
    let mut i: usize = 0;
    while i < v.len()
        invariant
            i <= v@.len(),
            r@ == v@.subrange(0, i as int),
        decreases v@.len() - i,
    {
        r.push(v[i]);
        i += 1;
        proof {
            assert(r@ =~= v@.subrange(0, i as int));
        }
    }
    proof {
        assert(v@.subrange(0, v@.len() as int) =~= v@);
    }
    r
}

/// Whether `tt` occurs in `v`.
fn contains_type(v: &Vec<TokenType>, tt: TokenType) -> (r: bool)
    ensures
        r == v@.contains(tt),
{
    let mut i: usize = 0;
    while i < v.len()
        invariant
            i <= v@.len(),
            forall|k: int| 0 <= k < i ==> v@[k] != tt,
        decreases v@.len() - i,
    {
        if v[i] == tt {
            return true;
        }
        i += 1;
    }
    false
}

/// The parser: a lookahead lexer; the arenas and the interner are handed in
/// per call.
pub struct Parser<'input> {
    pub lexer: Peekable<'input>,
}

impl<'input> Parser<'input> {
    pub open spec fn wf(self) -> bool {
        self.lexer.wf()
    }

    /// A parser at the lexer's position, with an empty lookahead buffer.
    pub fn new(lexer: Lexer<'input>) -> (r: Self)
        ensures
            r.lexer.inner == lexer,
            r.lexer.buffered is None,
    {
        Parser { lexer: lexer.peekable() }
    }

    /// Consumes one token and requires it to be of kind `tok_type`.
    fn expect<F: Copy + Fn(&str) -> Option<u64>>(
        &mut self,
        it: &mut Interner,
        fp: F,
        tok_type: TokenType,
    ) -> (r: Result<Token, ParseError>)
        requires
            old(self).wf(),
            old(it).wf(),
            forall|a: &str| #[trigger] call_requires(fp, (a,)),
        ensures
            final(self).wf(),
            final(it).wf(),
            tbl_extends(final(it)@, old(it)@),
            final(self).lexer.inner.input == old(self).lexer.inner.input,
            remaining(final(self).lexer) <= remaining(old(self).lexer),
            r is Ok ==> remaining(final(self).lexer) < remaining(old(self).lexer),
            err_pedigree(r),
            pk_kinds(old(self).lexer).len() > 0 ==> pk_ends_clean(final(self).lexer)
                == pk_ends_clean(old(self).lexer),
            ({
                let ks = pk_kinds(old(self).lexer);
                ks.len() > 0 && ks[0] == tok_type ==> r == Ok::<Token, ParseError>(
                    pk_tokens(old(self).lexer, old(it)@)[0],
                ) && pk_kinds(final(self).lexer) == ks.drop_first() && pk_tokens(
                    final(self).lexer,
                    final(it)@,
                ) == pk_tokens(old(self).lexer, old(it)@).drop_first()
            }),
            exists|lr: Result<Option<Token>, LexError>|
                #[trigger] expect_case(
                    old(self).lexer,
                    final(self).lexer,
                    old(it)@,
                    final(it)@,
                    lr,
                    tok_type,
                    r,
                ),
    {
        let ghost pre = *self;
        let lr = self.lexer.parse(it, fp);
        proof {
            if pk_kinds(pre.lexer).len() > 0 {
                lemma_step_yields_head(pre.lexer, self.lexer, old(it)@, it@, lr);
                lemma_step_yields_token(pre.lexer, self.lexer, old(it)@, it@, lr);
            }
        }
        let result: Result<Token, ParseError> = match lr {
            Ok(Some(token)) => {
                if token.data.tok_type() == tok_type {
                    Ok(token)
                } else {
                    Err(
                        crate::error::Error::new(
                            Error::Expected(tok_type, Some(token.span)),
                        ),
                    )
                }
            },
            Ok(None) => Err(crate::error::Error::new(Error::Expected(tok_type, None))),
            Err(le) => Err(le.with_context(Error::LexError)),
        };
        proof {
            assert(expect_case(pre.lexer, self.lexer, old(it)@, it@, lr, tok_type, result));
        }
        result
    }

    /// Consumes one token and requires its kind to be one of `expected`.
    fn expect_any<F: Copy + Fn(&str) -> Option<u64>>(
        &mut self,
        it: &mut Interner,
        fp: F,
        expected: &Vec<TokenType>,
    ) -> (r: Result<Token, ParseError>)
        requires
            old(self).wf(),
            old(it).wf(),
            forall|a: &str| #[trigger] call_requires(fp, (a,)),
        ensures
            final(self).wf(),
            final(it).wf(),
            tbl_extends(final(it)@, old(it)@),
            final(self).lexer.inner.input == old(self).lexer.inner.input,
            remaining(final(self).lexer) <= remaining(old(self).lexer),
            r is Ok ==> remaining(final(self).lexer) < remaining(old(self).lexer),
            err_pedigree(r),
            pk_kinds(old(self).lexer).len() > 0 ==> pk_ends_clean(final(self).lexer)
                == pk_ends_clean(old(self).lexer),
            ({
                let ks = pk_kinds(old(self).lexer);
                ks.len() > 0 && expected@.contains(ks[0]) ==> r == Ok::<Token, ParseError>(
                    pk_tokens(old(self).lexer, old(it)@)[0],
                ) && pk_kinds(final(self).lexer) == ks.drop_first() && pk_tokens(
                    final(self).lexer,
                    final(it)@,
                ) == pk_tokens(old(self).lexer, old(it)@).drop_first()
            }),
            exists|lr: Result<Option<Token>, LexError>|
                #[trigger] expect_any_case(
                    old(self).lexer,
                    final(self).lexer,
                    old(it)@,
                    final(it)@,
                    lr,
                    expected@,
                    r,
                ),
    {
        let ghost pre = *self;
        let lr = self.lexer.parse(it, fp);
        proof {
            if pk_kinds(pre.lexer).len() > 0 {
                lemma_step_yields_head(pre.lexer, self.lexer, old(it)@, it@, lr);
                lemma_step_yields_token(pre.lexer, self.lexer, old(it)@, it@, lr);
            }
        }
        let result: Result<Token, ParseError> = match lr {
            Ok(Some(token)) => {
                if contains_type(expected, token.data.tok_type()) {
                    Ok(token)
                } else {
                    Err(
                        crate::error::Error::new(
                            Error::ExpectedOneOf(copy_types(expected), Some(token.span)),
                        ),
                    )
                }
            },
            Ok(None) => Err(
                crate::error::Error::new(Error::ExpectedOneOf(copy_types(expected), None)),
            ),
            Err(le) => Err(le.with_context(Error::LexError)),
        };
        proof {
            assert(expect_any_case(pre.lexer, self.lexer, old(it)@, it@, lr, expected@, result));
        }
        result
    }

    /// One primary expression: a single identifier or literal token.
    fn parse_primary<F: Copy + Fn(&str) -> Option<u64>>(
        &mut self,
        it: &mut Interner,
        fp: F,
    ) -> (r: Result<Expr, ParseError>)
        requires
            old(self).wf(),
            old(it).wf(),
            forall|a: &str| #[trigger] call_requires(fp, (a,)),
        ensures
            final(self).wf(),
            final(it).wf(),
            tbl_extends(final(it)@, old(it)@),
            final(self).lexer.inner.input == old(self).lexer.inner.input,
            remaining(final(self).lexer) <= remaining(old(self).lexer),
            r is Ok ==> remaining(final(self).lexer) < remaining(old(self).lexer),
            err_pedigree(r),
            pk_kinds(old(self).lexer).len() > 0 ==> pk_ends_clean(final(self).lexer)
                == pk_ends_clean(old(self).lexer),
            ({
                let ks = pk_kinds(old(self).lexer);
                ks.len() > 0 && is_primary_kind(ks[0]) ==> r == Ok::<Expr, ParseError>(
                    leaf_expr(pk_tokens(old(self).lexer, old(it)@)[0]),
                ) && pk_kinds(final(self).lexer) == ks.drop_first() && pk_tokens(
                    final(self).lexer,
                    final(it)@,
                ) == pk_tokens(old(self).lexer, old(it)@).drop_first()
            }),
            exists|lr: Result<Option<Token>, LexError>|
                #[trigger] primary_case(
                    old(self).lexer,
                    final(self).lexer,
                    old(it)@,
                    final(it)@,
                    lr,
                    r,
                ),
    {
        let ghost pre = *self;
        let lr = self.lexer.parse(it, fp);
        proof {
            if pk_kinds(pre.lexer).len() > 0 {
                lemma_step_yields_head(pre.lexer, self.lexer, old(it)@, it@, lr);
                lemma_step_yields_token(pre.lexer, self.lexer, old(it)@, it@, lr);
            }
        }
        let result: Result<Expr, ParseError> = match lr {
            Ok(Some(first)) => match first.data {
                TokenData::Identifier(_) => Ok(Expr::Identifier(first)),
                TokenData::Integer(_) => Ok(Expr::Literal(Literal::Integer(first))),
                TokenData::Float(_) => Ok(Expr::Literal(Literal::Float(first))),
                TokenData::StringLiteral(_) => Ok(Expr::Literal(Literal::String(first))),
                TokenData::Symbol(_) => Err(
                    crate::error::Error::new(
                        Error::ExpectedOneOf(primary_kinds(), Some(first.span)),
                    ),
                ),
                TokenData::Keyword(_) => Err(
                    crate::error::Error::new(
                        Error::ExpectedOneOf(primary_kinds(), Some(first.span)),
                    ),
                ),
            },
            Ok(None) => Err(
                crate::error::Error::new(Error::ExpectedOneOf(primary_kinds(), None)),
            ),
            Err(le) => Err(le.with_context(Error::LexError)),
        };
        proof {
            assert(primary_case(pre.lexer, self.lexer, old(it)@, it@, lr, result));
        }
        result
    }

    /// The multiplication tier: a primary, then a left fold over `*` and
    /// `/` operators, allocating each fold step's operands.
    fn parse_arith_prod<
        A: Arena<Value = HAst>,
        B: Arena<Value = Let>,
        C: Arena<Value = Expr>,
        F: Copy + Fn(&str) -> Option<u64>,
    >(
        &mut self,
        ctx: &mut Context<A, B, C>,
        it: &mut Interner,
        fp: F,
    ) -> (r: Result<Expr, ParseError>)
        requires
            old(self).wf(),
            old(it).wf(),
            ctx_wf(*old(ctx)),
            forall|a: &str| #[trigger] call_requires(fp, (a,)),
        ensures
            final(self).wf(),
            final(it).wf(),
            ctx_wf(*final(ctx)),
            ctx_extends(*final(ctx), *old(ctx)),
            tbl_extends(final(it)@, old(it)@),
            final(self).lexer.inner.input == old(self).lexer.inner.input,
            remaining(final(self).lexer) <= remaining(old(self).lexer),
            r matches Ok(e) ==> remaining(final(self).lexer) < remaining(old(self).lexer)
                && expr_children_valid(final(ctx).expr, e),
            err_pedigree(r),
            ({
                let ks = pk_kinds(old(self).lexer);
                let ts = pk_tokens(old(self).lexer, old(it)@);
                match prod_end(ks) {
                    Some(m) => (m < ks.len() || pk_ends_clean(old(self).lexer)) ==> r is Ok
                        && pk_kinds(final(self).lexer) == ks.skip(m) && pk_tokens(
                        final(self).lexer,
                        final(it)@,
                    ) == ts.skip(m) && pk_ends_clean(final(self).lexer) == pk_ends_clean(
                        old(self).lexer,
                    ) && match r {
                        Ok(e) => denote_prod(final(ctx).expr, e, ts.subrange(0, m)),
                        Err(_) => true,
                    },
                    None => true,
                }
            }),
    {
        let ghost ks0 = pk_kinds(self.lexer);
        let ghost ts0 = pk_tokens(self.lexer, it@);
        let ghost clean0 = pk_ends_clean(self.lexer);
        let ghost mo = prod_end(ks0);
        proof {
            lemma_prod_end_bounds(ks0);
            lemma_pk_tokens_kinds(self.lexer, it@);
        }
        let mut left = match self.parse_primary(it, fp) {
            Ok(e) => e,
            Err(e) => {
                return Err(e);
            },
        };
        let ghost mut c: int = 1;
        proof {
            assert(ks0.drop_first() =~= ks0.skip(1));
            match mo {
                Some(m) => if m < ks0.len() || clean0 {
                    assert(ts0.drop_first() =~= ts0.skip(1));
                    assert(ts0.subrange(0, 1) =~= seq![ts0[0]]);
                    assert(denote_prod(ctx.expr, left, ts0.subrange(0, 1)));
                },
                None => (),
            }
        }
        loop
            invariant
                self.wf(),
                it.wf(),
                ctx_wf(*ctx),
                ctx_extends(*ctx, *old(ctx)),
                tbl_extends(it@, old(it)@),
                self.lexer.inner.input == old(self).lexer.inner.input,
                remaining(self.lexer) < remaining(old(self).lexer),
                expr_children_valid(ctx.expr, left),
                forall|a: &str| #[trigger] call_requires(fp, (a,)),
                ks0 == pk_kinds(old(self).lexer),
                ts0 == pk_tokens(old(self).lexer, old(it)@),
                kinds_of(ts0) == ks0,
                clean0 == pk_ends_clean(old(self).lexer),
                mo == prod_end(ks0),
                match mo {
                    Some(m) => (m < ks0.len() || clean0) ==> 1 <= c <= m && c <= ts0.len()
                        && pk_kinds(self.lexer) == ks0.skip(c) && pk_tokens(self.lexer, it@)
                        == ts0.skip(c) && pk_ends_clean(self.lexer) == clean0 && prod_more(
                        ks0.skip(c),
                    ) == Some(m - c) && denote_prod(ctx.expr, left, ts0.subrange(0, c)),
                    None => true,
                },
            decreases remaining(self.lexer),
        {
            let ghost pre_peek = self.lexer;
            let ghost tbl_peek = it@;
            let op_r = self.lexer.peek(it, fp);
            proof {
                match mo {
                    Some(m) => if m < ks0.len() || clean0 {
                        if c < ks0.len() {
                            lemma_peek_yields_head(pre_peek, self.lexer, tbl_peek, it@, op_r);
                            lemma_peek_yields_token(pre_peek, self.lexer, tbl_peek, it@, op_r);
                        } else {
                            // the fold consumed the whole stream, which runs
                            // to a clean end: the peek hits end of input
                            assert(pre_peek.buffered is None);
                            lemma_clean_empty(
                                pre_peek.inner.input@,
                                pre_peek.inner.idx as int,
                            );
                            assert(op_r == Ok::<Option<Token>, LexError>(None));
                            assert(pk_kinds(self.lexer) =~= ks0.skip(c));
                            assert(ts0.skip(c).len() == 0);
                            assert(pk_tokens(self.lexer, it@) =~= ts0.skip(c));
                            assert(pk_ends_clean(self.lexer));
                        }
                    },
                    None => (),
                }
            }
            let op = match op_r {
                Ok(Some(op)) => op,
                Ok(None) => {
                    return Ok(left);
                },
                Err(le) => {
                    return Err(le.with_context(Error::LexError));
                },
            };
            let sym = match op.data {
                TokenData::Symbol(Symbol::Mul) => Symbol::Mul,
                TokenData::Symbol(Symbol::Div) => Symbol::Div,
                _ => {
                    return Ok(left);
                },
            };
            let ghost pre_cons = self.lexer;
            let ghost tbl_cons = it@;
            let _consumed = self.lexer.parse(it, fp);
            proof {
                match mo {
                    Some(m) => if m < ks0.len() || clean0 {
                        lemma_step_yields_head(pre_cons, self.lexer, tbl_cons, it@, _consumed);
                        lemma_step_yields_token(pre_cons, self.lexer, tbl_cons, it@, _consumed);
                        assert(ks0.skip(c).drop_first() =~= ks0.skip(c + 1));
                        assert(ts0.skip(c).drop_first() =~= ts0.skip(c + 1));
                    },
                    None => (),
                }
            }
            let right = match self.parse_primary(it, fp) {
                Ok(e) => e,
                Err(e) => {
                    return Err(e);
                },
            };
            proof {
                match mo {
                    Some(m) => if m < ks0.len() || clean0 {
                        assert(is_mul_kind(ks0.skip(c)[0]));
                        assert(ks0.skip(c + 1).drop_first() =~= ks0.skip(c + 2));
                        assert(ks0.skip(c).skip(2) =~= ks0.skip(c + 2));
                        assert(ts0.skip(c + 1).drop_first() =~= ts0.skip(c + 2));
                        lemma_prod_more_bounds(ks0.skip(c + 2));
                    },
                    None => (),
                }
            }
            let ghost aexpr0 = ctx.expr;
            let left_id = ctx.expr.allocate(left);
            let right_id = ctx.expr.allocate(right);
            let folded = Expr::Binary(left_id, sym, right_id);
            proof {
                match mo {
                    Some(m) => if m < ks0.len() || clean0 {
                        lemma_denote_prod_extends(aexpr0, ctx.expr, left, ts0.subrange(0, c));
                        assert(ts0.subrange(0, c + 2).subrange(0, c) =~= ts0.subrange(0, c));
                        assert(ts0.subrange(0, c + 2)[c] == ts0[c]);
                        assert(ts0.subrange(0, c + 2)[c + 1] == ts0[c + 1]);
                        assert(denote_prod(ctx.expr, folded, ts0.subrange(0, c + 2)));
                        c = c + 2;
                    },
                    None => (),
                }
            }
            left = folded;
        }
    }

    /// The addition tier: a product, then a left fold over `+` and `-`.
    #[verifier::rlimit(100)]
    fn parse_arith_sum<
        A: Arena<Value = HAst>,
        B: Arena<Value = Let>,
        C: Arena<Value = Expr>,
        F: Copy + Fn(&str) -> Option<u64>,
    >(
        &mut self,
        ctx: &mut Context<A, B, C>,
        it: &mut Interner,
        fp: F,
    ) -> (r: Result<Expr, ParseError>)
        requires
            old(self).wf(),
            old(it).wf(),
            ctx_wf(*old(ctx)),
            forall|a: &str| #[trigger] call_requires(fp, (a,)),
        ensures
            final(self).wf(),
            final(it).wf(),
            ctx_wf(*final(ctx)),
            ctx_extends(*final(ctx), *old(ctx)),
            tbl_extends(final(it)@, old(it)@),
            final(self).lexer.inner.input == old(self).lexer.inner.input,
            remaining(final(self).lexer) <= remaining(old(self).lexer),
            r matches Ok(e) ==> remaining(final(self).lexer) < remaining(old(self).lexer)
                && expr_children_valid(final(ctx).expr, e),
            err_pedigree(r),
            ({
                let ks = pk_kinds(old(self).lexer);
                let ts = pk_tokens(old(self).lexer, old(it)@);
                match expr_end_kinds(ks) {
                    Some(m) => (m < ks.len() || pk_ends_clean(old(self).lexer)) ==> r is Ok
                        && pk_kinds(final(self).lexer) == ks.skip(m) && pk_tokens(
                        final(self).lexer,
                        final(it)@,
                    ) == ts.skip(m) && pk_ends_clean(final(self).lexer) == pk_ends_clean(
                        old(self).lexer,
                    ) && match r {
                        Ok(e) => denote_expr(final(ctx).expr, e, ts.subrange(0, m)),
                        Err(_) => true,
                    },
                    None => true,
                }
            }),
    {
        let ghost ks0 = pk_kinds(self.lexer);
        let ghost ts0 = pk_tokens(self.lexer, it@);
        let ghost clean0 = pk_ends_clean(self.lexer);
        let ghost eo = expr_end_kinds(ks0);
        let ghost p0: int = match prod_end(ks0) {
            Some(p) => p,
            None => 0int,
        };
        proof {
            lemma_prod_end_bounds(ks0);
            lemma_pk_tokens_kinds(self.lexer, it@);
            match prod_end(ks0) {
                Some(p) => {
                    lemma_sum_more_bounds(ks0.skip(p));
                },
                None => (),
            }
        }
        let mut left = match self.parse_arith_prod(ctx, it, fp) {
            Ok(e) => e,
            Err(e) => {
                proof {
                    match eo {
                        Some(m) => if m < ks0.len() || clean0 {
                            match prod_end(ks0) {
                                Some(p) => {
                                    assert(p <= m);
                                },
                                None => (),
                            }
                        },
                        None => (),
                    }
                }
                return Err(e);
            },
        };
        let ghost first = left;
        let ghost mut c: int = p0;
        proof {
            match eo {
                Some(m) => if m < ks0.len() || clean0 {
                    assert(ts0.subrange(p0, p0) =~= Seq::<Token>::empty());
                    assert(denote_sum_fold(ctx.expr, first, ts0.subrange(p0, p0), left));
                },
                None => (),
            }
        }
        loop
            invariant
                self.wf(),
                it.wf(),
                ctx_wf(*ctx),
                ctx_extends(*ctx, *old(ctx)),
                tbl_extends(it@, old(it)@),
                self.lexer.inner.input == old(self).lexer.inner.input,
                remaining(self.lexer) < remaining(old(self).lexer),
                expr_children_valid(ctx.expr, left),
                forall|a: &str| #[trigger] call_requires(fp, (a,)),
                ks0 == pk_kinds(old(self).lexer),
                ts0 == pk_tokens(old(self).lexer, old(it)@),
                kinds_of(ts0) == ks0,
                eo == expr_end_kinds(ks0),
                p0 == (match prod_end(ks0) {
                    Some(p) => p,
                    None => 0int,
                }),
                clean0 == pk_ends_clean(old(self).lexer),
                match eo {
                    Some(m) => (m < ks0.len() || clean0) ==> 1 <= p0 <= c <= m && c <= ts0.len()
                        && pk_kinds(self.lexer) == ks0.skip(c) && pk_tokens(self.lexer, it@)
                        == ts0.skip(c) && pk_ends_clean(self.lexer) == clean0 && sum_more(
                        ks0.skip(c),
                    ) == Some(m - c) && denote_prod(ctx.expr, first, ts0.subrange(0, p0))
                        && denote_sum_fold(ctx.expr, first, ts0.subrange(p0, c), left),
                    None => true,
                },
            decreases remaining(self.lexer),
        {
            let ghost aexpr_head = ctx.expr;
            let ghost pre_peek = self.lexer;
            let ghost tbl_peek = it@;
            let op_r = self.lexer.peek(it, fp);
            proof {
                match eo {
                    Some(m) => if m < ks0.len() || clean0 {
                        if c < ks0.len() {
                            lemma_peek_yields_head(pre_peek, self.lexer, tbl_peek, it@, op_r);
                            lemma_peek_yields_token(pre_peek, self.lexer, tbl_peek, it@, op_r);
                        } else {
                            // the expression consumed the whole stream, which
                            // runs to a clean end: the peek hits end of input
                            assert(pre_peek.buffered is None);
                            lemma_clean_empty(
                                pre_peek.inner.input@,
                                pre_peek.inner.idx as int,
                            );
                            assert(op_r == Ok::<Option<Token>, LexError>(None));
                            assert(pk_kinds(self.lexer) =~= ks0.skip(c));
                            assert(ts0.skip(c).len() == 0);
                            assert(pk_tokens(self.lexer, it@) =~= ts0.skip(c));
                            assert(pk_ends_clean(self.lexer));
                            assert(c == m);
                            lemma_prod_end_truncate(ks0, m);
                            assert(ks0.subrange(0, m) =~= kinds_of(ts0).subrange(0, m));
                            assert(kinds_of(ts0.subrange(0, m)) =~= kinds_of(ts0).subrange(0, m));
                            assert(ts0.subrange(0, m).subrange(0, p0) =~= ts0.subrange(0, p0));
                            assert(ts0.subrange(0, m).skip(p0) =~= ts0.subrange(p0, m));
                            assert(denote_expr(ctx.expr, left, ts0.subrange(0, m)));
                        }
                    },
                    None => (),
                }
            }
            let op = match op_r {
                Ok(Some(op)) => op,
                Ok(None) => {
                    return Ok(left);
                },
                Err(le) => {
                    return Err(le.with_context(Error::LexError));
                },
            };
            let sym = match op.data {
                TokenData::Symbol(Symbol::Add) => Symbol::Add,
                TokenData::Symbol(Symbol::Sub) => Symbol::Sub,
                _ => {
                    proof {
                        match eo {
                            Some(m) => if m < ks0.len() || clean0 {
                                assert(c == m);
                                lemma_prod_end_truncate(ks0, m);
                                assert(ks0.subrange(0, m) =~= kinds_of(ts0).subrange(0, m));
                                assert(kinds_of(ts0.subrange(0, m)) =~= kinds_of(ts0).subrange(
                                    0,
                                    m,
                                ));
                                assert(ts0.subrange(0, m).subrange(0, p0) =~= ts0.subrange(0, p0));
                                assert(ts0.subrange(0, m).skip(p0) =~= ts0.subrange(p0, m));
                                assert(denote_expr(ctx.expr, left, ts0.subrange(0, m)));
                            },
                            None => (),
                        }
                    }
                    return Ok(left);
                },
            };
            let ghost pre_cons = self.lexer;
            let ghost tbl_cons = it@;
            let _consumed = self.lexer.parse(it, fp);
            proof {
                match eo {
                    Some(m) => if m < ks0.len() || clean0 {
                        lemma_step_yields_head(pre_cons, self.lexer, tbl_cons, it@, _consumed);
                        lemma_step_yields_token(pre_cons, self.lexer, tbl_cons, it@, _consumed);
                        assert(is_add_kind(ks0.skip(c)[0]));
                        assert(ks0.skip(c).drop_first() =~= ks0.skip(c + 1));
                        assert(ts0.skip(c).drop_first() =~= ts0.skip(c + 1));
                        assert(ks0.skip(c).skip(1) =~= ks0.skip(c + 1));
                        lemma_prod_end_bounds(ks0.skip(c + 1));
                        match prod_end(ks0.skip(c + 1)) {
                            Some(p) => {
                                assert(ks0.skip(c).skip(1 + p) =~= ks0.skip(c + 1 + p));
                                lemma_sum_more_bounds(ks0.skip(c + 1 + p));
                            },
                            None => (),
                        }
                    },
                    None => (),
                }
            }
            let right = match self.parse_arith_prod(ctx, it, fp) {
                Ok(e) => e,
                Err(e) => {
                    return Err(e);
                },
            };
            let ghost aexpr0 = ctx.expr;
            let left_id = ctx.expr.allocate(left);
            let right_id = ctx.expr.allocate(right);
            let folded = Expr::Binary(left_id, sym, right_id);
            proof {
                match eo {
                    Some(m) => if m < ks0.len() || clean0 {
                        match prod_end(ks0.skip(c + 1)) {
                            Some(p) => {
                                assert(ks0.skip(c + 1).skip(p) =~= ks0.skip(c + 1 + p));
                                assert(ts0.skip(c + 1).skip(p) =~= ts0.skip(c + 1 + p));
                                assert(ks0.skip(c).skip(1 + p) =~= ks0.skip(c + 1 + p));
                                lemma_sum_more_bounds(ks0.skip(c + 1 + p));
                                lemma_sum_step(
                                    aexpr_head,
                                    aexpr0,
                                    ctx.expr,
                                    first,
                                    left,
                                    right,
                                    folded,
                                    ts0,
                                    ks0,
                                    p0,
                                    c,
                                    p,
                                    left_id,
                                    right_id,
                                );
                                c = c + 1 + p;
                            },
                            None => (),
                        }
                    },
                    None => (),
                }
            }
            left = folded;
        }
    }

    /// A full expression: the lowest precedence tier.
    fn parse_expr<
        A: Arena<Value = HAst>,
        B: Arena<Value = Let>,
        C: Arena<Value = Expr>,
        F: Copy + Fn(&str) -> Option<u64>,
    >(
        &mut self,
        ctx: &mut Context<A, B, C>,
        it: &mut Interner,
        fp: F,
    ) -> (r: Result<Expr, ParseError>)
        requires
            old(self).wf(),
            old(it).wf(),
            ctx_wf(*old(ctx)),
            forall|a: &str| #[trigger] call_requires(fp, (a,)),
        ensures
            final(self).wf(),
            final(it).wf(),
            ctx_wf(*final(ctx)),
            ctx_extends(*final(ctx), *old(ctx)),
            tbl_extends(final(it)@, old(it)@),
            final(self).lexer.inner.input == old(self).lexer.inner.input,
            remaining(final(self).lexer) <= remaining(old(self).lexer),
            r matches Ok(e) ==> remaining(final(self).lexer) < remaining(old(self).lexer)
                && expr_children_valid(final(ctx).expr, e),
            err_pedigree(r),
            ({
                let ks = pk_kinds(old(self).lexer);
                let ts = pk_tokens(old(self).lexer, old(it)@);
                match expr_end_kinds(ks) {
                    Some(m) => (m < ks.len() || pk_ends_clean(old(self).lexer)) ==> r is Ok
                        && pk_kinds(final(self).lexer) == ks.skip(m) && pk_tokens(
                        final(self).lexer,
                        final(it)@,
                    ) == ts.skip(m) && pk_ends_clean(final(self).lexer) == pk_ends_clean(
                        old(self).lexer,
                    ) && match r {
                        Ok(e) => denote_expr(final(ctx).expr, e, ts.subrange(0, m)),
                        Err(_) => true,
                    },
                    None => true,
                }
            }),
    {
        self.parse_arith_sum(ctx, it, fp)
    }

    /// A `let` statement after its `let` keyword: `mut`? identifier `=`
    /// expression `;`. The stored node keeps `kw_let` and every further
    /// token in place; a failed expectation aborts with no node stored.
    #[verifier::rlimit(100)]
    fn parse_let<
        A: Arena<Value = HAst>,
        B: Arena<Value = Let>,
        C: Arena<Value = Expr>,
        F: Copy + Fn(&str) -> Option<u64>,
    >(
        &mut self,
        ctx: &mut Context<A, B, C>,
        it: &mut Interner,
        fp: F,
        kw_let: Token,
    ) -> (r: Result<Option<HAst>, ParseError>)
        requires
            old(self).wf(),
            old(it).wf(),
            ctx_wf(*old(ctx)),
            kw_let.data == TokenData::Keyword(Keyword::Let),
            forall|a: &str| #[trigger] call_requires(fp, (a,)),
        ensures
            final(self).wf(),
            final(it).wf(),
            ctx_wf(*final(ctx)),
            ctx_extends(*final(ctx), *old(ctx)),
            tbl_extends(final(it)@, old(it)@),
            final(self).lexer.inner.input == old(self).lexer.inner.input,
            remaining(final(self).lexer) <= remaining(old(self).lexer),
            match r {
                Ok(h) => h matches Some(hh) && hh matches HAst::Let(lid)
                    && final(ctx).let_node.valid(lid)
                    && let_node_wf(final(ctx).expr, final(ctx).let_node.at(lid))
                    && final(ctx).let_node.at(lid).kw_let == kw_let,
                Err(_) => true,
            },
            err_pedigree(r),
            ({
                let ks = pk_kinds(old(self).lexer);
                let_body_ok(ks) ==> r is Ok && pk_kinds(final(self).lexer) == ks.skip(
                    let_body_len(ks),
                )
            }),
            ({
                let ks = pk_kinds(old(self).lexer);
                let ts = pk_tokens(old(self).lexer, old(it)@);
                let p: int = if ks.len() > 0 && ks[0] == TokenType::Keyword(Keyword::Mut) {
                    1int
                } else {
                    0int
                };
                let_body_ok(ks) ==> match (r, expr_end_kinds(ks.skip(p + 2))) {
                    (Ok(Some(HAst::Let(lid))), Some(q)) => ({
                        let node = final(ctx).let_node.at(lid);
                        &&& node.kw_mut == if p == 1 {
                            Some(ts[0])
                        } else {
                            None::<Token>
                        }
                        &&& node.ident == ts[p]
                        &&& node.sym_assign == ts[p + 1]
                        &&& node.sym_semi == ts[p + 2 + q]
                        &&& denote_expr(final(ctx).expr, node.value, ts.subrange(p + 2, p + 2 + q))
                    }),
                    _ => false,
                }
            }),
            ({
                let ks = pk_kinds(old(self).lexer);
                let ts = pk_tokens(old(self).lexer, old(it)@);
                let p: int = if ks.len() > 0 && ks[0] == TokenType::Keyword(Keyword::Mut) {
                    1int
                } else {
                    0int
                };
                assign_missing(ks) ==> r == Err::<Option<HAst>, ParseError>(
                    plain_err(
                        Error::Expected(TokenType::Symbol(Symbol::Assign), Some(ts[p + 1].span)),
                    ),
                )
            }),
    {
        let ghost ks0 = pk_kinds(self.lexer);
        let ghost ts0 = pk_tokens(self.lexer, it@);
        let ghost owed = let_body_ok(ks0);
        let ghost miss = assign_missing(ks0);
        let ghost p: int = if ks0.len() > 0 && ks0[0] == TokenType::Keyword(Keyword::Mut) {
            1int
        } else {
            0int
        };
        let expected = vec![TokenType::Keyword(Keyword::Mut), TokenType::Identifier];
        proof {
            lemma_pk_tokens_kinds(self.lexer, it@);
            assert(expected@ =~= seq![TokenType::Keyword(Keyword::Mut), TokenType::Identifier]);
            if owed || miss {
                assert(expected@.contains(ks0[0]));
            }
        }
        let token = match self.expect_any(it, fp, &expected) {
            Ok(t) => t,
            Err(e) => {
                return Err(e);
            },
        };
        proof {
            if owed || miss {
                assert(ks0.drop_first() =~= ks0.skip(1));
                assert(ts0.drop_first() =~= ts0.skip(1));
            }
        }
        let is_mut = match token.data {
            TokenData::Keyword(Keyword::Mut) => true,
            _ => false,
        };
        let (kw_mut, ident) = if is_mut {
            proof {
                if owed || miss {
                    assert(ks0.skip(1)[0] == ks0[1]);
                }
            }
            let ident = match self.expect(it, fp, TokenType::Identifier) {
                Ok(t) => t,
                Err(e) => {
                    return Err(e);
                },
            };
            proof {
                if owed || miss {
                    assert(ks0.skip(1).drop_first() =~= ks0.skip(2));
                    assert(ts0.skip(1).drop_first() =~= ts0.skip(2));
                    assert(ts0.skip(1)[0] == ts0[1]);
                }
            }
            (Some(token), ident)
        } else {
            (None, token)
        };
        proof {
            if owed || miss {
                assert(pk_kinds(self.lexer) == ks0.skip(p + 1));
                assert(ks0.skip(p + 1)[0] == ks0[p + 1]);
                assert(pk_tokens(self.lexer, it@) == ts0.skip(p + 1));
                assert(ts0.skip(p + 1)[0] == ts0[p + 1]);
            }
        }
        let ghost pre_assign = self.lexer;
        let ghost tbl_assign = it@;
        let assign_r = self.expect(it, fp, TokenType::Symbol(Symbol::Assign));
        proof {
            if miss {
                let lr = choose|lr: Result<Option<Token>, LexError>|
                    expect_case(
                        pre_assign,
                        self.lexer,
                        tbl_assign,
                        it@,
                        lr,
                        TokenType::Symbol(Symbol::Assign),
                        assign_r,
                    );
                lemma_step_yields_head(pre_assign, self.lexer, tbl_assign, it@, lr);
                lemma_step_yields_token(pre_assign, self.lexer, tbl_assign, it@, lr);
            }
        }
        let sym_assign = match assign_r {
            Ok(t) => t,
            Err(e) => {
                return Err(e);
            },
        };
        proof {
            if owed {
                assert(ks0.skip(p + 1).drop_first() =~= ks0.skip(p + 2));
                assert(ts0.skip(p + 1).drop_first() =~= ts0.skip(p + 2));
                assert(pk_tokens(self.lexer, it@) == ts0.skip(p + 2));
            }
        }
        let value = match self.parse_expr(ctx, it, fp) {
            Ok(e) => e,
            Err(e) => {
                return Err(e);
            },
        };
        proof {
            if owed {
                lemma_expr_end_bounds(ks0.skip(p + 2));
                match expr_end_kinds(ks0.skip(p + 2)) {
                    Some(q) => {
                        assert(ks0.skip(p + 2).skip(q) =~= ks0.skip(p + 2 + q));
                        assert(ks0.skip(p + 2 + q)[0] == ks0[p + 2 + q]);
                        assert(ts0.skip(p + 2).skip(q) =~= ts0.skip(p + 2 + q));
                        assert(pk_tokens(self.lexer, it@) == ts0.skip(p + 2).skip(q));
                        assert(pk_tokens(self.lexer, it@) == ts0.skip(p + 2 + q));
                        assert(ts0.skip(p + 2 + q)[0] == ts0[p + 2 + q]);
                        assert(ts0.skip(p + 2).subrange(0, q) =~= ts0.subrange(p + 2, p + 2 + q));
                    },
                    None => (),
                }
            }
        }
        let sym_semi = match self.expect(it, fp, TokenType::Symbol(Symbol::Semicolon)) {
            Ok(t) => t,
            Err(e) => {
                return Err(e);
            },
        };
        proof {
            if owed {
                match expr_end_kinds(ks0.skip(p + 2)) {
                    Some(q) => {
                        assert(ks0.skip(p + 2 + q).drop_first() =~= ks0.skip(p + 2 + q + 1));
                        assert(sym_semi == ts0[p + 2 + q]);
                    },
                    None => (),
                }
            }
        }
        let ast_let = Let { kw_let, kw_mut, ident, sym_assign, value, sym_semi };
        let lid = ctx.let_node.allocate(ast_let);
        Ok(Some(HAst::Let(lid)))
    }

    /// One top-level item: `Ok(None)` exactly at clean end of input; a
    /// `let` keyword parses a `let` statement whose stored node is handed
    /// back; any other leading token is rejected with the expectation of a
    /// `let` keyword, anchored at that token's span.
    pub fn parse<
        A: Arena<Value = HAst>,
        B: Arena<Value = Let>,
        C: Arena<Value = Expr>,
        F: Copy + Fn(&str) -> Option<u64>,
    >(
        &mut self,
        ctx: &mut Context<A, B, C>,
        it: &mut Interner,
        fp: F,
    ) -> (r: Result<Option<HAst>, ParseError>)
        requires
            old(self).wf(),
            old(it).wf(),
            ctx_wf(*old(ctx)),
            forall|a: &str| #[trigger] call_requires(fp, (a,)),
        ensures
            final(self).wf(),
            final(it).wf(),
            ctx_wf(*final(ctx)),
            ctx_extends(*final(ctx), *old(ctx)),
            tbl_extends(final(it)@, old(it)@),
            final(self).lexer.inner.input == old(self).lexer.inner.input,
            remaining(final(self).lexer) <= remaining(old(self).lexer),
            match r {
                Ok(Some(hh)) => hh matches HAst::Let(lid) && final(ctx).let_node.valid(lid)
                    && let_node_wf(final(ctx).expr, final(ctx).let_node.at(lid))
                    && final(ctx).let_node.at(lid).kw_let.data == TokenData::Keyword(Keyword::Let),
                Ok(None) => at_clean_end(old(self).lexer),
                Err(_) => true,
            },
            err_pedigree(r),
            at_clean_end(old(self).lexer) ==> r == Ok::<Option<HAst>, ParseError>(None),
            pk_lex_fails(old(self).lexer) ==> exists|le: LexError|
                #[trigger] step_result(
                    old(self).lexer,
                    final(self).lexer,
                    old(it)@,
                    final(it)@,
                    Err(le),
                ) && r == Err::<Option<HAst>, ParseError>(wrap_lex(le)),
            ({
                let ks = pk_kinds(old(self).lexer);
                &&& ks.len() > 0 && ks[0] == TokenType::Keyword(Keyword::Let) && let_body_ok(
                    ks.drop_first(),
                ) ==> r is Ok && r != Ok::<Option<HAst>, ParseError>(None) && pk_kinds(
                    final(self).lexer,
                ) == ks.drop_first().skip(let_body_len(ks.drop_first()))
                &&& ks.len() > 0 && ks[0] == TokenType::Keyword(Keyword::Let) && assign_missing(
                    ks.drop_first(),
                ) ==> ({
                    let ts1 = pk_tokens(old(self).lexer, old(it)@).drop_first();
                    let ks1 = ks.drop_first();
                    let p: int = if ks1.len() > 0 && ks1[0] == TokenType::Keyword(Keyword::Mut) {
                        1int
                    } else {
                        0int
                    };
                    r == Err::<Option<HAst>, ParseError>(
                        plain_err(
                            Error::Expected(
                                TokenType::Symbol(Symbol::Assign),
                                Some(ts1[p + 1].span),
                            ),
                        ),
                    )
                })
                &&& ks.len() > 0 && ks[0] != TokenType::Keyword(Keyword::Let) ==> r == Err::<
                    Option<HAst>,
                    ParseError,
                >(
                    plain_err(
                        Error::Expected(
                            TokenType::Keyword(Keyword::Let),
                            Some(pk_tokens(old(self).lexer, old(it)@)[0].span),
                        ),
                    ),
                )
            }),
            ({
                let ks = pk_kinds(old(self).lexer);
                let ts = pk_tokens(old(self).lexer, old(it)@);
                (ks.len() > 0 && ks[0] == TokenType::Keyword(Keyword::Let) && let_body_ok(
                    ks.drop_first(),
                )) ==> ({
                    let ks1 = ks.drop_first();
                    let ts1 = ts.drop_first();
                    let p: int = if ks1.len() > 0 && ks1[0] == TokenType::Keyword(Keyword::Mut) {
                        1int
                    } else {
                        0int
                    };
                    match (r, expr_end_kinds(ks1.skip(p + 2))) {
                        (Ok(Some(HAst::Let(lid))), Some(q)) => ({
                            let node = final(ctx).let_node.at(lid);
                            &&& node.kw_let == ts[0]
                            &&& node.kw_mut == if p == 1 {
                                Some(ts1[0])
                            } else {
                                None::<Token>
                            }
                            &&& node.ident == ts1[p]
                            &&& node.sym_assign == ts1[p + 1]
                            &&& node.sym_semi == ts1[p + 2 + q]
                            &&& denote_expr(
                                final(ctx).expr,
                                node.value,
                                ts1.subrange(p + 2, p + 2 + q),
                            )
                        }),
                        _ => false,
                    }
                })
            }),
    {
        let ghost pre = *self;
        let ghost ks0 = pk_kinds(self.lexer);
        let lr = self.lexer.parse(it, fp);
        proof {
            if ks0.len() > 0 {
                lemma_step_yields_head(pre.lexer, self.lexer, old(it)@, it@, lr);
                lemma_step_yields_token(pre.lexer, self.lexer, old(it)@, it@, lr);
            }
            if pk_lex_fails(pre.lexer) {
                lemma_step_fails(pre.lexer, self.lexer, old(it)@, it@, lr);
            }
        }
        let token = match lr {
            Ok(Some(t)) => t,
            Ok(None) => {
                proof {
                    assert(step_result(pre.lexer, self.lexer, old(it)@, it@, lr));
                }
                return Ok(None);
            },
            Err(le) => {
                proof {
                    assert(step_result(
                        pre.lexer,
                        self.lexer,
                        old(it)@,
                        it@,
                        Err::<Option<Token>, LexError>(le),
                    ));
                }
                return Err(le.with_context(Error::LexError));
            },
        };
        match token.data {
            TokenData::Keyword(Keyword::Let) => self.parse_let(ctx, it, fp, token),
            _ => Err(
                crate::error::Error::new(
                    Error::Expected(TokenType::Keyword(Keyword::Let), Some(token.span)),
                ),
            ),
        }
    }
}

/// The kinds a primary expression may start with, as an owned list.
fn primary_kinds() -> (r: Vec<TokenType>)
    ensures
        r@ == primary_expected(),
{
    let r = vec![TokenType::Identifier, TokenType::Integer, TokenType::Float];
    proof {
        assert(r@ =~= primary_expected());
    }
    r
}

} // verus!
