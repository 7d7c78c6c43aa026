//! The typed arena aggregator.
//!
//! A [`Context`] holds one arena per node type, so allocations of different
//! shapes never compete for the same slab and each arena can be tuned on its
//! own. It is generic over the arena implementation, which is how the same
//! parser code runs over the single-threaded and the shared arena alike.
//! [`ContextOverload`] dispatches an allocation to the arena of the value's
//! type.

use vstd::prelude::*;

use crate::arena::{Arena, NodeId};
use crate::ast::{Expr, HAst, Let};
use crate::local::LocalArena;
use crate::sync::SyncArena;

verus! {

/// One arena per node type.
pub struct Context<A, B, C> {
    pub high_ast: A,
    pub let_node: B,
    pub expr: C,
}

/// A context over single-threaded arenas.
pub type LocalContext = Context<LocalArena<HAst>, LocalArena<Let>, LocalArena<Expr>>;

/// A context over shared-layout arenas.
pub type SyncContext = Context<SyncArena<HAst>, SyncArena<Let>, SyncArena<Expr>>;

/// Allocation of an `A` value into the context arena that stores that type.
pub trait ContextOverload<V>: Sized {
    /// Whether `i` denotes a stored node of type `V`.
    spec fn valid_node(&self, i: NodeId) -> bool;

    /// The stored node at `i`.
    spec fn node_at(&self, i: NodeId) -> V;

    /// The internal invariant of the arena holding `V` nodes.
    spec fn nodes_wf(&self) -> bool;

    /// Stores `value` in the arena for its type; the handle is fresh, and
    /// every older handle keeps its value.
    fn allocate(&mut self, value: V) -> (i: NodeId)
        requires
            old(self).nodes_wf(),
        ensures
            final(self).nodes_wf(),
            final(self).valid_node(i),
            final(self).node_at(i) == value,
            !old(self).valid_node(i),
            forall|j: NodeId|
                #[trigger] old(self).valid_node(j)
                    ==> final(self).valid_node(j) && final(self).node_at(j) == old(self).node_at(
                    j,
                ),
            forall|j: NodeId|
                #[trigger] final(self).valid_node(j) ==> old(self).valid_node(j) || j == i,
    ;

    /// Reads the node at `i`.
    fn node(&self, i: NodeId) -> (r: &V)
        requires
            self.nodes_wf(),
            self.valid_node(i),
        ensures
            *r == self.node_at(i),
    ;
}

impl<A: Arena<Value = HAst>, B, C> ContextOverload<HAst> for Context<A, B, C> {
    open spec fn valid_node(&self, i: NodeId) -> bool {
        self.high_ast.valid(i)
    }

    open spec fn node_at(&self, i: NodeId) -> HAst {
        self.high_ast.at(i)
    }

    open spec fn nodes_wf(&self) -> bool {
        self.high_ast.wf()
    }

    fn allocate(&mut self, value: HAst) -> (i: NodeId) {
        self.high_ast.allocate(value)
    }

    fn node(&self, i: NodeId) -> (r: &HAst) {
        self.high_ast.get(i)
    }
}

impl<A, B: Arena<Value = Let>, C> ContextOverload<Let> for Context<A, B, C> {
    open spec fn valid_node(&self, i: NodeId) -> bool {
        self.let_node.valid(i)
    }

    open spec fn node_at(&self, i: NodeId) -> Let {
        self.let_node.at(i)
    }

    open spec fn nodes_wf(&self) -> bool {
        self.let_node.wf()
    }

    fn allocate(&mut self, value: Let) -> (i: NodeId) {
        self.let_node.allocate(value)
    }

    fn node(&self, i: NodeId) -> (r: &Let) {
        self.let_node.get(i)
    }
}

impl<A, B, C: Arena<Value = Expr>> ContextOverload<Expr> for Context<A, B, C> {
    open spec fn valid_node(&self, i: NodeId) -> bool {
        self.expr.valid(i)
    }

    open spec fn node_at(&self, i: NodeId) -> Expr {
        self.expr.at(i)
    }

    open spec fn nodes_wf(&self) -> bool {
        self.expr.wf()
    }

    fn allocate(&mut self, value: Expr) -> (i: NodeId) {
        self.expr.allocate(value)
    }

    fn node(&self, i: NodeId) -> (r: &Expr) {
        self.expr.get(i)
    }
}

impl<A: Arena<Value = HAst>, B: Arena<Value = Let>, C: Arena<Value = Expr>> Context<A, B, C> {
    /// A context of three empty arenas.
    pub fn new() -> (r: Self)
        ensures
            r.high_ast.wf(),
            r.let_node.wf(),
            r.expr.wf(),
            forall|j: NodeId| !r.high_ast.valid(j),
            forall|j: NodeId| !r.let_node.valid(j),
            forall|j: NodeId| !r.expr.valid(j),
    {
        Context { high_ast: A::empty(), let_node: B::empty(), expr: C::empty() }
    }
}

} // verus!
