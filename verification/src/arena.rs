//! Arena allocation.
//!
//! An arena owns many values with one bulk lifetime: a value, once allocated,
//! is never moved or freed individually, so the [`NodeId`] returned for it
//! stays valid, and keeps denoting the same slot, for the arena's whole life.
//! Both implementations ([`local::LocalArena`] and [`sync::SyncArena`]) keep
//! their values in a growing list of fixed-capacity slabs and only ever
//! append, which is what makes the handles stable.

use vstd::prelude::*;

verus! {

/// A stable handle for one allocated value: the slab it sits in and its
/// offset inside that slab.
#[derive(Debug, Clone, Copy, PartialEq, Eq, Structural, Hash)]
pub struct NodeId {
    pub slab: usize,
    pub off: usize,
}

/// One fixed-capacity block of arena storage. `cap` is the block's nominal
/// capacity: the arena never pushes more than `cap` values into `data`.
pub struct Slab<T> {
    pub data: Vec<T>,
    pub cap: usize,
}

/// The number of values held over a list of slabs.
pub open spec fn total_len<T>(ss: Seq<Slab<T>>) -> int
    decreases ss.len(),
{
    if ss.len() == 0 {
        0
    } else {
        ss[0].data@.len() + total_len(ss.drop_first())
    }
}

/// The nominal capacity over a list of slabs.
pub open spec fn total_cap<T>(ss: Seq<Slab<T>>) -> int
    decreases ss.len(),
{
    if ss.len() == 0 {
        0
    } else {
        ss[0].cap + total_cap(ss.drop_first())
    }
}

/// Lengths and capacities are nonnegative, and when every slab holds no more
/// than its capacity the totals are ordered the same way.
pub proof fn lemma_totals<T>(ss: Seq<Slab<T>>)
    ensures
        0 <= total_len(ss),
        0 <= total_cap(ss),
        (forall|k: int|
            0 <= k < ss.len() ==> (#[trigger] ss[k]).data@.len() <= ss[k].cap) ==> total_len(ss)
            <= total_cap(ss),
    decreases ss.len(),
{
    if ss.len() > 0 {
        lemma_totals(ss.drop_first());
    }
}

/// Replacing the slab at `k` by one holding one more value raises the total
/// by one.
pub proof fn lemma_total_len_update<T>(ss: Seq<Slab<T>>, k: int, s2: Slab<T>)
    requires
        0 <= k < ss.len(),
        s2.data@.len() == ss[k].data@.len() + 1,
    ensures
        total_len(ss.update(k, s2)) == total_len(ss) + 1,
    decreases ss.len(),
{
    if k == 0 {
        assert(ss.update(0, s2).drop_first() =~= ss.drop_first());
    } else {
        assert(ss.update(k, s2).drop_first() =~= ss.drop_first().update(k - 1, s2));
        lemma_total_len_update(ss.drop_first(), k - 1, s2);
    }
}

/// Appending a slab raises the total by that slab's value count.
pub proof fn lemma_total_len_push<T>(ss: Seq<Slab<T>>, s2: Slab<T>)
    ensures
        total_len(ss.push(s2)) == total_len(ss) + s2.data@.len(),
    decreases ss.len(),
{
    if ss.len() == 0 {
        assert(ss.push(s2)[0] == s2);
        assert(ss.push(s2).drop_first() =~= Seq::<Slab<T>>::empty());
        assert(total_len(Seq::<Slab<T>>::empty()) == 0);
        assert(total_len(ss.push(s2)) == s2.data@.len() + total_len(ss.push(s2).drop_first()));
    } else {
        assert(ss.push(s2)[0] == ss[0]);
        assert(ss.push(s2).drop_first() =~= ss.drop_first().push(s2));
        lemma_total_len_push(ss.drop_first(), s2);
        assert(total_len(ss.push(s2)) == ss[0].data@.len() + total_len(ss.push(s2).drop_first()));
    }
}

/// The common contract of the arena implementations: allocate a value,
/// receive a handle that stays valid and keeps its value as the arena grows.
pub trait Arena: Sized {
    type Value;

    /// Whether `i` denotes an allocated slot.
    spec fn valid(&self, i: NodeId) -> bool;

    /// The value stored at `i`.
    spec fn at(&self, i: NodeId) -> Self::Value;

    /// The implementation's internal invariant.
    spec fn wf(&self) -> bool;

    /// An empty arena.
    fn empty() -> (r: Self)
        ensures
            r.wf(),
            forall|j: NodeId| !r.valid(j),
    ;

    /// Stores `value` and returns a fresh handle for it. Every handle that
    /// was valid before stays valid and keeps its value.
    fn allocate(&mut self, value: Self::Value) -> (i: NodeId)
        requires
            old(self).wf(),
        ensures
            final(self).wf(),
            final(self).valid(i),
            final(self).at(i) == value,
            !old(self).valid(i),
            forall|j: NodeId|
                #[trigger] old(self).valid(j)
                    ==> final(self).valid(j) && final(self).at(j) == old(self).at(j),
            forall|j: NodeId| #[trigger] final(self).valid(j) ==> old(self).valid(j) || j == i,
    ;

    /// Reads the value at `i`.
    fn get(&self, i: NodeId) -> (r: &Self::Value)
        requires
            self.wf(),
            self.valid(i),
        ensures
            *r == self.at(i),
    ;

    /// Exclusive access to the value at `i`. Writing through the result
    /// changes that slot and nothing else.
    fn get_mut(&mut self, i: NodeId) -> (r: &mut Self::Value)
        requires
            old(self).wf(),
            old(self).valid(i),
        ensures
            *r == old(self).at(i),
            final(self).wf(),
            final(self).at(i) == *final(r),
            forall|j: NodeId| #[trigger] final(self).valid(j) <==> old(self).valid(j),
            forall|j: NodeId|
                j != i && old(self).valid(j) ==> #[trigger] final(self).at(j) == old(self).at(j),
    ;
}

/// What one allocation does: `i` is fresh, holds `value` afterwards, exactly
/// one slot was added, and every previously valid handle keeps its value.
pub open spec fn alloc_step<A: Arena>(pre: A, post: A, i: NodeId, value: A::Value) -> bool {
    &&& post.valid(i)
    &&& post.at(i) == value
    &&& !pre.valid(i)
    &&& extends(post, pre)
    &&& forall|j: NodeId| #[trigger] post.valid(j) ==> pre.valid(j) || j == i
}

/// `post` preserves `pre`: every handle valid in `pre` is valid in `post`
/// and still holds the same value.
pub open spec fn extends<A: Arena>(post: A, pre: A) -> bool {
    forall|j: NodeId|
        #[trigger] pre.valid(j) ==> post.valid(j) && post.at(j) == pre.at(j)
}

/// Arena stability, one step: an allocation leaves every previously returned
/// handle valid with its contents unchanged.
pub proof fn lemma_alloc_stable<A: Arena>(pre: A, post: A, i: NodeId, value: A::Value)
    requires
        alloc_step(pre, post, i, value),
    ensures
        extends(post, pre),
{
}

/// Arena stability composes: across any chain of allocations, the handles
/// returned early on keep their contents.
pub proof fn lemma_extends_transitive<A: Arena>(c: A, b: A, a: A)
    requires
        extends(c, b),
        extends(b, a),
    ensures
        extends(c, a),
{
}

} // verus!
