//! Single-threaded bump arena.
//!
//! Values live in a growing list of slabs. Allocation goes into the last
//! slab while it has spare capacity; when it is full a new slab of double its
//! capacity is appended (the first slab holds 16). Slabs are only appended
//! and values only pushed, so every handle stays valid and keeps its value.

use vstd::prelude::*;

use crate::arena::{
    alloc_step, lemma_total_len_push, lemma_total_len_update, total_len, Arena, NodeId, Slab,
};

verus! {

/// The capacity of the first slab.
pub const FIRST_SLAB_CAPACITY: usize = 16;

pub struct LocalArena<T> {
    pub slabs: Vec<Slab<T>>,
}

/// The capacity the slab after one of capacity `c` is created with: double,
/// to the point where doubling no longer fits in `usize`.
pub open spec fn next_cap(c: int) -> int {
    if c <= usize::MAX / 2 {
        2 * c
    } else {
        c
    }
}

impl<T> LocalArena<T> {
    /// The slab sizing policy: the first slab holds `FIRST_SLAB_CAPACITY`,
    /// each appended slab doubles its predecessor, no slab is over its
    /// capacity, and every slab but the last is exactly full — a slab is
    /// appended only once the last one is full.
    pub open spec fn wf_spec(&self) -> bool {
        &&& forall|k: int|
            0 <= k < self.slabs@.len() ==> (#[trigger] self.slabs@[k]).data@.len()
                <= self.slabs@[k].cap && self.slabs@[k].cap >= 1
        &&& self.slabs@.len() > 0 ==> self.slabs@[0].cap == FIRST_SLAB_CAPACITY
        &&& forall|k: int|
            1 <= k < self.slabs@.len() ==> (#[trigger] self.slabs@[k]).cap == next_cap(
                self.slabs@[k - 1].cap as int,
            )
        &&& forall|k: int|
            0 <= k < self.slabs@.len() - 1 ==> (#[trigger] self.slabs@[k]).data@.len()
                == self.slabs@[k].cap
    }

    pub open spec fn valid_spec(&self, i: NodeId) -> bool {
        i.slab < self.slabs@.len() && i.off < self.slabs@[i.slab as int].data@.len()
    }

    pub open spec fn at_spec(&self, i: NodeId) -> T {
        self.slabs@[i.slab as int].data@[i.off as int]
    }

    /// An empty arena: no slabs yet; the first slab is created on first
    /// allocation.
    pub fn new() -> (r: Self)
        ensures
            r.wf_spec(),
            forall|j: NodeId| !r.valid_spec(j),
            r.slabs@.len() == 0,
    {
        LocalArena { slabs: Vec::new() }
    }

    /// Makes sure the last slab exists and has spare capacity, appending a
    /// slab (the first, or one of double the last slab's capacity) if not.
    fn ensure_space(&mut self)
        requires
            old(self).wf_spec(),
        ensures
            final(self).wf_spec(),
            final(self).slabs@.len() >= 1,
            final(self).slabs@.last().data@.len() < final(self).slabs@.last().cap,
            forall|j: NodeId|
                #[trigger] final(self).valid_spec(j) == old(self).valid_spec(j),
            forall|j: NodeId|
                old(self).valid_spec(j)
                    ==> #[trigger] final(self).at_spec(j) == old(self).at_spec(j),
            final(self).slabs@.len() == old(self).slabs@.len()
                || final(self).slabs@.len() == old(self).slabs@.len() + 1,
            final(self).slabs@.len() == old(self).slabs@.len() + 1
                ==> final(self).slabs@.last().data@.len() == 0,
            forall|k: int|
                0 <= k < old(self).slabs@.len()
                    ==> #[trigger] final(self).slabs@[k] == old(self).slabs@[k],
    {
        let n = self.slabs.len();
        if n == 0 {
            let slab = Slab { data: Vec::with_capacity(FIRST_SLAB_CAPACITY), cap: FIRST_SLAB_CAPACITY };
            self.slabs.push(slab);
            return ;
        }
        let last_len = self.slabs[n - 1].data.len();
        let last_cap = self.slabs[n - 1].cap;
        if last_len == last_cap {
            let new_cap = if last_cap <= usize::MAX / 2 {
                last_cap * 2
            } else {
                last_cap
            };
            let slab = Slab { data: Vec::with_capacity(new_cap), cap: new_cap };
            self.slabs.push(slab);
        }
    }

    /// Stores `value` and returns its stable handle.
    pub fn allocate(&mut self, value: T) -> (i: NodeId)
        requires
            old(self).wf_spec(),
        ensures
            final(self).wf_spec(),
            final(self).valid_spec(i),
            final(self).at_spec(i) == value,
            !old(self).valid_spec(i),
            forall|j: NodeId|
                #[trigger] old(self).valid_spec(j)
                    ==> final(self).valid_spec(j) && final(self).at_spec(j) == old(self).at_spec(j),
            forall|j: NodeId|
                #[trigger] final(self).valid_spec(j) ==> old(self).valid_spec(j) || j == i,
            total_len(final(self).slabs@) == total_len(old(self).slabs@) + 1,
    {
        let ghost pre = *self;
        self.ensure_space();
        let ghost mid = *self;
        proof {
            if mid.slabs@.len() == pre.slabs@.len() + 1 {
                lemma_total_len_push(pre.slabs@, mid.slabs@.last());
                assert(mid.slabs@ =~= pre.slabs@.push(mid.slabs@.last()));
            } else {
                assert(mid.slabs@ =~= pre.slabs@);
            }
        }
        let k = self.slabs.len() - 1;
        let slab = &mut self.slabs[k];
        let off = slab.data.len();
        slab.data.push(value);
        proof {
            assert(self.slabs@ =~= mid.slabs@.update(
                k as int,
                Slab { data: self.slabs@[k as int].data, cap: mid.slabs@[k as int].cap },
            ));
            lemma_total_len_update(
                mid.slabs@,
                k as int,
                Slab { data: self.slabs@[k as int].data, cap: mid.slabs@[k as int].cap },
            );
        }
        NodeId { slab: k, off }
    }

    /// Reads the value at `i`.
    pub fn get(&self, i: NodeId) -> (r: &T)
        requires
            self.valid_spec(i),
        ensures
            *r == self.at_spec(i),
    {
        &self.slabs[i.slab].data[i.off]
    }

    /// Exclusive access to the value at `i`.
    pub fn get_mut(&mut self, i: NodeId) -> (r: &mut T)
        requires
            old(self).wf_spec(),
            old(self).valid_spec(i),
        ensures
            *r == old(self).at_spec(i),
            final(self).wf_spec(),
            final(self).at_spec(i) == *final(r),
            forall|j: NodeId| #[trigger] final(self).valid_spec(j) <==> old(self).valid_spec(j),
            forall|j: NodeId|
                j != i && old(self).valid_spec(j)
                    ==> #[trigger] final(self).at_spec(j) == old(self).at_spec(j),
    {
        let slab = &mut self.slabs[i.slab];
        &mut slab.data[i.off]
    }
}

impl<T> Arena for LocalArena<T> {
    type Value = T;

    open spec fn valid(&self, i: NodeId) -> bool {
        self.valid_spec(i)
    }

    open spec fn at(&self, i: NodeId) -> T {
        self.at_spec(i)
    }

    open spec fn wf(&self) -> bool {
        self.wf_spec()
    }

    fn empty() -> (r: Self) {
        LocalArena::new()
    }

    fn allocate(&mut self, value: T) -> (i: NodeId) {
        let i = LocalArena::allocate(self, value);
        i
    }

    fn get(&self, i: NodeId) -> (r: &T) {
        LocalArena::get(self, i)
    }

    fn get_mut(&mut self, i: NodeId) -> (r: &mut T) {
        LocalArena::get_mut(self, i)
    }
}

} // verus!
