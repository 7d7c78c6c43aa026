//! Slab arena for shared use.
//!
//! Same contract as the single-threaded arena, with the slab layout of the
//! shared variant: the first slab holds 64 values, allocation scans the
//! existing slabs for one with spare capacity and appends a new slab of
//! double the last capacity when every slab is full. Exclusion here comes
//! from `&mut` access; wrapping a value of this type in a process-wide lock
//! is left to the embedding program. The introspection methods (slab and
//! value counts, capacities) exist for diagnostics and tuning.

use vstd::prelude::*;

use crate::arena::{lemma_total_len_push, lemma_total_len_update, lemma_totals, total_cap, total_len, Arena, NodeId, Slab};

verus! {

/// The capacity of the first slab.
pub const DEFAULT_SLAB_CAPACITY: usize = 64;

pub struct SyncArena<T> {
    pub slabs: Vec<Slab<T>>,
}

impl<T> SyncArena<T> {
    /// The slab sizing policy: the first slab holds `DEFAULT_SLAB_CAPACITY`,
    /// each appended slab doubles its predecessor (to the point where
    /// doubling no longer fits), no slab is over its capacity, and every
    /// slab but the last is exactly full — a slab is appended only once
    /// every existing one is full.
    pub open spec fn wf_spec(&self) -> bool {
        &&& forall|k: int|
            0 <= k < self.slabs@.len() ==> (#[trigger] self.slabs@[k]).data@.len()
                <= self.slabs@[k].cap && self.slabs@[k].cap >= 1
        &&& self.slabs@.len() > 0 ==> self.slabs@[0].cap == DEFAULT_SLAB_CAPACITY
        &&& forall|k: int|
            1 <= k < self.slabs@.len() ==> (#[trigger] self.slabs@[k]).cap
                == crate::local::next_cap(self.slabs@[k - 1].cap as int)
        &&& forall|k: int|
            0 <= k < self.slabs@.len() - 1 ==> (#[trigger] self.slabs@[k]).data@.len()
                == self.slabs@[k].cap
    }

    pub open spec fn valid_spec(&self, i: NodeId) -> bool {
        i.slab < self.slabs@.len() && i.off < self.slabs@[i.slab as int].data@.len()
    }

    pub open spec fn at_spec(&self, i: NodeId) -> T {
        self.slabs@[i.slab as int].data@[i.off as int]
    }

    /// An empty arena; the first slab is created on first allocation.
    pub fn new() -> (r: Self)
        ensures
            r.wf_spec(),
            forall|j: NodeId| !r.valid_spec(j),
            r.slabs@.len() == 0,
    {
        SyncArena { slabs: Vec::new() }
    }

    /// Stores `value` into the first slab with spare capacity, appending a
    /// new slab when every existing one is full; returns the stable handle.
    pub fn allocate(&mut self, value: T) -> (i: NodeId)
        requires
            old(self).wf_spec(),
        ensures
            final(self).wf_spec(),
            final(self).valid_spec(i),
            final(self).at_spec(i) == value,
            !old(self).valid_spec(i),
            forall|j: NodeId|
                #[trigger] old(self).valid_spec(j)
                    ==> final(self).valid_spec(j) && final(self).at_spec(j) == old(self).at_spec(j),
            forall|j: NodeId|
                #[trigger] final(self).valid_spec(j) ==> old(self).valid_spec(j) || j == i,
            total_len(final(self).slabs@) == total_len(old(self).slabs@) + 1,
    {
        let n = self.slabs.len();
        let mut k: usize = 0;
        while k < n
            invariant
                *self == *old(self),
                old(self).wf_spec(),
                n == self.slabs@.len(),
                k <= n,
                forall|kk: int|
                    0 <= kk < k ==> (#[trigger] self.slabs@[kk]).data@.len()
                        == self.slabs@[kk].cap,
            decreases n - k,
        {
            let len = self.slabs[k].data.len();
            if len < self.slabs[k].cap {
                let ghost mid = *self;
                let slab = &mut self.slabs[k];
                let off = slab.data.len();
                slab.data.push(value);
                proof {
                    assert(self.slabs@ =~= mid.slabs@.update(
                        k as int,
                        Slab { data: self.slabs@[k as int].data, cap: mid.slabs@[k as int].cap },
                    ));
                    lemma_total_len_update(
                        mid.slabs@,
                        k as int,
                        Slab { data: self.slabs@[k as int].data, cap: mid.slabs@[k as int].cap },
                    );
                }
                return NodeId { slab: k, off };
            }
            k += 1;
        }
        let cap = if n == 0 {
            DEFAULT_SLAB_CAPACITY
        } else {
            let last_cap = self.slabs[n - 1].cap;
            if last_cap <= usize::MAX / 2 {
                last_cap * 2
            } else {
                last_cap
            }
        };
        let ghost pre = self.slabs@;
        let mut data = Vec::with_capacity(cap);
        data.push(value);
        self.slabs.push(Slab { data, cap });
        proof {
            lemma_total_len_push(pre, self.slabs@.last());
            assert(self.slabs@ =~= pre.push(self.slabs@.last()));
        }
        NodeId { slab: n, off: 0 }
    }

    /// Reads the value at `i`.
    pub fn get(&self, i: NodeId) -> (r: &T)
        requires
            self.valid_spec(i),
        ensures
            *r == self.at_spec(i),
    {
        &self.slabs[i.slab].data[i.off]
    }

    /// Exclusive access to the value at `i`.
    pub fn get_mut(&mut self, i: NodeId) -> (r: &mut T)
        requires
            old(self).wf_spec(),
            old(self).valid_spec(i),
        ensures
            *r == old(self).at_spec(i),
            final(self).wf_spec(),
            final(self).at_spec(i) == *final(r),
            forall|j: NodeId| #[trigger] final(self).valid_spec(j) <==> old(self).valid_spec(j),
            forall|j: NodeId|
                j != i && old(self).valid_spec(j)
                    ==> #[trigger] final(self).at_spec(j) == old(self).at_spec(j),
    {
        let slab = &mut self.slabs[i.slab];
        &mut slab.data[i.off]
    }

    /// The number of slabs created so far.
    pub fn slab_count(&self) -> (r: usize)
        ensures
            r == self.slabs@.len(),
    {
        self.slabs.len()
    }

    /// The number of values allocated so far.
    pub fn value_count(&self) -> (r: usize)
        requires
            total_len(self.slabs@) <= usize::MAX,
        ensures
            r == total_len(self.slabs@),
    {
        let n = self.slabs.len();
        let mut acc: usize = 0;
        let mut k: usize = 0;
        proof {
            assert(self.slabs@.skip(0) =~= self.slabs@);
        }
        while k < n
            invariant
                n == self.slabs@.len(),
                k <= n,
                total_len(self.slabs@) <= usize::MAX,
                acc + total_len(self.slabs@.skip(k as int)) == total_len(self.slabs@),
            decreases n - k,
        {
            proof {
                assert(self.slabs@.skip(k as int).drop_first() =~= self.slabs@.skip(k as int + 1));
                lemma_totals(self.slabs@.skip(k as int + 1));
            }
            acc = acc + self.slabs[k].data.len();
            k += 1;
        }
        acc
    }

    /// The total nominal capacity of all slabs.
    pub fn value_capacity(&self) -> (r: usize)
        requires
            total_cap(self.slabs@) <= usize::MAX,
        ensures
            r == total_cap(self.slabs@),
    {
        let n = self.slabs.len();
        let mut acc: usize = 0;
        let mut k: usize = 0;
        proof {
            assert(self.slabs@.skip(0) =~= self.slabs@);
        }
        while k < n
            invariant
                n == self.slabs@.len(),
                k <= n,
                total_cap(self.slabs@) <= usize::MAX,
                acc + total_cap(self.slabs@.skip(k as int)) == total_cap(self.slabs@),
            decreases n - k,
        {
            proof {
                assert(self.slabs@.skip(k as int).drop_first() =~= self.slabs@.skip(k as int + 1));
                lemma_totals(self.slabs@.skip(k as int + 1));
            }
            acc = acc + self.slabs[k].cap;
            k += 1;
        }
        acc
    }

    /// How many more values fit before a new slab is needed.
    pub fn value_remaining_capacity(&self) -> (r: usize)
        requires
            self.wf_spec(),
            total_cap(self.slabs@) <= usize::MAX,
        ensures
            r == total_cap(self.slabs@) - total_len(self.slabs@),
    {
        let n = self.slabs.len();
        let mut acc: usize = 0;
        let mut k: usize = 0;
        proof {
            assert(self.slabs@.skip(0) =~= self.slabs@);
        }
        while k < n
            invariant
                self.wf_spec(),
                n == self.slabs@.len(),
                k <= n,
                total_cap(self.slabs@) <= usize::MAX,
                acc + total_cap(self.slabs@.skip(k as int)) - total_len(self.slabs@.skip(k as int))
                    == total_cap(self.slabs@) - total_len(self.slabs@),
            decreases n - k,
        {
            proof {
                assert(self.slabs@.skip(k as int).drop_first() =~= self.slabs@.skip(k as int + 1));
                lemma_totals(self.slabs@.skip(k as int + 1));
                assert(forall|m: int|
                    0 <= m < self.slabs@.skip(k as int + 1).len()
                        ==> (#[trigger] self.slabs@.skip(k as int + 1)[m]).data@.len()
                        <= self.slabs@.skip(k as int + 1)[m].cap);
                lemma_totals(self.slabs@);
            }
            acc = acc + (self.slabs[k].cap - self.slabs[k].data.len());
            k += 1;
        }
        acc
    }
}

impl<T> Default for SyncArena<T> {
    fn default() -> (r: Self)
        ensures
            r.wf_spec(),
            forall|j: NodeId| !r.valid_spec(j),
    {
        SyncArena::new()
    }
}

impl<T> Arena for SyncArena<T> {
    type Value = T;

    open spec fn valid(&self, i: NodeId) -> bool {
        self.valid_spec(i)
    }

    open spec fn at(&self, i: NodeId) -> T {
        self.at_spec(i)
    }

    open spec fn wf(&self) -> bool {
        self.wf_spec()
    }

    fn empty() -> (r: Self) {
        SyncArena::new()
    }

    fn allocate(&mut self, value: T) -> (i: NodeId) {
        let i = SyncArena::allocate(self, value);
        i
    }

    fn get(&self, i: NodeId) -> (r: &T) {
        SyncArena::get(self, i)
    }

    fn get_mut(&mut self, i: NodeId) -> (r: &mut T) {
        SyncArena::get_mut(self, i)
    }
}

} // verus!
