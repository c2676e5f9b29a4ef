//! The pools of one size class, kept sorted by address.
use vstd::prelude::*;
use crate::layout::{is_usable_base, Buffer, BufferLayout};
use crate::pool::{
    is_pool_layout, is_stride_for, lemma_drop_last_contains, lemma_push_contains, lemma_slot_address,
    lemma_pool_layout_unique, lemma_no_dup_bounded_full, lemma_slot_of_addr, lemma_slots_disjoint,
    Pool, PoolView,
};

verus! {

/// Each buffer ends at or before the start of every later one: the pools are
/// strictly sorted by `min_address` and their ranges never overlap.
pub open spec fn sorted_disjoint(pools: Seq<PoolView>) -> bool {
    forall|i: int, j: int| 0 <= i < j < pools.len() ==> #[trigger] pools[i].end() <= #[trigger] pools[j].base
}

/// What a size class holds, seen as plain values.
pub ghost struct FixView {
    /// Requested slot size.
    pub slot_size: int,
    /// Slots per pool.
    pub slot_count: int,
    /// Layout of every pool's buffer.
    pub layout: BufferLayout,
    /// The pools, by address.
    pub pools: Seq<PoolView>,
    /// Index of the pool that serves new requests.
    pub active: int,
}

/// How a request to take back an address ended.
#[derive(Clone, Copy, Debug, PartialEq, Eq, Structural)]
pub enum Release {
    /// No pool's range holds the address.
    Foreign,
    /// A pool's range holds the address, but no slot handed out starts there.
    Rejected,
    /// The slot is free again.
    Freed,
    /// The slot is free again, and its pool, now unused and not the active
    /// one, was dropped: its buffer goes back to the native allocator.
    Dropped(Buffer),
}

impl FixView {
    pub open spec fn wf(self) -> bool {
        &&& self.slot_size > 0
        &&& self.slot_count > 0
        &&& is_pool_layout(self.slot_size, self.slot_count, self.layout)
        &&& self.layout.is_valid()
        &&& forall|i: int| 0 <= i < self.pools.len() ==> {
            &&& #[trigger] self.pools[i].wf()
            &&& self.pools[i].slot_count == self.slot_count
            &&& self.pools[i].layout == self.layout
            &&& is_stride_for(self.slot_size, self.pools[i].slot_size)
        }
        &&& sorted_disjoint(self.pools)
        &&& self.pools.len() >= 1
        &&& 0 <= self.active < self.pools.len()
    }

    /// The active pool cannot serve a request: a new pool is needed first.
    pub open spec fn needs_pool(self) -> bool {
        self.pools[self.active].is_exhausted()
    }

    pub open spec fn alloc_result(self) -> Option<int> {
        if self.needs_pool() {
            None
        } else {
            self.pools[self.active].alloc_result()
        }
    }

    pub open spec fn after_alloc(self) -> FixView {
        if self.needs_pool() {
            self
        } else {
            FixView {
                pools: self.pools.update(self.active, self.pools[self.active].after_alloc()),
                ..self
            }
        }
    }

    /// Some pool's range holds the address.
    pub open spec fn owns(self, a: int) -> bool {
        exists|i: int| 0 <= i < self.pools.len() && #[trigger] self.pools[i].manages(a)
    }

    /// The pool whose range holds the address.
    pub open spec fn owner(self, a: int) -> int {
        choose|i: int| 0 <= i < self.pools.len() && #[trigger] self.pools[i].manages(a)
    }

    /// The address starts a slot that is handed out.
    pub open spec fn holds_live(self, a: int) -> bool {
        self.owns(a) && self.pools[self.owner(a)].holds_live(a)
    }

    /// Taking back `a` leaves its pool unused, and that pool is not the
    /// active one: it is dropped.
    pub open spec fn drops_on_free(self, a: int) -> bool {
        &&& self.holds_live(a)
        &&& self.owner(a) != self.active
        &&& self.pools[self.owner(a)].after_free(a).is_unused()
    }

    pub open spec fn release_result(self, a: int) -> Release {
        if !self.owns(a) {
            Release::Foreign
        } else if !self.pools[self.owner(a)].holds_live(a) {
            Release::Rejected
        } else if self.drops_on_free(a) {
            let p = self.pools[self.owner(a)];
            Release::Dropped(Buffer { base: p.base as usize, layout: p.layout })
        } else {
            Release::Freed
        }
    }

    pub open spec fn after_free(self, a: int) -> FixView {
        if !self.holds_live(a) {
            self
        } else if self.drops_on_free(a) {
            let o = self.owner(a);
            FixView {
                pools: self.pools.remove(o),
                active: if o < self.active { self.active - 1 } else { self.active },
                ..self
            }
        } else {
            let o = self.owner(a);
            FixView { pools: self.pools.update(o, self.pools[o].after_free(a)), ..self }
        }
    }

    /// The buffer at `base` overlaps none of the pools' buffers.
    pub open spec fn fits(self, base: int) -> bool {
        forall|i: int|
            0 <= i < self.pools.len() ==> #[trigger] self.pools[i].end() <= base || base
                + self.layout.size <= self.pools[i].base
    }
}

/// The pools of one size class: a growing, address-sorted sequence of pools of
/// equal slot size, one of which (the active pool) serves new requests.
pub struct FixMemory {
    slot_size: usize,
    slot_count: usize,
    layout: BufferLayout,
    pools: Vec<Pool>,
    active: usize,
}

impl View for FixMemory {
    type V = FixView;

    closed spec fn view(&self) -> FixView {
        FixView {
            slot_size: self.slot_size as int,
            slot_count: self.slot_count as int,
            layout: self.layout,
            pools: Seq::new(self.pools@.len(), |i: int| self.pools@[i]@),
            active: self.active as int,
        }
    }
}

impl FixMemory {
    pub closed spec fn wf(&self) -> bool {
        &&& self@.wf()
        &&& forall|i: int| 0 <= i < self.pools@.len() ==> #[trigger] self.pools@[i].wf()
    }

    pub proof fn lemma_wf(&self)
        requires
            self.wf(),
        ensures
            self@.wf(),
    {
    }

    /// A size class of `count`-slot pools of `size`-byte slots, holding one
    /// pool, active and with every slot free, over the buffer at `base`,
    /// which the native allocator handed out for
    /// `Pool::buffer_layout(size, count)`. `None` when that layout does not
    /// exist (either argument zero, or a buffer too large) or `base` cannot
    /// start such a buffer.
    pub fn new(size: usize, count: usize, base: usize) -> (r: Option<FixMemory>)
        ensures
            match r {
                Some(m) => {
                    &&& m.wf()
                    &&& m@.slot_size == size
                    &&& m@.slot_count == count
                    &&& is_pool_layout(size as int, count as int, m@.layout)
                    &&& m@.pools.len() == 1
                    &&& m@.active == 0
                    &&& m@.pools[0].base == base
                    &&& m@.pools[0].is_fresh()
                    &&& sorted_disjoint(m@.pools)
                },
                None => forall|l: BufferLayout|
                    is_pool_layout(size as int, count as int, l) ==> !is_usable_base(l, base as int),
            },
    {
        let pool = match Pool::new(size, count, base) {
            Some(p) => p,
            None => return None,
        };
        proof {
            pool.lemma_wf();
        }
        let layout = pool.buffer().layout;
        let mut pools: Vec<Pool> = Vec::new();
        pools.push(pool);
        let m = FixMemory { slot_size: size, slot_count: count, layout, pools, active: 0 };
        proof {
            assert(m.pools@[0] == pool);
            assert(m@.pools[0] == pool@);
            assert forall|k: int| 0 <= k < m.pools@.len() implies #[trigger] m.pools@[k].wf() by {
            }
        }
        Some(m)
    }

    /// The layout of the buffer a new pool needs.
    pub fn pool_layout(&self) -> (r: BufferLayout)
        requires
            self.wf(),
        ensures
            r == self@.layout,
            r.is_valid(),
    {
        self.layout
    }

    /// How many pools the class holds.
    pub fn pools_count(&self) -> (r: usize)
        ensures
            r == self@.pools.len(),
    {
        self.pools.len()
    }

    /// The active pool cannot serve a request: `add_pool` must come first.
    pub fn needs_pool(&self) -> (r: bool)
        requires
            self.wf(),
        ensures
            r == self@.needs_pool(),
    {
        proof {
            assert(self@.pools[self.active as int] == self.pools@[self.active as int]@);
        }
        self.pools[self.active].is_exhausted()
    }

    /// Hands out a slot from the active pool; `None`, changing nothing, when
    /// a new pool is needed first.
    pub fn allocate(&mut self) -> (r: Option<usize>)
        requires
            old(self).wf(),
        ensures
            final(self).wf(),
            final(self)@ == old(self)@.after_alloc(),
            sorted_disjoint(final(self)@.pools),
            r matches Some(a) ==> old(self)@.alloc_result() == Some(a as int),
            r is None ==> old(self)@.alloc_result() is None,
    {
        if self.needs_pool() {
            return None;
        }
        let i = self.active;
        let r = self.pools[i].allocate();
        proof {
            assert(self@.pools =~= old(self)@.pools.update(i as int, old(self)@.pools[i as int].after_alloc()));
            assert forall|j: int| 0 <= j < self@.pools.len() implies same_frame(#[trigger] old(self)@.pools[j], self@.pools[j]) by {
            }
            assert forall|j: int| 0 <= j < self.pools@.len() implies #[trigger] self.pools@[j].wf() by {
                if j != i {
                    assert(self.pools@[j] == old(self).pools@[j]);
                }
            }
            lemma_same_frames(old(self)@.pools, self@.pools);
            assert forall|k: int| 0 <= k < self@.pools.len() implies {
                &&& #[trigger] self@.pools[k].wf()
                &&& self@.pools[k].slot_count == self@.slot_count
                &&& self@.pools[k].layout == self@.layout
                &&& is_stride_for(self@.slot_size, self@.pools[k].slot_size)
            } by {
                assert(old(self)@.pools[k].wf());
                assert(self.pools@[k].wf());
                self.pools@[k].lemma_wf();
            }
        }
        r
    }

    /// Index of the pool whose range `[min_address, max_address]` holds
    /// `addr`, found by binary search over the address-sorted pools.
    pub fn search_pool(&self, addr: usize) -> (r: Option<usize>)
        requires
            self.wf(),
        ensures
            match r {
                Some(i) => i < self@.pools.len() && self@.pools[i as int].manages(addr as int)
                    && self@.owner(addr as int) == i,
                None => !self@.owns(addr as int),
            },
    {
        let mut lo: usize = 0;
        let mut hi: usize = self.pools.len();
        while lo < hi
            invariant
                self.wf(),
                lo <= hi <= self@.pools.len(),
                forall|i: int| 0 <= i < lo ==> #[trigger] self@.pools[i].max_address() < addr,
                forall|i: int| hi <= i < self@.pools.len() ==> addr < #[trigger] self@.pools[i].base,
            decreases hi - lo,
        {
            let mid = lo + (hi - lo) / 2;
            proof {
                self.pools@[mid as int].lemma_wf();
                assert(self@.pools[mid as int] == self.pools@[mid as int]@);
            }
            if addr < self.pools[mid].min_address() {
                proof {
                    assert forall|i: int| mid <= i < self@.pools.len() implies addr
                        < #[trigger] self@.pools[i].base by {
                        if i > mid {
                            lemma_base_before_end(self@.pools[mid as int]);
                            assert(self@.pools[mid as int].end() <= self@.pools[i].base);
                        }
                    }
                }
                hi = mid;
            } else if addr > self.pools[mid].max_address() {
                proof {
                    assert forall|i: int| 0 <= i <= mid implies #[trigger] self@.pools[i].max_address()
                        < addr by {
                        if i < mid {
                            assert(self@.pools[i].wf());
                            lemma_base_before_end(self@.pools[i]);
                            assert(self@.pools[i].end() <= self@.pools[mid as int].base);
                        }
                    }
                }
                lo = mid + 1;
            } else {
                proof {
                    lemma_owner_unique(self@, mid as int, addr as int);
                }
                return Some(mid);
            }
        }
        proof {
            assert forall|i: int| 0 <= i < self@.pools.len() implies !#[trigger] self@.pools[i].manages(
                addr as int,
            ) by {
                if i < lo {
                    assert(self@.pools[i].max_address() < addr);
                } else {
                    assert(addr < self@.pools[i].base);
                }
            }
        }
        None
    }

    /// Where a pool at `base` goes to keep the pools sorted: the first pool
    /// that starts above it, or the end.
    fn insert_index(&self, base: usize) -> (r: usize)
        requires
            self.wf(),
        ensures
            r <= self@.pools.len(),
            forall|i: int| 0 <= i < r ==> #[trigger] self@.pools[i].base <= base,
            forall|i: int| r <= i < self@.pools.len() ==> base < #[trigger] self@.pools[i].base,
    {
        let mut i: usize = 0;
        while i < self.pools.len()
            invariant
                self.wf(),
                i <= self@.pools.len(),
                forall|k: int| 0 <= k < i ==> #[trigger] self@.pools[k].base <= base,
            decreases self@.pools.len() - i,
        {
            proof {
                self.pools@[i as int].lemma_wf();
                assert(self@.pools[i as int] == self.pools@[i as int]@);
            }
            if base < self.pools[i].min_address() {
                proof {
                    assert forall|k: int| i <= k < self@.pools.len() implies base
                        < #[trigger] self@.pools[k].base by {
                        if k > i {
                            lemma_base_before_end(self@.pools[i as int]);
                            assert(self@.pools[i as int].end() <= self@.pools[k].base);
                        }
                    }
                }
                return i;
            }
            i = i + 1;
        }
        i
    }

    /// Adds a pool over the buffer at `base`, which the native allocator
    /// handed out for `pool_layout()`, at its place by address, and makes it
    /// the active pool. Refused (`false`, nothing changed) unless a pool is
    /// needed, `base` is non-null, aligned as the layout asks, with room for
    /// the buffer below the top of the address space, and the buffer overlaps
    /// no pool's buffer.
    pub fn add_pool(&mut self, base: usize) -> (r: bool)
        requires
            old(self).wf(),
        ensures
            final(self).wf(),
            sorted_disjoint(final(self)@.pools),
            r == (old(self)@.needs_pool() && is_usable_base(old(self)@.layout, base as int)
                && old(self)@.fits(base as int)),
            !r ==> final(self)@ == old(self)@,
            r ==> {
                let v = final(self)@;
                let p = v.pools[v.active];
                &&& v.slot_size == old(self)@.slot_size
                &&& v.slot_count == old(self)@.slot_count
                &&& v.layout == old(self)@.layout
                &&& 0 <= v.active <= old(self)@.pools.len()
                &&& v.pools.len() == old(self)@.pools.len() + 1
                &&& v.pools == old(self)@.pools.insert(v.active, p)
                &&& p.base == base
                &&& p.slot_count == v.slot_count
                &&& p.layout == v.layout
                &&& is_stride_for(v.slot_size, p.slot_size)
                &&& p.is_fresh()
            },
    {
        if !self.needs_pool() {
            return false;
        }
        let pool = match Pool::new(self.slot_size, self.slot_count, base) {
            Some(p) => p,
            None => {
                return false;
            },
        };
        proof {
            pool.lemma_wf();
            lemma_pool_layout_unique(self.slot_size as int, self.slot_count as int, pool@.layout, self.layout);
        }
        let size = self.layout.size;
        let idx = self.insert_index(base);
        if idx > 0 {
            proof {
                self.pools@[idx - 1].lemma_wf();
                assert(self@.pools[idx - 1] == self.pools@[idx - 1]@);
                assert(self@.pools[idx - 1].wf());
                lemma_base_before_end(self@.pools[idx - 1]);
            }
            if self.pools[idx - 1].min_address() + size > base {
                return false;
            }
        }
        if idx < self.pools.len() {
            proof {
                assert(self@.pools[idx as int] == self.pools@[idx as int]@);
                assert(self@.pools[idx as int].wf());
                lemma_base_before_end(self@.pools[idx as int]);
            }
            if base + size > self.pools[idx].min_address() {
                return false;
            }
        }
        let ghost pre = self@;
        let ghost pv = pool@;
        proof {
            assert(pre.fits(base as int)) by {
                assert forall|i: int| 0 <= i < pre.pools.len() implies #[trigger] pre.pools[i].end()
                    <= base || base + pre.layout.size <= pre.pools[i].base by {
                    assert(pre.pools[i].wf());
                    lemma_base_before_end(pre.pools[i]);
                    if i < idx as int - 1 {
                        lemma_base_before_end(pre.pools[idx - 1]);
                        assert(pre.pools[i].end() <= pre.pools[idx - 1].base);
                    } else if i > idx as int {
                        assert(pre.pools[idx as int].end() <= pre.pools[i].base);
                        lemma_base_before_end(pre.pools[idx as int]);
                    }
                }
            }
        }
        self.pools.insert(idx, pool);
        self.active = idx;
        proof {
            let v = self@;
            assert(v.pools =~= pre.pools.insert(idx as int, pv));
            assert forall|i: int, j: int| 0 <= i < j < v.pools.len() implies #[trigger] v.pools[i].end()
                <= #[trigger] v.pools[j].base by {
                if i < idx && j < idx {
                    assert(pre.pools[i].end() <= pre.pools[j].base);
                } else if i < idx && j == idx {
                    assert(pre.pools[i].end() <= base || base + size <= pre.pools[i].base);
                    assert(pre.pools[i].base <= base);
                } else if i < idx && j > idx {
                    assert(pre.pools[i].end() <= pre.pools[j - 1].base);
                } else if i == idx {
                    assert(base < pre.pools[j - 1].base);
                    assert(pre.pools[j - 1].end() <= base || base + size <= pre.pools[j - 1].base);
                    assert(pre.pools[j - 1].wf());
                    lemma_base_before_end(pre.pools[j - 1]);
                } else {
                    assert(pre.pools[i - 1].end() <= pre.pools[j - 1].base);
                }
            }
            assert forall|k: int| 0 <= k < self.pools@.len() implies #[trigger] self.pools@[k].wf() by {
                if k < idx {
                    assert(self.pools@[k] == old(self).pools@[k]);
                } else if k > idx {
                    assert(self.pools@[k] == old(self).pools@[k - 1]);
                }
            }
            assert forall|k: int| 0 <= k < v.pools.len() implies {
                &&& #[trigger] v.pools[k].wf()
                &&& v.pools[k].slot_count == v.slot_count
                &&& v.pools[k].layout == v.layout
                &&& is_stride_for(v.slot_size, v.pools[k].slot_size)
            } by {
                if k < idx {
                    assert(v.pools[k] == pre.pools[k]);
                    assert(pre.pools[k].wf());
                } else if k > idx {
                    assert(v.pools[k] == pre.pools[k - 1]);
                    assert(pre.pools[k - 1].wf());
                } else {
                    assert(v.pools[k] == pv);
                }
            }
        }
        true
    }

    /// Takes back the slot at `addr`: the pool whose range holds it is found
    /// by binary search and takes the slot back. A pool left unused that is
    /// not the active pool is dropped, and its buffer is returned for the
    /// native allocator to take back.
    pub fn deallocate(&mut self, addr: usize) -> (r: Release)
        requires
            old(self).wf(),
        ensures
            final(self).wf(),
            sorted_disjoint(final(self)@.pools),
            r == old(self)@.release_result(addr as int),
            final(self)@ == old(self)@.after_free(addr as int),
    {
        let i = match self.search_pool(addr) {
            Some(i) => i,
            None => return Release::Foreign,
        };
        let ghost pre = self@;
        proof {
            assert(pre.pools[i as int] == self.pools@[i as int]@);
        }
        if !self.pools[i].deallocate(addr) {
            proof {
                assert(self@.pools =~= pre.pools);
                assert(self@ =~= pre);
                assert forall|k: int| 0 <= k < self.pools@.len() implies #[trigger] self.pools@[k].wf() by {
                    if k != i {
                        assert(self.pools@[k] == old(self).pools@[k]);
                    }
                }
            }
            return Release::Rejected;
        }
        let ghost mid = self@;
        proof {
            assert(mid.pools =~= pre.pools.update(i as int, pre.pools[i as int].after_free(addr as int)));
            assert forall|k: int| 0 <= k < self.pools@.len() implies #[trigger] self.pools@[k].wf() by {
                if k != i {
                    assert(self.pools@[k] == old(self).pools@[k]);
                }
            }
            assert forall|k: int| 0 <= k < mid.pools.len() implies same_frame(#[trigger] pre.pools[k], mid.pools[k]) by {
            }
            lemma_same_frames(pre.pools, mid.pools);
            assert forall|k: int| 0 <= k < mid.pools.len() implies {
                &&& #[trigger] mid.pools[k].wf()
                &&& mid.pools[k].slot_count == mid.slot_count
                &&& mid.pools[k].layout == mid.layout
                &&& is_stride_for(mid.slot_size, mid.pools[k].slot_size)
            } by {
                assert(pre.pools[k].wf());
                assert(same_frame(pre.pools[k], mid.pools[k]));
                self.pools@[k].lemma_wf();
                assert(mid.pools[k] == self.pools@[k]@);
            }
        }
        if i != self.active && self.pools[i].is_unused() {
            let ghost mid_exec = self.pools@;
            let pool = self.pools.remove(i);
            if i < self.active {
                self.active = self.active - 1;
            }
            proof {
                let v = self@;
                assert(v.pools =~= pre.pools.remove(i as int));
                assert(v.pools =~= mid.pools.remove(i as int));
                assert forall|a: int, b: int| 0 <= a < b < v.pools.len() implies #[trigger] v.pools[a].end()
                    <= #[trigger] v.pools[b].base by {
                    let a2 = if a < i { a } else { a + 1 };
                    let b2 = if b < i { b } else { b + 1 };
                    assert(mid.pools[a2].end() <= mid.pools[b2].base);
                }
                assert forall|k: int| 0 <= k < self.pools@.len() implies #[trigger] self.pools@[k].wf() by {
                    let k2 = if k < i { k } else { k + 1 };
                    assert(self.pools@[k] == mid_exec[k2]);
                    assert(mid_exec[k2].wf());
                }
                assert forall|k: int| 0 <= k < v.pools.len() implies {
                    &&& #[trigger] v.pools[k].wf()
                    &&& v.pools[k].slot_count == v.slot_count
                    &&& v.pools[k].layout == v.layout
                    &&& is_stride_for(v.slot_size, v.pools[k].slot_size)
                } by {
                    let k2 = if k < i { k } else { k + 1 };
                    assert(v.pools[k] == mid.pools[k2]);
                    assert(mid.pools[k2].wf());
                }
            }
            return Release::Dropped(pool.buffer());
        }
        Release::Freed
    }

    /// The buffers of all pools, in the order the pools are kept: what goes
    /// back to the native allocator when the class itself goes.
    pub fn buffers(&self) -> (r: Vec<Buffer>)
        requires
            self.wf(),
        ensures
            r@.len() == self@.pools.len(),
            forall|i: int|
                0 <= i < r@.len() ==> (#[trigger] r@[i]).base == self@.pools[i].base && r@[i].layout
                    == self@.pools[i].layout,
    {
        let mut r: Vec<Buffer> = Vec::with_capacity(self.pools.len());
        let mut i: usize = 0;
        while i < self.pools.len()
            invariant
                self.wf(),
                i <= self@.pools.len(),
                r@.len() == i,
                forall|k: int|
                    0 <= k < i ==> (#[trigger] r@[k]).base == self@.pools[k].base && r@[k].layout
                        == self@.pools[k].layout,
            decreases self@.pools.len() - i,
        {
            proof {
                assert(self@.pools[i as int] == self.pools@[i as int]@);
            }
            r.push(self.pools[i].buffer());
            i = i + 1;
        }
        r
    }

    /// The pools' first addresses, in the order the pools are kept.
    pub fn min_addresses(&self) -> (r: Vec<usize>)
        requires
            self.wf(),
        ensures
            r@.len() == self@.pools.len(),
            forall|i: int| 0 <= i < r@.len() ==> #[trigger] r@[i] == self@.pools[i].base,
    {
        let mut r: Vec<usize> = Vec::with_capacity(self.pools.len());
        let mut i: usize = 0;
        while i < self.pools.len()
            invariant
                self.wf(),
                i <= self@.pools.len(),
                r@.len() == i,
                forall|k: int| 0 <= k < i ==> #[trigger] r@[k] == self@.pools[k].base,
            decreases self@.pools.len() - i,
        {
            proof {
                self.pools@[i as int].lemma_wf();
                assert(self@.pools[i as int] == self.pools@[i as int]@);
            }
            r.push(self.pools[i].min_address());
            i = i + 1;
        }
        r
    }
}

/// Pools that keep their slot sizes, counts, buffers and layouts keep their
/// order.
proof fn lemma_same_frames(a: Seq<PoolView>, b: Seq<PoolView>)
    requires
        sorted_disjoint(a),
        a.len() == b.len(),
        forall|i: int| 0 <= i < a.len() ==> same_frame(#[trigger] a[i], b[i]),
    ensures
        sorted_disjoint(b),
{
    assert forall|i: int, j: int| 0 <= i < j < b.len() implies #[trigger] b[i].end() <= #[trigger] b[j].base by {
        assert(same_frame(a[i], b[i]));
        assert(same_frame(a[j], b[j]));
        assert(a[i].end() <= a[j].base);
    }
}

/// Same buffer and slot geometry; only the free slots may differ.
pub open spec fn same_frame(p: PoolView, q: PoolView) -> bool {
    &&& p.slot_size == q.slot_size
    &&& p.slot_count == q.slot_count
    &&& p.base == q.base
    &&& p.layout == q.layout
}

/// A pool's first slot starts before its last one ends, and both lie in the
/// buffer.
pub proof fn lemma_base_before_end(p: PoolView)
    requires
        p.wf(),
    ensures
        p.base <= p.max_address() < p.end(),
{
    lemma_slot_address(p, p.slot_count - 1);
}

/// In a well-formed class at most one pool's range holds an address.
pub proof fn lemma_owner_unique(v: FixView, i: int, a: int)
    requires
        v.wf(),
        0 <= i < v.pools.len(),
        v.pools[i].manages(a),
    ensures
        v.owns(a),
        v.owner(a) == i,
{
    let j = v.owner(a);
    assert(v.pools[j].manages(a));
    assert(v.pools[i].wf());
    assert(v.pools[j].wf());
    lemma_base_before_end(v.pools[i]);
    lemma_base_before_end(v.pools[j]);
    if j < i {
        assert(v.pools[j].end() <= v.pools[i].base);
    } else if i < j {
        assert(v.pools[i].end() <= v.pools[j].base);
    }
}

/// A pointer outside every pool's range is refused as foreign, and nothing
/// changes: every pool keeps its free slots.
pub proof fn lemma_foreign_pointer(v: FixView, a: int)
    requires
        v.wf(),
        forall|i: int| 0 <= i < v.pools.len() ==> !#[trigger] v.pools[i].manages(a),
    ensures
        v.release_result(a) == Release::Foreign,
        v.after_free(a) == v,
        forall|i: int| 0 <= i < v.pools.len() ==> #[trigger] v.after_free(a).pools[i].free == v.pools[i].free,
{
}

/// Only the pool at `o` manages `a`: in `w` as in `v`.
proof fn lemma_sole_manager(v: FixView, w: FixView, a: int, o: int, ow: int)
    requires
        v.wf(),
        0 <= o < v.pools.len(),
        v.pools[o].manages(a),
        0 <= ow < w.pools.len(),
        w.pools[ow].manages(a),
        forall|i: int|
            0 <= i < w.pools.len() && #[trigger] w.pools[i].manages(a) ==> exists|k: int|
                0 <= k < v.pools.len() && same_frame(v.pools[k], w.pools[i]) && (k == o <==> i == ow),
    ensures
        w.owns(a),
        w.owner(a) == ow,
{
    let c = w.owner(a);
    assert(w.pools[c].manages(a));
    let k = choose|k: int| 0 <= k < v.pools.len() && same_frame(v.pools[k], w.pools[c]) && (k == o <==> c == ow);
    assert(v.pools[k].manages(a));
    lemma_owner_unique(v, o, a);
    lemma_owner_unique(v, k, a);
}

/// An allocation hands out an address that was not handed out before; after
/// it that address is handed out, and every address handed out before still
/// is. So no address goes to two holders before it is taken back.
pub proof fn lemma_allocation_unheld(v: FixView)
    requires
        v.wf(),
        v.alloc_result() is Some,
    ensures
        !v.holds_live(v.alloc_result()->Some_0),
        v.after_alloc().holds_live(v.alloc_result()->Some_0),
        forall|b: int| v.holds_live(b) ==> #[trigger] v.after_alloc().holds_live(b),
{
    let act = v.active;
    let p = v.pools[act];
    let idx = p.free.last();
    let a = v.alloc_result()->Some_0;
    let w = v.after_alloc();
    assert(p.wf());
    assert(p.free[p.free.len() - 1] == idx);
    lemma_slot_address(p, idx as int);
    lemma_owner_unique(v, act, a);
    lemma_drop_last_contains(p.free, idx);
    assert forall|b: int| v.pools[act].manages(b) implies w.owns(b) && w.owner(b) == act by {
        assert forall|i: int| 0 <= i < w.pools.len() && #[trigger] w.pools[i].manages(b) implies exists|k: int|
            0 <= k < v.pools.len() && same_frame(v.pools[k], w.pools[i]) && (k == act <==> i == act) by {
            assert(same_frame(v.pools[i], w.pools[i]));
        }
        lemma_sole_manager(v, w, b, act, act);
    }
    assert(w.pools[act].holds_live(a));
    assert forall|b: int| v.holds_live(b) implies #[trigger] w.holds_live(b) by {
        let o = v.owner(b);
        assert(v.pools[o].manages(b));
        assert forall|i: int| 0 <= i < w.pools.len() && #[trigger] w.pools[i].manages(b) implies exists|k: int|
            0 <= k < v.pools.len() && same_frame(v.pools[k], w.pools[i]) && (k == o <==> i == o) by {
            assert(same_frame(v.pools[i], w.pools[i]));
        }
        lemma_sole_manager(v, w, b, o, o);
        if o == act {
            let q = v.pools[o];
            assert(!q.free.contains(q.index_of(b) as usize));
            lemma_drop_last_contains(q.free, q.index_of(b) as usize);
        }
    }
}

/// Taking back one address leaves every other handed-out address handed out.
pub proof fn lemma_release_keeps_others(v: FixView, a: int, b: int)
    requires
        v.wf(),
        v.holds_live(b),
        a != b,
    ensures
        v.after_free(a).holds_live(b),
{
    let w = v.after_free(a);
    let ob = v.owner(b);
    assert(v.pools[ob].manages(b));
    let q = v.pools[ob];
    assert(q.wf());
    if v.holds_live(a) {
        let oa = v.owner(a);
        assert(v.pools[oa].manages(a));
        let pa = v.pools[oa];
        assert(pa.wf());
        let ia = pa.index_of(a);
        lemma_slot_address(pa, ia);
        if oa == ob {
            let ib = q.index_of(b);
            lemma_slot_address(q, ib);
            assert(ia != ib) by {
                if ia == ib {
                    assert(q.addr_of(ia) == a) by (nonlinear_arith)
                        requires
                            q.is_slot(a),
                            ia == q.index_of(a),
                            q.slot_size > 0,
                            q.addr_of(ia) == q.base + ia * q.slot_size,
                            ia == (a - q.base) / q.slot_size,
                            (a - q.base) % q.slot_size == 0,
                    ;
                    assert(q.addr_of(ib) == b) by (nonlinear_arith)
                        requires
                            q.is_slot(b),
                            ib == (b - q.base) / q.slot_size,
                            q.slot_size > 0,
                            q.addr_of(ib) == q.base + ib * q.slot_size,
                            (b - q.base) % q.slot_size == 0,
                    ;
                }
            }
            let r = pa.after_free(a);
            lemma_push_contains(pa.free, ia as usize, ib as usize);
            assert(r.free.contains(ib as usize) == false);
            if v.drops_on_free(a) {
                assert(r.free.len() == r.slot_count);
                lemma_unused_all_free(r, ib);
                assert(false);
            }
            assert forall|i: int| 0 <= i < w.pools.len() && #[trigger] w.pools[i].manages(b) implies exists|k: int|
                0 <= k < v.pools.len() && same_frame(v.pools[k], w.pools[i]) && (k == ob <==> i == ob) by {
                assert(same_frame(v.pools[i], w.pools[i]));
            }
            lemma_sole_manager(v, w, b, ob, ob);
        } else if v.drops_on_free(a) {
            let ow = if ob < oa { ob } else { ob - 1 };
            assert(w.pools[ow] == q);
            assert forall|i: int| 0 <= i < w.pools.len() && #[trigger] w.pools[i].manages(b) implies exists|k: int|
                0 <= k < v.pools.len() && same_frame(v.pools[k], w.pools[i]) && (k == ob <==> i == ow) by {
                let k = if i < oa { i } else { i + 1 };
                assert(w.pools[i] == v.pools[k]);
                assert(same_frame(v.pools[k], w.pools[i]));
            }
            lemma_sole_manager(v, w, b, ob, ow);
        } else {
            assert forall|i: int| 0 <= i < w.pools.len() && #[trigger] w.pools[i].manages(b) implies exists|k: int|
                0 <= k < v.pools.len() && same_frame(v.pools[k], w.pools[i]) && (k == ob <==> i == ob) by {
                assert(same_frame(v.pools[i], w.pools[i]));
            }
            lemma_sole_manager(v, w, b, ob, ob);
        }
    }
}

/// Two distinct addresses handed out at once by a class never share a
/// byte: one slot ends before the other starts, within one pool and across
/// pools.
pub proof fn lemma_live_slots_disjoint(v: FixView, a: int, b: int)
    requires
        v.wf(),
        v.holds_live(a),
        v.holds_live(b),
        a != b,
    ensures
        a + v.pools[v.owner(a)].slot_size <= b || b + v.pools[v.owner(b)].slot_size <= a,
{
    let oa = v.owner(a);
    let ob = v.owner(b);
    let pa = v.pools[oa];
    let pb = v.pools[ob];
    assert(pa.manages(a) && pb.manages(b));
    assert(pa.wf() && pb.wf());
    lemma_slot_of_addr(pa, a);
    lemma_slot_of_addr(pb, b);
    let ia = pa.index_of(a);
    let ib = pb.index_of(b);
    lemma_slot_address(pa, ia);
    lemma_slot_address(pb, ib);
    if oa == ob {
        if ia < ib {
            lemma_slots_disjoint(pa, ia, ib);
        } else if ib < ia {
            lemma_slots_disjoint(pa, ib, ia);
        }
    } else if oa < ob {
        assert(pa.end() <= pb.base);
    } else {
        assert(pb.end() <= pa.base);
    }
}

/// In a pool with every slot free, no slot is handed out.
proof fn lemma_unused_all_free(p: PoolView, i: int)
    requires
        p.free.no_duplicates(),
        forall|k: int| 0 <= k < p.free.len() ==> #[trigger] p.free[k] < p.slot_count,
        p.free.len() == p.slot_count,
        0 <= i < p.slot_count,
    ensures
        p.free.contains(i as usize),
{
    lemma_no_dup_bounded_full(p.free, p.slot_count as nat, i as usize);
}

} // verus!
