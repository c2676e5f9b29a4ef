//! A fixed-capacity slab of equal-size slots.
use vstd::prelude::*;
use vstd::arithmetic::div_mod::{
    lemma_add_mod_noop, lemma_div_is_ordered, lemma_fundamental_div_mod, lemma_small_mod, lemma_div_multiples_vanish, lemma_mod_multiples_basic,
};
use vstd::arithmetic::mul::lemma_mul_inequality;
use vstd::set_lib::{lemma_int_range, lemma_subset_equality, set_int_range};
use vstd::seq_lib::seq_to_set_is_finite;
use crate::layout::{
    checked_next_pow2, is_next_pow2, is_pow2, lemma_multiple_of_divisor, lemma_next_pow2_unique,
    lemma_pow2_divides, is_usable_base, Buffer, BufferLayout, MAX_SIZE, WORD_SIZE,
};

verus! {

/// The slot stride for a requested slot size: the size raised to at least
/// `WORD_SIZE`, then to the next power of two.
pub open spec fn is_stride_for(size: int, stride: int) -> bool {
    is_next_pow2(if size < WORD_SIZE { WORD_SIZE as int } else { size }, stride)
}

/// The buffer a pool of `count` slots of stride `stride` asks for: one stride
/// per slot, aligned to the next power of two of its size.
pub open spec fn is_pool_layout(size: int, count: int, l: BufferLayout) -> bool {
    &&& size > 0
    &&& count > 0
    &&& exists|stride: int| is_stride_for(size, stride) && l.size == stride * count
    &&& is_next_pow2(l.size as int, l.align as int)
    &&& l.align <= MAX_SIZE
}

/// What a pool holds, seen as plain values.
pub ghost struct PoolView {
    /// Distance between the starts of two neighbouring slots.
    pub slot_size: int,
    pub slot_count: int,
    /// Address of the first slot.
    pub base: int,
    /// The buffer's layout.
    pub layout: BufferLayout,
    /// Indices of the free slots; the next one handed out is the last.
    pub free: Seq<usize>,
}

impl PoolView {
    pub open spec fn addr_of(self, i: int) -> int {
        self.base + i * self.slot_size
    }

    pub open spec fn min_address(self) -> int {
        self.base
    }

    pub open spec fn max_address(self) -> int {
        self.addr_of(self.slot_count - 1)
    }

    /// First address past the buffer.
    pub open spec fn end(self) -> int {
        self.base + self.slot_size * self.slot_count
    }

    /// The address lies in `[min_address, max_address]`.
    pub open spec fn manages(self, a: int) -> bool {
        self.min_address() <= a <= self.max_address()
    }

    /// The address is the start of one of the slots.
    pub open spec fn is_slot(self, a: int) -> bool {
        self.manages(a) && (a - self.base) % self.slot_size == 0
    }

    pub open spec fn index_of(self, a: int) -> int {
        (a - self.base) / self.slot_size
    }

    /// Slot `i` is handed out.
    pub open spec fn is_live(self, i: int) -> bool {
        0 <= i < self.slot_count && !self.free.contains(i as usize)
    }

    /// The address is the start of a slot that is handed out.
    pub open spec fn holds_live(self, a: int) -> bool {
        self.is_slot(a) && self.is_live(self.index_of(a))
    }

    pub open spec fn free_count(self) -> int {
        self.free.len() as int
    }

    /// No slot is handed out.
    pub open spec fn is_unused(self) -> bool {
        self.free.len() == self.slot_count
    }

    /// No slot is free.
    pub open spec fn is_exhausted(self) -> bool {
        self.free.len() == 0
    }

    /// The address the next allocation hands out, if any.
    pub open spec fn alloc_result(self) -> Option<int> {
        if self.free.len() == 0 {
            None
        } else {
            Some(self.addr_of(self.free.last() as int))
        }
    }

    pub open spec fn after_alloc(self) -> PoolView {
        if self.free.len() == 0 {
            self
        } else {
            PoolView { free: self.free.drop_last(), ..self }
        }
    }

    pub open spec fn after_free(self, a: int) -> PoolView {
        if self.holds_live(a) {
            PoolView { free: self.free.push(self.index_of(a) as usize), ..self }
        } else {
            self
        }
    }

    /// Freshly built: every slot free, handed out from the highest address
    /// down.
    pub open spec fn is_fresh(self) -> bool {
        self.free == Seq::new(self.slot_count as nat, |i: int| i as usize)
    }

    pub open spec fn wf(self) -> bool {
        &&& is_pow2(self.slot_size)
        &&& self.slot_size >= WORD_SIZE
        &&& self.slot_count >= 1
        &&& self.base >= 1
        &&& self.end() <= usize::MAX
        &&& self.layout.size == self.slot_size * self.slot_count
        &&& self.layout.is_valid()
        &&& self.layout.size <= self.layout.align
        &&& self.base % (self.layout.align as int) == 0
        &&& self.free.no_duplicates()
        &&& forall|k: int| 0 <= k < self.free.len() ==> #[trigger] self.free[k] < self.slot_count
    }
}

/// Slot `i` of a well-formed pool starts at a slot address whose index is `i`.
pub proof fn lemma_slot_address(v: PoolView, i: int)
    requires
        v.wf(),
        0 <= i < v.slot_count,
    ensures
        v.is_slot(v.addr_of(i)),
        v.index_of(v.addr_of(i)) == i,
        v.addr_of(i) >= 1,
        v.addr_of(i) + v.slot_size <= v.end(),
        v.addr_of(i) % v.slot_size == 0,
{
    assert(v.slot_size <= v.slot_size * v.slot_count) by (nonlinear_arith)
        requires
            v.slot_count >= 1,
            v.slot_size >= 0,
    ;
    lemma_pow2_divides(v.slot_size, v.layout.align as int);
    lemma_multiple_of_divisor(v.base, v.layout.align as int, v.slot_size);
    lemma_mod_multiples_basic(i, v.slot_size);
    lemma_add_mod_noop(v.base, i * v.slot_size, v.slot_size);
    lemma_small_mod(0, v.slot_size as nat);
    assert(v.base % v.slot_size == 0);
    assert((i * v.slot_size) % v.slot_size == 0);
    lemma_mod_multiples_basic(i, v.slot_size);
    lemma_div_multiples_vanish(i, v.slot_size);
    assert(v.slot_size * i == i * v.slot_size) by (nonlinear_arith);
    lemma_mul_inequality(i, v.slot_count - 1, v.slot_size);
    lemma_mul_inequality(0, i, v.slot_size);
    assert((v.slot_count - 1) * v.slot_size + v.slot_size == v.slot_size * v.slot_count)
        by (nonlinear_arith);
}

/// Distinct slots start at distinct addresses.
pub proof fn lemma_addr_injective(v: PoolView, i: int, j: int)
    requires
        v.wf(),
        i != j,
    ensures
        v.addr_of(i) != v.addr_of(j),
{
    let s = v.slot_size;
    assert(s > 0);
    assert(i * s != j * s) by (nonlinear_arith)
        requires
            i != j,
            s > 0,
    ;
}

pub proof fn lemma_drop_last_contains(s: Seq<usize>, x: usize)
    requires
        s.no_duplicates(),
        s.len() > 0,
    ensures
        s.drop_last().contains(x) == (s.contains(x) && x != s.last()),
        s.drop_last().no_duplicates(),
{
    let d = s.drop_last();
    if d.contains(x) {
        let k = choose|k: int| 0 <= k < d.len() && d[k] == x;
        assert(s[k] == x);
        assert(s[s.len() - 1] == s.last());
        assert(k != s.len() - 1);
    }
    if s.contains(x) && x != s.last() {
        let k = choose|k: int| 0 <= k < s.len() && s[k] == x;
        assert(k != s.len() - 1);
        assert(d[k] == x);
    }
}

pub proof fn lemma_push_contains(s: Seq<usize>, x: usize, y: usize)
    requires
        s.no_duplicates(),
        !s.contains(x),
    ensures
        s.push(x).contains(y) == (s.contains(y) || y == x),
        s.push(x).no_duplicates(),
{
    let p = s.push(x);
    if s.contains(y) {
        let k = choose|k: int| 0 <= k < s.len() && s[k] == y;
        assert(p[k] == y);
    }
    assert(p[s.len() as int] == x);
    if p.contains(y) && y != x {
        let k = choose|k: int| 0 <= k < p.len() && p[k] == y;
        assert(s[k] == y);
    }
    assert forall|a: int, b: int| 0 <= a < p.len() && 0 <= b < p.len() && a != b implies p[a]
        != p[b] by {
        if a == s.len() {
            assert(s[b] == p[b]);
        } else if b == s.len() {
            assert(s[a] == p[a]);
        }
    }
}

/// A slab of `slot_count` slots of `slot_size` bytes in one buffer from the
/// native allocator.
///
/// The free slots are kept as a stack of slot indices, so that handing out and
/// taking back a slot are both O(1); a per-slot flag says which slots are
/// handed out, so that an address is taken back only once.
pub struct Pool {
    slot_size: usize,
    slot_count: usize,
    base: usize,
    layout: BufferLayout,
    free: Vec<usize>,
    live: Vec<bool>,
}

impl View for Pool {
    type V = PoolView;

    closed spec fn view(&self) -> PoolView {
        PoolView {
            slot_size: self.slot_size as int,
            slot_count: self.slot_count as int,
            base: self.base as int,
            layout: self.layout,
            free: self.free@,
        }
    }
}

impl Pool {
    pub closed spec fn wf(&self) -> bool {
        &&& self@.wf()
        &&& self.live@.len() == self.slot_count
        &&& forall|i: int|
            0 <= i < self.slot_count ==> #[trigger] self.live@[i] == !self.free@.contains(
                i as usize,
            )
    }

    /// The buffer a pool of `count` slots of `size` bytes needs, or `None`
    /// when either is zero or the buffer would be too large.
    pub fn buffer_layout(size: usize, count: usize) -> (r: Option<BufferLayout>)
        ensures
            match r {
                Some(l) => is_pool_layout(size as int, count as int, l) && l.is_valid(),
                None => forall|l: BufferLayout| !is_pool_layout(size as int, count as int, l),
            },
    {
        if size == 0 || count == 0 {
            return None;
        }
        let word = if size < WORD_SIZE {
            WORD_SIZE
        } else {
            size
        };
        let stride = match checked_next_pow2(word) {
            Some(p) => p,
            None => {
                proof {
                    assert forall|l: BufferLayout| !is_pool_layout(size as int, count as int, l) by {
                        if is_pool_layout(size as int, count as int, l) {
                            let s = choose|s: int| is_stride_for(size as int, s) && l.size == s * count;
                            assert(s <= usize::MAX) by (nonlinear_arith)
                                requires l.size == s * count, count >= 1, s >= 1, l.size <= usize::MAX;
                        }
                    }
                }
                return None;
            },
        };
        if stride > usize::MAX / count {
            proof {
                assert(stride * count > usize::MAX) by (nonlinear_arith)
                    requires stride > usize::MAX / count, count > 0;
                assert forall|l: BufferLayout| !is_pool_layout(size as int, count as int, l) by {
                    if is_pool_layout(size as int, count as int, l) {
                        let s = choose|s: int| is_stride_for(size as int, s) && l.size == s * count;
                        lemma_next_pow2_unique(word as int, s, stride as int);
                    }
                }
            }
            return None;
        }
        assert(stride * count <= usize::MAX && stride * count >= 1) by (nonlinear_arith)
            requires stride <= usize::MAX / count, count > 0, stride >= 1;
        let buf_size = stride * count;
        let buf_align = match checked_next_pow2(buf_size) {
            Some(p) => p,
            None => {
                proof {
                    assert forall|l: BufferLayout| !is_pool_layout(size as int, count as int, l) by {
                        if is_pool_layout(size as int, count as int, l) {
                            let s = choose|s: int| is_stride_for(size as int, s) && l.size == s * count;
                            lemma_next_pow2_unique(word as int, s, stride as int);
                        }
                    }
                }
                return None;
            },
        };
        if buf_align > MAX_SIZE {
            proof {
                assert forall|l: BufferLayout| !is_pool_layout(size as int, count as int, l) by {
                    if is_pool_layout(size as int, count as int, l) {
                        let s = choose|s: int| is_stride_for(size as int, s) && l.size == s * count;
                        lemma_next_pow2_unique(word as int, s, stride as int);
                        lemma_next_pow2_unique(buf_size as int, l.align as int, buf_align as int);
                    }
                }
            }
            return None;
        }
        let l = BufferLayout { size: buf_size, align: buf_align };
        assert(is_stride_for(size as int, stride as int) && l.size == stride * count);
        Some(l)
    }

    /// Builds a pool over the buffer at `base`, which the native allocator
    /// handed out for `Pool::buffer_layout(size, count)`: every slot free,
    /// handed out from the highest address down. `None` when `size` or
    /// `count` is zero, the buffer would be too large, or `base` is null, not
    /// aligned as the layout asks, or leaves no room for the buffer below the
    /// top of the address space.
    pub fn new(size: usize, count: usize, base: usize) -> (r: Option<Pool>)
        ensures
            match r {
                Some(p) => {
                    &&& p.wf()
                    &&& p@.is_fresh()
                    &&& p@.slot_count == count
                    &&& p@.base == base
                    &&& is_stride_for(size as int, p@.slot_size)
                    &&& is_pool_layout(size as int, count as int, p@.layout)
                },
                None => forall|l: BufferLayout|
                    is_pool_layout(size as int, count as int, l) ==> !is_usable_base(l, base as int),
            },
    {
        let layout = match Pool::buffer_layout(size, count) {
            Some(l) => l,
            None => return None,
        };
        if base == 0 || base > usize::MAX - layout.size || base % layout.align != 0 {
            proof {
                assert forall|l: BufferLayout| is_pool_layout(size as int, count as int, l) implies !is_usable_base(l, base as int) by {
                    lemma_pool_layout_unique(size as int, count as int, l, layout);
                }
            }
            return None;
        }
        let ghost sg = choose|s: int| is_stride_for(size as int, s) && layout.size == s * count;
        proof {
            lemma_div_multiples_vanish(sg, count as int);
            assert(count * sg == sg * count) by (nonlinear_arith);
        }
        let stride = layout.size / count;
        assert(stride == sg);
        assert(stride * count == count * stride) by (nonlinear_arith);
        let mut free: Vec<usize> = Vec::with_capacity(count);
        let mut i: usize = 0;
        while i < count
            invariant
                i <= count,
                free@ == Seq::new(i as nat, |k: int| k as usize),
            decreases count - i,
        {
            free.push(i);
            i = i + 1;
            assert(free@ =~= Seq::new(i as nat, |k: int| k as usize));
        }
        let live = vec![false; count];
        let p = Pool { slot_size: stride, slot_count: count, base, layout, free, live };
        proof {
            assert(p@.free.no_duplicates());
            assert forall|k: int| 0 <= k < count implies #[trigger] p.live@[k] == !p.free@.contains(
                k as usize,
            ) by {
                assert(p.free@[k] == k as usize);
            }
            assert(p@.end() <= usize::MAX);
        }
        Some(p)
    }

    /// Hands out a free slot: the one freed last, else the highest address
    /// not yet handed out. `None` when every slot is handed out.
    pub fn allocate(&mut self) -> (r: Option<usize>)
        requires
            old(self).wf(),
        ensures
            final(self).wf(),
            final(self)@ == old(self)@.after_alloc(),
            r matches Some(a) ==> old(self)@.alloc_result() == Some(a as int),
            r is None ==> old(self)@.alloc_result() is None,
    {
        match self.free.pop() {
            None => None,
            Some(idx) => {
                let ghost pre = old(self).free@;
                proof {
                    assert(pre.last() == idx);
                    assert forall|x: usize| #![auto] self.free@.contains(x) == (pre.contains(x) && x != idx) by {
                        lemma_drop_last_contains(pre, x);
                    }
                    lemma_drop_last_contains(pre, idx);
                    assert(pre[pre.len() - 1] == idx);
                    lemma_slot_address(old(self)@, idx as int);
                }
                self.live.set(idx, true);
                proof {
                    assert forall|i: int| 0 <= i < self.slot_count implies #[trigger] self.live@[i]
                        == !self.free@.contains(i as usize) by {
                        if i != idx as int {
                            assert(old(self).live@[i] == !pre.contains(i as usize));
                        }
                    }
                    assert(self@ == old(self)@.after_alloc());
                }
                Some(self.base + idx * self.slot_size)
            },
        }
    }

    /// Takes back the slot at `addr`. Returns `false`, changing nothing, when
    /// `addr` is not the start of a slot of this pool that is handed out: in
    /// particular for every address outside `[min_address, max_address]`.
    pub fn deallocate(&mut self, addr: usize) -> (r: bool)
        requires
            old(self).wf(),
        ensures
            final(self).wf(),
            r == old(self)@.holds_live(addr as int),
            final(self)@ == old(self)@.after_free(addr as int),
    {
        if !self.is_managed(addr) {
            return false;
        }
        proof {
            lemma_slot_address(self@, self.slot_count - 1);
        }
        let off = addr - self.base;
        if off % self.slot_size != 0 {
            return false;
        }
        let idx = off / self.slot_size;
        proof {
            let v = self@;
            lemma_div_is_ordered(off as int, (v.slot_count - 1) * v.slot_size, v.slot_size);
            lemma_div_multiples_vanish(v.slot_count - 1, v.slot_size);
            assert((v.slot_count - 1) * v.slot_size == v.slot_size * (v.slot_count - 1))
                by (nonlinear_arith);
        }
        if self.live[idx] == false {
            return false;
        }
        let ghost pre = self.free@;
        self.free.push(idx);
        self.live.set(idx, false);
        proof {
            assert forall|x: usize| #![auto] self.free@.contains(x) == (pre.contains(x) || x == idx) by {
                lemma_push_contains(pre, idx, x);
            }
            lemma_push_contains(pre, idx, idx);
            assert forall|i: int| 0 <= i < self.slot_count implies #[trigger] self.live@[i]
                == !self.free@.contains(i as usize) by {
                if i != idx as int {
                    assert(old(self).live@[i] == !pre.contains(i as usize));
                }
            }
            assert forall|k: int| 0 <= k < self.free@.len() implies #[trigger] self.free@[k]
                < self.slot_count by {
                if k < pre.len() {
                    assert(self.free@[k] == pre[k]);
                }
            }
            assert(self@ == old(self)@.after_free(addr as int));
        }
        true
    }

    /// `addr` lies in `[min_address, max_address]`.
    pub fn is_managed(&self, addr: usize) -> (r: bool)
        requires
            self.wf(),
        ensures
            r == self@.manages(addr as int),
    {
        proof {
            lemma_slot_address(self@, self.slot_count - 1);
        }
        self.base <= addr && addr <= self.base + (self.slot_count - 1) * self.slot_size
    }

    /// No slot is handed out: the pool can be given back.
    pub fn is_unused(&self) -> (r: bool)
        requires
            self.wf(),
        ensures
            r == self@.is_unused(),
    {
        self.free.len() == self.slot_count
    }

    /// No slot is free: the pool cannot serve another request.
    pub fn is_exhausted(&self) -> (r: bool)
        requires
            self.wf(),
        ensures
            r == self@.is_exhausted(),
    {
        self.free.len() == 0
    }

    /// Address of the first slot.
    pub fn min_address(&self) -> (r: usize)
        requires
            self.wf(),
        ensures
            r == self@.min_address(),
    {
        self.base
    }

    /// Address of the last slot.
    pub fn max_address(&self) -> (r: usize)
        requires
            self.wf(),
        ensures
            r == self@.max_address(),
    {
        proof {
            lemma_slot_address(self@, self.slot_count - 1);
        }
        self.base + (self.slot_count - 1) * self.slot_size
    }

    /// Distance between the starts of two neighbouring slots.
    pub fn slot_size(&self) -> (r: usize)
        ensures
            r == self@.slot_size,
    {
        self.slot_size
    }

    pub fn slot_count(&self) -> (r: usize)
        ensures
            r == self@.slot_count,
    {
        self.slot_count
    }

    /// How many slots are free.
    pub fn free_count(&self) -> (r: usize)
        ensures
            r == self@.free_count(),
    {
        self.free.len()
    }

    /// The buffer to give back to the native allocator once the pool is
    /// dropped.
    pub fn buffer(&self) -> (r: Buffer)
        ensures
            r.base == self@.base,
            r.layout == self@.layout,
    {
        Buffer { base: self.base, layout: self.layout }
    }

    pub proof fn lemma_wf(&self)
        requires
            self.wf(),
        ensures
            self@.wf(),
    {
    }
}

/// What `n` allocations in a row hand out, starting from `v`.
pub open spec fn allocs(v: PoolView, n: nat) -> Seq<Option<int>>
    decreases n,
{
    if n == 0 {
        Seq::empty()
    } else {
        seq![v.alloc_result()].add(allocs(v.after_alloc(), (n - 1) as nat))
    }
}

/// The pool after `n` allocations in a row, starting from `v`.
pub open spec fn after_allocs(v: PoolView, n: nat) -> PoolView
    decreases n,
{
    if n == 0 {
        v
    } else {
        after_allocs(v.after_alloc(), (n - 1) as nat)
    }
}

/// Allocations pop the free slots from the top of the stack.
proof fn lemma_allocs_pop(v: PoolView, n: nat)
    requires
        v.wf(),
        n <= v.free.len(),
    ensures
        allocs(v, n).len() == n,
        forall|k: int|
            0 <= k < n ==> #[trigger] allocs(v, n)[k] == Some(
                v.addr_of(v.free[v.free.len() - 1 - k] as int),
            ),
        after_allocs(v, n).free == v.free.subrange(0, v.free.len() - n),
        after_allocs(v, n).wf(),
    decreases n,
{
    if n == 0 {
        assert(v.free.subrange(0, v.free.len() as int) =~= v.free);
    } else {
        let w = v.after_alloc();
        lemma_drop_last_contains(v.free, 0);
        assert forall|k: int| 0 <= k < w.free.len() implies #[trigger] w.free[k] < w.slot_count by {
            assert(w.free[k] == v.free[k]);
        }
        assert(w.wf());
        lemma_allocs_pop(w, (n - 1) as nat);
        let rest = allocs(w, (n - 1) as nat);
        assert forall|k: int| 0 <= k < n implies #[trigger] allocs(v, n)[k] == Some(
            v.addr_of(v.free[v.free.len() - 1 - k] as int),
        ) by {
            if k > 0 {
                assert(allocs(v, n)[k] == rest[k - 1]);
                assert(w.free[w.free.len() - 1 - (k - 1)] == v.free[v.free.len() - 1 - k]);
            }
        }
        assert(w.free.subrange(0, w.free.len() - (n - 1)) =~= v.free.subrange(0, v.free.len() - n));
    }
}

/// Once every slot of a pool is free (as after all its slots were taken
/// back), `slot_count` allocations in a row hand out `slot_count` distinct
/// non-null addresses, and the one after finds no slot.
pub proof fn lemma_full_cycle(v: PoolView)
    requires
        v.wf(),
        v.is_unused(),
    ensures
        allocs(v, v.slot_count as nat).len() == v.slot_count,
        forall|k: int|
            0 <= k < v.slot_count ==> ((#[trigger] allocs(v, v.slot_count as nat)[k]) matches Some(
                a
            ) && a >= 1),
        forall|j: int, k: int|
            0 <= j < k < v.slot_count ==> #[trigger] allocs(v, v.slot_count as nat)[j]
                != #[trigger] allocs(v, v.slot_count as nat)[k],
        after_allocs(v, v.slot_count as nat).alloc_result() is None,
        forall|i: int|
            0 <= i < v.slot_count ==> exists|k: int|
                0 <= k < v.slot_count && #[trigger] allocs(v, v.slot_count as nat)[k] == Some(
                    #[trigger] v.addr_of(i),
                ),
{
    let n = v.slot_count as nat;
    lemma_allocs_pop(v, n);
    let rs = allocs(v, n);
    let len = v.free.len() as int;
    assert forall|k: int| 0 <= k < v.slot_count implies ((#[trigger] rs[k]) matches Some(a) && a >= 1) by {
        assert(v.free[len - 1 - k] < v.slot_count);
        lemma_slot_address(v, v.free[len - 1 - k] as int);
    }
    assert forall|j: int, k: int| 0 <= j < k < v.slot_count implies #[trigger] rs[j]
        != #[trigger] rs[k] by {
        assert(v.free[len - 1 - j] != v.free[len - 1 - k]);
        lemma_addr_injective(v, v.free[len - 1 - j] as int, v.free[len - 1 - k] as int);
    }
    assert forall|i: int| 0 <= i < v.slot_count implies exists|k: int|
        0 <= k < v.slot_count && #[trigger] rs[k] == Some(#[trigger] v.addr_of(i)) by {
        assert(v.slot_count <= v.slot_size * v.slot_count) by (nonlinear_arith)
            requires
                v.slot_size >= 1,
                v.slot_count >= 0,
        ;
        assert(i <= usize::MAX);
        lemma_no_dup_bounded_full(v.free, v.slot_count as nat, i as usize);
        let m = choose|m: int| 0 <= m < v.free.len() && v.free[m] == i as usize;
        let k = len - 1 - m;
        assert(len - 1 - k == m);
        assert(v.free[m] as int == i);
        assert(allocs(v, n)[k] == Some(v.addr_of(v.free[len - 1 - k] as int)));
        assert(rs[k] == Some(v.addr_of(i)));
    }
}

/// A pool just built hands out `slot_count` distinct non-null addresses in
/// `slot_count` allocations, and the next allocation finds no slot.
pub proof fn lemma_fresh_pool_cycle(v: PoolView)
    requires
        v.wf(),
        v.is_fresh(),
    ensures
        allocs(v, v.slot_count as nat).len() == v.slot_count,
        forall|k: int|
            0 <= k < v.slot_count ==> ((#[trigger] allocs(v, v.slot_count as nat)[k]) matches Some(
                a
            ) && a >= 1),
        forall|j: int, k: int|
            0 <= j < k < v.slot_count ==> #[trigger] allocs(v, v.slot_count as nat)[j]
                != #[trigger] allocs(v, v.slot_count as nat)[k],
        after_allocs(v, v.slot_count as nat).alloc_result() is None,
        forall|i: int|
            0 <= i < v.slot_count ==> exists|k: int|
                0 <= k < v.slot_count && #[trigger] allocs(v, v.slot_count as nat)[k] == Some(
                    #[trigger] v.addr_of(i),
                ),
{
    lemma_full_cycle(v);
}

/// Distinct slots never share a byte: each ends before any later one
/// starts, so what is written into one slot never shows in another.
pub proof fn lemma_slots_disjoint(v: PoolView, i: int, j: int)
    requires
        v.wf(),
        0 <= i < j < v.slot_count,
    ensures
        v.addr_of(i) + v.slot_size <= v.addr_of(j),
{
    let s = v.slot_size;
    assert(i * s + s <= j * s) by (nonlinear_arith)
        requires
            i < j,
            s > 0,
    ;
}

/// A pool's layout is fixed by its slot size and count.
pub proof fn lemma_pool_layout_unique(size: int, count: int, l: BufferLayout, m: BufferLayout)
    requires
        is_pool_layout(size, count, l),
        is_pool_layout(size, count, m),
    ensures
        l == m,
{
    let s = choose|s: int| is_stride_for(size, s) && l.size == s * count;
    let t = choose|t: int| is_stride_for(size, t) && m.size == t * count;
    let w = if size < WORD_SIZE { WORD_SIZE as int } else { size };
    lemma_next_pow2_unique(w, s, t);
    lemma_next_pow2_unique(l.size as int, l.align as int, m.align as int);
}

/// `n` distinct numbers below `n` are all of them.
pub proof fn lemma_no_dup_bounded_full(s: Seq<usize>, n: nat, x: usize)
    requires
        s.no_duplicates(),
        forall|k: int| 0 <= k < s.len() ==> #[trigger] s[k] < n,
        s.len() == n,
        x < n,
    ensures
        s.contains(x),
{
    let t = s.map_values(|y: usize| y as int);
    assert forall|a: int, b: int| 0 <= a < t.len() && 0 <= b < t.len() && a != b implies t[a] != t[b] by {
        assert(s[a] != s[b]);
    }
    t.unique_seq_to_set();
    seq_to_set_is_finite(t);
    lemma_int_range(0, n as int);
    assert forall|y: int| t.to_set().contains(y) implies set_int_range(0, n as int).contains(y) by {
        let k = choose|k: int| 0 <= k < t.len() && t[k] == y;
        assert(s[k] < n);
    }
    lemma_subset_equality(t.to_set(), set_int_range(0, n as int));
    assert(set_int_range(0, n as int).contains(x as int));
    assert(t.to_set().contains(x as int));
    let k = choose|k: int| 0 <= k < t.len() && t[k] == x as int;
    assert(s[k] == x);
}

/// An address that starts a slot is that slot's address.
pub proof fn lemma_slot_of_addr(v: PoolView, a: int)
    requires
        v.wf(),
        v.is_slot(a),
    ensures
        0 <= v.index_of(a) < v.slot_count,
        v.addr_of(v.index_of(a)) == a,
{
    let s = v.slot_size;
    let d = a - v.base;
    lemma_slot_address(v, v.slot_count - 1);
    lemma_fundamental_div_mod(d, s);
    lemma_div_is_ordered(d, (v.slot_count - 1) * s, s);
    lemma_div_multiples_vanish(v.slot_count - 1, s);
    assert((v.slot_count - 1) * s == s * (v.slot_count - 1)) by (nonlinear_arith);
    lemma_div_is_ordered(0, d, s);
    assert(v.index_of(a) * s == s * v.index_of(a)) by (nonlinear_arith);
}

} // verus!
