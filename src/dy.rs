//! The router over the size classes, with the native allocator as fallback.
use vstd::prelude::*;
use crate::layout::{is_pow2, is_usable_base, lemma_multiple_of_divisor, lemma_pow2_divides, BufferLayout};
use crate::pool::{is_pool_layout, is_stride_for, lemma_pool_layout_unique, lemma_slot_address};
use crate::fix::{lemma_base_before_end, FixMemory, FixView, Release};

verus! {

/// Number of size classes.
pub const CLASS_COUNT: usize = 5;

/// Largest slot size served from a pool; larger requests go to the native
/// allocator.
pub const LARGEST_CLASS: usize = 256;

/// Slot size of class `k`: 16, 32, 64, 128 and 256 bytes.
pub open spec fn class_size(k: int) -> int {
    if k == 0 {
        16
    } else if k == 1 {
        32
    } else if k == 2 {
        64
    } else if k == 3 {
        128
    } else {
        256
    }
}

/// Slots per pool in class `k`.
pub open spec fn class_count(k: int) -> int {
    if k <= 2 {
        32
    } else {
        16
    }
}

/// Layout of a pool's buffer in class `k`.
pub open spec fn class_buffer(k: int) -> BufferLayout {
    if k == 0 {
        BufferLayout { size: 512, align: 512 }
    } else if k == 1 {
        BufferLayout { size: 1024, align: 1024 }
    } else if k <= 3 {
        BufferLayout { size: 2048, align: 2048 }
    } else {
        BufferLayout { size: 4096, align: 4096 }
    }
}

/// The class serving a request of `size` bytes aligned to `align`: the
/// smallest whose slot covers both; `None` above the largest class, where the
/// native allocator serves the request.
///
/// The key is the larger of size and alignment, not the alignment alone: a
/// request whose size exceeds its alignment (100 bytes aligned to 8, say)
/// would otherwise get a slot smaller than itself. For every request no
/// larger than its alignment, the two keys agree: a request of 4 bytes
/// aligned to 256 takes a 256-byte slot.
pub open spec fn route_of(size: int, align: int) -> Option<int> {
    let key = if size < align { align } else { size };
    if key <= 16 {
        Some(0)
    } else if key <= 32 {
        Some(1)
    } else if key <= 64 {
        Some(2)
    } else if key <= 128 {
        Some(3)
    } else if key <= 256 {
        Some(4)
    } else {
        None
    }
}

/// What an allocation request came to.
#[derive(Clone, Copy, Debug, PartialEq, Eq, Structural)]
pub enum AllocStep {
    /// A slot at this address.
    Slot(usize),
    /// The class's active pool is used up: the native allocator is to hand
    /// out a buffer of this layout, to be passed to `add_pool` for this
    /// class, and the request made again.
    NeedPool(usize, BufferLayout),
    /// The request is for the native allocator, unchanged.
    System,
    /// The size classes are not built yet: the native allocator is to hand
    /// out one buffer per class, of `DyMemory::class_layout(k)`, to be passed
    /// to `Allocator::initialize`, and the request made again. Only
    /// `Allocator` returns this.
    NeedClasses,
}

/// What a request to take memory back came to.
#[derive(Clone, Copy, Debug, PartialEq, Eq, Structural)]
pub enum FreeStep {
    /// The request was for a size class; how that class took it.
    Pooled(Release),
    /// The request is for the native allocator, unchanged.
    System,
}

/// The class for a request, as `route_of` says.
pub fn route(size: usize, align: usize) -> (r: Option<usize>)
    ensures
        match r {
            Some(k) => route_of(size as int, align as int) == Some(k as int),
            None => route_of(size as int, align as int) is None,
        },
{
    let key = if size < align {
        align
    } else {
        size
    };
    if key <= 16 {
        Some(0)
    } else if key <= 32 {
        Some(1)
    } else if key <= 64 {
        Some(2)
    } else if key <= 128 {
        Some(3)
    } else if key <= LARGEST_CLASS {
        Some(4)
    } else {
        None
    }
}

/// The step for an allocation from class `k`, seen from its state before.
pub open spec fn alloc_step_of(m: FixView, k: int) -> AllocStep {
    match m.alloc_result() {
        Some(a) => AllocStep::Slot(a as usize),
        None => AllocStep::NeedPool(k as usize, m.layout),
    }
}

/// The five size classes, seen as plain values.
pub ghost struct DyView {
    pub classes: Seq<FixView>,
}

impl DyView {
    pub open spec fn wf(self) -> bool {
        &&& self.classes.len() == CLASS_COUNT
        &&& forall|k: int| 0 <= k < CLASS_COUNT ==> {
            &&& #[trigger] self.classes[k].wf()
            &&& self.classes[k].slot_size == class_size(k)
            &&& self.classes[k].slot_count == class_count(k)
            &&& self.classes[k].layout == class_buffer(k)
        }
    }

    /// As built over the buffers at `bases`: each class holds one pool, the
    /// active one, over its buffer, with every slot free.
    pub open spec fn is_initial(self, bases: Seq<usize>) -> bool {
        &&& self.wf()
        &&& forall|k: int|
            0 <= k < CLASS_COUNT ==> {
                &&& (#[trigger] self.classes[k]).pools.len() == 1
                &&& self.classes[k].active == 0
                &&& self.classes[k].pools[0].base == bases[k]
                &&& self.classes[k].pools[0].is_fresh()
            }
    }

    pub open spec fn alloc_step(self, size: int, align: int) -> AllocStep {
        match route_of(size, align) {
            Some(k) => alloc_step_of(self.classes[k], k),
            None => AllocStep::System,
        }
    }

    pub open spec fn after_alloc(self, size: int, align: int) -> DyView {
        match route_of(size, align) {
            Some(k) => DyView { classes: self.classes.update(k, self.classes[k].after_alloc()) },
            None => self,
        }
    }

    pub open spec fn free_step(self, addr: int, size: int, align: int) -> FreeStep {
        match route_of(size, align) {
            Some(k) => FreeStep::Pooled(self.classes[k].release_result(addr)),
            None => FreeStep::System,
        }
    }

    pub open spec fn after_free(self, addr: int, size: int, align: int) -> DyView {
        match route_of(size, align) {
            Some(k) => DyView { classes: self.classes.update(k, self.classes[k].after_free(addr)) },
            None => self,
        }
    }
}

/// Routes each request by its size and alignment to one of five size
/// classes (16, 32, 64, 128 and 256 bytes), or to the native allocator
/// above them.
pub struct DyMemory {
    memory16: FixMemory,
    memory32: FixMemory,
    memory64: FixMemory,
    memory128: FixMemory,
    memory256: FixMemory,
}

impl View for DyMemory {
    type V = DyView;

    closed spec fn view(&self) -> DyView {
        DyView {
            classes: seq![
                self.memory16@,
                self.memory32@,
                self.memory64@,
                self.memory128@,
                self.memory256@,
            ],
        }
    }
}

impl DyMemory {
    pub closed spec fn wf(&self) -> bool {
        &&& self@.wf()
        &&& self.memory16.wf()
        &&& self.memory32.wf()
        &&& self.memory64.wf()
        &&& self.memory128.wf()
        &&& self.memory256.wf()
    }

    pub proof fn lemma_wf(&self)
        requires
            self.wf(),
        ensures
            self@.wf(),
    {
    }

    /// Each class's own invariant, seen on its view.
    proof fn lemma_fields(&self)
        requires
            self.memory16.wf(),
            self.memory32.wf(),
            self.memory64.wf(),
            self.memory128.wf(),
            self.memory256.wf(),
        ensures
            self.memory16@.wf(),
            self.memory32@.wf(),
            self.memory64@.wf(),
            self.memory128@.wf(),
            self.memory256@.wf(),
    {
        self.memory16.lemma_wf();
        self.memory32.lemma_wf();
        self.memory64.lemma_wf();
        self.memory128.lemma_wf();
        self.memory256.lemma_wf();
    }

    /// The five size classes, each with one pool over the buffer at
    /// `bases[k]`, which the native allocator handed out for
    /// `class_layout(k)`. `None` when a base cannot start its class's buffer.
    pub fn new(bases: [usize; 5]) -> (r: Option<DyMemory>)
        ensures
            r is Some <==> forall|k: int|
                0 <= k < CLASS_COUNT ==> is_usable_base(#[trigger] class_buffer(k), bases@[k] as int),
            r matches Some(m) ==> m.wf() && m@.is_initial(bases@),
    {
        let memory16 = match new_class(0, bases[0]) {
            Some(m) => m,
            None => return None,
        };
        let memory32 = match new_class(1, bases[1]) {
            Some(m) => m,
            None => return None,
        };
        let memory64 = match new_class(2, bases[2]) {
            Some(m) => m,
            None => return None,
        };
        let memory128 = match new_class(3, bases[3]) {
            Some(m) => m,
            None => return None,
        };
        let memory256 = match new_class(4, bases[4]) {
            Some(m) => m,
            None => return None,
        };
        let r = DyMemory { memory16, memory32, memory64, memory128, memory256 };
        proof {
            r.lemma_fields();
            assert forall|k: int| 0 <= k < CLASS_COUNT implies is_usable_base(
                #[trigger] class_buffer(k),
                bases@[k] as int,
            ) by {
                assert(r@.classes[k].pools[0].wf());
            }
        }
        Some(r)
    }

    /// Layout of a pool's buffer in class `class`; `None` past the last
    /// class.
    pub fn class_layout(class: usize) -> (r: Option<BufferLayout>)
        ensures
            class < CLASS_COUNT ==> r == Some(class_buffer(class as int)),
            class >= CLASS_COUNT ==> r is None,
    {
        if class == 0 {
            Some(BufferLayout { size: 512, align: 512 })
        } else if class == 1 {
            Some(BufferLayout { size: 1024, align: 1024 })
        } else if class <= 3 {
            Some(BufferLayout { size: 2048, align: 2048 })
        } else if class == 4 {
            Some(BufferLayout { size: 4096, align: 4096 })
        } else {
            None
        }
    }

    /// Serves a request of `size` bytes aligned to `align`: from its size
    /// class when `route` gives one, else by handing it to the native
    /// allocator.
    pub fn allocate(&mut self, size: usize, align: usize) -> (r: AllocStep)
        requires
            old(self).wf(),
        ensures
            final(self).wf(),
            r == old(self)@.alloc_step(size as int, align as int),
            final(self)@ == old(self)@.after_alloc(size as int, align as int),
            r matches AllocStep::Slot(a) ==> is_pow2(align as int) ==> a % align == 0,
    {
        proof {
            self.lemma_fields();
        }
        let r = match route(size, align) {
            Some(0) => alloc_in(&mut self.memory16, 0),
            Some(1) => alloc_in(&mut self.memory32, 1),
            Some(2) => alloc_in(&mut self.memory64, 2),
            Some(3) => alloc_in(&mut self.memory128, 3),
            Some(_) => alloc_in(&mut self.memory256, 4),
            None => AllocStep::System,
        };
        proof {
            self.lemma_fields();
            assert(self@.classes =~= old(self)@.after_alloc(size as int, align as int).classes);
            if r is Slot {
                lemma_slot_serves_request(old(self)@, size as int, align as int);
            }
        }
        r
    }

    /// Gives class `class` a new pool over the buffer at `base`, as
    /// `FixMemory::add_pool` does; `false`, changing nothing, for a class
    /// that does not exist or a buffer that class refuses.
    pub fn add_pool(&mut self, class: usize, base: usize) -> (r: bool)
        requires
            old(self).wf(),
        ensures
            final(self).wf(),
            class >= CLASS_COUNT ==> !r && final(self)@ == old(self)@,
            class < CLASS_COUNT ==> {
                let m = old(self)@.classes[class as int];
                let n = final(self)@.classes[class as int];
                &&& r == (m.needs_pool() && is_usable_base(m.layout, base as int) && m.fits(base as int))
                &&& final(self)@.classes == old(self)@.classes.update(class as int, n)
                &&& !r ==> n == m
                &&& r ==> n.active <= m.pools.len() && n.pools == m.pools.insert(n.active, n.pools[n.active])
                    && n.pools[n.active].base == base && n.pools[n.active].is_fresh()
            },
    {
        proof {
            self.lemma_fields();
        }
        let r = match class {
            0 => self.memory16.add_pool(base),
            1 => self.memory32.add_pool(base),
            2 => self.memory64.add_pool(base),
            3 => self.memory128.add_pool(base),
            4 => self.memory256.add_pool(base),
            _ => false,
        };
        proof {
            self.lemma_fields();
            if class < CLASS_COUNT {
                assert(self@.classes =~= old(self)@.classes.update(class as int, self@.classes[class as int]));
            } else {
                assert(self@.classes =~= old(self)@.classes);
            }
        }
        r
    }

    /// Takes back `addr`, handed out for a request of `size` bytes aligned
    /// to `align`: routed as the request was, and taken back by that class
    /// or left to the native allocator.
    pub fn deallocate(&mut self, addr: usize, size: usize, align: usize) -> (r: FreeStep)
        requires
            old(self).wf(),
        ensures
            final(self).wf(),
            r == old(self)@.free_step(addr as int, size as int, align as int),
            final(self)@ == old(self)@.after_free(addr as int, size as int, align as int),
    {
        proof {
            self.lemma_fields();
        }
        let r = match route(size, align) {
            Some(0) => FreeStep::Pooled(self.memory16.deallocate(addr)),
            Some(1) => FreeStep::Pooled(self.memory32.deallocate(addr)),
            Some(2) => FreeStep::Pooled(self.memory64.deallocate(addr)),
            Some(3) => FreeStep::Pooled(self.memory128.deallocate(addr)),
            Some(_) => FreeStep::Pooled(self.memory256.deallocate(addr)),
            None => FreeStep::System,
        };
        proof {
            self.lemma_fields();
            assert(self@.classes =~= old(self)@.after_free(addr as int, size as int, align as int).classes);
        }
        r
    }

    /// The five size classes, smallest first, for a caller that guards each
    /// class on its own.
    pub fn into_classes(self) -> (r: Vec<FixMemory>)
        requires
            self.wf(),
        ensures
            r@.len() == CLASS_COUNT,
            forall|k: int| 0 <= k < CLASS_COUNT ==> (#[trigger] r@[k]).wf() && r@[k]@ == self@.classes[k],
    {
        let mut r: Vec<FixMemory> = Vec::with_capacity(CLASS_COUNT);
        r.push(self.memory16);
        r.push(self.memory32);
        r.push(self.memory64);
        r.push(self.memory128);
        r.push(self.memory256);
        r
    }
}

/// Serves one request from class `k`.
fn alloc_in(m: &mut FixMemory, k: usize) -> (r: AllocStep)
    requires
        old(m).wf(),
    ensures
        final(m).wf(),
        final(m)@ == old(m)@.after_alloc(),
        r == alloc_step_of(old(m)@, k as int),
{
    match m.allocate() {
        Some(a) => AllocStep::Slot(a),
        None => AllocStep::NeedPool(k, m.pool_layout()),
    }
}

/// A slot handed out for a request holds it: the slot is at least `size`
/// bytes wide and lies within its pool's buffer, so slots handed out at once
/// never share a byte; and for a power-of-two `align` its address is a
/// multiple of `align`.
pub proof fn lemma_slot_serves_request(v: DyView, size: int, align: int)
    requires
        v.wf(),
        v.alloc_step(size, align) is Slot,
    ensures
        ({
            let m = v.classes[route_of(size, align)->Some_0];
            let p = m.pools[m.active];
            let a = v.alloc_step(size, align)->Slot_0 as int;
            &&& size <= p.slot_size
            &&& p.base <= a
            &&& a + p.slot_size <= p.end()
            &&& is_pow2(align) ==> a % align == 0
        }),
{
    let k = route_of(size, align)->Some_0;
    let m = v.classes[k];
    assert(m.wf());
    let p = m.pools[m.active];
    assert(p.wf());
    let i = p.free.last() as int;
    assert(p.free[p.free.len() - 1] < p.slot_count);
    lemma_slot_address(p, i);
    lemma_base_before_end(p);
    assert(is_stride_for(m.slot_size, p.slot_size));
    if is_pow2(align) {
        lemma_pow2_divides(align, p.slot_size);
        lemma_multiple_of_divisor(p.addr_of(i), p.slot_size, align);
    }
    assert(p.addr_of(i) >= p.base) by (nonlinear_arith)
        requires
            i >= 0,
            p.slot_size >= 0,
            p.addr_of(i) == p.base + i * p.slot_size,
    ;
}

/// A pool's layout in class `k` is `class_buffer(k)`.
proof fn lemma_class_layout(k: int)
    requires
        0 <= k < CLASS_COUNT,
    ensures
        is_pool_layout(class_size(k), class_count(k), class_buffer(k)),
        class_buffer(k).is_valid(),
{
    reveal_with_fuel(is_pow2, 13);
    assert(is_pow2(4096) && is_pow2(2048) && is_pow2(1024) && is_pow2(512));
    assert(is_pow2(16) && is_pow2(32) && is_pow2(64) && is_pow2(128) && is_pow2(256));
    assert(is_stride_for(class_size(k), class_size(k)));
}

/// Builds size class `k` with one pool over the buffer at `base`.
fn new_class(k: usize, base: usize) -> (r: Option<FixMemory>)
    requires
        k < CLASS_COUNT,
    ensures
        r is Some <==> is_usable_base(class_buffer(k as int), base as int),
        r matches Some(m) ==> {
            &&& m.wf()
            &&& m@.slot_size == class_size(k as int)
            &&& m@.slot_count == class_count(k as int)
            &&& m@.layout == class_buffer(k as int)
            &&& m@.pools.len() == 1
            &&& m@.active == 0
            &&& m@.pools[0].base == base
            &&& m@.pools[0].is_fresh()
        },
{
    proof {
        lemma_class_layout(k as int);
    }
    let (size, count): (usize, usize) = if k == 0 {
        (16, 32)
    } else if k == 1 {
        (32, 32)
    } else if k == 2 {
        (64, 32)
    } else if k == 3 {
        (128, 16)
    } else {
        (256, 16)
    };
    let r = FixMemory::new(size, count, base);
    proof {
        if let Some(m) = &r {
            lemma_pool_layout_unique(size as int, count as int, m@.layout, class_buffer(k as int));
            m.lemma_wf();
            assert(m@.pools[0].wf());
        }
    }
    r
}

} // verus!
