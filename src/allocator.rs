//! The allocator's front: the router, built once, on the first request.
use vstd::prelude::*;
use crate::dy::{class_buffer, route_of, AllocStep, DyMemory, DyView, FreeStep, CLASS_COUNT};
use crate::fix::Release;
use crate::layout::{is_pow2, is_usable_base};

verus! {

/// The memory allocator. Its router is built once, when the first request
/// has brought one buffer per size class, and lives as long as the
/// allocator.
pub struct Allocator {
    memory: Option<DyMemory>,
}

impl View for Allocator {
    type V = Option<DyView>;

    closed spec fn view(&self) -> Option<DyView> {
        match self.memory {
            Some(m) => Some(m@),
            None => None,
        }
    }
}

impl Allocator {
    pub closed spec fn wf(&self) -> bool {
        self.memory matches Some(m) ==> m.wf()
    }

    /// An allocator whose router is not built yet.
    pub fn new() -> (r: Allocator)
        ensures
            r.wf(),
            r@ is None,
    {
        Allocator { memory: None }
    }

    /// The router has been built.
    pub fn is_initialized(&self) -> (r: bool)
        ensures
            r == self@ is Some,
    {
        self.memory.is_some()
    }

    /// Builds the router over one buffer per size class, as `DyMemory::new`
    /// does. Only once: `false`, changing nothing, when the router exists or
    /// a base cannot start its class's buffer.
    pub fn initialize(&mut self, bases: [usize; 5]) -> (r: bool)
        requires
            old(self).wf(),
        ensures
            final(self).wf(),
            old(self)@ is Some ==> !r && final(self)@ == old(self)@,
            old(self)@ is None ==> {
                &&& r == forall|k: int|
                    0 <= k < CLASS_COUNT ==> is_usable_base(#[trigger] class_buffer(k), bases@[k] as int)
                &&& r ==> (final(self)@ matches Some(d) && d.is_initial(bases@))
                &&& !r ==> final(self)@ is None
            },
    {
        if self.memory.is_some() {
            return false;
        }
        match DyMemory::new(bases) {
            Some(m) => {
                self.memory = Some(m);
                true
            },
            None => false,
        }
    }

    /// Serves a request of `size` bytes aligned to `align` as
    /// `DyMemory::allocate` does. Before the router is built, a request for a
    /// size class asks for the classes' buffers first (`NeedClasses`); a
    /// larger one goes to the native allocator.
    pub fn allocate(&mut self, size: usize, align: usize) -> (r: AllocStep)
        requires
            old(self).wf(),
        ensures
            final(self).wf(),
            old(self)@ is None ==> final(self)@ is None && r == (if route_of(
                size as int,
                align as int,
            ) is Some {
                AllocStep::NeedClasses
            } else {
                AllocStep::System
            }),
            old(self)@ matches Some(d) ==> r == d.alloc_step(size as int, align as int)
                && final(self)@ == Some(d.after_alloc(size as int, align as int)),
            r matches AllocStep::Slot(a) ==> is_pow2(align as int) ==> a % align == 0,
    {
        match &mut self.memory {
            Some(m) => m.allocate(size, align),
            None => {
                if crate::dy::route(size, align).is_some() {
                    AllocStep::NeedClasses
                } else {
                    AllocStep::System
                }
            },
        }
    }

    /// Gives class `class` a new pool over the buffer at `base`, as
    /// `DyMemory::add_pool` does; `false`, changing nothing, before the
    /// router is built.
    pub fn add_pool(&mut self, class: usize, base: usize) -> (r: bool)
        requires
            old(self).wf(),
        ensures
            final(self).wf(),
            old(self)@ is None ==> !r && final(self)@ is None,
            old(self)@ matches Some(d) ==> final(self)@ matches Some(e) && {
                &&& class >= CLASS_COUNT ==> !r && e == d
                &&& class < CLASS_COUNT ==> {
                    let m = d.classes[class as int];
                    let n = e.classes[class as int];
                    &&& r == (m.needs_pool() && is_usable_base(m.layout, base as int) && m.fits(
                        base as int,
                    ))
                    &&& e.classes == d.classes.update(class as int, n)
                    &&& !r ==> n == m
                    &&& r ==> n.active <= m.pools.len() && n.pools == m.pools.insert(
                        n.active,
                        n.pools[n.active],
                    ) && n.pools[n.active].base == base && n.pools[n.active].is_fresh()
                }
            },
    {
        match &mut self.memory {
            Some(m) => m.add_pool(class, base),
            None => false,
        }
    }

    /// Takes back `addr`, handed out for a request of `size` bytes aligned to
    /// `align`, as `DyMemory::deallocate` does. Before the router is built no
    /// size class has handed anything out: a request for one is refused as
    /// foreign.
    pub fn deallocate(&mut self, addr: usize, size: usize, align: usize) -> (r: FreeStep)
        requires
            old(self).wf(),
        ensures
            final(self).wf(),
            old(self)@ is None ==> final(self)@ is None && r == (if route_of(
                size as int,
                align as int,
            ) is Some {
                FreeStep::Pooled(Release::Foreign)
            } else {
                FreeStep::System
            }),
            old(self)@ matches Some(d) ==> r == d.free_step(addr as int, size as int, align as int)
                && final(self)@ == Some(d.after_free(addr as int, size as int, align as int)),
    {
        match &mut self.memory {
            Some(m) => m.deallocate(addr, size, align),
            None => {
                if crate::dy::route(size, align).is_some() {
                    FreeStep::Pooled(Release::Foreign)
                } else {
                    FreeStep::System
                }
            },
        }
    }
}

} // verus!
