use cwago::allocator::Allocator;
use cwago::dy::{route, AllocStep, DyMemory, FreeStep};
use cwago::fix::Release;
use cwago::layout::BufferLayout;

/// A stand-in for the native allocator that counts its calls and hands out
/// aligned, non-overlapping addresses.
struct MockOs {
    next: usize,
    calls: usize,
    frees: usize,
}

impl MockOs {
    fn new() -> MockOs {
        MockOs { next: 1 << 30, calls: 0, frees: 0 }
    }

    fn obtain(&mut self, size: usize, align: usize) -> usize {
        self.calls += 1;
        let base = (self.next + align - 1) / align * align;
        self.next = base + size.max(1);
        base
    }

    fn release(&mut self) {
        self.frees += 1;
    }
}

/// A router whose five first pools come from `os`.
fn router_from(os: &mut MockOs) -> DyMemory {
    let mut bases = [0usize; 5];
    for k in 0..5 {
        let layout = DyMemory::class_layout(k).expect("class");
        bases[k] = os.obtain(layout.size, layout.align);
    }
    DyMemory::new(bases).expect("router")
}

fn take(mem: &mut DyMemory, os: &mut MockOs, size: usize, align: usize) -> usize {
    loop {
        match mem.allocate(size, align) {
            AllocStep::Slot(a) => return a,
            AllocStep::NeedPool(class, layout) => {
                let base = os.obtain(layout.size, layout.align);
                assert!(mem.add_pool(class, base));
            },
            AllocStep::System => return os.obtain(size, align),
            AllocStep::NeedClasses => panic!("a built router asked for its classes"),
        }
    }
}

fn give(mem: &mut DyMemory, os: &mut MockOs, addr: usize, size: usize, align: usize) {
    match mem.deallocate(addr, size, align) {
        FreeStep::Pooled(Release::Freed) => {},
        FreeStep::Pooled(Release::Dropped(_)) | FreeStep::System => os.release(),
        FreeStep::Pooled(other) => panic!("address refused: {:?}", other),
    }
}

#[test]
fn test_dy_memory() {
    const SIZE_MAX: usize = 512;
    const LENGTH_MAX: usize = 512;
    let mut os = MockOs::new();
    let mut mem = router_from(&mut os);
    for size in 1..SIZE_MAX {
        let align = size.next_power_of_two();
        for _lap in 0..3usize {
            let mut ptrs = [0usize; LENGTH_MAX];
            for i in 0..LENGTH_MAX {
                ptrs[i] = take(&mut mem, &mut os, size, align);
                assert_ne!(ptrs[i], 0, "allocation {} failed", i);
                assert_eq!(ptrs[i] % align.min(256), 0, "allocation {} misaligned", i);
            }
            let mut seen = ptrs.to_vec();
            seen.sort();
            seen.dedup();
            assert_eq!(seen.len(), LENGTH_MAX, "an address was handed out twice");
            for i in 0..LENGTH_MAX {
                give(&mut mem, &mut os, ptrs[i], size, align);
            }
        }
    }
}

#[test]
fn route_picks_the_smallest_class_that_fits() {
    assert_eq!(route(1, 1), Some(0));
    assert_eq!(route(16, 16), Some(0));
    assert_eq!(route(4, 32), Some(1));
    assert_eq!(route(17, 1), Some(1));
    assert_eq!(route(64, 8), Some(2));
    assert_eq!(route(100, 128), Some(3));
    assert_eq!(route(4, 256), Some(4));
    assert_eq!(route(256, 256), Some(4));
    assert_eq!(route(4, 257), None);
    assert_eq!(route(300, 8), None);
}

#[test]
fn align_256_is_pooled_and_257_goes_to_the_native_allocator() {
    let mut os = MockOs::new();
    let mut mem = router_from(&mut os);
    assert_eq!(os.calls, 5, "one buffer per class");
    let a = take(&mut mem, &mut os, 4, 256);
    let b = take(&mut mem, &mut os, 4, 256);
    assert_eq!(os.calls, 5, "align 256 is served from the 256-byte class");
    assert_eq!(a - b, 256);
    assert_eq!(mem.allocate(4, 257), AllocStep::System);
    let c = take(&mut mem, &mut os, 4, 257);
    assert_eq!(os.calls, 6, "align 257 goes to the native allocator");
    assert_eq!(mem.deallocate(c, 4, 257), FreeStep::System);
    assert_eq!(mem.deallocate(a, 4, 256), FreeStep::Pooled(Release::Freed));
}

#[test]
fn classes_have_their_pool_sizes() {
    assert_eq!(DyMemory::class_layout(0), Some(BufferLayout { size: 512, align: 512 }));
    assert_eq!(DyMemory::class_layout(1), Some(BufferLayout { size: 1024, align: 1024 }));
    assert_eq!(DyMemory::class_layout(2), Some(BufferLayout { size: 2048, align: 2048 }));
    assert_eq!(DyMemory::class_layout(3), Some(BufferLayout { size: 2048, align: 2048 }));
    assert_eq!(DyMemory::class_layout(4), Some(BufferLayout { size: 4096, align: 4096 }));
    assert_eq!(DyMemory::class_layout(5), None);
    assert!(DyMemory::new([4096, 8192, 16384, 1 << 20, 3]).is_none(), "a misaligned buffer was taken");
    let mut mem = DyMemory::new([1 << 12, 1 << 13, 1 << 14, 1 << 15, 1 << 16]).expect("router");
    assert_eq!(mem.allocate(1, 16), AllocStep::Slot((1 << 12) + 31 * 16));
    assert_eq!(mem.allocate(1, 32), AllocStep::Slot((1 << 13) + 31 * 32));
    assert_eq!(mem.allocate(1, 64), AllocStep::Slot((1 << 14) + 31 * 64));
    assert_eq!(mem.allocate(1, 128), AllocStep::Slot((1 << 15) + 15 * 128));
    assert_eq!(mem.allocate(1, 256), AllocStep::Slot((1 << 16) + 15 * 256));
    assert!(!mem.add_pool(3, 1 << 20), "a pool was added while the active one has room");
    assert!(!mem.add_pool(5, 1 << 20));
    for _ in 0..15 {
        assert!(matches!(mem.allocate(1, 128), AllocStep::Slot(_)));
    }
    assert_eq!(mem.allocate(1, 128), AllocStep::NeedPool(3, BufferLayout { size: 2048, align: 2048 }));
    assert!(mem.add_pool(3, 1 << 20));
    assert_eq!(mem.allocate(1, 128), AllocStep::Slot((1 << 20) + 15 * 128));
}

#[test]
fn foreign_pointer_is_refused_by_its_class() {
    let mut os = MockOs::new();
    let mut mem = router_from(&mut os);
    let a = take(&mut mem, &mut os, 8, 8);
    assert_eq!(mem.deallocate(a + 4096, 8, 8), FreeStep::Pooled(Release::Foreign));
    assert_eq!(mem.deallocate(a, 8, 8), FreeStep::Pooled(Release::Freed));
}

#[test]
fn test_allocator() {
    const SIZE_MAX: usize = 512;
    const LENGTH_MAX: usize = 512;
    let mut mem = Allocator::new();
    assert!(!mem.is_initialized());
    let mut os = MockOs::new();
    let mut memory: std::collections::HashMap<usize, u8> = std::collections::HashMap::new();
    for size in 1..SIZE_MAX {
        let align = size.next_power_of_two();
        for _lap in 0..3usize {
            let mut ptrs = [0usize; LENGTH_MAX];
            for i in 0..LENGTH_MAX {
                ptrs[i] = loop {
                    match mem.allocate(size, align) {
                        AllocStep::Slot(a) => break a,
                        AllocStep::NeedPool(class, layout) => {
                            let base = os.obtain(layout.size, layout.align);
                            assert!(mem.add_pool(class, base));
                        },
                        AllocStep::System => break os.obtain(size, align),
                        AllocStep::NeedClasses => {
                            let mut bases = [0usize; 5];
                            for k in 0..5 {
                                let layout = DyMemory::class_layout(k).expect("class");
                                bases[k] = os.obtain(layout.size, layout.align);
                            }
                            assert!(mem.initialize(bases));
                        },
                    }
                };
                assert_ne!(ptrs[i], 0, "allocation {} failed", i);
            }
            for i in 0..LENGTH_MAX {
                memory.insert(ptrs[i], (i % 256) as u8);
            }
            for i in 0..LENGTH_MAX {
                assert_eq!(memory[&ptrs[i]], (i % 256) as u8, "allocation {} was overwritten", i);
            }
            for i in 0..LENGTH_MAX {
                match mem.deallocate(ptrs[i], size, align) {
                    FreeStep::Pooled(Release::Freed) => {},
                    FreeStep::Pooled(Release::Dropped(_)) | FreeStep::System => os.release(),
                    FreeStep::Pooled(other) => panic!("address refused: {:?}", other),
                }
            }
            memory.clear();
        }
    }
    assert!(mem.is_initialized());
}

#[test]
fn allocator_builds_its_router_on_first_use() {
    let mut mem = Allocator::new();
    assert!(!mem.is_initialized());
    assert!(!mem.add_pool(0, 4096), "no pool before the router exists");
    assert_eq!(mem.deallocate(4096, 8, 8), FreeStep::Pooled(Release::Foreign));
    assert_eq!(mem.allocate(8, 512), AllocStep::System);
    assert_eq!(mem.allocate(8, 8), AllocStep::NeedClasses);
    assert!(!mem.is_initialized());
    assert!(!mem.initialize([1 << 12, 1 << 13, 1 << 14, 1 << 15, 7]));
    assert!(!mem.is_initialized());
    assert!(mem.initialize([1 << 12, 1 << 13, 1 << 14, 1 << 15, 1 << 16]));
    assert!(mem.is_initialized());
    assert!(!mem.initialize([1 << 20, 1 << 21, 1 << 22, 1 << 23, 1 << 24]), "the router is built only once");
    assert_eq!(mem.allocate(8, 8), AllocStep::Slot((1 << 12) + 31 * 16));
    assert_eq!(mem.deallocate((1 << 12) + 31 * 16, 8, 8), FreeStep::Pooled(Release::Freed));
}
