use cwago::fix::{FixMemory, Release};
use cwago::layout::BufferLayout;
use cwago::pool::Pool;

/// A stand-in for the native allocator: hands out aligned buffers from a
/// large address range, in a scrambled order, and counts its calls.
struct MockOs {
    next: usize,
    step: usize,
    calls: usize,
    released: Vec<usize>,
}

impl MockOs {
    fn new() -> MockOs {
        MockOs { next: 0, step: 0, calls: 0, released: Vec::new() }
    }

    fn obtain(&mut self, layout: BufferLayout) -> usize {
        self.calls += 1;
        // Scatter buffers over 4096 aligned places so that new ones land both
        // below and above the ones handed out before.
        self.step += 1;
        let place = (self.step * 2654435761) % 4093;
        let unit = layout.align.max(layout.size);
        let base = (1usize << 32) + place * unit;
        self.next = base;
        base
    }
}

/// A class whose first pool comes from `os`.
fn class_from(os: &mut MockOs, size: usize, count: usize) -> FixMemory {
    let layout = Pool::buffer_layout(size, count).expect("layout");
    let base = os.obtain(layout);
    FixMemory::new(size, count, base).expect("class")
}

fn take(mem: &mut FixMemory, os: &mut MockOs) -> usize {
    loop {
        if let Some(a) = mem.allocate() {
            return a;
        }
        assert!(mem.needs_pool());
        let base = os.obtain(mem.pool_layout());
        assert!(mem.add_pool(base), "a fresh buffer was refused");
    }
}

fn give(mem: &mut FixMemory, os: &mut MockOs, addr: usize) -> bool {
    match mem.deallocate(addr) {
        Release::Freed => true,
        Release::Dropped(buffer) => {
            os.released.push(buffer.base);
            true
        },
        Release::Foreign | Release::Rejected => false,
    }
}

fn assert_sorted(mem: &FixMemory) {
    let bases = mem.min_addresses();
    assert_eq!(bases.len(), mem.pools_count());
    for i in 1..bases.len() {
        assert!(bases[i - 1] < bases[i], "pools not sorted by address");
    }
}

fn fix_memory_cycle(size: usize, count: usize) {
    const LENGTH_MAX: usize = 512;
    let mut os = MockOs::new();
    let mut mem = class_from(&mut os, size, count);
    for _lap in 0..3usize {
        let mut ptrs = [0usize; LENGTH_MAX];
        for i in 0..LENGTH_MAX {
            ptrs[i] = take(&mut mem, &mut os);
            assert_ne!(ptrs[i], 0, "allocation {} failed", i);
        }
        assert_sorted(&mem);
        let mut seen = ptrs.to_vec();
        seen.sort();
        seen.dedup();
        assert_eq!(seen.len(), LENGTH_MAX, "an address was handed out twice");
        for i in 0..LENGTH_MAX {
            assert!(give(&mut mem, &mut os, ptrs[i]), "address {} not taken back", i);
        }
        assert_sorted(&mem);
    }
}

#[test]
fn test_fix_memory() {
    for size in 1..256usize {
        for count in (1..256usize).step_by(13) {
            fix_memory_cycle(size, count);
        }
    }
}

#[test]
fn fix_memory_starts_with_one_active_pool() {
    assert!(FixMemory::new(0, 4, 4096).is_none());
    assert!(FixMemory::new(4, 0, 4096).is_none());
    assert!(FixMemory::new(4, 4, 0).is_none(), "a null buffer was taken");
    assert!(FixMemory::new(4, 4, 4096 + 8).is_none(), "a misaligned buffer was taken");
    let mut mem = FixMemory::new(4, 4, 4096).expect("class");
    assert_eq!(mem.pools_count(), 1);
    assert_eq!(mem.min_addresses(), vec![4096]);
    assert!(!mem.needs_pool());
    assert_eq!(mem.pool_layout(), BufferLayout { size: 32, align: 32 });
    assert_eq!(mem.allocate(), Some(4096 + 24));
}

#[test]
fn exhausted_class_grows_by_one_pool() {
    let mut mem = FixMemory::new(16, 2, 4096).expect("class");
    assert!(!mem.add_pool(8192), "a pool was added while the active one has room");
    assert_eq!(mem.allocate(), Some(4096 + 16));
    assert_eq!(mem.allocate(), Some(4096));
    assert_eq!(mem.allocate(), None);
    assert!(mem.needs_pool());
    assert!(!mem.add_pool(4096 + 16), "an overlapping buffer was taken");
    assert!(!mem.add_pool(0), "a null buffer was taken");
    assert!(!mem.add_pool(1024 + 16), "a misaligned buffer was taken");
    assert!(mem.add_pool(1024));
    assert_eq!(mem.pools_count(), 2);
    assert_eq!(mem.min_addresses(), vec![1024, 4096]);
    assert_eq!(mem.allocate(), Some(1024 + 16));
}

#[test]
fn foreign_pointer_changes_nothing() {
    let mut mem = FixMemory::new(16, 2, 4096).expect("class");
    let a = mem.allocate().expect("slot");
    assert_eq!(mem.deallocate(100), Release::Foreign);
    assert_eq!(mem.deallocate(4096 + 32), Release::Foreign);
    assert_eq!(mem.deallocate(usize::MAX), Release::Foreign);
    assert_eq!(mem.pools_count(), 1);
    assert_eq!(mem.allocate(), Some(4096));
    assert_eq!(mem.allocate(), None);
    assert_eq!(mem.deallocate(a), Release::Freed);
}

#[test]
fn double_free_is_rejected() {
    let mut mem = FixMemory::new(16, 2, 4096).expect("class");
    let a = mem.allocate().expect("slot");
    assert_eq!(mem.deallocate(a), Release::Freed);
    assert_eq!(mem.deallocate(a), Release::Rejected);
    assert_eq!(mem.deallocate(4096 + 1), Release::Rejected);
}

#[test]
fn unused_pool_that_is_not_active_is_dropped() {
    let mut mem = FixMemory::new(16, 2, 8192).expect("class");
    let a = mem.allocate().expect("slot");
    let b = mem.allocate().expect("slot");
    assert!(mem.add_pool(4096));
    let c = mem.allocate().expect("slot");
    assert_eq!(mem.min_addresses(), vec![4096, 8192]);
    assert_eq!(mem.buffers().len(), 2);
    assert_eq!(mem.deallocate(a), Release::Freed);
    assert_eq!(
        mem.deallocate(b),
        Release::Dropped(cwago::layout::Buffer { base: 8192, layout: BufferLayout { size: 32, align: 32 } })
    );
    assert_eq!(mem.min_addresses(), vec![4096]);
    // The active pool stays even when unused.
    assert_eq!(mem.deallocate(c), Release::Freed);
    assert_eq!(mem.pools_count(), 1);
}

#[test]
fn pools_stay_sorted_under_growth_and_shrink() {
    let mut os = MockOs::new();
    let mut mem = class_from(&mut os, 32, 3);
    let mut live: Vec<usize> = Vec::new();
    for round in 0..40usize {
        for _ in 0..(round % 7 + 1) {
            live.push(take(&mut mem, &mut os));
        }
        let mut k = round;
        while live.len() > 4 && k % 3 != 0 {
            let i = (k * 7) % live.len();
            let a = live.swap_remove(i);
            assert!(give(&mut mem, &mut os, a));
            k += 1;
        }
        assert_sorted(&mem);
    }
    assert!(os.calls > 1);
}

#[test]
fn no_address_is_held_twice() {
    let mut os = MockOs::new();
    let mut mem = class_from(&mut os, 64, 4);
    let mut held: std::collections::HashSet<usize> = std::collections::HashSet::new();
    let mut order: Vec<usize> = Vec::new();
    for step in 0..600usize {
        if step % 5 == 3 && !order.is_empty() {
            let a = order.remove((step * 31) % order.len());
            assert!(held.remove(&a));
            assert!(give(&mut mem, &mut os, a));
        } else {
            let a = take(&mut mem, &mut os);
            assert!(held.insert(a), "address {:#x} handed out while still held", a);
            order.push(a);
        }
    }
}
