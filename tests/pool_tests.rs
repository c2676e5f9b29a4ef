use cwago::layout::BufferLayout;
use cwago::pool::Pool;

const SIZE_MAX: usize = 256;
const COUNT_MAX: usize = 256;

/// Builds a pool over a stand-in buffer starting at an address aligned as
/// the layout asks.
fn pool_at(size: usize, count: usize) -> (Pool, usize, Vec<u8>) {
    let layout = Pool::buffer_layout(size, count).expect("layout");
    let base = layout.align * 16;
    let pool = Pool::new(size, count, base).expect("pool");
    (pool, base, vec![0u8; layout.size])
}

#[test]
fn mem_test_pool() {
    assert!(Pool::new(0, 1, 4096).is_none(), "a zero slot size must fail");
    assert!(Pool::new(1, 0, 4096).is_none(), "a zero slot count must fail");
    for size in 1..256usize {
        for count in 1..256usize {
            let pool = match Pool::new(size, count, 1 << 20) {
                Some(pool) => pool,
                None => panic!("size {} count {}: pool not built", size, count),
            };
            assert!(
                pool.slot_size() >= std::mem::size_of::<usize>(),
                "slot size {} below the address width {}",
                pool.slot_size(),
                std::mem::size_of::<usize>()
            );
        }
    }
}

fn pool_cycle(size: usize, count: usize) {
    let (mut pool, base, mut memory) = pool_at(size, count);
    for _lap in 0..3usize {
        let mut ptrs = [0usize; COUNT_MAX];
        for i in 0..count {
            ptrs[i] = pool.allocate().expect("slot");
            assert_ne!(ptrs[i], 0, "allocation {} failed", i);
        }
        assert!(pool.is_exhausted(), "a pool with every slot handed out still has a free slot");
        assert!(pool.allocate().is_none());
        let ptr_min = *ptrs[..count].iter().min().expect("min");
        let ptr_max = *ptrs[..count].iter().max().expect("max");
        assert!(pool.is_managed(ptr_min));
        assert!(pool.is_managed(ptr_max));
        assert!(!pool.is_managed(ptr_min - 1));
        assert!(!pool.is_managed(ptr_max + 1));
        for i in 0..count {
            memory[ptrs[i] - base] = i as u8;
        }
        for i in 0..count {
            assert_eq!(memory[ptrs[i] - base], i as u8, "slot {} was overwritten", i);
        }
        for i in 0..count {
            assert!(pool.deallocate(ptrs[i]), "slot {} not taken back", i);
        }
        assert!(pool.is_unused(), "a pool with every slot taken back still has one in use");
    }
}

#[test]
fn pool_test_pool() {
    for size in 1..SIZE_MAX {
        for count in 1..COUNT_MAX {
            pool_cycle(size, count);
        }
    }
}

#[test]
fn buffer_layout_values() {
    assert_eq!(Pool::buffer_layout(1, 1), Some(BufferLayout { size: 8, align: 8 }));
    assert_eq!(Pool::buffer_layout(9, 3), Some(BufferLayout { size: 48, align: 64 }));
    assert_eq!(Pool::buffer_layout(16, 32), Some(BufferLayout { size: 512, align: 512 }));
    assert_eq!(Pool::buffer_layout(256, 16), Some(BufferLayout { size: 4096, align: 4096 }));
    assert_eq!(Pool::buffer_layout(0, 4), None);
    assert_eq!(Pool::buffer_layout(4, 0), None);
    assert_eq!(Pool::buffer_layout(usize::MAX / 2, 4), None);
}

#[test]
fn pool_rejects_null_or_overflowing_base() {
    assert!(Pool::new(16, 4, 0).is_none());
    assert!(Pool::new(16, 4, usize::MAX - 32).is_none());
    assert!(Pool::new(16, 4, usize::MAX - 127).is_some());
    assert!(Pool::new(16, 4, 4096 + 32).is_none(), "a base off the layout's alignment was taken");
}

#[test]
fn fresh_pool_hands_out_highest_address_first() {
    let mut pool = Pool::new(16, 4, 4096).expect("pool");
    assert_eq!(pool.min_address(), 4096);
    assert_eq!(pool.max_address(), 4096 + 48);
    assert_eq!(pool.allocate(), Some(4096 + 48));
    assert_eq!(pool.allocate(), Some(4096 + 32));
    assert_eq!(pool.allocate(), Some(4096 + 16));
    assert_eq!(pool.allocate(), Some(4096));
    assert_eq!(pool.allocate(), None);
    assert!(pool.deallocate(4096 + 16));
    assert_eq!(pool.allocate(), Some(4096 + 16));
}

#[test]
fn full_cycle_after_freeing_all() {
    let (mut pool, _base, _memory) = pool_at(24, 10);
    let first: Vec<usize> = (0..10).map(|_| pool.allocate().expect("slot")).collect();
    for a in first.iter().rev() {
        assert!(pool.deallocate(*a));
    }
    assert!(pool.is_unused());
    let mut second: Vec<usize> = (0..10).map(|_| pool.allocate().expect("slot")).collect();
    assert_eq!(pool.allocate(), None);
    second.sort();
    second.dedup();
    assert_eq!(second.len(), 10);
}

#[test]
fn pool_refuses_foreign_and_unheld_addresses() {
    let mut pool = Pool::new(8, 4, 1024).expect("pool");
    let a = pool.allocate().expect("slot");
    assert_eq!(pool.free_count(), 3);
    assert!(!pool.deallocate(1000));
    assert!(!pool.deallocate(1024 + 64));
    assert!(!pool.deallocate(a + 1));
    assert!(!pool.deallocate(1024));
    assert_eq!(pool.free_count(), 3);
    assert!(pool.deallocate(a));
    assert!(!pool.deallocate(a));
    assert_eq!(pool.free_count(), 4);
}

#[test]
fn pool_buffer_is_the_one_given() {
    let pool = Pool::new(100, 3, 8192).expect("pool");
    let b = pool.buffer();
    assert_eq!(b.base, 8192);
    assert_eq!(b.layout, BufferLayout { size: 384, align: 512 });
    assert_eq!(pool.slot_size(), 128);
    assert_eq!(pool.slot_count(), 3);
}
