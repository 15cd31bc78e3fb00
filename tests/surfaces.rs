use render_tiles::surfaces::{PoolExhausted, SurfacePool, POOL_SIZE};

fn pool_of(n: usize) -> SurfacePool<u32> {
    SurfacePool::new((0..n as u32).map(|i| 100 + i).collect())
}

#[test]
fn new_pool_has_free_slots_in_order() {
    let pool = pool_of(3);
    assert_eq!(pool.len(), 3);
    for i in 0..3 {
        assert!(!pool.get(i).in_use);
        assert_eq!(pool.get(i).surface, 100 + i as u32);
    }
}

#[test]
fn allocations_cycle_through_every_slot() {
    let mut pool = pool_of(POOL_SIZE);
    let mut seen = Vec::new();
    for _ in 0..POOL_SIZE {
        seen.push(pool.allocate().unwrap());
    }
    let mut sorted = seen.clone();
    sorted.sort();
    sorted.dedup();
    assert_eq!(sorted.len(), 32);
    assert_eq!(seen, (0..32).collect::<Vec<usize>>());
    assert_eq!(pool.allocate(), Ok(0));
}

#[test]
fn in_use_marks_do_not_change_the_order() {
    let mut pool = pool_of(4);
    pool.mark_allocated(0);
    pool.mark_allocated(1);
    assert!(pool.get(1).in_use);
    assert_eq!(pool.allocate(), Ok(0));
    assert_eq!(pool.allocate(), Ok(1));
    pool.mark_deallocated(1);
    assert!(!pool.get(1).in_use);
    assert_eq!(pool.get(1).surface, 101);
}

#[test]
fn empty_pool_is_exhausted() {
    let mut pool = pool_of(0);
    assert_eq!(pool.allocate(), Err(PoolExhausted));
    assert_eq!(pool.allocate(), Err(PoolExhausted));
}

#[test]
fn single_slot_pool_keeps_handing_it_out() {
    let mut pool = pool_of(1);
    assert_eq!(pool.allocate(), Ok(0));
    assert_eq!(pool.allocate(), Ok(0));
}
