use freelist_alloc::allocator::{LinkedListAllocator, Locked};

#[test]
fn locked_wrapper_serves_requests() {
    let locked = Locked::new(LinkedListAllocator::new());
    locked.lock().init(0x1000, 4096);

    let first = locked.allocate(32, 8);
    assert_eq!(first, 0x1000);
    let second = locked.allocate(16, 8);
    assert_eq!(second, 0x1020);

    locked.release(first, 32);
    let again = locked.allocate(32, 8);
    assert_eq!(again, first);
}

#[test]
fn locked_wrapper_failure_sentinel() {
    let locked = Locked::new(LinkedListAllocator::new());
    locked.lock().init(0x1000, 4096);
    // Nothing can host twice the heap.
    assert_eq!(locked.allocate(8192, 8), 0);
    // The failed attempt changed nothing.
    assert_eq!(locked.allocate(4096, 8), 0x1000);
}

#[test]
fn lock_guard_gives_exclusive_engine_access() {
    let locked = Locked::new(LinkedListAllocator::new());
    {
        let mut guard = locked.lock();
        guard.init(0x8000, 256);
        assert_eq!(guard.block_count(), 1);
        assert_eq!(guard.block_addr(0), 0x8000);
    }
    // try_lock through spin directly is not exposed; reacquiring shows the
    // guard above was dropped and the state persisted.
    let got = locked.allocate(256, 8);
    assert_eq!(got, 0x8000);
}
