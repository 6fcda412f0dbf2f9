use freelist_alloc::allocator::{align_up, FitResult, LinkedListAllocator, ListNode};

/// Sum of the sizes of all free blocks: the total free capacity.
fn free_capacity(a: &LinkedListAllocator) -> usize {
    let mut total: usize = 0;
    let mut i: usize = 0;
    while i < a.block_count() {
        total += a.block_size(i);
        i += 1;
    }
    total
}

#[test]
fn fresh_allocator_is_empty() {
    let a = LinkedListAllocator::new();
    assert_eq!(a.block_count(), 0);
}

#[test]
fn init_and_first_allocate() {
    // One free block covering the whole heap, then a small aligned request.
    let mut a = LinkedListAllocator::new();
    a.init(0x1000, 4096);
    assert_eq!(a.block_count(), 1);
    assert_eq!(a.block_addr(0), 0x1000);
    assert_eq!(a.block_size(0), 4096);

    let r = a.find_region(32, 8);
    let addr = r.unwrap();
    assert_eq!(addr % 8, 0);
    assert!(0x1000 <= addr && addr < 0x1000 + 4096);
    assert_eq!(addr, 0x1000);
    // The remainder keeps everything but the 32 consumed bytes.
    assert_eq!(a.block_count(), 1);
    assert_eq!(a.block_addr(0), 0x1020);
    assert_eq!(a.block_size(0), 4096 - 32);
}

#[test]
fn release_middle_block_reuses_address() {
    // Three 16-byte allocations, release the middle one, allocate again:
    // the released address comes back.
    let mut a = LinkedListAllocator::new();
    a.init(0x1000, 4096);
    let first = a.find_region(16, 1).unwrap();
    let second = a.find_region(16, 1).unwrap();
    let third = a.find_region(16, 1).unwrap();
    assert_eq!(first, 0x1000);
    assert_eq!(second, 0x1010);
    assert_eq!(third, 0x1020);

    a.add_free_region(second, 16);
    let again = a.find_region(16, 1).unwrap();
    assert_eq!(again, second);
}

#[test]
fn perfect_fit_empties_list_and_exhausts_heap() {
    // A request for the whole heap is a perfect fit; afterwards nothing is
    // left to serve even the smallest request.
    let mut a = LinkedListAllocator::new();
    a.init(0x1000, 4096);
    let r = a.find_region(4096, 8);
    assert_eq!(r, Some(0x1000));
    assert_eq!(a.block_count(), 0);
    assert_eq!(a.find_region(1, 1), None);
}

#[test]
fn undersized_release_is_dropped() {
    // A released region whose aligned remainder is smaller than one
    // descriptor header contributes nothing.
    let mut a = LinkedListAllocator::new();
    a.init(0x1000, 4096);
    let before = free_capacity(&a);
    // 0x5004 rounds up to 0x5008, leaving 8 bytes: below the header size.
    a.add_free_region(0x5004, 12);
    assert_eq!(a.block_count(), 1);
    assert_eq!(free_capacity(&a), before);
}

#[test]
fn perfect_fit_removes_exactly_one_node() {
    let mut a = LinkedListAllocator::new();
    a.init(0x1000, 64);
    a.add_free_region(0x2000, 128);
    assert_eq!(a.block_count(), 2);
    let r = a.find_region(128, 8);
    assert_eq!(r, Some(0x2000));
    assert_eq!(a.block_count(), 1);
    assert_eq!(a.block_addr(0), 0x1000);
    assert_eq!(a.block_size(0), 64);
}

#[test]
fn split_leaves_one_remainder_node() {
    // Allocating 100 bytes consumes 104 (the allocation's end is rounded up
    // to word alignment for the new descriptor).
    let mut a = LinkedListAllocator::new();
    a.init(0x1000, 4096);
    let r = a.find_region(100, 8);
    assert_eq!(r, Some(0x1000));
    assert_eq!(a.block_count(), 1);
    assert_eq!(a.block_addr(0), 0x1068);
    assert_eq!(a.block_size(0), 4096 - 104);
}

#[test]
fn fragment_rejected_search_continues() {
    // The first block could host the bytes but would leave an untrackable
    // 8-byte fragment; it must be skipped in favour of the next block.
    let mut a = LinkedListAllocator::new();
    a.init(0x1000, 24);
    a.add_free_region(0x2000, 64);
    let r = a.find_region(16, 1);
    assert_eq!(r, Some(0x2000));
    // The skipped block is untouched.
    assert_eq!(a.block_addr(0), 0x1000);
    assert_eq!(a.block_size(0), 24);
}

#[test]
fn split_never_leaves_sub_header_remainder() {
    // A 33-byte block and a (17, 8) request: the bytes themselves would
    // fit, but the remainder measured from the relocated descriptor at
    // 0x1018 is only 9 bytes — below one header — so the block must be
    // rejected rather than split into an untrackable sliver.
    let n = ListNode {
        size: 33,
        addr: 0x1000,
    };
    assert_eq!(n.can_fit(17, 8), None);

    let mut a = LinkedListAllocator::new();
    a.init(0x1000, 33);
    assert_eq!(a.find_region(17, 8), None);
    assert_eq!(a.block_count(), 1);
    assert_eq!(a.block_size(0), 33);
}

#[test]
fn overlapping_release_is_refused() {
    // Handing back a region that intersects a block already on the free
    // list (a caller error) is refused outright; the list is unchanged.
    let mut a = LinkedListAllocator::new();
    a.init(0x1000, 4096);
    a.add_free_region(0x1800, 64);
    assert_eq!(a.block_count(), 1);
    assert_eq!(a.block_addr(0), 0x1000);
    assert_eq!(a.block_size(0), 4096);
}

#[test]
fn round_trip_reuse() {
    let mut a = LinkedListAllocator::new();
    a.init(0x1000, 4096);
    let addr = a.find_region(64, 8).unwrap();
    assert_eq!(addr, 0x1000);
    a.add_free_region(addr, 64);
    let again = a.find_region(64, 8).unwrap();
    assert_eq!(again, addr);
}

#[test]
fn exhaustion_is_deterministic_until_release() {
    let mut a = LinkedListAllocator::new();
    a.init(0x1000, 4096);
    assert_eq!(a.find_region(4096, 8), Some(0x1000));
    assert_eq!(a.find_region(16, 1), None);
    assert_eq!(a.find_region(16, 1), None);
    a.add_free_region(0x1000, 4096);
    assert_eq!(a.find_region(16, 1), Some(0x1000));
}

#[test]
fn free_list_stays_sorted_and_disjoint() {
    // After any mix of allocations and releases the blocks are
    // address-ascending and non-overlapping.
    let mut a = LinkedListAllocator::new();
    a.init(0x1000, 4096);
    let x = a.find_region(16, 1).unwrap();
    let y = a.find_region(200, 32).unwrap();
    let z = a.find_region(24, 8).unwrap();
    a.add_free_region(y, 200);
    a.add_free_region(x, 16);
    let _ = a.find_region(64, 64);
    a.add_free_region(z, 24);

    let mut i: usize = 1;
    while i < a.block_count() {
        assert!(a.block_addr(i - 1) + a.block_size(i - 1) <= a.block_addr(i));
        i += 1;
    }
}

#[test]
fn align_up_values() {
    assert_eq!(align_up(0x1000, 8), 0x1000);
    assert_eq!(align_up(0x1003, 8), 0x1008);
    assert_eq!(align_up(0x1007, 2), 0x1008);
    assert_eq!(align_up(5, 1), 5);
    assert_eq!(align_up(0, 4096), 0);
    assert_eq!(align_up(1, 4096), 4096);
}

#[test]
fn node_accessors() {
    let mut n = ListNode::new(0);
    assert_eq!(n.start_addr(), 0);
    assert_eq!(n.end_addr(), 0);
    let r = n.update_node(64, 0x4000);
    assert_eq!(r, 0x4000);
    assert_eq!(n.start_addr(), 0x4000);
    assert_eq!(n.end_addr(), 0x4040);
}

#[test]
fn can_fit_classification() {
    let n = ListNode {
        size: 32,
        addr: 0x100,
    };
    assert_eq!(n.can_fit(32, 8), Some(FitResult::Perfect(0x100)));
    assert_eq!(n.can_fit(8, 8), Some(FitResult::Split(0x100)));
    assert_eq!(n.can_fit(16, 8), Some(FitResult::Split(0x100)));
    // 20 bytes would leave a 12-byte fragment: rejected.
    assert_eq!(n.can_fit(20, 8), None);
    // Too big for the block.
    assert_eq!(n.can_fit(40, 8), None);
    // Alignment pushes the start to 0x200; nothing fits behind it.
    assert_eq!(n.can_fit(32, 512), None);
}

#[test]
fn can_fit_alignment_adjusts_start() {
    let n = ListNode {
        size: 0x140,
        addr: 0x108,
    };
    // The start rounds up to 0x200; 0x200 + 72 == 0x248 == block end.
    assert_eq!(n.can_fit(72, 512), Some(FitResult::Perfect(0x200)));
    // A shorter request leaves a trackable remainder behind 0x200.
    assert_eq!(n.can_fit(40, 512), Some(FitResult::Split(0x200)));
}
