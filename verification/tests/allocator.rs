use sbrk_alloc::free_list::{FreeBlock, FreeBlockList};
use sbrk_alloc::sbrk::{Locked, SbrkAllocator, SmallThunk, Thunk, HEAP_BASE};
use sbrk_alloc::spin_lock::Spinlock;
use sbrk_alloc::utils::to_align;
use sbrk_alloc::{HEADER_ALIGN, HEADER_SIZE};

#[test]
fn test_alloc_base() {
    let size = std::mem::size_of::<Thunk>();
    let align = std::mem::align_of::<Thunk>();

    if let Ok(layout) = std::alloc::Layout::from_size_align(size, align) {
        let mut alloc = SbrkAllocator::new();
        let addr = alloc.allocate(layout.size(), layout.align());
        assert_eq!(addr % layout.align(), 0);
        assert!(addr >= HEAP_BASE);
        return;
    }
    panic!("Couldn't get layout");
}

#[test]
fn test_malloc_excess() {
    let mut alloc = SbrkAllocator::new();
    let large_value_addr = alloc.malloc(
        std::mem::size_of::<Thunk>(),
        std::mem::align_of::<Thunk>(),
    );
    alloc.free(large_value_addr, std::mem::size_of::<Thunk>());

    // Allocates an object smaller than Thunk, so the free block has
    // excess space that must remain free.
    let _small_value_addr = alloc.malloc(
        std::mem::size_of::<SmallThunk>(),
        std::mem::align_of::<SmallThunk>(),
    );

    assert!(alloc.first_free_block().is_some_and(|b| {
        // The remaining free block should start in the excess space of
        // the second allocation.
        let excess_offset = large_value_addr + std::mem::size_of::<SmallThunk>();
        b.start_addr() == excess_offset
    }));
}

// Shows memory reuse: after freeing the first region, asking for another
// object of the same shape hands back the region of the first (now
// freed) allocation.
#[test]
fn test_free_reuse() {
    let mut alloc = SbrkAllocator::new();

    let first_ptr = alloc.malloc(
        std::mem::size_of::<Thunk>(),
        std::mem::align_of::<Thunk>(),
    );

    let _second_ptr = alloc.malloc(
        std::mem::size_of::<Thunk>(),
        std::mem::align_of::<Thunk>(),
    );

    alloc.free(first_ptr, std::mem::size_of::<Thunk>());

    let third_ptr = alloc.malloc(
        std::mem::size_of::<Thunk>(),
        std::mem::align_of::<Thunk>(),
    );
    assert_eq!(first_ptr, third_ptr);
}

#[test]
fn to_align_exact_values() {
    assert_eq!(to_align(60, 8), 64);
    assert_eq!(to_align(64, 8), 64);
    assert_eq!(to_align(0, 16), 0);
    assert_eq!(to_align(1, 1024), 1024);
    assert_eq!(to_align(4096, 4096), 4096);
}

// Every returned address is a multiple of the requested alignment, also
// for alignments coarser than the header's.
#[test]
fn allocate_respects_alignment() {
    let mut alloc = SbrkAllocator::new();
    for &(size, align) in &[(0usize, 8usize), (1, 1), (44, 4), (7, 8), (100, 64), (3, 1024)] {
        let a = alloc.allocate(size, align);
        assert_eq!(a % align, 0);
    }
}

// Live regions never overlap: three live allocations occupy pairwise
// disjoint padded ranges.
#[test]
fn live_regions_do_not_overlap() {
    let mut alloc = SbrkAllocator::new();
    let mut regions: Vec<(usize, usize)> = Vec::new();
    for &(size, align) in &[(44usize, 4usize), (8, 8), (100, 32)] {
        let eff = if align < HEADER_ALIGN { HEADER_ALIGN } else { align };
        let out = to_align(size + HEADER_SIZE, eff);
        let a = alloc.allocate(size, align);
        regions.push((a, out));
    }
    for i in 0..regions.len() {
        for j in 0..regions.len() {
            if i != j {
                let (a1, s1) = regions[i];
                let (a2, s2) = regions[j];
                assert!(a1 + s1 <= a2 || a2 + s2 <= a1);
            }
        }
    }
}

// Reuse through the public entry points: allocate, deallocate, allocate
// the same request again; the address comes back.
#[test]
fn allocate_reuses_freed_region() {
    let mut alloc = SbrkAllocator::new();
    let a = alloc.allocate(40, 8);
    alloc.deallocate(a, 40, 8);
    let b = alloc.allocate(40, 8);
    assert_eq!(a, b);
}

// Excess splitting: a smaller allocation into a larger freed region
// leaves the remainder tracked as a free block right after it.
#[test]
fn excess_is_split_off() {
    let mut alloc = SbrkAllocator::new();
    let a = alloc.allocate(48, 8); // padded to 64 bytes
    alloc.deallocate(a, 48, 8);
    let b = alloc.allocate(8, 8); // padded to 24 bytes
    assert_eq!(a, b);
    let head = alloc.first_free_block().expect("the excess must stay tracked");
    assert_eq!(head.start_addr(), a + 24);
    assert_eq!(head.end_addr(), a + 64);
}

// Sliver rejection: a candidate that would leave less than a header of
// leftover is rejected; the request is served by heap growth and the
// free block stays untouched.
#[test]
fn sliver_is_rejected() {
    let mut alloc = SbrkAllocator::new();
    let a = alloc.allocate(48, 8); // padded to 64 bytes
    alloc.deallocate(a, 48, 8);
    let grown_before = alloc.heap_end();
    let b = alloc.allocate(40, 8); // padded to 56: would leave an 8-byte sliver
    assert_ne!(a, b);
    assert!(alloc.heap_end() > grown_before);
    let head = alloc.first_free_block().expect("the rejected block must stay free");
    assert_eq!(head.start_addr(), a);
    assert_eq!(head.size, 64);
}

// Monotonic growth: repeated allocate-then-deallocate of one request
// grows the heap at most once, on the first round.
#[test]
fn repeated_round_trips_grow_once() {
    let mut alloc = SbrkAllocator::new();
    let a0 = alloc.allocate(100, 16);
    alloc.deallocate(a0, 100, 16);
    let cursor_after_first = alloc.heap_end();
    for _ in 0..10 {
        let a = alloc.allocate(100, 16);
        assert_eq!(a, a0);
        alloc.deallocate(a, 100, 16);
        assert_eq!(alloc.heap_end(), cursor_after_first);
    }
}

#[test]
fn check_block_accepts_and_rejects() {
    // exact fit
    let b = FreeBlock::new(1024, 32);
    assert_eq!(FreeBlockList::check_block(&b, 32, 8), Ok(1024));
    // fit with a reusable tail
    let b = FreeBlock::new(1024, 64);
    assert_eq!(FreeBlockList::check_block(&b, 32, 8), Ok(1024));
    // too small once aligned
    let b = FreeBlock::new(1028, 32);
    assert_eq!(FreeBlockList::check_block(&b, 32, 8), Err(()));
    // tail would be a sliver
    let b = FreeBlock::new(1024, 40);
    assert_eq!(FreeBlockList::check_block(&b, 32, 8), Err(()));
}

#[test]
fn find_free_block_unlinks_the_match() {
    let mut list = FreeBlockList::new();
    list.add_free_block(4096, 24);
    list.add_free_block(8192, 64);
    // head is the most recently freed block, and it fits
    let (blk, start) = list.find_free_block(24, 8).expect("a block fits");
    assert_eq!(blk.start_addr(), 8192);
    assert_eq!(start, 8192);
    // the match was unlinked; the other block remains
    let head = list.head_block().expect("one block left");
    assert_eq!(head.start_addr(), 4096);
    assert_eq!(head.size, 24);
    // nothing fits a request larger than what is left
    assert!(list.find_free_block(64, 8).is_none());
}

// The locked wrapper serializes the two operations and releases the
// lock on every return path.
#[test]
fn locked_allocator_round_trip() {
    let mut shared = Locked::new(SbrkAllocator::new());
    let a = shared.allocate(44, 4);
    assert_eq!(a % 4, 0);
    shared.deallocate(a, 44, 4);
    let b = shared.allocate(44, 4);
    assert_eq!(a, b);
}

// The spinlock hands its value to the guard and takes it back on
// release.
#[test]
fn spinlock_guards_its_value() {
    let mut lock = Spinlock::new(5u64);
    let mut g = lock.lock();
    assert_eq!(*g.get(), 5);
    *g.get_mut() = 7;
    lock.unlock(g);
    let g2 = lock.lock();
    assert_eq!(*g2.get(), 7);
    lock.unlock(g2);
}
