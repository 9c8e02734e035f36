use axalloc::block::MIN_BLOCK_SIZE;
use axalloc::{AllocError, BuddyByteAllocator, PAGE_SIZE};

const START: usize = 0x10000;

fn heap(size: usize) -> BuddyByteAllocator {
    let mut h = BuddyByteAllocator::new();
    assert_eq!(h.init(START, size), Ok(()));
    h
}

#[test]
fn new_heap_is_empty() {
    let mut h = BuddyByteAllocator::new();
    assert_eq!(h.total_bytes(), 0);
    assert_eq!(h.used_bytes(), 0);
    assert_eq!(h.available_bytes(), 0);
    assert_eq!(h.alloc_bytes(1, 1), Err(AllocError::NoMemory));
}

#[test]
fn init_establishes_the_first_arena() {
    let h = heap(0x8000);
    assert_eq!(h.total_bytes(), 0x8000);
    assert_eq!(h.used_bytes(), 0);
    assert_eq!(h.available_bytes(), 0x8000);
}

#[test]
fn init_refuses_a_malformed_arena() {
    let mut h = heap(0x8000);
    assert_eq!(h.init(START, 0), Err(AllocError::InvalidParam));
    assert_eq!(h.init(START + 8, 0x1000), Err(AllocError::InvalidParam));
    assert_eq!(h.init(START, 0x1008), Err(AllocError::InvalidParam));
    assert_eq!(h.init(usize::MAX - 0xfff, 0x2000), Err(AllocError::InvalidParam));
    // the heap is as it was
    assert_eq!(h.total_bytes(), 0x8000);
}

#[test]
fn init_again_holds_the_new_arena_alone() {
    let mut h = heap(0x8000);
    assert_eq!(h.alloc_bytes(64, 8), Ok(START));
    assert_eq!(h.init(0x40000, 0x2000), Ok(()));
    assert_eq!(h.total_bytes(), 0x2000);
    assert_eq!(h.used_bytes(), 0);
    assert_eq!(h.alloc_bytes(64, 8), Ok(0x40000));
}

#[test]
fn blocks_are_cut_in_halves() {
    let mut h = heap(0x8000);
    assert_eq!(h.alloc_bytes(16, 8), Ok(START));
    assert_eq!(h.used_bytes(), 16);
    // the buddy of the first block is the best fit for the same request
    assert_eq!(h.alloc_bytes(16, 8), Ok(START + 16));
    // 100 bytes take a block of 128
    assert_eq!(h.alloc_bytes(100, 1), Ok(START + 128));
    assert_eq!(h.used_bytes(), 16 + 16 + 128);
    // the alignment decides the block where it is larger than the size
    assert_eq!(h.alloc_bytes(1, 4096), Ok(START + 4096));
    assert_eq!(h.used_bytes(), 16 + 16 + 128 + 4096);
    assert_eq!(h.total_bytes(), 0x8000);
    assert_eq!(h.available_bytes(), 0x8000 - (16 + 16 + 128 + 4096));
}

#[test]
fn block_size_is_the_power_of_two_for_size_and_alignment() {
    for (size, align, block) in [
        (24usize, 8usize, 32usize),
        (1, 64, 64),
        (0, 1, MIN_BLOCK_SIZE),
        (1, 1, MIN_BLOCK_SIZE),
        (9, 2, 16),
        (4097, 8, 8192),
        (4096, 4096, 4096),
    ] {
        let mut h = heap(0x8000);
        let addr = h.alloc_bytes(size, align).unwrap();
        assert_eq!(addr % align, 0);
        assert_eq!(addr % block, 0);
        assert_eq!(h.used_bytes(), block);
    }
}

#[test]
fn an_empty_request_takes_the_smallest_block() {
    let mut h = heap(0x1000);
    assert_eq!(h.alloc_bytes(0, 1), Ok(START));
    assert_eq!(h.used_bytes(), MIN_BLOCK_SIZE);
    assert_eq!(h.alloc_bytes(0, 1), Ok(START + MIN_BLOCK_SIZE));
    assert_eq!(h.dealloc_bytes(START, 0), Ok(()));
    assert_eq!(h.dealloc_bytes(START + MIN_BLOCK_SIZE, 0), Ok(()));
    assert_eq!(h.used_bytes(), 0);
}

#[test]
fn the_smallest_block_that_fits_is_taken() {
    let mut h = heap(0x8000);
    let a = h.alloc_bytes(0x1000, 8).unwrap();
    let b = h.alloc_bytes(0x1000, 8).unwrap();
    assert_eq!((a, b), (START, START + 0x1000));
    // free blocks: 0x4000 at +0x4000, 0x2000 at +0x2000
    assert_eq!(h.alloc_bytes(0x2000, 8), Ok(START + 0x2000));
    assert_eq!(h.alloc_bytes(0x2000, 8), Ok(START + 0x4000));
}

#[test]
fn returned_blocks_join_their_buddies() {
    let mut h = heap(0x8000);
    let mut got = Vec::new();
    for _ in 0..8 {
        got.push(h.alloc_bytes(0x1000, 0x1000).unwrap());
    }
    assert_eq!(h.used_bytes(), 0x8000);
    assert_eq!(h.alloc_bytes(8, 8), Err(AllocError::NoMemory));
    // in an order that joins late
    for i in [0usize, 2, 4, 6, 1, 3, 5] {
        assert_eq!(h.dealloc_bytes(got[i], 0x1000), Ok(()));
    }
    // seven pages are free, but the largest block is half the arena
    assert_eq!(h.alloc_bytes(0x8000, 8), Err(AllocError::NoMemory));
    assert_eq!(h.dealloc_bytes(got[7], 0x1000), Ok(()));
    assert_eq!(h.used_bytes(), 0);
    // all blocks have joined into the one of the arena
    assert_eq!(h.alloc_bytes(0x8000, 8), Ok(START));
    assert_eq!(h.used_bytes(), 0x8000);
}

#[test]
fn buddies_join_only_when_both_are_free() {
    let mut h = heap(0x2000);
    let a = h.alloc_bytes(0x800, 8).unwrap();
    let b = h.alloc_bytes(0x800, 8).unwrap();
    let c = h.alloc_bytes(0x1000, 8).unwrap();
    assert_eq!((a, b, c), (START, START + 0x800, START + 0x1000));
    assert_eq!(h.dealloc_bytes(a, 0x800), Ok(()));
    // `b` is held: no block of 0x1000 is free
    assert_eq!(h.alloc_bytes(0x1000, 8), Err(AllocError::NoMemory));
    assert_eq!(h.alloc_bytes(0x800, 8), Ok(a));
    assert_eq!(h.dealloc_bytes(b, 0x800), Ok(()));
    assert_eq!(h.dealloc_bytes(a, 0x800), Ok(()));
    assert_eq!(h.alloc_bytes(0x1000, 8), Ok(START));
}

#[test]
fn byte_returns_of_what_is_not_live_are_not_allocated() {
    let mut h = heap(0x8000);
    let a = h.alloc_bytes(100, 8).unwrap();
    assert_eq!(h.dealloc_bytes(a + 8, 100), Err(AllocError::NotAllocated));
    assert_eq!(h.dealloc_bytes(a, 101), Err(AllocError::NotAllocated));
    assert_eq!(h.dealloc_bytes(0x5000_0000, 100), Err(AllocError::NotAllocated));
    assert_eq!(h.used_bytes(), 128);
    assert_eq!(h.dealloc_bytes(a, 100), Ok(()));
    assert_eq!(h.dealloc_bytes(a, 100), Err(AllocError::NotAllocated));
    assert_eq!(h.used_bytes(), 0);
}

#[test]
fn bad_alignment_is_invalid_param() {
    let mut h = heap(0x8000);
    assert_eq!(h.alloc_bytes(8, 0), Err(AllocError::InvalidParam));
    assert_eq!(h.alloc_bytes(8, 24), Err(AllocError::InvalidParam));
    assert_eq!(h.used_bytes(), 0);
}

#[test]
fn too_large_is_no_memory_and_changes_nothing() {
    let mut h = heap(0x8000);
    assert_eq!(h.alloc_bytes(0x8001, 8), Err(AllocError::NoMemory));
    assert_eq!(h.alloc_bytes(usize::MAX, 8), Err(AllocError::NoMemory));
    assert_eq!(h.alloc_bytes(8, 0x10000), Err(AllocError::NoMemory));
    assert_eq!(h.used_bytes(), 0);
    assert_eq!(h.alloc_bytes(0x8000, 8), Ok(START));
}

#[test]
fn an_arena_is_cut_into_aligned_blocks() {
    let mut h = BuddyByteAllocator::new();
    // pages 3 to 7: one block of one page at 0x3000, one of four at 0x4000
    assert_eq!(h.init(0x3000, 0x5000), Ok(()));
    assert_eq!(h.total_bytes(), 0x5000);
    assert_eq!(h.alloc_bytes(0x4001, 8), Err(AllocError::NoMemory));
    assert_eq!(h.alloc_bytes(0x4000, 8), Ok(0x4000));
    assert_eq!(h.alloc_bytes(0x1000, 8), Ok(0x3000));
    assert_eq!(h.alloc_bytes(8, 8), Err(AllocError::NoMemory));
}

#[test]
fn add_memory_extends_the_heap() {
    let mut h = heap(0x1000);
    assert_eq!(h.alloc_bytes(0x1000, 8), Ok(START));
    assert_eq!(h.alloc_bytes(0x1000, 8), Err(AllocError::NoMemory));
    assert_eq!(h.add_memory(0x40000, 0x2000), Ok(()));
    assert_eq!(h.total_bytes(), 0x3000);
    assert_eq!(h.used_bytes(), 0x1000);
    assert_eq!(h.alloc_bytes(0x1000, 8), Ok(0x40000));
    // what was live is live still
    assert_eq!(h.dealloc_bytes(START, 0x1000), Ok(()));
}

#[test]
fn add_memory_refuses_overlap_and_misalignment() {
    let mut h = heap(0x4000);
    assert_eq!(h.add_memory(START, 0x1000), Err(AllocError::InvalidParam));
    assert_eq!(h.add_memory(START + 0x3000, 0x2000), Err(AllocError::InvalidParam));
    assert_eq!(h.add_memory(START - 0x1000, 0x2000), Err(AllocError::InvalidParam));
    assert_eq!(h.add_memory(START - 0x1000, 0x6000), Err(AllocError::InvalidParam));
    assert_eq!(h.add_memory(0x40010, 0x1000), Err(AllocError::InvalidParam));
    assert_eq!(h.add_memory(0x40000, 0x1100), Err(AllocError::InvalidParam));
    assert_eq!(h.add_memory(0x40000, 0), Err(AllocError::InvalidParam));
    assert_eq!(h.total_bytes(), 0x4000);
    // an arena that touches the other without overlap is admitted
    assert_eq!(h.add_memory(START + 0x4000, 0x1000), Ok(()));
    assert_eq!(h.add_memory(START - 0x1000, 0x1000), Ok(()));
    assert_eq!(h.total_bytes(), 0x6000);
}

#[test]
fn blocks_of_adjacent_arenas_join() {
    let mut h = heap(0x1000);
    assert_eq!(h.add_memory(START + 0x1000, 0x1000), Ok(()));
    // two blocks of one page each, buddies of one another
    let a = h.alloc_bytes(0x1000, 8).unwrap();
    let b = h.alloc_bytes(0x1000, 8).unwrap();
    assert_eq!((a, b), (START, START + 0x1000));
    assert_eq!(h.alloc_bytes(0x2000, 8), Err(AllocError::NoMemory));
    assert_eq!(h.dealloc_bytes(a, 0x1000), Ok(()));
    assert_eq!(h.dealloc_bytes(b, 0x1000), Ok(()));
    assert_eq!(h.alloc_bytes(0x2000, 8), Ok(START));
}

#[test]
fn bytes_allocated_and_returned_restore_the_accounting() {
    let mut h = heap(0x8000);
    let keep = h.alloc_bytes(200, 16).unwrap();
    let before = (h.total_bytes(), h.used_bytes(), h.available_bytes());
    let a = h.alloc_bytes(3000, 32).unwrap();
    assert_eq!(h.used_bytes(), 256 + 4096);
    assert_eq!(h.dealloc_bytes(a, 3000), Ok(()));
    assert_eq!((h.total_bytes(), h.used_bytes(), h.available_bytes()), before);
    assert_eq!(h.dealloc_bytes(keep, 200), Ok(()));
    assert_eq!(h.used_bytes(), 0);
}

#[test]
fn live_allocations_share_no_byte() {
    let mut h = heap(0x10000);
    let mut live: Vec<(usize, usize)> = Vec::new();
    let requests: [(usize, usize); 12] = [
        (1, 1), (100, 4), (4096, 4096), (17, 16), (600, 8), (8, 8),
        (2048, 64), (33, 1), (5000, 8), (64, 64), (1000, 2), (9, 1),
    ];
    for (n, (size, align)) in requests.iter().enumerate() {
        let addr = h.alloc_bytes(*size, *align).unwrap();
        assert_eq!(addr % align, 0);
        assert!(addr >= START && addr + size <= START + 0x10000);
        for &(other, len) in &live {
            assert!(addr + size <= other || other + len <= addr);
        }
        live.push((addr, *size));
        if n % 3 == 2 {
            let (gone, len) = live.remove(0);
            assert_eq!(h.dealloc_bytes(gone, len), Ok(()));
        }
    }
    for (addr, len) in live {
        assert_eq!(h.dealloc_bytes(addr, len), Ok(()));
    }
    assert_eq!(h.used_bytes(), 0);
    assert_eq!(h.alloc_bytes(0x10000, 8), Ok(START));
}

#[test]
fn page_size_is_a_multiple_of_the_smallest_block() {
    assert_eq!(PAGE_SIZE % MIN_BLOCK_SIZE, 0);
}
