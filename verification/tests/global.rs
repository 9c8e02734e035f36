use axalloc::{
    early_init, final_init, grow_size, is_page_request, AllocError, GlobalAllocator, MIN_HEAP_SIZE,
    PAGE_SIZE,
};

const EARLY: usize = 0x8000_0000;
const EARLY_LEN: usize = 0x10_0000;
const POOL: usize = 0x9000_0000;

/// An allocator that was turned over, with a page pool of `pages` frames.
fn turned_over(pages: usize) -> GlobalAllocator {
    let mut g = GlobalAllocator::new();
    g.early_init(EARLY, EARLY_LEN);
    assert_eq!(g.final_init(POOL, pages * PAGE_SIZE), Ok(()));
    g
}

/// First address of the arena that `final_init` takes from the bump region.
const FIRST_ARENA: usize = EARLY + EARLY_LEN - MIN_HEAP_SIZE;

#[test]
fn new_allocator_holds_nothing() {
    let g = GlobalAllocator::new();
    assert!(!g.is_finalized());
    assert_eq!(g.early().total_bytes(), 0);
    assert_eq!(g.pages().total_pages(), 0);
    assert_eq!(g.bytes().total_bytes(), 0);
}

#[test]
fn early_init_gives_the_bump_region_its_range() {
    let mut g = GlobalAllocator::new();
    early_init(&mut g, 0x1000, 0x4000);
    assert!(!g.is_finalized());
    assert_eq!(g.early().total_bytes(), 0x4000);
    assert_eq!(g.early().available_bytes(), 0x4000);
    assert_eq!(g.pages().total_pages(), 0);
}

#[test]
fn before_the_turn_over_all_goes_to_the_bump_region() {
    let mut g = GlobalAllocator::new();
    g.early_init(0x1000, 0x4000);
    assert_eq!(g.allocate(16, 8), Ok(0x1000));
    // a page request: one page below the end of the region
    assert_eq!(g.allocate(PAGE_SIZE, PAGE_SIZE), Ok(0x5000 - PAGE_SIZE));
    assert_eq!(g.early().used_bytes(), 16);
    assert_eq!(g.early().used_pages(), 1);
    assert_eq!(g.early().outstanding(), 1);
    // a byte request that would pass the page cursor
    assert_eq!(g.allocate(0x3000, 8), Err(AllocError::NoMemory));
    assert_eq!(g.early().used_bytes(), 16);
    // the other tiers were not touched
    assert_eq!(g.pages().used_pages(), 0);
    assert_eq!(g.bytes().used_bytes(), 0);
    assert!(!g.is_finalized());
}

#[test]
fn before_the_turn_over_bytes_are_returned_to_the_bump_region() {
    let mut g = GlobalAllocator::new();
    g.early_init(0x1000, 0x4000);
    let a = g.allocate(100, 4).unwrap();
    let b = g.allocate(200, 8).unwrap();
    assert_eq!(g.deallocate(a, 100, 4), Ok(()));
    assert_eq!(g.early().outstanding(), 1);
    assert_eq!(g.early().used_bytes(), b + 200 - 0x1000);
    assert_eq!(g.deallocate(b, 200, 8), Ok(()));
    assert_eq!(g.early().outstanding(), 0);
    assert_eq!(g.early().used_bytes(), 0);
}

#[test]
fn final_init_takes_the_first_arena_from_the_bump_region() {
    let mut g = GlobalAllocator::new();
    g.early_init(EARLY, EARLY_LEN);
    assert_eq!(g.allocate(24, 8), Ok(EARLY));
    assert_eq!(final_init(&mut g, POOL, 16 * PAGE_SIZE), Ok(()));
    assert!(g.is_finalized());
    // the pool holds the region, untouched
    assert_eq!(g.pages().total_pages(), 16);
    assert_eq!(g.pages().used_pages(), 0);
    // the arena came out of the bump region, from its upper end
    assert_eq!(g.early().used_pages(), MIN_HEAP_SIZE / PAGE_SIZE);
    assert_eq!(g.early().used_bytes(), 24);
    assert_eq!(g.bytes().total_bytes(), MIN_HEAP_SIZE);
    assert_eq!(g.bytes().used_bytes(), 0);
    assert_eq!(g.allocate(MIN_HEAP_SIZE, 8), Ok(FIRST_ARENA));
}

#[test]
fn final_init_fails_where_the_bump_region_is_too_small() {
    let mut g = GlobalAllocator::new();
    g.early_init(0x1000, MIN_HEAP_SIZE);
    // the arena would start at the byte cursor
    assert_eq!(g.final_init(POOL, 16 * PAGE_SIZE), Err(AllocError::NoMemory));
    assert!(!g.is_finalized());
    assert_eq!(g.early().used_pages(), 0);
    assert_eq!(g.bytes().total_bytes(), 0);
    // the pool was registered before the arena was asked for
    assert_eq!(g.pages().total_pages(), 16);
    // requests still go to the bump region
    assert_eq!(g.allocate(8, 8), Ok(0x1000));
}

#[test]
fn first_allocation_needs_no_growth_and_a_large_one_grows_once() {
    let mut g = turned_over(16);
    assert_eq!(g.allocate(64, 8), Ok(FIRST_ARENA));
    assert_eq!(g.bytes().total_bytes(), MIN_HEAP_SIZE);
    assert_eq!(g.pages().used_pages(), 0);
    // the arena has no free block of its own size any more
    assert_eq!(g.allocate(MIN_HEAP_SIZE, 8), Ok(POOL));
    // one growth: by the total of the heap, which is eight pages
    assert_eq!(g.bytes().total_bytes(), 2 * MIN_HEAP_SIZE);
    assert_eq!(g.pages().used_pages(), MIN_HEAP_SIZE / PAGE_SIZE);
    assert_eq!(g.bytes().used_bytes(), 64 + MIN_HEAP_SIZE);
    // the first allocation is live still
    assert_eq!(g.deallocate(FIRST_ARENA, 64, 8), Ok(()));
    assert_eq!(g.bytes().used_bytes(), MIN_HEAP_SIZE);
}

#[test]
fn growth_is_by_the_larger_of_total_and_request() {
    let mut g = turned_over(64);
    // 0x8001 bytes take a block of 0x10000: the heap grows by 0x10000
    let a = g.allocate(MIN_HEAP_SIZE + 1, 8).unwrap();
    assert_eq!(a, POOL);
    assert_eq!(g.bytes().total_bytes(), MIN_HEAP_SIZE + 0x10000);
    assert_eq!(g.pages().used_pages(), 16);
    assert_eq!(g.bytes().used_bytes(), 0x10000);
    // the total is 0x18000 now: the next growth is by 0x20000, which the pool
    // gives behind the first sixteen pages
    let b = g.allocate(0x10000, 8).unwrap();
    assert_eq!(b, POOL + 0x10000);
    assert_eq!(g.bytes().total_bytes(), MIN_HEAP_SIZE + 0x10000 + 0x20000);
    assert_eq!(g.pages().used_pages(), 16 + 32);
}

#[test]
fn growth_fails_where_the_pool_is_exhausted() {
    let mut g = turned_over(16);
    let a = g.allocate(MIN_HEAP_SIZE, 8).unwrap();
    assert_eq!(a, FIRST_ARENA);
    let b = g.allocate(MIN_HEAP_SIZE, 8).unwrap();
    assert_eq!(b, POOL);
    assert_eq!(g.pages().available_pages(), 8);
    // the heap would grow by its total, sixteen pages; eight are left
    assert_eq!(g.allocate(8, 8), Err(AllocError::NoMemory));
    assert_eq!(g.bytes().total_bytes(), 2 * MIN_HEAP_SIZE);
    assert_eq!(g.pages().available_pages(), 8);
    // what is live stays live
    assert_eq!(g.deallocate(a, MIN_HEAP_SIZE, 8), Ok(()));
    assert_eq!(g.deallocate(b, MIN_HEAP_SIZE, 8), Ok(()));
    assert_eq!(g.bytes().used_bytes(), 0);
}

#[test]
fn after_the_turn_over_pages_come_from_the_pool() {
    let mut g = turned_over(16);
    let bump_pages = g.early().used_pages();
    assert_eq!(g.allocate(2 * PAGE_SIZE, PAGE_SIZE), Ok(POOL));
    assert_eq!(g.allocate(PAGE_SIZE, PAGE_SIZE), Ok(POOL + 2 * PAGE_SIZE));
    assert_eq!(g.pages().used_pages(), 3);
    assert_eq!(g.early().used_pages(), bump_pages);
    assert_eq!(g.bytes().used_bytes(), 0);
    assert_eq!(g.deallocate(POOL, 2 * PAGE_SIZE, PAGE_SIZE), Ok(()));
    assert_eq!(g.pages().used_pages(), 1);
    // pages that the pool cannot give are reported, not retried
    assert_eq!(g.allocate(16 * PAGE_SIZE, PAGE_SIZE), Err(AllocError::NoMemory));
    assert_eq!(g.pages().used_pages(), 1);
}

#[test]
fn a_request_is_one_for_pages_by_size_and_alignment_alone() {
    let mut g = turned_over(16);
    // a page of bytes with the alignment of a page goes to the pool
    assert_eq!(g.allocate(PAGE_SIZE, PAGE_SIZE), Ok(POOL));
    assert_eq!(g.pages().used_pages(), 1);
    assert_eq!(g.bytes().used_bytes(), 0);
    // with any other alignment it goes to the heap
    let a = g.allocate(PAGE_SIZE, 8).unwrap();
    assert_eq!(a, FIRST_ARENA);
    assert_eq!(g.bytes().used_bytes(), PAGE_SIZE);
    let b = g.allocate(PAGE_SIZE, 2 * PAGE_SIZE).unwrap();
    assert_eq!(b % (2 * PAGE_SIZE), 0);
    assert_eq!(g.bytes().used_bytes(), PAGE_SIZE + 2 * PAGE_SIZE);
    // and so does a size that is no multiple of the page size
    let c = g.allocate(PAGE_SIZE + 1, PAGE_SIZE).unwrap();
    assert_eq!(c % PAGE_SIZE, 0);
    assert_eq!(g.pages().used_pages(), 1);
    // an empty request with the alignment of a page is one for pages, and malformed
    assert_eq!(g.allocate(0, PAGE_SIZE), Err(AllocError::InvalidParam));
}

#[test]
fn returns_go_by_the_same_rule() {
    let mut g = turned_over(16);
    let page = g.allocate(PAGE_SIZE, PAGE_SIZE).unwrap();
    let bytes = g.allocate(PAGE_SIZE, 8).unwrap();
    // the heap knows nothing of the page, the pool nothing of the bytes
    assert_eq!(g.deallocate(page, PAGE_SIZE, 8), Err(AllocError::NotAllocated));
    assert_eq!(g.deallocate(bytes, PAGE_SIZE, PAGE_SIZE), Err(AllocError::InvalidParam));
    assert_eq!(g.deallocate(page + PAGE_SIZE, PAGE_SIZE, PAGE_SIZE), Err(AllocError::NotAllocated));
    assert_eq!(g.deallocate(page, PAGE_SIZE, PAGE_SIZE), Ok(()));
    assert_eq!(g.deallocate(bytes, PAGE_SIZE, 8), Ok(()));
    assert_eq!(g.pages().used_pages(), 0);
    assert_eq!(g.bytes().used_bytes(), 0);
}

#[test]
fn bytes_of_the_bump_region_are_unknown_to_the_heap() {
    let mut g = GlobalAllocator::new();
    g.early_init(EARLY, EARLY_LEN);
    let a = g.allocate(40, 8).unwrap();
    assert_eq!(g.final_init(POOL, 16 * PAGE_SIZE), Ok(()));
    assert_eq!(g.deallocate(a, 40, 8), Err(AllocError::NotAllocated));
    assert_eq!(g.early().outstanding(), 1);
}

#[test]
fn bad_alignment_is_invalid_param_on_either_side() {
    let mut g = GlobalAllocator::new();
    g.early_init(EARLY, EARLY_LEN);
    assert_eq!(g.allocate(8, 12), Err(AllocError::InvalidParam));
    assert_eq!(g.final_init(POOL, 16 * PAGE_SIZE), Ok(()));
    assert_eq!(g.allocate(8, 12), Err(AllocError::InvalidParam));
    assert_eq!(g.allocate(8, 0), Err(AllocError::InvalidParam));
    // the heap did not grow for them
    assert_eq!(g.pages().used_pages(), 0);
    assert_eq!(g.bytes().total_bytes(), MIN_HEAP_SIZE);
}

#[test]
fn allocate_and_deallocate_restore_the_accounting() {
    let mut g = turned_over(16);
    let keep = g.allocate(1000, 8).unwrap();
    let before = (g.bytes().total_bytes(), g.bytes().used_bytes(), g.pages().used_pages());
    let a = g.allocate(300, 16).unwrap();
    assert_eq!(g.bytes().used_bytes(), 1024 + 512);
    assert_eq!(g.deallocate(a, 300, 16), Ok(()));
    assert_eq!(
        (g.bytes().total_bytes(), g.bytes().used_bytes(), g.pages().used_pages()),
        before
    );
    let p = g.allocate(3 * PAGE_SIZE, PAGE_SIZE).unwrap();
    assert_eq!(g.deallocate(p, 3 * PAGE_SIZE, PAGE_SIZE), Ok(()));
    assert_eq!(
        (g.bytes().total_bytes(), g.bytes().used_bytes(), g.pages().used_pages()),
        before
    );
    assert_eq!(g.deallocate(keep, 1000, 8), Ok(()));
}

#[test]
fn after_growth_the_bytes_in_use_are_restored_and_the_total_stays() {
    let mut g = turned_over(16);
    let a = g.allocate(64, 8).unwrap();
    let used = g.bytes().used_bytes();
    let b = g.allocate(MIN_HEAP_SIZE, 8).unwrap();
    assert_eq!(g.bytes().total_bytes(), 2 * MIN_HEAP_SIZE);
    assert_eq!(g.deallocate(b, MIN_HEAP_SIZE, 8), Ok(()));
    assert_eq!(g.bytes().used_bytes(), used);
    assert_eq!(g.bytes().total_bytes(), 2 * MIN_HEAP_SIZE);
    assert_eq!(g.deallocate(a, 64, 8), Ok(()));
}

#[test]
fn the_flag_stays_set() {
    let mut g = turned_over(16);
    let a = g.allocate(8, 8).unwrap();
    assert!(g.is_finalized());
    let p = g.allocate(PAGE_SIZE, PAGE_SIZE).unwrap();
    assert!(g.is_finalized());
    assert_eq!(g.deallocate(a, 8, 8), Ok(()));
    assert_eq!(g.deallocate(p, PAGE_SIZE, PAGE_SIZE), Ok(()));
    assert_eq!(g.allocate(usize::MAX, 8), Err(AllocError::NoMemory));
    assert!(g.is_finalized());
}

#[test]
fn live_bytes_keep_their_addresses_across_growth() {
    let mut g = turned_over(256);
    let mut live: Vec<(usize, usize)> = Vec::new();
    let mut total = g.bytes().total_bytes();
    for size in [100usize, 5000, 20000, 70000, 300, 40000] {
        let addr = g.allocate(size, 8).unwrap();
        for &(other, len) in &live {
            assert!(addr + size <= other || other + len <= addr);
        }
        live.push((addr, size));
        let now = g.bytes().total_bytes();
        // the heap grew by the request at least, or not at all
        assert!(now == total || now >= total + size);
        total = now;
    }
    // 70000 bytes need a block of 0x20000, which only the second growth holds
    assert_eq!(live[3].0, POOL + 0x40000);
    assert_eq!(total, 0x70000);
    for (addr, size) in live {
        assert_eq!(g.deallocate(addr, size, 8), Ok(()));
    }
    assert_eq!(g.bytes().used_bytes(), 0);
}

#[test]
fn page_requests_are_told_by_size_and_alignment() {
    assert!(is_page_request(PAGE_SIZE, PAGE_SIZE));
    assert!(is_page_request(3 * PAGE_SIZE, PAGE_SIZE));
    assert!(is_page_request(0, PAGE_SIZE));
    assert!(!is_page_request(PAGE_SIZE, 8));
    assert!(!is_page_request(PAGE_SIZE, 2 * PAGE_SIZE));
    assert!(!is_page_request(PAGE_SIZE + 8, PAGE_SIZE));
    assert!(!is_page_request(16, 8));
}

#[test]
fn the_heap_grows_by_a_power_of_two() {
    assert_eq!(grow_size(0, 0), Some(PAGE_SIZE));
    assert_eq!(grow_size(0, 1), Some(PAGE_SIZE));
    assert_eq!(grow_size(0x8000, 16), Some(0x8000));
    assert_eq!(grow_size(0x8000, 0x8001), Some(0x10000));
    assert_eq!(grow_size(0x18000, 0x10000), Some(0x20000));
    assert_eq!(grow_size(0x1000, 0x1001), Some(0x2000));
    let top = 1usize << (usize::BITS - 1);
    assert_eq!(grow_size(top, 8), Some(top));
    assert_eq!(grow_size(top + 1, 8), None);
    assert_eq!(grow_size(8, usize::MAX), None);
}

#[test]
fn returns_that_cannot_be_asked_are_told_beforehand() {
    let mut g = GlobalAllocator::new();
    g.early_init(EARLY, EARLY_LEN);
    // nothing is outstanding, and pages are never returned to the bump region
    assert!(!g.can_deallocate(16, 8));
    assert!(!g.can_deallocate(PAGE_SIZE, PAGE_SIZE));
    let a = g.allocate(16, 8).unwrap();
    assert!(g.can_deallocate(16, 8));
    assert!(!g.can_deallocate(PAGE_SIZE, PAGE_SIZE));
    assert_eq!(g.deallocate(a, 16, 8), Ok(()));
    assert!(!g.can_deallocate(16, 8));
    assert_eq!(g.final_init(POOL, 16 * PAGE_SIZE), Ok(()));
    assert!(g.can_deallocate(16, 8));
    assert!(g.can_deallocate(PAGE_SIZE, PAGE_SIZE));
}
