use axalloc::{AllocError, BitmapPageAllocator, PAGE_SIZE};

const BASE: usize = 0x8000_0000;

fn pool(pages: usize) -> BitmapPageAllocator {
    let mut p = BitmapPageAllocator::new();
    p.init(BASE, pages * PAGE_SIZE);
    p
}

#[test]
fn new_pool_has_no_frames() {
    let mut p = BitmapPageAllocator::new();
    assert_eq!(p.total_pages(), 0);
    assert_eq!(p.used_pages(), 0);
    assert_eq!(p.available_pages(), 0);
    assert_eq!(p.alloc_pages(1, PAGE_SIZE), Err(AllocError::NoMemory));
}

#[test]
fn init_registers_the_whole_pages() {
    let p = pool(16);
    assert_eq!(p.total_pages(), 16);
    assert_eq!(p.used_pages(), 0);
    assert_eq!(p.available_pages(), 16);
}

#[test]
fn init_leaves_out_partial_pages() {
    let mut p = BitmapPageAllocator::new();
    // whole pages within [0x1234, 0x6234) are 0x2000 .. 0x6000
    p.init(0x1234, 0x5000);
    assert_eq!(p.total_pages(), 4);
    assert_eq!(p.alloc_pages(1, PAGE_SIZE), Ok(0x2000));
    assert_eq!(p.alloc_pages(3, PAGE_SIZE), Ok(0x3000));
    assert_eq!(p.alloc_pages(1, PAGE_SIZE), Err(AllocError::NoMemory));
}

#[test]
fn init_of_less_than_a_page_registers_nothing() {
    let mut p = BitmapPageAllocator::new();
    p.init(0x1001, 0x1ffe);
    assert_eq!(p.total_pages(), 0);
    p.init(usize::MAX - 10, 10);
    assert_eq!(p.total_pages(), 0);
}

#[test]
fn init_again_forgets_what_was() {
    let mut p = pool(4);
    assert_eq!(p.alloc_pages(4, PAGE_SIZE), Ok(BASE));
    p.init(BASE, 2 * PAGE_SIZE);
    assert_eq!(p.total_pages(), 2);
    assert_eq!(p.used_pages(), 0);
    assert_eq!(p.alloc_pages(2, PAGE_SIZE), Ok(BASE));
}

#[test]
fn frames_are_handed_out_lowest_first() {
    let mut p = pool(16);
    assert_eq!(p.alloc_pages(1, PAGE_SIZE), Ok(BASE));
    assert_eq!(p.alloc_pages(2, PAGE_SIZE), Ok(BASE + PAGE_SIZE));
    assert_eq!(p.alloc_pages(1, PAGE_SIZE), Ok(BASE + 3 * PAGE_SIZE));
    assert_eq!(p.used_pages(), 4);
    assert_eq!(p.available_pages(), 12);
}

#[test]
fn alignment_is_honoured() {
    let mut p = pool(16);
    assert_eq!(p.alloc_pages(1, PAGE_SIZE), Ok(BASE));
    // the next multiple of four pages
    assert_eq!(p.alloc_pages(2, 4 * PAGE_SIZE), Ok(BASE + 4 * PAGE_SIZE));
    assert_eq!((BASE + 4 * PAGE_SIZE) % (4 * PAGE_SIZE), 0);
    // the gap before it is still there for what fits
    assert_eq!(p.alloc_pages(3, PAGE_SIZE), Ok(BASE + PAGE_SIZE));
    assert_eq!(p.alloc_pages(1, 8 * PAGE_SIZE), Ok(BASE + 8 * PAGE_SIZE));
}

#[test]
fn a_freed_run_is_used_again() {
    let mut p = pool(8);
    let a = p.alloc_pages(2, PAGE_SIZE).unwrap();
    let b = p.alloc_pages(3, PAGE_SIZE).unwrap();
    let c = p.alloc_pages(3, PAGE_SIZE).unwrap();
    assert_eq!((a, b, c), (BASE, BASE + 2 * PAGE_SIZE, BASE + 5 * PAGE_SIZE));
    assert_eq!(p.alloc_pages(1, PAGE_SIZE), Err(AllocError::NoMemory));
    assert_eq!(p.dealloc_pages(b, 3), Ok(()));
    assert_eq!(p.used_pages(), 5);
    // four do not fit into the gap of three
    assert_eq!(p.alloc_pages(4, PAGE_SIZE), Err(AllocError::NoMemory));
    assert_eq!(p.alloc_pages(3, PAGE_SIZE), Ok(b));
}

#[test]
fn live_page_allocations_share_no_frame() {
    let mut p = pool(32);
    let mut live: Vec<(usize, usize)> = Vec::new();
    for (count, align) in [(3, 1), (1, 2), (4, 4), (2, 1), (5, 8), (1, 1), (7, 2)] {
        let addr = p.alloc_pages(count, align * PAGE_SIZE).unwrap();
        assert_eq!(addr % (align * PAGE_SIZE), 0);
        assert!(addr >= BASE && addr + count * PAGE_SIZE <= BASE + 32 * PAGE_SIZE);
        for &(other, n) in &live {
            assert!(addr + count * PAGE_SIZE <= other || other + n * PAGE_SIZE <= addr);
        }
        live.push((addr, count));
    }
    assert_eq!(p.used_pages(), 23);
}

#[test]
fn exhaustion_is_no_memory_and_changes_nothing() {
    let mut p = pool(4);
    assert_eq!(p.alloc_pages(5, PAGE_SIZE), Err(AllocError::NoMemory));
    assert_eq!(p.alloc_pages(3, PAGE_SIZE), Ok(BASE));
    assert_eq!(p.alloc_pages(2, PAGE_SIZE), Err(AllocError::NoMemory));
    assert_eq!(p.used_pages(), 3);
    assert_eq!(p.available_pages(), 1);
    assert_eq!(p.alloc_pages(1, PAGE_SIZE), Ok(BASE + 3 * PAGE_SIZE));
    assert_eq!(p.alloc_pages(1, PAGE_SIZE), Err(AllocError::NoMemory));
}

#[test]
fn malformed_requests_are_invalid_param() {
    let mut p = pool(4);
    assert_eq!(p.alloc_pages(0, PAGE_SIZE), Err(AllocError::InvalidParam));
    assert_eq!(p.alloc_pages(1, 0), Err(AllocError::InvalidParam));
    assert_eq!(p.alloc_pages(1, 3 * PAGE_SIZE), Err(AllocError::InvalidParam));
    assert_eq!(p.alloc_pages(1, 8), Err(AllocError::InvalidParam));
    assert_eq!(p.used_pages(), 0);
}

#[test]
fn malformed_returns_are_invalid_param() {
    let mut p = pool(4);
    let a = p.alloc_pages(2, PAGE_SIZE).unwrap();
    assert_eq!(p.dealloc_pages(a, 0), Err(AllocError::InvalidParam));
    assert_eq!(p.dealloc_pages(a + 1, 2), Err(AllocError::InvalidParam));
    assert_eq!(p.dealloc_pages(BASE - PAGE_SIZE, 2), Err(AllocError::InvalidParam));
    assert_eq!(p.dealloc_pages(BASE + 4 * PAGE_SIZE, 1), Err(AllocError::InvalidParam));
    assert_eq!(p.used_pages(), 2);
}

#[test]
fn page_returns_of_what_is_not_live_are_not_allocated() {
    let mut p = pool(8);
    let a = p.alloc_pages(3, PAGE_SIZE).unwrap();
    // a free frame
    assert_eq!(p.dealloc_pages(BASE + 5 * PAGE_SIZE, 1), Err(AllocError::NotAllocated));
    // a frame within the allocation that is not its first
    assert_eq!(p.dealloc_pages(a + PAGE_SIZE, 2), Err(AllocError::NotAllocated));
    // another extent than was allocated
    assert_eq!(p.dealloc_pages(a, 2), Err(AllocError::NotAllocated));
    assert_eq!(p.dealloc_pages(a, 4), Err(AllocError::NotAllocated));
    assert_eq!(p.used_pages(), 3);
    assert_eq!(p.dealloc_pages(a, 3), Ok(()));
    // twice
    assert_eq!(p.dealloc_pages(a, 3), Err(AllocError::NotAllocated));
    assert_eq!(p.used_pages(), 0);
}

#[test]
fn pages_allocated_and_returned_restore_the_accounting() {
    let mut p = pool(16);
    let keep = p.alloc_pages(2, PAGE_SIZE).unwrap();
    let before = (p.total_pages(), p.used_pages(), p.available_pages());
    let a = p.alloc_pages(5, 2 * PAGE_SIZE).unwrap();
    assert_eq!(p.used_pages(), 7);
    assert_eq!(p.dealloc_pages(a, 5), Ok(()));
    assert_eq!((p.total_pages(), p.used_pages(), p.available_pages()), before);
    // and the same request gets the same frames again
    assert_eq!(p.alloc_pages(5, 2 * PAGE_SIZE), Ok(a));
    assert_eq!(p.dealloc_pages(keep, 2), Ok(()));
}

#[test]
fn a_further_region_is_registered_behind_the_first() {
    let mut p = pool(4);
    let far = BASE + 0x100_0000;
    assert_eq!(p.add_memory(far, 8 * PAGE_SIZE), Ok(()));
    assert_eq!(p.total_pages(), 12);
    assert_eq!(p.used_pages(), 0);
    assert_eq!(p.available_pages(), 12);
    // the first region serves what it can
    assert_eq!(p.alloc_pages(3, PAGE_SIZE), Ok(BASE));
    // two frames do not fit into its last one: the second region serves them
    assert_eq!(p.alloc_pages(2, PAGE_SIZE), Ok(far));
    assert_eq!(p.alloc_pages(1, PAGE_SIZE), Ok(BASE + 3 * PAGE_SIZE));
    assert_eq!(p.alloc_pages(6, PAGE_SIZE), Ok(far + 2 * PAGE_SIZE));
    assert_eq!(p.alloc_pages(1, PAGE_SIZE), Err(AllocError::NoMemory));
    assert_eq!(p.used_pages(), 12);
    // frames return to the region that holds them
    assert_eq!(p.dealloc_pages(far, 2), Ok(()));
    assert_eq!(p.dealloc_pages(BASE, 3), Ok(()));
    assert_eq!(p.used_pages(), 7);
    assert_eq!(p.alloc_pages(2, PAGE_SIZE), Ok(BASE));
    assert_eq!(p.alloc_pages(2, PAGE_SIZE), Ok(far));
}

#[test]
fn a_run_never_reaches_from_one_region_into_the_next() {
    let mut p = pool(2);
    // a region that begins where the first ends
    assert_eq!(p.add_memory(BASE + 2 * PAGE_SIZE, 2 * PAGE_SIZE), Ok(()));
    assert_eq!(p.total_pages(), 4);
    assert_eq!(p.alloc_pages(3, PAGE_SIZE), Err(AllocError::NoMemory));
    assert_eq!(p.alloc_pages(1, PAGE_SIZE), Ok(BASE));
    // one frame is left in the first region, two are asked for
    assert_eq!(p.alloc_pages(2, PAGE_SIZE), Ok(BASE + 2 * PAGE_SIZE));
    assert_eq!(p.alloc_pages(1, PAGE_SIZE), Ok(BASE + PAGE_SIZE));
    assert_eq!(p.used_pages(), 4);
}

#[test]
fn a_region_below_the_first_is_asked_after_it() {
    let mut p = pool(2);
    assert_eq!(p.add_memory(BASE - 0x10_0000, 2 * PAGE_SIZE), Ok(()));
    assert_eq!(p.alloc_pages(2, PAGE_SIZE), Ok(BASE));
    assert_eq!(p.alloc_pages(2, PAGE_SIZE), Ok(BASE - 0x10_0000));
    assert_eq!(p.dealloc_pages(BASE - 0x10_0000, 2), Ok(()));
    assert_eq!(p.used_pages(), 2);
}

#[test]
fn a_region_that_collides_is_memory_overlap() {
    let mut p = pool(4);
    let before = (p.total_pages(), p.used_pages());
    assert_eq!(p.add_memory(BASE, 4 * PAGE_SIZE), Err(AllocError::MemoryOverlap));
    assert_eq!(p.add_memory(BASE + 3 * PAGE_SIZE, 2 * PAGE_SIZE), Err(AllocError::MemoryOverlap));
    assert_eq!(p.add_memory(BASE - PAGE_SIZE, 2 * PAGE_SIZE), Err(AllocError::MemoryOverlap));
    assert_eq!(p.add_memory(BASE - PAGE_SIZE, 8 * PAGE_SIZE), Err(AllocError::MemoryOverlap));
    assert_eq!(p.add_memory(BASE + PAGE_SIZE, PAGE_SIZE), Err(AllocError::MemoryOverlap));
    assert_eq!((p.total_pages(), p.used_pages()), before);
    // only whole pages count: the partial pages at the edges do not collide
    assert_eq!(p.add_memory(BASE + 4 * PAGE_SIZE - 8, 8 + PAGE_SIZE), Ok(()));
    assert_eq!(p.total_pages(), 5);
}

#[test]
fn a_region_without_a_whole_page_is_invalid_param() {
    let mut p = pool(4);
    assert_eq!(p.add_memory(0x10_0000, 0), Err(AllocError::InvalidParam));
    assert_eq!(p.add_memory(0x10_0001, 0x1ffe), Err(AllocError::InvalidParam));
    assert_eq!(p.add_memory(usize::MAX - 0xfff, 0x2000), Err(AllocError::InvalidParam));
    // within the first region, but too small to hold a page: malformed comes first
    assert_eq!(p.add_memory(BASE + 8, 16), Err(AllocError::InvalidParam));
    assert_eq!(p.total_pages(), 4);
}

#[test]
fn returns_outside_every_region_are_invalid_param() {
    let mut p = pool(2);
    assert_eq!(p.add_memory(BASE + 0x10_0000, 2 * PAGE_SIZE), Ok(()));
    // between the two regions
    assert_eq!(p.dealloc_pages(BASE + 2 * PAGE_SIZE, 1), Err(AllocError::InvalidParam));
    assert_eq!(p.dealloc_pages(BASE + 0x10_0000 + 2 * PAGE_SIZE, 1), Err(AllocError::InvalidParam));
    // in the second region, but nothing is live there
    assert_eq!(p.dealloc_pages(BASE + 0x10_0000, 1), Err(AllocError::NotAllocated));
}
