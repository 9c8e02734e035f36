use axalloc::region::PageRegion;
use axalloc::{AllocError, PAGE_SIZE};

#[test]
fn a_region_holds_the_whole_pages_of_its_range() {
    let mut r = PageRegion::new();
    assert_eq!(r.total_pages(), 0);
    r.init(0x7ff0, 0x3020);
    // whole pages within [0x7ff0, 0xb010) are 0x8000 .. 0xb000
    assert_eq!(r.base(), 0x8000);
    assert_eq!(r.end(), 0xb000);
    assert_eq!(r.total_pages(), 3);
    assert_eq!(r.used_pages(), 0);
    assert_eq!(r.available_pages(), 3);
}

#[test]
fn a_region_gives_the_lowest_fit() {
    let mut r = PageRegion::new();
    r.init(0x8000, 8 * PAGE_SIZE);
    assert_eq!(r.alloc_pages(1, PAGE_SIZE), Ok(0x8000));
    // 0x9000 is no multiple of two pages
    assert_eq!(r.alloc_pages(2, 2 * PAGE_SIZE), Ok(0xa000));
    assert_eq!(r.alloc_pages(1, PAGE_SIZE), Ok(0x9000));
    assert_eq!(r.alloc_pages(5, PAGE_SIZE), Err(AllocError::NoMemory));
    assert_eq!(r.alloc_pages(4, PAGE_SIZE), Ok(0xc000));
    assert_eq!(r.used_pages(), 8);
    assert_eq!(r.dealloc_pages(0xa000, 2), Ok(()));
    assert_eq!(r.dealloc_pages(0xa000, 2), Err(AllocError::NotAllocated));
    assert_eq!(r.dealloc_pages(0x7000, 1), Err(AllocError::InvalidParam));
    assert_eq!(r.alloc_pages(0, PAGE_SIZE), Err(AllocError::InvalidParam));
    assert_eq!(r.used_pages(), 6);
    assert_eq!(r.available_pages(), 2);
}
