use kernel::memory::page_allocator::PageAllocator;
use kernel::memory::{align_down, align_up, minimum_amount_of_pages, PAGE_SIZE};

const START: u64 = 0x8000_0000;

fn allocator(pages: u64) -> PageAllocator {
    PageAllocator::new(START, (pages * PAGE_SIZE) as usize)
}

#[test]
fn region_yields_one_page_less_than_it_holds() {
    let pages = allocator(8);
    assert_eq!(pages.total_pages(), 7);
    assert_eq!(pages.free_pages(), 7);
}

#[test]
fn tiny_region_yields_nothing() {
    let mut pages = PageAllocator::new(START, 100);
    assert_eq!(pages.total_pages(), 0);
    assert_eq!(pages.allocate(1), None);
}

#[test]
fn allocation_is_first_fit() {
    let mut pages = allocator(8);
    let first = START + PAGE_SIZE;
    assert_eq!(pages.allocate(2), Some(first));
    assert_eq!(pages.allocate(1), Some(first + 2 * PAGE_SIZE));
    assert_eq!(pages.allocate(3), Some(first + 3 * PAGE_SIZE));
    assert_eq!(pages.free_pages(), 1);
    assert_eq!(pages.allocate(2), None);
    assert_eq!(pages.free_pages(), 1);
    // Release the one page in the middle: a run of one fits there, a run of
    // two does not.
    assert_eq!(pages.dealloc(first + 2 * PAGE_SIZE), 1);
    assert_eq!(pages.allocate(2), None);
    assert_eq!(pages.allocate(1), Some(first + 2 * PAGE_SIZE));
}

#[test]
fn dealloc_releases_through_the_last_page() {
    let mut pages = allocator(8);
    let first = START + PAGE_SIZE;
    let a = pages.allocate(3).unwrap();
    let b = pages.allocate(2).unwrap();
    assert_eq!(pages.free_pages(), 2);
    assert_eq!(pages.dealloc(a), 3);
    assert_eq!(pages.free_pages(), 5);
    assert_eq!(pages.dealloc(b), 2);
    assert_eq!(pages.free_pages(), 7);
    assert_eq!(pages.allocate(7), Some(first));
}

#[test]
fn dealloc_ignores_what_starts_no_allocation() {
    let mut pages = allocator(8);
    let a = pages.allocate(3).unwrap();
    assert_eq!(pages.dealloc(a + PAGE_SIZE), 0);
    assert_eq!(pages.dealloc(a + 1), 0);
    assert_eq!(pages.dealloc(START), 0);
    assert_eq!(pages.dealloc(a + 5 * PAGE_SIZE), 0);
    assert_eq!(pages.dealloc(a + 100 * PAGE_SIZE), 0);
    assert_eq!(pages.free_pages(), 4);
}

#[test]
fn zero_pages_are_not_allocated() {
    let mut pages = allocator(8);
    assert_eq!(pages.allocate(0), None);
    assert_eq!(pages.free_pages(), 7);
}

#[test]
fn alignment_helpers() {
    assert_eq!(align_up(0, 8), 0);
    assert_eq!(align_up(1, 8), 8);
    assert_eq!(align_up(8, 8), 8);
    assert_eq!(align_up(17, 8), 24);
    assert_eq!(align_up(4097, 4096), 8192);
    assert_eq!(align_down(4097, 4096), 4096);
    assert_eq!(align_down(4095, 4096), 0);
    assert_eq!(minimum_amount_of_pages(0), 0);
    assert_eq!(minimum_amount_of_pages(1), 1);
    assert_eq!(minimum_amount_of_pages(4096), 1);
    assert_eq!(minimum_amount_of_pages(4097), 2);
}
