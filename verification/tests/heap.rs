use kernel::memory::heap::{
    AlignedSizeWithMetadata, FreeBlock, Heap, Layout, DATA_ALIGNMENT, METADATA_SIZE, MINIMUM_SIZE,
};
use kernel::memory::page_allocator::PageAllocator;
use kernel::memory::PAGE_SIZE;

const HEAP_PAGES: u64 = 8;
const REGION_START: u64 = 0x8020_0000;

fn create_heap() -> (Heap, PageAllocator) {
    let pages = PageAllocator::new(REGION_START, (PAGE_SIZE * HEAP_PAGES) as usize);
    (Heap::new(), pages)
}

fn allocate(heap: &mut Heap, pages: &mut PageAllocator, size: u64) -> Option<u64> {
    let ptr = heap.allocate(pages, Layout { size, align: 1 });
    if let Some(ptr) = ptr {
        let data_size = heap.allocation_size(ptr).unwrap();
        assert!(data_size >= size);
        assert!(data_size % DATA_ALIGNMENT == 0);
        assert!(ptr % DATA_ALIGNMENT == 0);
        // what is handed out is off the free list
        for i in 0..heap.free_list_len() {
            assert_ne!(heap.free_block(i).unwrap().addr, ptr - METADATA_SIZE);
        }
    }
    ptr
}

fn deallocate(heap: &mut Heap, ptr: u64, size: u64) {
    let held = heap.allocation_size(ptr);
    assert!(matches!(held, Some(data_size) if data_size >= size));
    heap.dealloc(ptr, Layout { size, align: 1 });
}

#[test]
fn empty_heap() {
    let (heap, _pages) = create_heap();
    assert_eq!(heap.free_list_len(), 0);
}

#[test]
fn single_allocation() {
    let (mut heap, mut pages) = create_heap();
    let ptr = allocate(&mut heap, &mut pages, 1);
    assert!(ptr.is_some());
    assert_eq!(heap.free_list_len(), 1);
    let free_block = heap.free_block(0).unwrap();
    assert_eq!(free_block.size.total_size(), PAGE_SIZE - METADATA_SIZE - DATA_ALIGNMENT);
}

#[test]
fn split_block() {
    let (mut heap, mut pages) = create_heap();
    let ptr1 = allocate(&mut heap, &mut pages, 1);
    assert!(ptr1.is_some());
    let ptr2 = allocate(&mut heap, &mut pages, 1);
    assert!(ptr2.is_some());
    assert_ne!(ptr1, ptr2);
    assert_eq!(heap.free_list_len(), 1);
    let free_block = heap.free_block(0).unwrap();
    assert_eq!(
        free_block.size.total_size(),
        PAGE_SIZE - (2 * METADATA_SIZE) - (2 * DATA_ALIGNMENT)
    );
}

#[test]
fn deallocation() {
    let (mut heap, mut pages) = create_heap();
    let ptr = allocate(&mut heap, &mut pages, 1).unwrap();
    deallocate(&mut heap, ptr, 1);
    assert_eq!(heap.free_list_len(), 2);
    let free_block1 = heap.free_block(0).unwrap();
    assert_eq!(free_block1.size.data_size(), DATA_ALIGNMENT);
    let free_block2 = heap.free_block(1).unwrap();
    assert_eq!(free_block2.size.total_size(), PAGE_SIZE - METADATA_SIZE - DATA_ALIGNMENT);
    assert!(heap.free_block(2).is_none());
}

#[test]
fn alloc_exhaustion() {
    let (mut heap, mut pages) = create_heap();
    // One page's worth of the region holds the page metadata.
    let size = ((HEAP_PAGES - 1) * PAGE_SIZE) - METADATA_SIZE;
    let ptr = allocate(&mut heap, &mut pages, size).unwrap();

    let ptr2 = allocate(&mut heap, &mut pages, 1);
    assert!(ptr2.is_none());
    assert_eq!(heap.free_list_len(), 0);

    deallocate(&mut heap, ptr, size);

    let ptr = allocate(&mut heap, &mut pages, 1);
    assert!(ptr.is_some());
    assert_eq!(heap.free_list_len(), 1);
    let free_block = heap.free_block(0).unwrap();
    assert_eq!(
        free_block.size.total_size(),
        ((HEAP_PAGES - 1) * PAGE_SIZE) - METADATA_SIZE - DATA_ALIGNMENT
    );
}

#[test]
fn first_allocation_takes_one_page_at_the_first_frame() {
    let (mut heap, mut pages) = create_heap();
    assert_eq!(pages.total_pages(), 7);
    let ptr = allocate(&mut heap, &mut pages, 1).unwrap();
    // The frames begin at the page boundary behind the 7 metadata bytes.
    assert_eq!(ptr, REGION_START + PAGE_SIZE + METADATA_SIZE);
    assert_eq!(pages.free_pages(), 6);
}

#[test]
fn request_is_rounded_up_to_the_alignment() {
    assert_eq!(
        AlignedSizeWithMetadata::from_layout(Layout { size: 1, align: 1 }).total_size(),
        24
    );
    assert_eq!(
        AlignedSizeWithMetadata::from_layout(Layout { size: 8, align: 8 }).total_size(),
        24
    );
    assert_eq!(
        AlignedSizeWithMetadata::from_layout(Layout { size: 9, align: 1 }).total_size(),
        32
    );
    assert_eq!(AlignedSizeWithMetadata::from_pages(3).total_size(), 3 * PAGE_SIZE);
    assert_eq!(AlignedSizeWithMetadata::new().total_size(), 0);
    assert_eq!(MINIMUM_SIZE, METADATA_SIZE + DATA_ALIGNMENT);
}

#[test]
fn block_is_split_only_where_the_rest_exceeds_a_minimum_block() {
    let mut heap = Heap::new();
    let mut block =
        FreeBlock::initialize(0x1000, AlignedSizeWithMetadata { size: 24 + MINIMUM_SIZE });
    heap.split_if_necessary(&mut block, AlignedSizeWithMetadata { size: 24 });
    assert_eq!(block.size.total_size(), 24 + MINIMUM_SIZE);
    assert_eq!(heap.free_list_len(), 0);

    let mut block =
        FreeBlock::initialize(0x1000, AlignedSizeWithMetadata { size: 24 + MINIMUM_SIZE + 8 });
    heap.split_if_necessary(&mut block, AlignedSizeWithMetadata { size: 24 });
    assert_eq!(block.size.total_size(), 24);
    assert_eq!(block.addr, 0x1000);
    let rest = heap.free_block(0).unwrap();
    assert_eq!(rest.addr, 0x1000 + 24);
    assert_eq!(rest.size.total_size(), MINIMUM_SIZE + 8);
}

#[test]
fn find_and_remove_takes_the_first_block_that_fits() {
    let mut heap = Heap::new();
    heap.insert(FreeBlock::initialize(0x3000, AlignedSizeWithMetadata { size: 64 }));
    heap.insert(FreeBlock::initialize(0x2000, AlignedSizeWithMetadata { size: 128 }));
    heap.insert(FreeBlock::initialize(0x1000, AlignedSizeWithMetadata { size: 32 }));
    // head first: 0x1000 (32), 0x2000 (128), 0x3000 (64)
    let found = heap.find_and_remove(AlignedSizeWithMetadata { size: 48 }).unwrap();
    assert_eq!(found.addr, 0x2000);
    assert_eq!(heap.free_list_len(), 2);
    assert_eq!(heap.free_block(0).unwrap().addr, 0x1000);
    assert_eq!(heap.free_block(1).unwrap().addr, 0x3000);
    assert!(heap.find_and_remove(AlignedSizeWithMetadata { size: 4096 }).is_none());
    assert_eq!(heap.free_list_len(), 2);
}

#[test]
fn dealloc_gives_back_the_whole_block() {
    let (mut heap, mut pages) = create_heap();
    let ptr = allocate(&mut heap, &mut pages, 100).unwrap();
    let before: u64 = (0..heap.free_list_len())
        .map(|i| heap.free_block(i).unwrap().size.total_size())
        .sum();
    deallocate(&mut heap, ptr, 100);
    let after: u64 = (0..heap.free_list_len())
        .map(|i| heap.free_block(i).unwrap().size.total_size())
        .sum();
    // 100 bytes and 16 of header, rounded up to 8: 120.
    assert_eq!(after - before, 120);
    assert_eq!(after, PAGE_SIZE);
    assert!(heap.allocation_size(ptr).is_none());
}

#[test]
fn cycles_of_one_size_keep_the_free_list_length() {
    let (mut heap, mut pages) = create_heap();
    let ptr = allocate(&mut heap, &mut pages, 40).unwrap();
    deallocate(&mut heap, ptr, 40);
    let length = heap.free_list_len();
    for _ in 0..50 {
        let again = allocate(&mut heap, &mut pages, 40).unwrap();
        assert_eq!(again, ptr);
        deallocate(&mut heap, again, 40);
        assert_eq!(heap.free_list_len(), length);
    }
    assert_eq!(pages.free_pages(), 6);
}

#[test]
fn oversized_request_is_refused() {
    let (mut heap, mut pages) = create_heap();
    assert!(heap.allocate(&mut pages, Layout { size: u64::MAX, align: 1 }).is_none());
    assert!(heap.allocate(&mut pages, Layout { size: 8 * PAGE_SIZE, align: 1 }).is_none());
    assert_eq!(pages.free_pages(), 7);
    assert_eq!(heap.free_list_len(), 0);
}
