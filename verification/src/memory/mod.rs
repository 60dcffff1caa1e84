//! Memory management: page allocator, kernel heap and sv39 page tables.

use vstd::prelude::*;
use vstd::arithmetic::div_mod::{
    lemma_fundamental_div_mod, lemma_mod_decreases, lemma_mod_multiples_basic,
};

use self::page_allocator::{usable_pages, PageAllocator, PageStatus};

pub mod heap;
pub mod linker_information;
pub mod page_allocator;
pub mod page_tables;

verus! {

/// Size of one physical frame and of the smallest virtual page, in bytes.
pub const PAGE_SIZE: u64 = 4096;

/// One past the highest physical address: 44 bits of frame number and 12 of
/// offset.
pub const PHYSICAL_ADDRESS_LIMIT: u64 = 0x100_0000_0000_0000;

/// The least multiple of `alignment` that is not below `value`.
pub open spec fn align_up_spec(value: int, alignment: int) -> int {
    if value % alignment == 0 {
        value
    } else {
        value - value % alignment + alignment
    }
}

/// The greatest multiple of `alignment` that is not above `value`.
pub open spec fn align_down_spec(value: int, alignment: int) -> int {
    value - value % alignment
}

/// The number of pages needed to hold `size` bytes.
pub open spec fn pages_for(size: int) -> int {
    if size % (PAGE_SIZE as int) == 0 {
        size / (PAGE_SIZE as int)
    } else {
        size / (PAGE_SIZE as int) + 1
    }
}

/// `align_up_spec` is a multiple of the alignment, and the first one from
/// `value` upwards.
pub proof fn lemma_align_up(value: int, alignment: int)
    requires
        0 <= value,
        0 < alignment,
    ensures
        align_up_spec(value, alignment) % alignment == 0,
        value <= align_up_spec(value, alignment) < value + alignment,
{
    if value % alignment != 0 {
        lemma_fundamental_div_mod(value, alignment);
        let q = value / alignment;
        assert(value - value % alignment + alignment == (q + 1) * alignment) by (nonlinear_arith)
            requires
                value == alignment * q + value % alignment,
        ;
        lemma_mod_multiples_basic(q + 1, alignment);
    }
}

/// `align_down_spec` is a multiple of the alignment, and the last one up to
/// `value`.
pub proof fn lemma_align_down(value: int, alignment: int)
    requires
        0 <= value,
        0 < alignment,
    ensures
        align_down_spec(value, alignment) % alignment == 0,
        value - alignment < align_down_spec(value, alignment) <= value,
{
    lemma_fundamental_div_mod(value, alignment);
    let q = value / alignment;
    assert(value - value % alignment == q * alignment) by (nonlinear_arith)
        requires
            value == alignment * q + value % alignment,
    ;
    lemma_mod_multiples_basic(q, alignment);
}

/// Puts the physical memory of `heap_size` bytes at `heap_start` under a page
/// allocator, every frame free.
pub fn init_page_allocator(heap_start: u64, heap_size: usize) -> (allocator: PageAllocator)
    requires
        heap_start + heap_size <= PHYSICAL_ADDRESS_LIMIT,
    ensures
        allocator.wf(),
        allocator@.len() == usable_pages(heap_start as int, heap_size as int),
        forall|i: int| 0 <= i < allocator@.len() ==> allocator@[i] == PageStatus::Free,
{
    PageAllocator::new(heap_start, heap_size)
}

/// Rounds `value` up to the next multiple of `alignment`.
pub fn align_up(value: u64, alignment: u64) -> (aligned: u64)
    requires
        alignment > 0,
        align_up_spec(value as int, alignment as int) <= u64::MAX,
    ensures
        aligned == align_up_spec(value as int, alignment as int),
        aligned % alignment == 0,
        value <= aligned < value + alignment,
{
    proof {
        lemma_align_up(value as int, alignment as int);
        lemma_mod_decreases(value as nat, alignment as nat);
    }
    let remainder: u64 = value % alignment;
    if remainder == 0 {
        value
    } else {
        value - remainder + alignment
    }
}

/// Rounds `value` down to the previous multiple of `alignment`.
pub fn align_down(value: u64, alignment: u64) -> (aligned: u64)
    requires
        alignment > 0,
    ensures
        aligned == align_down_spec(value as int, alignment as int),
        aligned % alignment == 0,
        value - alignment < aligned <= value,
{
    proof {
        lemma_align_down(value as int, alignment as int);
        lemma_mod_decreases(value as nat, alignment as nat);
    }
    value - value % alignment
}

/// The number of whole pages that covers `size` bytes.
pub fn minimum_amount_of_pages(size: u64) -> (pages: u64)
    ensures
        pages == pages_for(size as int),
        pages * PAGE_SIZE >= size,
        pages * PAGE_SIZE < size + PAGE_SIZE,
{
    if size % PAGE_SIZE == 0 {
        size / PAGE_SIZE
    } else {
        size / PAGE_SIZE + 1
    }
}

} // verus!
