//! Building the address space of a program: the physical pages for its
//! segments and its stack, and the mappings onto them.

use vstd::prelude::*;
use crate::memory::page_allocator::{
    has_fit, is_first_fit, is_free_run, lemma_alloc_dealloc_roundtrip, lemma_run_end_unique,
    mark_allocated, PageAllocator,
};
use crate::memory::page_tables::{
    is_mapping_of, maps_along, range_unmapped, walk, RootPageTableHolder, XWRMode,
    VIRTUAL_ADDRESS_LIMIT,
};
use crate::memory::PAGE_SIZE;

verus! {

/// Pages of a user stack.
pub const STACK_PAGES: u64 = 4;

/// One past the highest address of the user stack; the initial stack pointer.
pub const STACK_END: u64 = 0x7f_ffff_f000;

/// The lowest address of the user stack.
pub const STACK_START: u64 = 0x7f_ffff_b000;

/// More pages than any allocator holds.
pub const PAGE_COUNT_LIMIT: u64 = 0x1000_0000_0000;

/// One loadable segment of a program: where it goes, how many pages it takes
/// and with which privileges it is mapped.
#[derive(Clone, Copy, PartialEq, Eq, Debug, Structural)]
pub struct ProgramSegment {
    pub virtual_address: u64,
    pub pages: u64,
    pub privileges: XWRMode,
}

/// One range of the kernel that every address space maps at its own address,
/// for the kernel only.
#[derive(Clone, Copy, PartialEq, Eq, Debug, Structural)]
pub struct MappingDescription {
    pub virtual_address_start: u64,
    pub pages: u64,
    pub privileges: XWRMode,
}

/// One range of an address space: where it lies, how many pages it takes,
/// with which privileges it is mapped, and whether it is the user's, on
/// fresh pages, or the kernel's, at its own address.
#[derive(Clone, Copy, PartialEq, Eq, Debug, Structural)]
pub struct Region {
    pub virtual_address: u64,
    pub pages: u64,
    pub privileges: XWRMode,
    pub user: bool,
}

/// A parsed program: its entry point and its loadable segments.
pub struct ElfFile {
    pub entry_address: u64,
    pub segments: Vec<ProgramSegment>,
}

/// A program in memory: its entry point, its address space and the
/// allocations of physical pages that back it.
pub struct LoadedElf {
    pub entry_address: u64,
    pub page_tables: RootPageTableHolder,
    pub allocated_pages: Vec<u64>,
}

/// The region of the user stack.
pub open spec fn stack_region() -> Region {
    Region {
        virtual_address: STACK_START,
        pages: STACK_PAGES,
        privileges: XWRMode::ReadWrite,
        user: true,
    }
}

/// The region of a range of the kernel.
pub open spec fn kernel_region(mapping: MappingDescription) -> Region {
    Region {
        virtual_address: mapping.virtual_address_start,
        pages: mapping.pages,
        privileges: mapping.privileges,
        user: false,
    }
}

/// The region of a segment of a program.
pub open spec fn user_region(segment: ProgramSegment) -> Region {
    Region {
        virtual_address: segment.virtual_address,
        pages: segment.pages,
        privileges: segment.privileges,
        user: true,
    }
}

/// Everything that is mapped for a program: the ranges of the kernel, then
/// the segments of the program, then its stack.
pub open spec fn image_regions(elf: ElfFile, kernel: Seq<MappingDescription>) -> Seq<Region> {
    Seq::new(
        kernel.len() + elf.segments@.len() + 1,
        |i: int|
            if i < kernel.len() {
                kernel_region(kernel[i])
            } else if i < kernel.len() + elf.segments@.len() {
                user_region(elf.segments@[i - kernel.len()])
            } else {
                stack_region()
            },
    )
}

/// `v` is an address of the region.
pub open spec fn in_region(region: Region, v: int) -> bool {
    region.virtual_address <= v < region.virtual_address + region.pages * PAGE_SIZE
}

/// The region starts on a page boundary, ends within the translated address
/// range and has the privileges of a leaf.
pub open spec fn region_valid(region: Region) -> bool {
    &&& region.virtual_address % PAGE_SIZE == 0
    &&& region.virtual_address + region.pages * PAGE_SIZE <= VIRTUAL_ADDRESS_LIMIT
    &&& region.privileges != XWRMode::PointerToNextLevel
}

/// The two regions share no address.
pub open spec fn regions_disjoint(a: Region, b: Region) -> bool {
    ||| a.pages == 0
    ||| b.pages == 0
    ||| a.virtual_address + a.pages * PAGE_SIZE <= b.virtual_address
    ||| b.virtual_address + b.pages * PAGE_SIZE <= a.virtual_address
}

/// The first `n` regions share no address with each other.
pub open spec fn pairwise_disjoint(regions: Seq<Region>, n: int) -> bool {
    forall|i: int, j: int| 0 <= i < j < n
        ==> regions_disjoint(#[trigger] regions[i], #[trigger] regions[j])
}

/// The regions can all be mapped into one address space.
pub open spec fn loadable(regions: Seq<Region>) -> bool {
    &&& forall|i: int| 0 <= i < regions.len() ==> region_valid(#[trigger] regions[i])
    &&& pairwise_disjoint(regions, regions.len() as int)
}

/// The fresh pages that a region takes: its pages where it is the user's,
/// none where it is the kernel's.
pub open spec fn fresh_pages(region: Region) -> int {
    if region.user {
        region.pages as int
    } else {
        0
    }
}

/// The fresh pages of all regions together.
pub open spec fn total_pages(regions: Seq<Region>) -> int
    decreases regions.len(),
{
    if regions.len() == 0 {
        0
    } else {
        total_pages(regions.drop_last()) + fresh_pages(regions.last())
    }
}

/// Where the physical memory of region `i` begins: behind the pages of the
/// user's regions in front of it, or, for a region of the kernel, at the
/// region's own address.
pub open spec fn physical_start(regions: Seq<Region>, base: int, i: int) -> int {
    if regions[i].user {
        base + pages_before(regions, i) * PAGE_SIZE
    } else {
        regions[i].virtual_address as int
    }
}

/// The pages of the regions in front of region `i`.
pub open spec fn pages_before(regions: Seq<Region>, i: int) -> int {
    total_pages(regions.subrange(0, i))
}

/// `v` is an address of one of the first `n` regions.
pub open spec fn covered(regions: Seq<Region>, n: int, v: int) -> bool {
    exists|j: int| 0 <= j < n && in_region(#[trigger] regions[j], v)
}

/// Region `i` is mapped, page after page, onto its physical memory, with the
/// region's privileges: for user mode where the region is the user's, for
/// the kernel alone and in every address space alike where it is the
/// kernel's.
pub open spec fn region_mapped(
    entries: Seq<crate::memory::page_tables::PageTableEntry>,
    regions: Seq<Region>,
    base: int,
    i: int,
) -> bool {
    forall|v: int| #[trigger]
        in_region(regions[i], v) ==> maps_along(
            entries,
            regions[i].virtual_address as int,
            physical_start(regions, base, i),
            v,
            regions[i].privileges,
            regions[i].user,
        )
}

/// The first `n` regions are mapped onto the physical memory from `base`, and
/// nothing else is mapped.
pub open spec fn image_mapped(
    entries: Seq<crate::memory::page_tables::PageTableEntry>,
    regions: Seq<Region>,
    base: int,
    n: int,
) -> bool {
    &&& forall|i: int| 0 <= i < n ==> #[trigger] region_mapped(entries, regions, base, i)
    &&& forall|v: int| #[trigger] walk(entries, v) is Some ==> covered(regions, n, v)
}

/// The pages in front of a region and its own are those in front of the next.
pub proof fn lemma_pages_before_step(regions: Seq<Region>, i: int)
    requires
        0 <= i < regions.len(),
    ensures
        pages_before(regions, i + 1) == pages_before(regions, i) + fresh_pages(regions[i]),
        pages_before(regions, 0) == 0,
        0 <= pages_before(regions, i),
    decreases i,
{
    assert(regions.subrange(0, i + 1).drop_last() =~= regions.subrange(0, i));
    assert(regions.subrange(0, 0).len() == 0);
    if i > 0 {
        lemma_pages_before_step(regions, i - 1);
    }
}

/// The pages in front of a region never exceed the pages in front of a later
/// one.
pub proof fn lemma_pages_before_monotone(regions: Seq<Region>, i: int, j: int)
    requires
        0 <= i <= j <= regions.len(),
    ensures
        0 <= pages_before(regions, i) <= pages_before(regions, j),
    decreases j - i,
{
    if i < j {
        lemma_pages_before_step(regions, j - 1);
        lemma_pages_before_monotone(regions, i, j - 1);
    } else if i < regions.len() {
        lemma_pages_before_step(regions, i);
    } else if i > 0 {
        lemma_pages_before_step(regions, i - 1);
    } else {
        assert(regions.subrange(0, 0).len() == 0);
    }
}

/// Checks that each region can be mapped by itself and counts the fresh pages
/// that the regions take together. `None` where a region cannot be mapped or
/// the pages are more than any allocator holds.
pub fn count_fresh_pages(regions: &Vec<Region>) -> (total: Option<u64>)
    ensures
        match total {
            Some(pages) => {
                &&& forall|j: int| 0 <= j < regions@.len() ==> region_valid(#[trigger] regions@[j])
                &&& pages == total_pages(regions@)
                &&& pages <= PAGE_COUNT_LIMIT
            },
            None => (exists|j: int| 0 <= j < regions@.len()
                && !region_valid(#[trigger] regions@[j]))
                || total_pages(regions@) > PAGE_COUNT_LIMIT,
        },
{
    let count: usize = regions.len();
    let mut total: u64 = 0;
    let mut k: usize = 0;
    while k < count
        invariant
            k <= count,
            count == regions@.len(),
            total == pages_before(regions@, k as int),
            total <= PAGE_COUNT_LIMIT,
            forall|j: int| 0 <= j < k ==> region_valid(#[trigger] regions@[j]),
        decreases count - k,
    {
        let region = regions[k];
        proof {
            lemma_pages_before_step(regions@, k as int);
        }
        if region.virtual_address % PAGE_SIZE != 0 || region.virtual_address
            > VIRTUAL_ADDRESS_LIMIT || region.pages > (VIRTUAL_ADDRESS_LIMIT
            - region.virtual_address) / PAGE_SIZE || region.privileges
            == XWRMode::PointerToNextLevel {
            assert(!region_valid(regions@[k as int]));
            return None;
        }
        if region.user {
            if region.pages > PAGE_COUNT_LIMIT - total {
                proof {
                    lemma_pages_before_monotone(regions@, k as int + 1, count as int);
                    assert(regions@.subrange(0, count as int) =~= regions@);
                }
                return None;
            }
            total = total + region.pages;
        }
        k = k + 1;
    }
    assert(regions@.subrange(0, count as int) =~= regions@);
    Some(total)
}

/// Builds the address space that maps the regions: the user's onto the
/// physical pages from `base`, one region behind the other, the kernel's at
/// their own addresses. `None` where two regions share an address.
pub fn map_regions(regions: &Vec<Region>, base: u64) -> (mapped: Option<RootPageTableHolder>)
    requires
        forall|j: int| 0 <= j < regions@.len() ==> region_valid(#[trigger] regions@[j]),
        base % PAGE_SIZE == 0,
        base + total_pages(regions@) * PAGE_SIZE <= crate::memory::PHYSICAL_ADDRESS_LIMIT,
    ensures
        mapped is Some <==> pairwise_disjoint(regions@, regions@.len() as int),
        mapped matches Some(tables) ==> tables.wf() && image_mapped(
            tables@,
            regions@,
            base as int,
            regions@.len() as int,
        ),
{
    let count: usize = regions.len();
    let ghost total = total_pages(regions@);
    let mut tables = RootPageTableHolder::empty();
    let mut done: u64 = 0;
    let mut n: usize = 0;
    proof {
        lemma_pages_before_monotone(regions@, 0, count as int);
        assert(regions@.subrange(0, count as int) =~= regions@);
        assert(regions@.subrange(0, 0).len() == 0);
    }
    while n < count
        invariant
            n <= count,
            count == regions@.len(),
            tables.wf(),
            done == pages_before(regions@, n as int),
            total == total_pages(regions@),
            0 <= done <= total,
            base + total * PAGE_SIZE <= crate::memory::PHYSICAL_ADDRESS_LIMIT,
            base % PAGE_SIZE == 0,
            forall|j: int| 0 <= j < count ==> region_valid(#[trigger] regions@[j]),
            pairwise_disjoint(regions@, n as int),
            image_mapped(tables@, regions@, base as int, n as int),
        decreases count - n,
    {
        let region = regions[n];
        let size: u64 = region.pages * PAGE_SIZE;
        proof {
            lemma_pages_before_step(regions@, n as int);
            lemma_pages_before_monotone(regions@, n as int + 1, count as int);
            assert(regions@.subrange(0, count as int) =~= regions@);
            assert(region_valid(regions@[n as int]));
            let taken = fresh_pages(regions@[n as int]);
            assert((done + taken) * PAGE_SIZE <= total * PAGE_SIZE) by (nonlinear_arith)
                requires
                    done + taken <= total,
            ;
            assert((done + taken) * PAGE_SIZE == done * PAGE_SIZE + taken * PAGE_SIZE)
                by (nonlinear_arith);
        }
        if !tables.is_range_unmapped(region.virtual_address, size) {
            proof {
                let v = choose|v: int|
                    region.virtual_address <= v < region.virtual_address + size && !(
                    #[trigger] walk(tables@, v) is None);
                assert(covered(regions@, n as int, v));
                let j = choose|j: int| 0 <= j < n && in_region(#[trigger] regions@[j], v);
                assert(in_region(regions@[n as int], v));
                assert(!regions_disjoint(regions@[j], regions@[n as int]));
                assert(!pairwise_disjoint(regions@, regions@.len() as int));
            }
            return None;
        }
        let ghost before = tables@;
        assert forall|j: int| 0 <= j < n implies regions_disjoint(
            #[trigger] regions@[j],
            regions@[n as int],
        ) by {
            let a = regions@[j];
            let b = regions@[n as int];
            if !regions_disjoint(a, b) {
                let v: int = if a.virtual_address >= b.virtual_address {
                    a.virtual_address as int
                } else {
                    b.virtual_address as int
                };
                assert(a.pages * PAGE_SIZE > 0 && b.pages * PAGE_SIZE > 0) by (nonlinear_arith)
                    requires
                        a.pages > 0,
                        b.pages > 0,
                        PAGE_SIZE > 0,
                ;
                assert(in_region(a, v) && in_region(b, v));
                assert(region_mapped(before, regions@, base as int, j));
                assert(walk(before, v) is None);
            }
        }
        let physical: u64 = if region.user {
            base + done * PAGE_SIZE
        } else {
            region.virtual_address
        };
        assert(physical == physical_start(regions@, base as int, n as int));
        let mapped = tables.map(
            region.virtual_address,
            physical,
            size,
            region.privileges,
            region.user,
        );
        assert(mapped);
        proof {
            let after = tables@;
            let pa = physical;
            assert forall|i: int| 0 <= i < n + 1 implies #[trigger] region_mapped(
                after,
                regions@,
                base as int,
                i,
            ) by {
                if i < n {
                    assert(region_mapped(before, regions@, base as int, i));
                    assert(regions_disjoint(regions@[i], regions@[n as int]));
                    assert forall|v: int| #[trigger] in_region(regions@[i], v) implies maps_along(
                        after,
                        regions@[i].virtual_address as int,
                        physical_start(regions@, base as int, i),
                        v,
                        regions@[i].privileges,
                        regions@[i].user,
                    ) by {
                        assert(!in_region(regions@[n as int], v));
                        assert(walk(after, v) == walk(before, v));
                    }
                } else {
                    assert forall|v: int| #[trigger] in_region(regions@[i], v) implies maps_along(
                        after,
                        regions@[i].virtual_address as int,
                        physical_start(regions@, base as int, i),
                        v,
                        regions@[i].privileges,
                        regions@[i].user,
                    ) by {
                        assert(maps_along(
                            after,
                            region.virtual_address as int,
                            pa as int,
                            v,
                            region.privileges,
                            region.user,
                        ));
                    }
                }
            }
            assert forall|v: int| #[trigger] walk(after, v) is Some implies covered(
                regions@,
                n as int + 1,
                v,
            ) by {
                if in_region(regions@[n as int], v) {
                } else {
                    assert(walk(after, v) == walk(before, v));
                    assert(covered(regions@, n as int, v));
                    let j = choose|j: int| 0 <= j < n && in_region(#[trigger] regions@[j], v);
                    assert(in_region(regions@[j], v));
                }
            }
            assert(pairwise_disjoint(regions@, n as int + 1));
        }
        if region.user {
            done = done + region.pages;
        }
        n = n + 1;
    }
    Some(tables)
}

/// The regions of the ranges of the kernel alone.
pub open spec fn kernel_regions(kernel: Seq<MappingDescription>) -> Seq<Region> {
    Seq::new(kernel.len(), |i: int| kernel_region(kernel[i]))
}

/// Builds the address space of the kernel: every range of `kernel_mappings`
/// mapped at its own address, for the kernel alone. `None` where a range
/// cannot be mapped or two ranges share an address.
pub fn kernel_page_table(kernel_mappings: &Vec<MappingDescription>) -> (mapped: Option<
    RootPageTableHolder,
>)
    ensures
        mapped is Some <==> loadable(kernel_regions(kernel_mappings@)),
        mapped matches Some(tables) ==> tables.wf() && image_mapped(
            tables@,
            kernel_regions(kernel_mappings@),
            0,
            kernel_mappings@.len() as int,
        ),
{
    let mut regions: Vec<Region> = Vec::new();
    let mut m: usize = 0;
    while m < kernel_mappings.len()
        invariant
            m <= kernel_mappings@.len(),
            regions@.len() == m,
            forall|k: int| 0 <= k < m ==> regions@[k] == kernel_region(kernel_mappings@[k]),
            total_pages(regions@) == 0,
        decreases kernel_mappings@.len() - m,
    {
        let mapping = kernel_mappings[m];
        let ghost before = regions@;
        regions.push(
            Region {
                virtual_address: mapping.virtual_address_start,
                pages: mapping.pages,
                privileges: mapping.privileges,
                user: false,
            },
        );
        assert(regions@.drop_last() =~= before);
        m = m + 1;
    }
    assert(regions@ =~= kernel_regions(kernel_mappings@));
    match count_fresh_pages(&regions) {
        Some(total) => {},
        None => {
            return None;
        },
    }
    map_regions(&regions, 0)
}

/// Builds the address space of `elf`: maps the ranges of the kernel at their
/// own addresses, takes one run of physical pages for all segments and the
/// stack, and maps each of these onto its part of the run. Without enough
/// free pages in one run, or where the regions cannot all be mapped, nothing
/// is taken and the result is `None`.
pub fn load_elf(
    elf: &ElfFile,
    kernel_mappings: &Vec<MappingDescription>,
    allocator: &mut PageAllocator,
) -> (loaded: Option<LoadedElf>)
    requires
        old(allocator).wf(),
    ensures
        final(allocator).wf(),
        final(allocator).base() == old(allocator).base(),
        final(allocator)@.len() == old(allocator)@.len(),
        loaded is Some <==> loadable(image_regions(*elf, kernel_mappings@)) && has_fit(
            old(allocator)@,
            total_pages(image_regions(*elf, kernel_mappings@)),
        ),
        loaded is None ==> final(allocator)@ == old(allocator)@,
        loaded matches Some(image) ==> {
            &&& image.entry_address == elf.entry_address
            &&& image.page_tables.wf()
            &&& exists|s: int|
                {
                    &&& #[trigger] is_first_fit(
                        old(allocator)@,
                        s,
                        total_pages(image_regions(*elf, kernel_mappings@)),
                    )
                    &&& final(allocator)@ == mark_allocated(
                        old(allocator)@,
                        s,
                        total_pages(image_regions(*elf, kernel_mappings@)),
                    )
                    &&& image.allocated_pages@ == seq![old(allocator).page_address(s) as u64]
                    &&& image_mapped(
                        image.page_tables@,
                        image_regions(*elf, kernel_mappings@),
                        old(allocator).page_address(s),
                        image_regions(*elf, kernel_mappings@).len() as int,
                    )
                }
        },
{
    let ghost regions_spec = image_regions(*elf, kernel_mappings@);
    let mut regions: Vec<Region> = Vec::new();
    let mut m: usize = 0;
    while m < kernel_mappings.len()
        invariant
            m <= kernel_mappings@.len(),
            regions@.len() == m,
            regions_spec == image_regions(*elf, kernel_mappings@),
            forall|k: int| 0 <= k < m ==> regions@[k] == regions_spec[k],
        decreases kernel_mappings@.len() - m,
    {
        let mapping = kernel_mappings[m];
        regions.push(
            Region {
                virtual_address: mapping.virtual_address_start,
                pages: mapping.pages,
                privileges: mapping.privileges,
                user: false,
            },
        );
        m = m + 1;
    }
    let mut i: usize = 0;
    while i < elf.segments.len()
        invariant
            i <= elf.segments@.len(),
            m == kernel_mappings@.len(),
            regions@.len() == m + i,
            regions_spec == image_regions(*elf, kernel_mappings@),
            forall|k: int| 0 <= k < m + i ==> regions@[k] == regions_spec[k],
        decreases elf.segments@.len() - i,
    {
        let segment = elf.segments[i];
        regions.push(
            Region {
                virtual_address: segment.virtual_address,
                pages: segment.pages,
                privileges: segment.privileges,
                user: true,
            },
        );
        i = i + 1;
    }
    regions.push(
        Region {
            virtual_address: STACK_START,
            pages: STACK_PAGES,
            privileges: XWRMode::ReadWrite,
            user: true,
        },
    );
    assert(regions@ =~= regions_spec);
    let total: u64 = match count_fresh_pages(&regions) {
        Some(total) => total,
        None => {
            proof {
                if total_pages(regions@) > PAGE_COUNT_LIMIT {
                    lemma_no_fit_beyond_limit(*allocator, total_pages(regions@));
                }
            }
            return None;
        },
    };
    assert(total >= STACK_PAGES) by {
        lemma_pages_before_step(regions@, regions@.len() - 1);
        assert(regions@.subrange(0, regions@.len() as int) =~= regions@);
    }
    if total > usize::MAX as u64 {
        proof {
            lemma_no_fit_beyond_len(*allocator, total as int);
        }
        return None;
    }
    let base: u64 = match allocator.allocate(total as usize) {
        Some(base) => base,
        None => {
            return None;
        },
    };
    let ghost s = choose|s: int|
        {
            &&& #[trigger] is_first_fit(old(allocator)@, s, total as int)
            &&& base == old(allocator).page_address(s)
            &&& allocator@ == mark_allocated(old(allocator)@, s, total as int)
        };
    proof {
        lemma_alloc_dealloc_roundtrip(old(allocator)@, s, total as int);
        let frames = old(allocator)@.len();
        assert((s + total) * PAGE_SIZE <= frames * PAGE_SIZE) by (nonlinear_arith)
            requires
                s + total <= frames,
        ;
        assert((s + total) * PAGE_SIZE == s * PAGE_SIZE + total * PAGE_SIZE) by (nonlinear_arith);
        assert(s * PAGE_SIZE >= 0) by (nonlinear_arith)
            requires
                s >= 0,
        ;
        assert((s * 4096) % 4096 == 0) by (nonlinear_arith);
        assert((s * 4096) / 4096 == s) by (nonlinear_arith);
    }
    let tables = match map_regions(&regions, base) {
        Some(tables) => tables,
        None => {
            let ghost taken = *allocator;
            assert(taken.page_index(base) == Some(s));
            let released = allocator.dealloc(base);
            proof {
                let mid = mark_allocated(old(allocator)@, s, total as int);
                let j = choose|j: int|
                    {
                        &&& #[trigger] crate::memory::page_allocator::is_run_end(mid, s, j)
                        &&& allocator@ == crate::memory::page_allocator::mark_free(mid, s, j)
                    };
                lemma_run_end_unique(mid, s, j, s + total - 1);
            }
            return None;
        },
    };
    let mut allocated_pages: Vec<u64> = Vec::new();
    allocated_pages.push(base);
    assert(allocated_pages@ =~= seq![old(allocator).page_address(s) as u64]);
    assert(has_fit(old(allocator)@, total as int));
    Some(LoadedElf { entry_address: elf.entry_address, page_tables: tables, allocated_pages })
}

/// Every address space that holds the image of a program maps each range of
/// the kernel at its own address, for the kernel alone and as a global
/// mapping: the kernel is reachable from every address space without a
/// switch of tables, and no process reaches it.
pub proof fn lemma_kernel_ranges_shared(
    entries: Seq<crate::memory::page_tables::PageTableEntry>,
    elf: ElfFile,
    kernel: Seq<MappingDescription>,
    base: int,
    i: int,
    v: int,
)
    requires
        image_mapped(
            entries,
            image_regions(elf, kernel),
            base,
            image_regions(elf, kernel).len() as int,
        ),
        0 <= i < kernel.len(),
        in_region(kernel_region(kernel[i]), v),
    ensures
        crate::memory::page_tables::translation(entries, v) == Some(v),
        !crate::memory::page_tables::user_accessible(entries, v, false),
        walk(entries, v) matches Some((entry, level)) && entry.global && !entry.user && entry.xwr
            == kernel[i].privileges,
{
    let regions = image_regions(elf, kernel);
    assert(regions[i] == kernel_region(kernel[i]));
    assert(region_mapped(entries, regions, base, i));
    assert(in_region(regions[i], v));
}

/// No allocator has a free run of more pages than the physical address range
/// holds.
pub proof fn lemma_no_fit_beyond_limit(allocator: PageAllocator, n: int)
    requires
        allocator.wf(),
        n > PAGE_COUNT_LIMIT,
    ensures
        !has_fit(allocator@, n),
{
    if has_fit(allocator@, n) {
        let s = choose|s: int| is_free_run(allocator@, s, n);
        assert(allocator@.len() * PAGE_SIZE >= n * PAGE_SIZE) by (nonlinear_arith)
            requires
                allocator@.len() >= n,
        ;
    }
}

/// No allocator has a free run of more pages than it has frames.
pub proof fn lemma_no_fit_beyond_len(allocator: PageAllocator, n: int)
    requires
        allocator.wf(),
        n > usize::MAX,
    ensures
        !has_fit(allocator@, n),
{
    if has_fit(allocator@, n) {
        let s = choose|s: int| is_free_run(allocator@, s, n);
    }
}

} // verus!
