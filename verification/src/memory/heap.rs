//! The kernel heap: a first-fit free list of blocks carved out of whole pages.
//! A block is a header (`METADATA_SIZE` bytes) followed by its data. Blocks are
//! never merged again.

use vstd::prelude::*;
use super::page_allocator::{
    has_fit, is_first_fit, is_free_run, mark_allocated, PageAllocator, PageStatus,
};
use super::{
    align_up, align_up_spec, lemma_align_up, minimum_amount_of_pages, pages_for, PAGE_SIZE,
};

verus! {

/// Bytes of a block's header, in front of its data.
pub const METADATA_SIZE: u64 = 16;

/// Every data pointer and every block size is a multiple of this.
pub const DATA_ALIGNMENT: u64 = 8;

/// The smallest block: a header and one aligned unit of data.
pub const MINIMUM_SIZE: u64 = 24;

/// The largest request the heap accepts; beyond it the sizes would not fit the
/// address space.
pub const MAXIMUM_REQUEST: u64 = 0x7fff_ffff_ffff_0000;

/// What a caller asks of the heap: a number of bytes and their alignment.
#[derive(Clone, Copy, PartialEq, Eq, Debug, Structural)]
pub struct Layout {
    pub size: u64,
    pub align: u64,
}

/// The size of a whole block, header included; a multiple of `DATA_ALIGNMENT`
/// whenever it was made by `from_layout` or `from_pages`.
#[derive(Clone, Copy, PartialEq, Eq, Debug, Structural)]
pub struct AlignedSizeWithMetadata {
    pub size: u64,
}

impl AlignedSizeWithMetadata {
    /// The size of nothing.
    pub fn new() -> (size: Self)
        ensures
            size.size == 0,
    {
        Self { size: 0 }
    }

    /// The block size that serves `layout`: its bytes and a header, rounded up
    /// to the data alignment.
    pub fn from_layout(layout: Layout) -> (size: Self)
        requires
            layout.size <= MAXIMUM_REQUEST,
        ensures
            size.size == align_up_spec(layout.size + METADATA_SIZE, DATA_ALIGNMENT as int),
            size.size % DATA_ALIGNMENT == 0,
            layout.size + METADATA_SIZE <= size.size < layout.size + METADATA_SIZE + DATA_ALIGNMENT,
    {
        proof {
            lemma_align_up(layout.size + METADATA_SIZE, DATA_ALIGNMENT as int);
        }
        Self { size: align_up(layout.size + METADATA_SIZE, DATA_ALIGNMENT) }
    }

    /// The size of `pages` whole pages.
    pub fn from_pages(pages: u64) -> (size: Self)
        requires
            pages * PAGE_SIZE <= u64::MAX,
        ensures
            size.size == pages * PAGE_SIZE,
    {
        Self { size: pages * PAGE_SIZE }
    }

    /// Header and data together.
    pub fn total_size(&self) -> (size: u64)
        ensures
            size == self.size,
    {
        self.size
    }

    /// The bytes behind the header.
    pub fn data_size(&self) -> (size: u64)
        requires
            self.size >= METADATA_SIZE,
        ensures
            size == self.size - METADATA_SIZE,
    {
        self.size - METADATA_SIZE
    }

    /// What is left of this size once `needed_size` is cut off its front, where
    /// the rest can still hold a block.
    pub fn get_remaining_size(&self, needed_size: AlignedSizeWithMetadata) -> (rest: Self)
        requires
            self.size >= needed_size.size + MINIMUM_SIZE,
        ensures
            rest.size == self.size - needed_size.size,
    {
        Self { size: self.size - needed_size.size }
    }
}

/// One block of heap memory: where its header lies and how large it is.
#[derive(Clone, Copy, PartialEq, Eq, Debug, Structural)]
pub struct FreeBlock {
    pub addr: u64,
    pub size: AlignedSizeWithMetadata,
}

impl FreeBlock {
    /// Header and data together, in bytes.
    pub open spec fn total(&self) -> int {
        self.size.size as int
    }

    /// The address of the data, right behind the header.
    pub open spec fn data_ptr(&self) -> int {
        self.addr + METADATA_SIZE
    }

    /// The block can hold a header and aligned data, is itself aligned, and
    /// ends inside the address space.
    pub open spec fn wf(&self) -> bool {
        &&& self.size.size >= MINIMUM_SIZE
        &&& self.size.size % DATA_ALIGNMENT == 0
        &&& self.addr % DATA_ALIGNMENT == 0
        &&& self.addr + self.size.size <= u64::MAX
    }

    /// A block of no size at address 0: the list's anchor, never handed out.
    pub fn new() -> (block: Self)
        ensures
            block.addr == 0,
            block.size.size == 0,
    {
        Self { addr: 0, size: AlignedSizeWithMetadata::new() }
    }

    /// The block of `size` bytes whose header lies at `block_ptr`.
    pub fn initialize(block_ptr: u64, size: AlignedSizeWithMetadata) -> (block: Self)
        requires
            size.size >= MINIMUM_SIZE,
            (size.size - METADATA_SIZE) % (DATA_ALIGNMENT as int) == 0,
        ensures
            block.addr == block_ptr,
            block.size == size,
    {
        Self { addr: block_ptr, size }
    }

    /// The address of the block's data.
    pub fn get_data_ptr(&self) -> (ptr: u64)
        requires
            self.wf(),
        ensures
            ptr == self.data_ptr(),
            ptr % DATA_ALIGNMENT == 0,
    {
        self.addr + METADATA_SIZE
    }

    /// Cuts the block down to `requested_size` and returns the block made of
    /// the bytes behind it.
    pub fn split(&mut self, requested_size: AlignedSizeWithMetadata) -> (rest: FreeBlock)
        requires
            old(self).wf(),
            requested_size.size >= MINIMUM_SIZE,
            requested_size.size % DATA_ALIGNMENT == 0,
            old(self).size.size >= requested_size.size + MINIMUM_SIZE,
        ensures
            final(self).addr == old(self).addr,
            final(self).size == requested_size,
            rest == remainder(*old(self), requested_size.size as int),
            final(self).wf(),
            rest.wf(),
            final(self).total() + rest.total() == old(self).total(),
            within(*final(self), *old(self)),
            within(rest, *old(self)),
            blocks_disjoint(*final(self), rest),
    {
        let remaining_size = self.size.get_remaining_size(requested_size);
        let new_block: u64 = self.addr + requested_size.total_size();
        self.size = requested_size;
        FreeBlock::initialize(new_block, remaining_size)
    }
}

/// Whether a block of this size is cut in two when `req` bytes are asked of it.
pub open spec fn needs_split(block: FreeBlock, req: int) -> bool {
    block.total() > req + MINIMUM_SIZE
}

/// The front of `block` that serves a request of `req` bytes.
pub open spec fn allocated_part(block: FreeBlock, req: int) -> FreeBlock {
    if needs_split(block, req) {
        FreeBlock { addr: block.addr, size: AlignedSizeWithMetadata { size: req as u64 } }
    } else {
        block
    }
}

/// The back of `block` that stays free when its front serves `req` bytes.
pub open spec fn remainder(block: FreeBlock, req: int) -> FreeBlock {
    FreeBlock {
        addr: (block.addr + req) as u64,
        size: AlignedSizeWithMetadata { size: (block.total() - req) as u64 },
    }
}

/// The free list after `block`, already taken off it, served `req` bytes: the
/// block's remainder, if there is one, becomes the new head.
pub open spec fn free_after_take(rest: Seq<FreeBlock>, block: FreeBlock, req: int) -> Seq<
    FreeBlock,
> {
    if needs_split(block, req) {
        seq![remainder(block, req)] + rest
    } else {
        rest
    }
}

/// `free[i]` is the first block of the list that holds `req` bytes.
pub open spec fn fits_at(free: Seq<FreeBlock>, i: int, req: int) -> bool {
    &&& 0 <= i < free.len()
    &&& free[i].total() >= req
    &&& forall|k: int| 0 <= k < i ==> free[k].total() < req
}

/// No block of the list holds `req` bytes.
pub open spec fn none_fits(free: Seq<FreeBlock>, req: int) -> bool {
    forall|k: int| 0 <= k < free.len() ==> free[k].total() < req
}

/// `allocated[i]` is the first live block whose data starts at `ptr`.
pub open spec fn live_at(allocated: Seq<FreeBlock>, i: int, ptr: int) -> bool {
    &&& 0 <= i < allocated.len()
    &&& allocated[i].data_ptr() == ptr
    &&& forall|k: int| 0 <= k < i ==> allocated[k].data_ptr() != ptr
}

/// The bytes of all blocks of a list, headers included.
pub open spec fn total_bytes(blocks: Seq<FreeBlock>) -> int
    decreases blocks.len(),
{
    if blocks.len() == 0 {
        0
    } else {
        blocks[0].total() + total_bytes(blocks.drop_first())
    }
}

/// Every block of the list is well formed.
pub open spec fn all_wf(blocks: Seq<FreeBlock>) -> bool {
    forall|k: int| 0 <= k < blocks.len() ==> (#[trigger] blocks[k]).wf()
}

/// The block of `pages` whole pages at `addr`.
pub open spec fn page_block(addr: int, pages: int) -> FreeBlock {
    FreeBlock {
        addr: addr as u64,
        size: AlignedSizeWithMetadata { size: (pages * PAGE_SIZE) as u64 },
    }
}

/// The two blocks share no byte.
pub open spec fn blocks_disjoint(a: FreeBlock, b: FreeBlock) -> bool {
    a.addr + a.total() <= b.addr || b.addr + b.total() <= a.addr
}

/// The block shares no byte with any block of the list.
pub open spec fn apart(block: FreeBlock, blocks: Seq<FreeBlock>) -> bool {
    forall|k: int| 0 <= k < blocks.len() ==> blocks_disjoint(block, #[trigger] blocks[k])
}

/// No two blocks of the list share a byte.
pub open spec fn all_apart(blocks: Seq<FreeBlock>) -> bool {
    forall|i: int, j: int|
        0 <= i < j < blocks.len() ==> blocks_disjoint(#[trigger] blocks[i], #[trigger] blocks[j])
}

/// No block of the one list shares a byte with a block of the other.
pub open spec fn lists_apart(a: Seq<FreeBlock>, b: Seq<FreeBlock>) -> bool {
    forall|i: int| 0 <= i < a.len() ==> apart(#[trigger] a[i], b)
}

/// The bytes of `inner` are bytes of `outer`.
pub open spec fn within(inner: FreeBlock, outer: FreeBlock) -> bool {
    outer.addr <= inner.addr && inner.addr + inner.total() <= outer.addr + outer.total()
}

/// The address lies in a frame that the page allocator has handed out.
pub open spec fn is_taken(meta: Seq<PageStatus>, base: u64, a: int) -> bool {
    &&& base <= a
    &&& (a - base) / 4096 < meta.len()
    &&& meta[(a - base) / 4096] != PageStatus::Free
}

/// Every byte of the block lies in a frame that the page allocator has
/// handed out.
pub open spec fn backed(block: FreeBlock, meta: Seq<PageStatus>, base: u64) -> bool {
    forall|a: int| block.addr <= a < block.addr + block.total()
        ==> #[trigger] is_taken(meta, base, a)
}

/// Every block of the list lies in frames that the page allocator has handed
/// out.
pub open spec fn all_backed(blocks: Seq<FreeBlock>, meta: Seq<PageStatus>, base: u64) -> bool {
    forall|k: int| 0 <= k < blocks.len() ==> backed(#[trigger] blocks[k], meta, base)
}

/// What lies within a block is apart from what the block is apart from.
pub proof fn lemma_within_apart(inner: FreeBlock, outer: FreeBlock, blocks: Seq<FreeBlock>)
    requires
        within(inner, outer),
        apart(outer, blocks),
    ensures
        apart(inner, blocks),
{
    assert forall|k: int| 0 <= k < blocks.len() implies blocks_disjoint(
        inner,
        #[trigger] blocks[k],
    ) by {
        assert(blocks_disjoint(outer, blocks[k]));
    }
}

/// What lies within a block lies in the frames that the block lies in.
pub proof fn lemma_within_backed(
    inner: FreeBlock,
    outer: FreeBlock,
    meta: Seq<PageStatus>,
    base: u64,
)
    requires
        within(inner, outer),
        backed(outer, meta, base),
    ensures
        backed(inner, meta, base),
{
    assert forall|a: int| inner.addr <= a < inner.addr + inner.total() implies #[trigger] is_taken(
        meta,
        base,
        a,
    ) by {
        assert(is_taken(meta, base, a));
    }
}

/// A block that lies in frames handed out still does once the allocator has
/// handed out more.
pub proof fn lemma_backed_stays(
    block: FreeBlock,
    meta: Seq<PageStatus>,
    base: u64,
    start: int,
    n: int,
)
    requires
        backed(block, meta, base),
        is_free_run(meta, start, n),
    ensures
        backed(block, mark_allocated(meta, start, n), base),
{
    let after = mark_allocated(meta, start, n);
    assert forall|a: int| block.addr <= a < block.addr + block.total() implies #[trigger] is_taken(
        after,
        base,
        a,
    ) by {
        assert(is_taken(meta, base, a));
    }
}

/// The block made of the frames that the allocator has just handed out lies
/// in frames handed out.
pub proof fn lemma_fresh_backed(meta: Seq<PageStatus>, base: u64, start: int, n: int)
    requires
        n > 0,
        is_free_run(meta, start, n),
        base + (start + n) * 4096 <= u64::MAX,
    ensures
        backed(page_block(base + start * 4096, n), mark_allocated(meta, start, n), base),
{
    let fresh = page_block(base + start * 4096, n);
    let after = mark_allocated(meta, start, n);
    assert(start * 4096 + n * 4096 == (start + n) * 4096) by (nonlinear_arith);
    assert(0 <= start * 4096) by (nonlinear_arith)
        requires
            0 <= start,
    ;
    assert(0 < n * 4096) by (nonlinear_arith)
        requires
            0 < n,
    ;
    assert forall|a: int| fresh.addr <= a < fresh.addr + fresh.total() implies #[trigger] is_taken(
        after,
        base,
        a,
    ) by {
        lemma_frame_of(base as int, start, n, a);
    }
}

/// The block made of the frames that the allocator has just handed out
/// shares no byte with a block that lay in frames handed out before.
pub proof fn lemma_fresh_apart(
    meta: Seq<PageStatus>,
    base: u64,
    start: int,
    n: int,
    other: FreeBlock,
)
    requires
        n > 0,
        is_free_run(meta, start, n),
        base + (start + n) * 4096 <= u64::MAX,
        backed(other, meta, base),
        other.total() > 0,
    ensures
        blocks_disjoint(page_block(base + start * 4096, n), other),
{
    let fresh = page_block(base + start * 4096, n);
    assert(start * 4096 + n * 4096 == (start + n) * 4096) by (nonlinear_arith);
    assert(0 <= start * 4096) by (nonlinear_arith)
        requires
            0 <= start,
    ;
    assert(0 < n * 4096) by (nonlinear_arith)
        requires
            0 < n,
    ;
    if !blocks_disjoint(fresh, other) {
        let a: int = if fresh.addr >= other.addr {
            fresh.addr as int
        } else {
            other.addr as int
        };
        assert(is_taken(meta, base, a));
        lemma_frame_of(base as int, start, n, a);
        assert(meta[(a - base) / 4096] == PageStatus::Free);
    }
}

/// An address in the frames `start .. start + n` lies in one of these frames.
pub proof fn lemma_frame_of(base: int, start: int, n: int, a: int)
    requires
        0 <= start,
        0 <= n,
        base + start * 4096 <= a < base + (start + n) * 4096,
    ensures
        start <= (a - base) / 4096 < start + n,
{
    assert(start * 4096 <= a - base < (start + n) * 4096);
}

/// A block put at the head of a list adds exactly its own bytes.
pub proof fn lemma_total_bytes_push_front(blocks: Seq<FreeBlock>, block: FreeBlock)
    ensures
        total_bytes(seq![block] + blocks) == block.total() + total_bytes(blocks),
{
    assert((seq![block] + blocks).drop_first() =~= blocks);
}

/// The block that serves a request is at least as large as the request and
/// exceeds it by no more than the smallest block.
pub proof fn lemma_allocated_part_size(block: FreeBlock, req: int)
    requires
        block.total() >= req,
        0 <= req <= u64::MAX,
    ensures
        req <= allocated_part(block, req).total() <= req + MINIMUM_SIZE,
{
}

/// Serving a request splits the bytes of the chosen block between the served
/// part and the free list, and loses none.
pub proof fn lemma_take_conserves_bytes(rest: Seq<FreeBlock>, block: FreeBlock, req: int)
    requires
        block.total() >= req,
        0 <= req <= u64::MAX,
    ensures
        total_bytes(free_after_take(rest, block, req)) + allocated_part(block, req).total()
            == total_bytes(rest) + block.total(),
{
    if needs_split(block, req) {
        lemma_total_bytes_push_front(rest, remainder(block, req));
    }
}

/// Cycles of allocating and releasing one size keep the free list at a fixed
/// length: the block that served a request of `req` bytes, once released,
/// serves the next such request whole. It is found at the head of the list,
/// it is not split, and taking it leaves the list as it was before the
/// release.
pub proof fn lemma_reuse_after_release(free: Seq<FreeBlock>, chosen: FreeBlock, req: int)
    requires
        chosen.total() >= req,
        0 <= req <= u64::MAX,
    ensures
        fits_at(seq![allocated_part(chosen, req)] + free, 0, req),
        allocated_part(allocated_part(chosen, req), req) == allocated_part(chosen, req),
        free_after_take(
            (seq![allocated_part(chosen, req)] + free).remove(0),
            allocated_part(chosen, req),
            req,
        ) == free,
{
    let block = allocated_part(chosen, req);
    lemma_allocated_part_size(chosen, req);
    assert((seq![block] + free).remove(0) =~= free);
}

/// The kernel heap. It records the free blocks, head of the list first, and
/// the blocks that are handed out.
pub struct Heap {
    free_list: Vec<FreeBlock>,
    allocated: Vec<FreeBlock>,
}

impl Heap {
    /// The free list, head first.
    pub closed spec fn free(&self) -> Seq<FreeBlock> {
        self.free_list@
    }

    /// The blocks handed out and not yet released, oldest first.
    pub closed spec fn live(&self) -> Seq<FreeBlock> {
        self.allocated@
    }

    /// Every block the heap knows is well formed, and no two of them share a
    /// byte: each byte of heap memory belongs to one block.
    pub open spec fn wf(&self) -> bool {
        &&& all_wf(self.free())
        &&& all_wf(self.live())
        &&& all_apart(self.free())
        &&& all_apart(self.live())
        &&& lists_apart(self.free(), self.live())
    }

    /// Every block the heap knows lies in frames that the page allocator with
    /// this metadata has handed out.
    pub open spec fn backed_by(&self, meta: Seq<PageStatus>, base: u64) -> bool {
        all_backed(self.free(), meta, base) && all_backed(self.live(), meta, base)
    }

    /// Some live block has its data at `ptr` and holds at least `size` bytes
    /// of data.
    pub open spec fn is_live(&self, ptr: u64, size: u64) -> bool {
        exists|i: int|
            #[trigger] live_at(self.live(), i, ptr as int) && self.live()[i].total() - METADATA_SIZE
                >= size
    }

    /// A heap without any block.
    pub fn new() -> (heap: Self)
        ensures
            heap.wf(),
            heap.free().len() == 0,
            heap.live().len() == 0,
    {
        Heap { free_list: Vec::new(), allocated: Vec::new() }
    }

    /// The number of blocks on the free list.
    pub fn free_list_len(&self) -> (n: usize)
        ensures
            n == self.free().len(),
    {
        self.free_list.len()
    }

    /// The `index`-th block of the free list, counted from its head.
    pub fn free_block(&self, index: usize) -> (block: Option<FreeBlock>)
        ensures
            block == if index < self.free().len() {
                Some(self.free()[index as int])
            } else {
                None
            },
    {
        if index < self.free_list.len() {
            Some(self.free_list[index])
        } else {
            None
        }
    }

    /// The data size of the live block whose data starts at `ptr`.
    pub fn allocation_size(&self, ptr: u64) -> (size: Option<u64>)
        requires
            self.wf(),
        ensures
            match size {
                Some(s) => exists|i: int|
                    #[trigger] live_at(self.live(), i, ptr as int) && s == self.live()[i].total()
                        - METADATA_SIZE,
                None => forall|i: int|
                    0 <= i < self.live().len() ==> self.live()[i].data_ptr() != ptr,
            },
            forall|wanted: u64| self.is_live(ptr, wanted) <==> size is Some && size->0 >= wanted,
    {
        let mut i: usize = 0;
        while i < self.allocated.len()
            invariant
                self.wf(),
                i <= self.allocated@.len(),
                forall|k: int| 0 <= k < i ==> self.allocated@[k].data_ptr() != ptr,
            decreases self.allocated@.len() - i,
        {
            let block = self.allocated[i];
            assert(self.allocated@[i as int].wf());
            if block.get_data_ptr() == ptr {
                assert(live_at(self.live(), i as int, ptr as int));
                let size: u64 = block.size.data_size();
                assert forall|wanted: u64| self.is_live(ptr, wanted) implies size >= wanted by {
                    let j = choose|j: int|
                        #[trigger] live_at(self.live(), j, ptr as int) && self.live()[j].total()
                            - METADATA_SIZE >= wanted;
                    assert(j == i);
                }
                return Some(size);
            }
            i = i + 1;
        }
        None
    }

    /// Puts `block` at the head of the free list.
    pub fn insert(&mut self, block: FreeBlock)
        requires
            old(self).wf(),
            block.wf(),
            apart(block, old(self).free()),
            apart(block, old(self).live()),
        ensures
            final(self).wf(),
            final(self).free() == seq![block] + old(self).free(),
            final(self).live() == old(self).live(),
            forall|meta: Seq<PageStatus>, base: u64|
                old(self).backed_by(meta, base) && #[trigger] backed(block, meta, base)
                    ==> final(self).backed_by(meta, base),
    {
        self.free_list.insert(0, block);
        assert(self.free_list@ =~= seq![block] + old(self).free_list@);
        proof {
            let before = old(self).free_list@;
            let after = self.free_list@;
            assert forall|i: int, j: int| 0 <= i < j < after.len() implies blocks_disjoint(
                #[trigger] after[i],
                #[trigger] after[j],
            ) by {
                if i == 0 {
                    assert(blocks_disjoint(block, before[j - 1]));
                } else {
                    assert(blocks_disjoint(before[i - 1], before[j - 1]));
                }
            }
            assert forall|i: int| 0 <= i < after.len() implies apart(
                #[trigger] after[i],
                self.allocated@,
            ) by {
                if i > 0 {
                    assert(apart(before[i - 1], self.allocated@));
                }
            }
            assert forall|meta: Seq<PageStatus>, base: u64|
                old(self).backed_by(meta, base) && #[trigger] backed(
                    block,
                    meta,
                    base,
                ) implies self.backed_by(meta, base) by {
                assert forall|k: int| 0 <= k < after.len() implies backed(
                    #[trigger] after[k],
                    meta,
                    base,
                ) by {
                    if k > 0 {
                        assert(backed(before[k - 1], meta, base));
                    }
                }
            }
        }
    }

    /// Cuts `block` down to `requested_size` where what is left behind it can
    /// stand as a block of its own, and puts that remainder at the head of the
    /// free list.
    pub fn split_if_necessary(
        &mut self,
        block: &mut FreeBlock,
        requested_size: AlignedSizeWithMetadata,
    )
        requires
            old(self).wf(),
            old(block).wf(),
            requested_size.size >= MINIMUM_SIZE,
            requested_size.size % DATA_ALIGNMENT == 0,
            old(block).size.size >= requested_size.size,
            apart(*old(block), old(self).free()),
            apart(*old(block), old(self).live()),
        ensures
            final(self).wf(),
            final(block).wf(),
            *final(block) == allocated_part(*old(block), requested_size.size as int),
            final(self).free() == free_after_take(
                old(self).free(),
                *old(block),
                requested_size.size as int,
            ),
            final(self).live() == old(self).live(),
            apart(*final(block), final(self).free()),
            apart(*final(block), final(self).live()),
            forall|meta: Seq<PageStatus>, base: u64|
                old(self).backed_by(meta, base) && #[trigger] backed(*old(block), meta, base)
                    ==> final(self).backed_by(meta, base) && backed(*final(block), meta, base),
    {
        let current_block_size = block.size;
        if current_block_size.total_size() - requested_size.total_size() <= MINIMUM_SIZE {
            return ;
        }
        let new_block = block.split(requested_size);
        proof {
            lemma_within_apart(new_block, *old(block), self.free());
            lemma_within_apart(new_block, *old(block), self.live());
            lemma_within_apart(*block, *old(block), self.free());
            lemma_within_apart(*block, *old(block), self.live());
        }
        self.insert(new_block);
        proof {
            let after = self.free();
            assert forall|k: int| 0 <= k < after.len() implies blocks_disjoint(
                *block,
                #[trigger] after[k],
            ) by {
                if k > 0 {
                    assert(after[k] == old(self).free()[k - 1]);
                }
            }
            assert forall|meta: Seq<PageStatus>, base: u64|
                old(self).backed_by(meta, base) && #[trigger] backed(
                    *old(block),
                    meta,
                    base,
                ) implies self.backed_by(meta, base) && backed(*block, meta, base) by {
                lemma_within_backed(new_block, *old(block), meta, base);
                lemma_within_backed(*block, *old(block), meta, base);
                assert(backed(new_block, meta, base));
            }
        }
    }

    /// Takes the first block that holds `requested_size` off the free list.
    pub fn find_and_remove(&mut self, requested_size: AlignedSizeWithMetadata) -> (found: Option<
        FreeBlock,
    >)
        requires
            old(self).wf(),
        ensures
            final(self).wf(),
            final(self).live() == old(self).live(),
            match found {
                Some(block) => exists|i: int|
                    {
                        &&& #[trigger] fits_at(old(self).free(), i, requested_size.size as int)
                        &&& block == old(self).free()[i]
                        &&& final(self).free() == old(self).free().remove(i)
                    },
                None => none_fits(old(self).free(), requested_size.size as int)
                    && final(self).free() == old(self).free(),
            },
            found matches Some(block) ==> block.wf() && apart(block, final(self).free()) && apart(
                block,
                final(self).live(),
            ),
            forall|meta: Seq<PageStatus>, base: u64| #[trigger]
                old(self).backed_by(meta, base) ==> final(self).backed_by(meta, base) && (
                found matches Some(block) ==> backed(block, meta, base)),
    {
        let mut i: usize = 0;
        while i < self.free_list.len()
            invariant
                *self == *old(self),
                old(self).wf(),
                i <= self.free_list@.len(),
                forall|k: int| 0 <= k < i ==> self.free_list@[k].total() < requested_size.size,
            decreases self.free_list@.len() - i,
        {
            if self.free_list[i].size.total_size() >= requested_size.total_size() {
                assert(fits_at(old(self).free(), i as int, requested_size.size as int));
                let block = self.free_list.remove(i);
                proof {
                    let before = old(self).free_list@;
                    let after = self.free_list@;
                    assert forall|k: int| 0 <= k < after.len() implies #[trigger] after[k]
                        == before[if k < i {
                        k
                    } else {
                        k + 1
                    }] by {}
                    assert forall|k: int| 0 <= k < after.len()
                        implies (#[trigger] after[k]).wf() by {
                        let k2 = if k < i { k } else { k + 1 };
                        assert(before[k2].wf());
                    }
                    assert forall|a: int, b: int| 0 <= a < b < after.len() implies blocks_disjoint(
                        #[trigger] after[a],
                        #[trigger] after[b],
                    ) by {
                        let a2 = if a < i { a } else { a + 1 };
                        let b2 = if b < i { b } else { b + 1 };
                        assert(blocks_disjoint(before[a2], before[b2]));
                    }
                    assert forall|k: int| 0 <= k < after.len() implies apart(
                        #[trigger] after[k],
                        self.allocated@,
                    ) by {
                        let k2 = if k < i { k } else { k + 1 };
                        assert(apart(before[k2], self.allocated@));
                    }
                    assert forall|k: int| 0 <= k < after.len() implies blocks_disjoint(
                        block,
                        #[trigger] after[k],
                    ) by {
                        let k2 = if k < i { k } else { k + 1 };
                        if k2 < i {
                            assert(blocks_disjoint(before[k2], before[i as int]));
                        } else {
                            assert(blocks_disjoint(before[i as int], before[k2]));
                        }
                    }
                    assert(apart(before[i as int], self.allocated@));
                    assert(before[i as int].wf());
                    assert forall|meta: Seq<PageStatus>, base: u64| #[trigger]
                        old(self).backed_by(meta, base) implies self.backed_by(meta, base)
                        && backed(block, meta, base) by {
                        assert(backed(before[i as int], meta, base));
                        assert forall|k: int| 0 <= k < after.len() implies backed(
                            #[trigger] after[k],
                            meta,
                            base,
                        ) by {
                            let k2 = if k < i { k } else { k + 1 };
                            assert(backed(before[k2], meta, base));
                        }
                    }
                }
                return Some(block);
            }
            i = i + 1;
        }
        None
    }

    /// What `allocate` does. A request above the largest is refused. Else the
    /// first free block that holds the request serves it; where none does,
    /// the first run of free pages that holds it is taken from the page
    /// allocator and serves it, and without such a run the request is
    /// refused. The block that serves is cut down to the request where the
    /// rest can stand alone, the rest goes to the head of the free list, the
    /// block joins the live blocks, and the answer is the address of its
    /// data. A refusal changes nothing.
    pub open spec fn served(
        before: Heap,
        after: Heap,
        pages_before: PageAllocator,
        pages_after: PageAllocator,
        layout: Layout,
        ptr: Option<u64>,
    ) -> bool {
        let req = align_up_spec(layout.size + METADATA_SIZE, DATA_ALIGNMENT as int);
        let n = pages_for(req);
        &&& layout.size > MAXIMUM_REQUEST ==> ptr is None
        &&& ptr is None ==> after.free() == before.free() && after.live() == before.live()
            && pages_after@ == pages_before@
        &&& layout.size <= MAXIMUM_REQUEST ==> if none_fits(before.free(), req) {
            &&& ptr is Some <==> has_fit(pages_before@, n)
            &&& ptr is Some ==> exists|s: int|
                {
                    let fresh = page_block(pages_before.page_address(s), n);
                    &&& #[trigger] is_first_fit(pages_before@, s, n)
                    &&& pages_after@ == mark_allocated(pages_before@, s, n)
                    &&& after.free() == free_after_take(before.free(), fresh, req)
                    &&& after.live() == before.live().push(allocated_part(fresh, req))
                    &&& ptr == Some(fresh.data_ptr() as u64)
                }
        } else {
            &&& pages_after@ == pages_before@
            &&& exists|i: int|
                {
                    let block = before.free()[i];
                    &&& #[trigger] fits_at(before.free(), i, req)
                    &&& after.free() == free_after_take(before.free().remove(i), block, req)
                    &&& after.live() == before.live().push(allocated_part(block, req))
                    &&& ptr == Some(block.data_ptr() as u64)
                }
        }
    }

    /// What `dealloc` does: the first live block whose data starts at `ptr`
    /// leaves the live blocks and goes to the head of the free list, whole,
    /// so that the free list grows by its header and its data.
    pub open spec fn released(before: Heap, after: Heap, ptr: u64, layout: Layout) -> bool {
        exists|i: int|
            {
                let block = before.live()[i];
                &&& #[trigger] live_at(before.live(), i, ptr as int)
                &&& block.total() >= layout.size + METADATA_SIZE
                &&& after.live() == before.live().remove(i)
                &&& after.free() == seq![block] + before.free()
                &&& total_bytes(after.free()) == total_bytes(before.free()) + block.total()
            }
    }

    /// Cycles of allocating and releasing one layout come to rest after the
    /// first: once what `allocate` handed out for a layout was released, the
    /// next `allocate` of that layout hands out the same address, leaves the
    /// free list and the live blocks as they were after the first, and takes
    /// no page. So any number of such cycles keeps the free list at one
    /// length.
    pub proof fn lemma_cycle_comes_to_rest(
        start: Heap,
        first: Heap,
        freed: Heap,
        second: Heap,
        pages_start: PageAllocator,
        pages_first: PageAllocator,
        pages_second: PageAllocator,
        layout: Layout,
        ptr: u64,
        again: Option<u64>,
    )
        requires
            start.wf(),
            first.wf(),
            pages_start.wf(),
            layout.size > 0,
            Self::served(start, first, pages_start, pages_first, layout, Some(ptr)),
            Self::released(first, freed, ptr, layout),
            Self::served(freed, second, pages_first, pages_second, layout, again),
        ensures
            again == Some(ptr),
            second.free() == first.free(),
            second.live() == first.live(),
            pages_second@ == pages_first@,
    {
        let req = align_up_spec(layout.size + METADATA_SIZE, DATA_ALIGNMENT as int);
        let n = pages_for(req);
        lemma_align_up(layout.size + METADATA_SIZE, DATA_ALIGNMENT as int);
        // the block that the first allocation handed out
        let block = first.live().last();
        assert(first.live().len() == start.live().len() + 1);
        assert(block.data_ptr() == ptr && req <= block.total() <= req + MINIMUM_SIZE) by {
            if none_fits(start.free(), req) {
                let s = choose|s: int|
                    {
                        let fresh = page_block(pages_start.page_address(s), n);
                        &&& #[trigger] is_first_fit(pages_start@, s, n)
                        &&& first.live() == start.live().push(allocated_part(fresh, req))
                        &&& Some(ptr) == Some(fresh.data_ptr() as u64)
                    };
                let fresh = page_block(pages_start.page_address(s), n);
                let frames = pages_start@.len();
                assert((s + n) * PAGE_SIZE <= frames * PAGE_SIZE) by (nonlinear_arith)
                    requires
                        s + n <= frames,
                ;
                assert((s + n) * PAGE_SIZE == s * PAGE_SIZE + n * PAGE_SIZE) by (nonlinear_arith);
                assert(0 <= s * PAGE_SIZE) by (nonlinear_arith)
                    requires
                        0 <= s,
                ;
                assert(fresh.total() == n * PAGE_SIZE);
                lemma_allocated_part_size(fresh, req);
                assert(block == allocated_part(fresh, req));
            } else {
                let i = choose|i: int|
                    {
                        let chosen = start.free()[i];
                        &&& #[trigger] fits_at(start.free(), i, req)
                        &&& first.live() == start.live().push(allocated_part(chosen, req))
                        &&& Some(ptr) == Some(chosen.data_ptr() as u64)
                    };
                let chosen = start.free()[i];
                assert(chosen.wf());
                lemma_allocated_part_size(chosen, req);
                assert(block == allocated_part(chosen, req));
            }
            assert(block.wf());
        }
        // it is the block that the release took back
        let last = first.live().len() - 1;
        let i = choose|i: int|
            {
                &&& #[trigger] live_at(first.live(), i, ptr as int)
                &&& freed.live() == first.live().remove(i)
                &&& freed.free() == seq![first.live()[i]] + first.free()
            };
        assert(i == last) by {
            if i < last {
                assert(first.live()[i].wf() && first.live()[last].wf());
                assert(blocks_disjoint(first.live()[i], first.live()[last]));
            }
        }
        assert(freed.live() =~= start.live());
        // and the block that the second allocation takes, whole
        assert(freed.free()[0] == block);
        assert(!none_fits(freed.free(), req));
        let j = choose|j: int|
            {
                let chosen = freed.free()[j];
                &&& #[trigger] fits_at(freed.free(), j, req)
                &&& second.free() == free_after_take(freed.free().remove(j), chosen, req)
                &&& second.live() == freed.live().push(allocated_part(chosen, req))
                &&& again == Some(chosen.data_ptr() as u64)
            };
        assert(j == 0);
        assert(freed.free().remove(0) =~= first.free());
        assert(second.live() =~= first.live());
    }

    /// Serves `layout` from the first free block that is large enough, or from
    /// fresh pages of `pages` where no block is. The block is cut down to the
    /// request where the rest can stand alone. Returns the address of the
    /// data, or `None` where neither a block nor pages can be had.
    pub fn allocate(&mut self, pages: &mut PageAllocator, layout: Layout) -> (ptr: Option<u64>)
        requires
            old(self).wf(),
            old(pages).wf(),
            old(self).backed_by(old(pages)@, old(pages).base()),
            layout.size > 0,
        ensures
            final(self).wf(),
            final(pages).wf(),
            final(self).backed_by(final(pages)@, final(pages).base()),
            final(pages).base() == old(pages).base(),
            Self::served(*old(self), *final(self), *old(pages), *final(pages), layout, ptr),
    {
        if layout.size > MAXIMUM_REQUEST {
            return None;
        }
        let requested_size = AlignedSizeWithMetadata::from_layout(layout);
        let ghost req = requested_size.size as int;
        assert(old(self).backed_by(old(pages)@, old(pages).base()));
        let mut block = match self.find_and_remove(requested_size) {
            Some(block) => {
                proof {
                    let i = choose|i: int|
                        {
                            &&& #[trigger] fits_at(old(self).free(), i, req)
                            &&& block == old(self).free()[i]
                            &&& self.free() == old(self).free().remove(i)
                        };
                    assert(!none_fits(old(self).free(), req));
                }
                block
            },
            None => {
                match self.take_pages(pages, requested_size) {
                    Some(block) => block,
                    None => {
                        return None;
                    },
                }
            },
        };
        let ghost chosen = block;
        self.split_if_necessary(&mut block, requested_size);
        self.hand_out(block);
        let ptr: u64 = block.get_data_ptr();
        Some(ptr)
    }

    /// Takes the pages that hold `requested_size` from `pages` and makes one
    /// block of them.
    fn take_pages(
        &self,
        pages: &mut PageAllocator,
        requested_size: AlignedSizeWithMetadata,
    ) -> (fresh:
        Option<FreeBlock>)
        requires
            self.wf(),
            old(pages).wf(),
            self.backed_by(old(pages)@, old(pages).base()),
            requested_size.size >= MINIMUM_SIZE,
        ensures
            final(pages).wf(),
            final(pages).base() == old(pages).base(),
            self.backed_by(final(pages)@, final(pages).base()),
            fresh is Some <==> has_fit(old(pages)@, pages_for(requested_size.size as int)),
            fresh is None ==> final(pages)@ == old(pages)@,
            fresh matches Some(block) ==> {
                &&& block.wf()
                &&& apart(block, self.free())
                &&& apart(block, self.live())
                &&& backed(block, final(pages)@, final(pages).base())
                &&& exists|s: int|
                    {
                        &&& #[trigger] is_first_fit(
                            old(pages)@,
                            s,
                            pages_for(requested_size.size as int),
                        )
                        &&& final(pages)@ == mark_allocated(
                            old(pages)@,
                            s,
                            pages_for(requested_size.size as int),
                        )
                        &&& block == page_block(
                            old(pages).page_address(s),
                            pages_for(requested_size.size as int),
                        )
                    }
            },
    {
        let page_count: u64 = minimum_amount_of_pages(requested_size.total_size());
        if page_count > usize::MAX as u64 {
            assert(!has_fit(pages@, page_count as int)) by {
                if has_fit(pages@, page_count as int) {
                    let s = choose|s: int| is_free_run(pages@, s, page_count as int);
                    assert(pages@.len() <= usize::MAX);
                    assert(s + page_count <= pages@.len());
                }
            }
            return None;
        }
        let allocation = match pages.allocate(page_count as usize) {
            Some(allocation) => allocation,
            None => {
                return None;
            },
        };
        proof {
            let s = choose|s: int|
                {
                    &&& #[trigger] is_first_fit(old(pages)@, s, page_count as int)
                    &&& allocation == old(pages).page_address(s)
                    &&& pages@ == mark_allocated(old(pages)@, s, page_count as int)
                };
            let frames = pages@.len();
            assert(s + page_count <= frames);
            assert((s + page_count) * PAGE_SIZE <= frames * PAGE_SIZE) by (nonlinear_arith)
                requires
                    s + page_count <= frames,
            ;
            assert(s * PAGE_SIZE + page_count * PAGE_SIZE == (s + page_count) * PAGE_SIZE)
                by (nonlinear_arith);
            assert(0 <= s * PAGE_SIZE) by (nonlinear_arith)
                requires
                    0 <= s,
            ;
            let base = old(pages).base();
            assert((base + s * PAGE_SIZE) % 8 == 0) by (nonlinear_arith)
                requires
                    base % 4096 == 0,
                    PAGE_SIZE == 4096,
            ;
            assert((page_count * PAGE_SIZE) % 8 == 0) by (nonlinear_arith)
                requires
                    PAGE_SIZE == 4096,
            ;
            let fresh = page_block(base + s * 4096, page_count as int);
            let meta = old(pages)@;
            assert forall|k: int| 0 <= k < self.free().len() implies blocks_disjoint(
                fresh,
                #[trigger] self.free()[k],
            ) by {
                assert(self.free()[k].wf());
                lemma_fresh_apart(meta, base, s, page_count as int, self.free()[k]);
            }
            assert forall|k: int| 0 <= k < self.live().len() implies blocks_disjoint(
                fresh,
                #[trigger] self.live()[k],
            ) by {
                assert(self.live()[k].wf());
                lemma_fresh_apart(meta, base, s, page_count as int, self.live()[k]);
            }
            assert forall|k: int| 0 <= k < self.free().len() implies backed(
                #[trigger] self.free()[k],
                pages@,
                base,
            ) by {
                lemma_backed_stays(self.free()[k], meta, base, s, page_count as int);
            }
            assert forall|k: int| 0 <= k < self.live().len() implies backed(
                #[trigger] self.live()[k],
                pages@,
                base,
            ) by {
                lemma_backed_stays(self.live()[k], meta, base, s, page_count as int);
            }
            lemma_fresh_backed(meta, base, s, page_count as int);
        }
        Some(FreeBlock::initialize(allocation, AlignedSizeWithMetadata::from_pages(page_count)))
    }

    /// Records `block` as handed out.
    fn hand_out(&mut self, block: FreeBlock)
        requires
            old(self).wf(),
            block.wf(),
            apart(block, old(self).free()),
            apart(block, old(self).live()),
        ensures
            final(self).wf(),
            final(self).free() == old(self).free(),
            final(self).live() == old(self).live().push(block),
            forall|meta: Seq<PageStatus>, base: u64|
                old(self).backed_by(meta, base) && #[trigger] backed(block, meta, base)
                    ==> final(self).backed_by(meta, base),
    {
        self.allocated.push(block);
        proof {
            let live = self.live();
            let before = old(self).live();
            assert forall|i: int, j: int| 0 <= i < j < live.len() implies blocks_disjoint(
                #[trigger] live[i],
                #[trigger] live[j],
            ) by {
                if j < before.len() {
                    assert(blocks_disjoint(before[i], before[j]));
                } else {
                    assert(blocks_disjoint(block, before[i]));
                }
            }
            assert forall|i: int| 0 <= i < self.free().len() implies apart(
                #[trigger] self.free()[i],
                live,
            ) by {
                assert(apart(old(self).free()[i], before));
                assert forall|k: int| 0 <= k < live.len() implies blocks_disjoint(
                    self.free()[i],
                    #[trigger] live[k],
                ) by {
                    if k < before.len() {
                        assert(blocks_disjoint(old(self).free()[i], before[k]));
                    } else {
                        assert(blocks_disjoint(block, old(self).free()[i]));
                    }
                }
            }
            assert forall|k: int| 0 <= k < live.len() implies (#[trigger] live[k]).wf() by {
                if k < before.len() {
                    assert(before[k].wf());
                }
            }
            assert forall|meta: Seq<PageStatus>, base: u64|
                old(self).backed_by(meta, base) && #[trigger] backed(
                    block,
                    meta,
                    base,
                ) implies self.backed_by(meta, base) by {
                assert forall|k: int| 0 <= k < live.len() implies backed(
                    #[trigger] live[k],
                    meta,
                    base,
                ) by {
                    if k < before.len() {
                        assert(backed(before[k], meta, base));
                    }
                }
            }
        }
    }

    /// Takes back the live block whose data starts at `ptr` and puts it at the
    /// head of the free list, whole: header and data.
    pub fn dealloc(&mut self, ptr: u64, layout: Layout)
        requires
            old(self).wf(),
            old(self).is_live(ptr, layout.size),
        ensures
            final(self).wf(),
            forall|meta: Seq<PageStatus>, base: u64| #[trigger]
                old(self).backed_by(meta, base) ==> final(self).backed_by(meta, base),
            Self::released(*old(self), *final(self), ptr, layout),
    {
        let mut i: usize = 0;
        let len: usize = self.allocated.len();
        let ghost target = choose|i: int|
            #[trigger] live_at(old(self).live(), i, ptr as int) && old(self).live()[i].total()
                - METADATA_SIZE >= layout.size;
        assert(self.allocated@[0].wf());
        while self.allocated[i].addr + METADATA_SIZE != ptr
            invariant
                *self == *old(self),
                self.wf(),
                len == self.allocated@.len(),
                live_at(self.live(), target, ptr as int),
                0 <= i <= target,
                self.allocated@[i as int].wf(),
            decreases target - i,
        {
            i = i + 1;
            assert(self.allocated@[i as int].wf());
        }
        assert(i == target);
        let block = self.allocated.remove(i);
        let ghost removed = *self;
        proof {
            let before = old(self).allocated@;
            let after = self.allocated@;
            assert forall|k: int| 0 <= k < after.len() implies #[trigger] after[k] == before[if k
                < i {
                k
            } else {
                k + 1
            }] by {}
            assert forall|k: int| 0 <= k < after.len() implies (#[trigger] after[k]).wf() by {
                let k2 = if k < i { k } else { k + 1 };
                assert(before[k2].wf());
            }
            assert forall|a: int, b: int| 0 <= a < b < after.len() implies blocks_disjoint(
                #[trigger] after[a],
                #[trigger] after[b],
            ) by {
                let a2 = if a < i { a } else { a + 1 };
                let b2 = if b < i { b } else { b + 1 };
                assert(blocks_disjoint(before[a2], before[b2]));
            }
            assert forall|k: int| 0 <= k < self.free().len() implies apart(
                #[trigger] self.free()[k],
                after,
            ) by {
                assert(apart(old(self).free()[k], before));
                assert forall|j: int| 0 <= j < after.len() implies blocks_disjoint(
                    self.free()[k],
                    #[trigger] after[j],
                ) by {
                    let j2 = if j < i { j } else { j + 1 };
                    assert(blocks_disjoint(old(self).free()[k], before[j2]));
                }
            }
            assert forall|k: int| 0 <= k < after.len() implies blocks_disjoint(
                block,
                #[trigger] after[k],
            ) by {
                let k2 = if k < i { k } else { k + 1 };
                if k2 < i {
                    assert(blocks_disjoint(before[k2], before[i as int]));
                } else {
                    assert(blocks_disjoint(before[i as int], before[k2]));
                }
            }
            assert forall|k: int| 0 <= k < self.free().len() implies blocks_disjoint(
                block,
                #[trigger] self.free()[k],
            ) by {
                assert(apart(old(self).free()[k], before));
                assert(blocks_disjoint(old(self).free()[k], before[i as int]));
            }
            assert(before[i as int].wf());
            lemma_total_bytes_push_front(self.free(), block);
            assert forall|meta: Seq<PageStatus>, base: u64| #[trigger]
                old(self).backed_by(meta, base) implies removed.backed_by(meta, base) && backed(
                block,
                meta,
                base,
            ) by {
                assert(backed(before[i as int], meta, base));
                assert forall|k: int| 0 <= k < after.len() implies backed(
                    #[trigger] after[k],
                    meta,
                    base,
                ) by {
                    let k2 = if k < i { k } else { k + 1 };
                    assert(backed(before[k2], meta, base));
                }
            }
        }
        self.insert(block);
    }
}

} // verus!
