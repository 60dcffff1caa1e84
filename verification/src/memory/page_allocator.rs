//! The physical page allocator: one status per frame, first-fit search for a
//! run of free frames, and release of a run from its first frame.

use vstd::prelude::*;
use super::{align_up, align_up_spec, PAGE_SIZE, PHYSICAL_ADDRESS_LIMIT};

verus! {

/// What the allocator records of one frame. `Last` marks the final frame of an
/// allocation, so that releasing needs only the allocation's first frame.
#[derive(Clone, Copy, PartialEq, Eq, Debug, Structural)]
pub enum PageStatus {
    Free,
    Used,
    Last,
}

/// All of `meta[start .. start + n]` exists and is free.
pub open spec fn is_free_run(meta: Seq<PageStatus>, start: int, n: int) -> bool {
    &&& 0 <= start
    &&& start + n <= meta.len()
    &&& forall|k: int| start <= k < start + n ==> meta[k] == PageStatus::Free
}

/// `start` begins the first free run of `n` frames.
pub open spec fn is_first_fit(meta: Seq<PageStatus>, start: int, n: int) -> bool {
    &&& is_free_run(meta, start, n)
    &&& forall|s: int| 0 <= s < start ==> !is_free_run(meta, s, n)
}

/// Some run of `n` free frames exists.
pub open spec fn has_fit(meta: Seq<PageStatus>, n: int) -> bool {
    exists|s: int| is_free_run(meta, s, n)
}

/// The metadata after frames `start .. start + n` were handed out: all `Used`
/// but the final one, which is `Last`.
pub open spec fn mark_allocated(meta: Seq<PageStatus>, start: int, n: int) -> Seq<PageStatus> {
    Seq::new(
        meta.len(),
        |k: int|
            if start <= k < start + n - 1 {
                PageStatus::Used
            } else if k == start + n - 1 {
                PageStatus::Last
            } else {
                meta[k]
            },
    )
}

/// Frame `i` is the first frame of an allocation.
pub open spec fn is_allocation_start(meta: Seq<PageStatus>, i: int) -> bool {
    &&& 0 <= i < meta.len()
    &&& meta[i] != PageStatus::Free
    &&& (i == 0 || meta[i - 1] != PageStatus::Used)
}

/// Frame `j` is the `Last` frame that closes the allocation running through `i`.
pub open spec fn is_run_end(meta: Seq<PageStatus>, i: int, j: int) -> bool {
    &&& 0 <= i <= j < meta.len()
    &&& meta[j] == PageStatus::Last
    &&& forall|k: int| i <= k < j ==> meta[k] == PageStatus::Used
}

/// The metadata after frames `i ..= j` were released.
pub open spec fn mark_free(meta: Seq<PageStatus>, i: int, j: int) -> Seq<PageStatus> {
    Seq::new(
        meta.len(),
        |k: int|
            if i <= k <= j {
                PageStatus::Free
            } else {
                meta[k]
            },
    )
}

/// Frame `i` exists and is `Used`.
pub open spec fn is_used(meta: Seq<PageStatus>, i: int) -> bool {
    0 <= i < meta.len() && meta[i] == PageStatus::Used
}

/// Every `Used` frame is followed by another frame of the same allocation.
pub open spec fn well_formed(meta: Seq<PageStatus>) -> bool {
    forall|i: int| #[trigger] is_used(meta, i) ==> i + 1 < meta.len() && meta[i + 1]
        != PageStatus::Free
}

/// The number of free frames.
pub open spec fn count_free(meta: Seq<PageStatus>) -> nat
    decreases meta.len(),
{
    if meta.len() == 0 {
        0
    } else {
        count_free(meta.drop_last()) + if meta.last() == PageStatus::Free {
            1nat
        } else {
            0nat
        }
    }
}

/// The number of frames that a region of `size` bytes from `start` yields: one
/// metadata byte is set aside per frame, and the frames begin at the next page
/// boundary behind the metadata.
pub open spec fn usable_pages(start: int, size: int) -> int {
    let wanted = size / (PAGE_SIZE + 1);
    let first = align_up_spec(start + wanted, PAGE_SIZE as int);
    let end = start + size;
    if first >= end {
        0
    } else if (end - first) / (PAGE_SIZE as int) < wanted {
        (end - first) / (PAGE_SIZE as int)
    } else {
        wanted
    }
}

/// The `Last` frame that closes the allocation running through `i`.
pub open spec fn run_end(meta: Seq<PageStatus>, i: int) -> int {
    choose|j: int| is_run_end(meta, i, j)
}

/// The index of the frame at `addr`, where `base` is the address of frame 0.
pub open spec fn frame_index(meta: Seq<PageStatus>, base: u64, addr: u64) -> Option<int> {
    if addr >= base && (addr - base) % (PAGE_SIZE as int) == 0 && (addr - base) / (
    PAGE_SIZE as int) < meta.len() {
        Some((addr - base) / (PAGE_SIZE as int))
    } else {
        None
    }
}

/// The metadata after the allocation that starts at `addr` was released;
/// unchanged where no allocation starts there.
pub open spec fn after_dealloc(meta: Seq<PageStatus>, base: u64, addr: u64) -> Seq<PageStatus> {
    match frame_index(meta, base, addr) {
        Some(i) => if is_allocation_start(meta, i) {
            mark_free(meta, i, run_end(meta, i))
        } else {
            meta
        },
        None => meta,
    }
}

/// The metadata after the allocations that start at `addrs` were released, one
/// after the other.
pub open spec fn after_release(meta: Seq<PageStatus>, base: u64, addrs: Seq<u64>) -> Seq<
    PageStatus,
>
    decreases addrs.len(),
{
    if addrs.len() == 0 {
        meta
    } else {
        after_dealloc(after_release(meta, base, addrs.drop_last()), base, addrs.last())
    }
}

/// Releasing at once what one allocation handed out gives back the metadata
/// as it was: the frames of a process return to the allocator when it dies.
pub proof fn lemma_release_restores(meta: Seq<PageStatus>, base: u64, start: int, n: int)
    requires
        well_formed(meta),
        n > 0,
        is_free_run(meta, start, n),
        base + start * PAGE_SIZE <= u64::MAX,
    ensures
        after_release(
            mark_allocated(meta, start, n),
            base,
            seq![(base + start * PAGE_SIZE) as u64],
        ) == meta,
{
    let taken = mark_allocated(meta, start, n);
    let addr = (base + start * PAGE_SIZE) as u64;
    let addrs = seq![addr];
    lemma_alloc_dealloc_roundtrip(meta, start, n);
    assert(addrs.drop_last().len() == 0);
    assert(after_release(taken, base, addrs.drop_last()) == taken);
    assert(addrs.last() == addr);
    assert((start * 4096) % 4096 == 0) by (nonlinear_arith);
    assert((start * 4096) / 4096 == start) by (nonlinear_arith);
    assert(frame_index(taken, base, addr) == Some(start));
    lemma_run_end_unique(taken, start, run_end(taken, start), start + n - 1);
}

/// Where every frame is free, a run of `n` frames is had exactly if there are
/// `n` frames.
pub proof fn lemma_all_free_fits(meta: Seq<PageStatus>, n: int)
    requires
        0 <= n,
        forall|i: int| 0 <= i < meta.len() ==> meta[i] == PageStatus::Free,
    ensures
        has_fit(meta, n) <==> n <= meta.len(),
{
    if n <= meta.len() {
        assert(is_free_run(meta, 0, n));
    }
}

/// At most one frame closes the allocation that runs through `i`.
pub proof fn lemma_run_end_unique(meta: Seq<PageStatus>, i: int, a: int, b: int)
    requires
        is_run_end(meta, i, a),
        is_run_end(meta, i, b),
    ensures
        a == b,
{
    if a < b {
        assert(meta[a] == PageStatus::Used);
    } else if b < a {
        assert(meta[b] == PageStatus::Used);
    }
}

/// Releasing what was just handed out gives back the metadata as it was.
pub proof fn lemma_alloc_dealloc_roundtrip(meta: Seq<PageStatus>, start: int, n: int)
    requires
        well_formed(meta),
        n > 0,
        is_free_run(meta, start, n),
    ensures
        well_formed(mark_allocated(meta, start, n)),
        is_allocation_start(mark_allocated(meta, start, n), start),
        is_run_end(mark_allocated(meta, start, n), start, start + n - 1),
        mark_free(mark_allocated(meta, start, n), start, start + n - 1) == meta,
{
    let m = mark_allocated(meta, start, n);
    assert(meta[start] == PageStatus::Free);
    assert forall|i: int| #[trigger] is_used(m, i) implies i + 1 < m.len() && m[i + 1]
        != PageStatus::Free by {
        if !(start <= i < start + n - 1) {
            assert(is_used(meta, i));
        }
    }
    if start > 0 && meta[start - 1] == PageStatus::Used {
        assert(is_used(meta, start - 1));
    }
    assert(mark_free(m, start, start + n - 1) =~= meta);
}

/// Releasing an allocation keeps the metadata well formed.
pub proof fn lemma_mark_free_well_formed(meta: Seq<PageStatus>, i: int, j: int)
    requires
        well_formed(meta),
        is_allocation_start(meta, i),
        is_run_end(meta, i, j),
    ensures
        well_formed(mark_free(meta, i, j)),
{
    let m = mark_free(meta, i, j);
    assert forall|k: int| #[trigger] is_used(m, k) implies k + 1 < m.len() && m[k + 1]
        != PageStatus::Free by {
        assert(is_used(meta, k));
    }
}

/// The free count of a prefix grows by one exactly over a free frame.
pub proof fn lemma_count_free_step(meta: Seq<PageStatus>, i: int)
    requires
        0 <= i < meta.len(),
    ensures
        count_free(meta.subrange(0, i + 1)) == count_free(meta.subrange(0, i)) + if meta[i]
            == PageStatus::Free {
            1nat
        } else {
            0nat
        },
{
    assert(meta.subrange(0, i + 1).drop_last() =~= meta.subrange(0, i));
}

/// Frame `k` is one of the frames of the run: a first frame and a number of
/// frames.
pub open spec fn in_run(run: (int, int), k: int) -> bool {
    run.0 <= k < run.0 + run.1
}

/// The metadata after the runs were handed out, one after the other.
pub open spec fn after_runs(meta: Seq<PageStatus>, runs: Seq<(int, int)>) -> Seq<PageStatus>
    decreases runs.len(),
{
    if runs.len() == 0 {
        meta
    } else {
        mark_allocated(after_runs(meta, runs.drop_last()), runs.last().0, runs.last().1)
    }
}

/// Each of the runs had frames and was free when it was handed out, the runs
/// before it being handed out already.
pub open spec fn runs_were_free(meta: Seq<PageStatus>, runs: Seq<(int, int)>) -> bool
    decreases runs.len(),
{
    runs.len() == 0 || {
        &&& runs_were_free(meta, runs.drop_last())
        &&& runs.last().1 > 0
        &&& is_free_run(after_runs(meta, runs.drop_last()), runs.last().0, runs.last().1)
    }
}

/// The addresses of the first frames of the runs.
pub open spec fn run_addresses(base: u64, runs: Seq<(int, int)>) -> Seq<u64> {
    Seq::new(runs.len(), |r: int| (base + runs[r].0 * PAGE_SIZE) as u64)
}

/// Each of the runs has frames that are free in `meta`, and no two runs share
/// a frame.
pub open spec fn runs_apart(meta: Seq<PageStatus>, runs: Seq<(int, int)>) -> bool {
    &&& forall|r: int|
        0 <= r < runs.len() ==> (#[trigger] runs[r]).1 > 0 && is_free_run(
            meta,
            runs[r].0,
            runs[r].1,
        )
    &&& forall|a: int, b: int|
        0 <= a < b < runs.len() ==> (#[trigger] runs[a]).0 + runs[a].1 <= (#[trigger] runs[b]).0
            || runs[b].0 + runs[b].1 <= runs[a].0
}

/// Frame `k` is a frame of one of the runs from place `from` on.
pub open spec fn covers(runs: Seq<(int, int)>, from: int, k: int) -> bool {
    exists|r: int| from <= r < runs.len() && in_run(#[trigger] runs[r], k)
}

/// The status of frame `k` while the runs from place `from` on are handed
/// out: `Last` for the final frame of such a run, `Used` for its other
/// frames, and what `meta` has for every other frame.
pub open spec fn marked_status(
    meta: Seq<PageStatus>,
    runs: Seq<(int, int)>,
    from: int,
    k: int,
) -> PageStatus {
    if covers(runs, from, k) {
        let r = choose|r: int| from <= r < runs.len() && in_run(#[trigger] runs[r], k);
        if k == runs[r].0 + runs[r].1 - 1 {
            PageStatus::Last
        } else {
            PageStatus::Used
        }
    } else {
        meta[k]
    }
}

/// The metadata while the runs from place `from` on are handed out.
pub open spec fn marked(meta: Seq<PageStatus>, runs: Seq<(int, int)>, from: int) -> Seq<
    PageStatus,
> {
    Seq::new(meta.len(), |k: int| marked_status(meta, runs, from, k))
}

/// The status of a frame of a run that is handed out.
pub proof fn lemma_marked_in_run(
    meta: Seq<PageStatus>,
    runs: Seq<(int, int)>,
    from: int,
    r: int,
    k: int,
)
    requires
        runs_apart(meta, runs),
        0 <= from <= r < runs.len(),
        in_run(runs[r], k),
    ensures
        covers(runs, from, k),
        marked_status(meta, runs, from, k) == if k == runs[r].0 + runs[r].1 - 1 {
            PageStatus::Last
        } else {
            PageStatus::Used
        },
{
    let found = choose|f: int| from <= f < runs.len() && in_run(#[trigger] runs[f], k);
    if found < r {
        assert(runs[found].0 + runs[found].1 <= runs[r].0 || runs[r].0 + runs[r].1
            <= runs[found].0);
    } else if r < found {
        assert(runs[r].0 + runs[r].1 <= runs[found].0 || runs[found].0 + runs[found].1
            <= runs[r].0);
    }
}

/// Runs that were handed out one after the other share no frame, were free
/// before the first was handed out, and leave the metadata marked with them.
pub proof fn lemma_runs_mark(meta: Seq<PageStatus>, runs: Seq<(int, int)>)
    requires
        runs_were_free(meta, runs),
    ensures
        runs_apart(meta, runs),
        after_runs(meta, runs) == marked(meta, runs, 0),
    decreases runs.len(),
{
    if runs.len() == 0 {
        assert(after_runs(meta, runs) =~= marked(meta, runs, 0));
    } else {
        let front = runs.drop_last();
        let last = runs.len() - 1;
        let (s, n) = runs.last();
        lemma_runs_mark(meta, front);
        let middle = marked(meta, front, 0);
        assert(after_runs(meta, front) == middle);
        assert(is_free_run(middle, s, n));
        // the frames of the last run are free in `meta` and in no run of the front
        assert forall|k: int| s <= k < s + n implies meta[k] == PageStatus::Free && !covers(
            front,
            0,
            k,
        ) by {
            assert(middle[k] == PageStatus::Free);
            if covers(front, 0, k) {
                let r = choose|r: int| 0 <= r < front.len() && in_run(#[trigger] front[r], k);
                lemma_marked_in_run(meta, front, 0, r, k);
            }
        }
        assert forall|r: int| 0 <= r < runs.len() implies (#[trigger] runs[r]).1 > 0
            && is_free_run(meta, runs[r].0, runs[r].1) by {
            if r < last {
                assert(runs[r] == front[r]);
            }
        }
        assert forall|a: int, b: int| 0 <= a < b < runs.len() implies (#[trigger] runs[a]).0
            + runs[a].1 <= (#[trigger] runs[b]).0 || runs[b].0 + runs[b].1 <= runs[a].0 by {
            assert(runs[a] == front[a]);
            if b < last {
                assert(runs[b] == front[b]);
            } else {
                if !(runs[a].0 + runs[a].1 <= s || s + n <= runs[a].0) {
                    let k = if runs[a].0 >= s {
                        runs[a].0
                    } else {
                        s
                    };
                    assert(front[a].1 > 0);
                    assert(s <= k < s + n);
                    assert(in_run(front[a], k));
                    assert(covers(front, 0, k));
                    assert(meta[k] == PageStatus::Free && !covers(front, 0, k));
                }
            }
        }
        assert forall|k: int| 0 <= k < meta.len() implies mark_allocated(middle, s, n)[k]
            == marked_status(meta, runs, 0, k) by {
            if s <= k < s + n {
                assert(in_run(runs[last], k));
                lemma_marked_in_run(meta, runs, 0, last, k);
            } else {
                if covers(front, 0, k) {
                    let r = choose|r: int| 0 <= r < front.len() && in_run(#[trigger] front[r], k);
                    lemma_marked_in_run(meta, front, 0, r, k);
                    assert(runs[r] == front[r]);
                    lemma_marked_in_run(meta, runs, 0, r, k);
                } else if covers(runs, 0, k) {
                    let r = choose|r: int| 0 <= r < runs.len() && in_run(#[trigger] runs[r], k);
                    assert(r < last);
                    assert(front[r] == runs[r]);
                    assert(in_run(front[r], k));
                }
            }
        }
        assert(after_runs(meta, runs) =~= marked(meta, runs, 0));
    }
}

/// Releasing the run at place `from` leaves the runs behind it handed out.
pub proof fn lemma_release_step(
    meta: Seq<PageStatus>,
    base: u64,
    runs: Seq<(int, int)>,
    from: int,
)
    requires
        well_formed(meta),
        runs_apart(meta, runs),
        base + meta.len() * PAGE_SIZE <= u64::MAX,
        0 <= from < runs.len(),
    ensures
        after_dealloc(marked(meta, runs, from), base, run_addresses(base, runs)[from]) == marked(
            meta,
            runs,
            from + 1,
        ),
{
    let (s, n) = runs[from];
    let here = marked(meta, runs, from);
    let next = marked(meta, runs, from + 1);
    let addr = run_addresses(base, runs)[from];
    assert(is_free_run(meta, s, n));
    assert((s + n) * 4096 <= meta.len() * 4096) by (nonlinear_arith)
        requires
            s + n <= meta.len(),
    ;
    assert(0 <= s * 4096) by (nonlinear_arith)
        requires
            0 <= s,
    ;
    assert(addr == base + s * 4096);
    assert((s * 4096) % 4096 == 0) by (nonlinear_arith);
    assert((s * 4096) / 4096 == s) by (nonlinear_arith);
    assert(frame_index(here, base, addr) == Some(s));
    // the frames of the run are `Used` up to the `Last`
    assert forall|k: int| s <= k < s + n implies here[k] == if k == s + n - 1 {
        PageStatus::Last
    } else {
        PageStatus::Used
    } by {
        lemma_marked_in_run(meta, runs, from, from, k);
    }
    // the frame in front of the run belongs to no allocation that goes on
    if s > 0 && here[s - 1] == PageStatus::Used {
        if covers(runs, from, s - 1) {
            let r = choose|r: int| from <= r < runs.len() && in_run(#[trigger] runs[r], s - 1);
            lemma_marked_in_run(meta, runs, from, r, s - 1);
            assert(r != from);
            assert(runs[from].0 + runs[from].1 <= runs[r].0 || runs[r].0 + runs[r].1
                <= runs[from].0);
            assert(false);
        } else {
            assert(is_used(meta, s - 1));
            assert(meta[s] == PageStatus::Free);
            assert(false);
        }
    }
    assert(is_allocation_start(here, s));
    assert(is_run_end(here, s, s + n - 1));
    lemma_run_end_unique(here, s, run_end(here, s), s + n - 1);
    assert forall|k: int| 0 <= k < meta.len() implies mark_free(here, s, s + n - 1)[k]
        == next[k] by {
        if s <= k < s + n {
            assert(meta[k] == PageStatus::Free);
            if covers(runs, from + 1, k) {
                let r = choose|r: int|
                    from + 1 <= r < runs.len() && in_run(#[trigger] runs[r], k);
                assert(runs[from].0 + runs[from].1 <= runs[r].0 || runs[r].0 + runs[r].1
                    <= runs[from].0);
                assert(false);
            }
        } else {
            if covers(runs, from + 1, k) {
                let r = choose|r: int|
                    from + 1 <= r < runs.len() && in_run(#[trigger] runs[r], k);
                lemma_marked_in_run(meta, runs, from + 1, r, k);
                lemma_marked_in_run(meta, runs, from, r, k);
            } else if covers(runs, from, k) {
                let r = choose|r: int| from <= r < runs.len() && in_run(#[trigger] runs[r], k);
                assert(r == from);
                assert(false);
            }
        }
    }
    assert(mark_free(here, s, s + n - 1) =~= next);
}

/// Releasing the first `j` runs leaves the runs behind them handed out.
pub proof fn lemma_release_front(
    meta: Seq<PageStatus>,
    base: u64,
    runs: Seq<(int, int)>,
    j: int,
)
    requires
        well_formed(meta),
        runs_apart(meta, runs),
        base + meta.len() * PAGE_SIZE <= u64::MAX,
        0 <= j <= runs.len(),
    ensures
        after_release(marked(meta, runs, 0), base, run_addresses(base, runs).subrange(0, j))
            == marked(meta, runs, j),
    decreases j,
{
    let addresses = run_addresses(base, runs);
    if j > 0 {
        lemma_release_front(meta, base, runs, j - 1);
        lemma_release_step(meta, base, runs, j - 1);
        assert(addresses.subrange(0, j).drop_last() =~= addresses.subrange(0, j - 1));
        assert(addresses.subrange(0, j).last() == addresses[j - 1]);
    } else {
        assert(addresses.subrange(0, 0).len() == 0);
    }
}

/// The frames of a process return to the allocator when it dies. Where runs
/// of frames were handed out one after the other, as for the image of a
/// process and for each of its `mmap` calls, and nothing else was handed out
/// or released since, releasing the runs by the addresses of their first
/// frames gives back the metadata as it was before the first of them: every
/// frame has the status it had, so as many frames are free as were.
pub proof fn lemma_life_returns_frames(meta: Seq<PageStatus>, base: u64, runs: Seq<(int, int)>)
    requires
        well_formed(meta),
        base + meta.len() * PAGE_SIZE <= u64::MAX,
        runs_were_free(meta, runs),
    ensures
        after_release(after_runs(meta, runs), base, run_addresses(base, runs)) == meta,
        count_free(after_release(after_runs(meta, runs), base, run_addresses(base, runs)))
            == count_free(meta),
{
    lemma_runs_mark(meta, runs);
    lemma_release_front(meta, base, runs, runs.len() as int);
    let addresses = run_addresses(base, runs);
    assert(addresses.subrange(0, runs.len() as int) =~= addresses);
    assert(marked(meta, runs, runs.len() as int) =~= meta);
}

/// The allocator of physical frames.
pub struct PageAllocator {
    metadata: Vec<PageStatus>,
    first_page: u64,
}

impl PageAllocator {
    /// The status of every frame, by frame index.
    pub closed spec fn view(&self) -> Seq<PageStatus> {
        self.metadata@
    }

    /// The address of frame 0.
    pub closed spec fn base(&self) -> u64 {
        self.first_page
    }

    /// The frames lie on page boundaries and within the physical address
    /// range, and every allocation is closed by a `Last` frame.
    pub open spec fn wf(&self) -> bool {
        &&& self.base() % PAGE_SIZE == 0
        &&& self.base() + self@.len() * PAGE_SIZE <= PHYSICAL_ADDRESS_LIMIT
        &&& self@.len() <= usize::MAX
        &&& well_formed(self@)
    }

    /// The index of the frame that starts at `addr`, if `addr` is the address
    /// of one of this allocator's frames.
    pub open spec fn page_index(&self, addr: u64) -> Option<int> {
        frame_index(self@, self.base(), addr)
    }

    /// The address of frame `i`.
    pub open spec fn page_address(&self, i: int) -> int {
        self.base() + i * PAGE_SIZE
    }

    /// An allocator over the region of `region_size` bytes at `region_start`,
    /// with every frame free.
    pub fn new(region_start: u64, region_size: usize) -> (allocator: Self)
        requires
            region_start + region_size <= PHYSICAL_ADDRESS_LIMIT,
        ensures
            allocator.wf(),
            allocator@.len() == usable_pages(region_start as int, region_size as int),
            forall|i: int| 0 <= i < allocator@.len() ==> allocator@[i] == PageStatus::Free,
            allocator@.len() > 0 ==> allocator.base() == align_up_spec(
                region_start + region_size / ((PAGE_SIZE + 1) as usize),
                PAGE_SIZE as int,
            ),
            allocator@.len() > 0 ==> region_start <= allocator.base() && allocator.base()
                + allocator@.len() * PAGE_SIZE <= region_start + region_size,
    {
        let wanted: usize = region_size / ((PAGE_SIZE + 1) as usize);
        let end: u64 = region_start + region_size as u64;
        let unaligned: u64 = region_start + wanted as u64;
        proof {
            super::lemma_align_up(unaligned as int, PAGE_SIZE as int);
        }
        if end - unaligned < PAGE_SIZE {
            return PageAllocator { metadata: Vec::new(), first_page: 0 };
        }
        let first: u64 = align_up(unaligned, PAGE_SIZE);
        let available: u64 = (end - first) / PAGE_SIZE;
        let pages: usize = if available < wanted as u64 {
            available as usize
        } else {
            wanted
        };
        let mut metadata: Vec<PageStatus> = Vec::new();
        let mut i: usize = 0;
        while i < pages
            invariant
                i <= pages,
                metadata@.len() == i,
                forall|k: int| 0 <= k < i ==> metadata@[k] == PageStatus::Free,
            decreases pages - i,
        {
            metadata.push(PageStatus::Free);
            i = i + 1;
        }
        if pages == 0 {
            return PageAllocator { metadata, first_page: 0 };
        }
        PageAllocator { metadata, first_page: first }
    }

    /// The number of frames under this allocator.
    pub fn total_pages(&self) -> (n: usize)
        ensures
            n == self@.len(),
    {
        self.metadata.len()
    }

    /// The number of frames that are free.
    pub fn free_pages(&self) -> (n: usize)
        ensures
            n == count_free(self@),
    {
        let mut n: usize = 0;
        let mut i: usize = 0;
        while i < self.metadata.len()
            invariant
                i <= self.metadata@.len(),
                n <= i,
                n == count_free(self.metadata@.subrange(0, i as int)),
            decreases self.metadata@.len() - i,
        {
            proof {
                lemma_count_free_step(self.metadata@, i as int);
            }
            if self.metadata[i] == PageStatus::Free {
                n = n + 1;
            }
            i = i + 1;
        }
        assert(self.metadata@.subrange(0, i as int) =~= self.metadata@);
        n
    }

    /// Hands out the first run of `n` free frames and returns the address of
    /// its first frame. Without such a run, or for `n == 0`, nothing changes
    /// and the result is `None`.
    pub fn allocate(&mut self, n: usize) -> (allocation: Option<u64>)
        requires
            old(self).wf(),
        ensures
            final(self).wf(),
            final(self).base() == old(self).base(),
            final(self)@.len() == old(self)@.len(),
            allocation is Some <==> n > 0 && has_fit(old(self)@, n as int),
            allocation is None ==> final(self)@ == old(self)@,
            allocation matches Some(addr) ==> exists|s: int|
                {
                    &&& #[trigger] is_first_fit(old(self)@, s, n as int)
                    &&& addr == old(self).page_address(s)
                    &&& final(self)@ == mark_allocated(old(self)@, s, n as int)
                },
    {
        if n == 0 {
            return None;
        }
        let len: usize = self.metadata.len();
        let mut start: usize = 0;
        let mut i: usize = 0;
        while i < len
            invariant
                self.metadata@ == old(self).metadata@,
                self.first_page == old(self).first_page,
                old(self).wf(),
                len == self.metadata@.len(),
                n > 0,
                start <= i <= len,
                i - start < n,
                forall|k: int| start <= k < i ==> self.metadata@[k] == PageStatus::Free,
                forall|s: int| 0 <= s < start ==> !is_free_run(self.metadata@, s, n as int),
            decreases len - i,
        {
            if self.metadata[i] == PageStatus::Free {
                i = i + 1;
                if i - start == n {
                    let ghost before = self.metadata@;
                    assert(is_first_fit(before, start as int, n as int));
                    proof {
                        lemma_alloc_dealloc_roundtrip(before, start as int, n as int);
                    }
                    let mut k: usize = start;
                    while k < i - 1
                        invariant
                            start <= k <= i - 1,
                            i <= len,
                            len == self.metadata@.len(),
                            before.len() == len,
                            i - start == n,
                            self.first_page == old(self).first_page,
                            forall|j: int|
                                0 <= j < len ==> self.metadata@[j] == if start <= j < k {
                                    PageStatus::Used
                                } else {
                                    before[j]
                                },
                        decreases i - 1 - k,
                    {
                        self.metadata[k] = PageStatus::Used;
                        k = k + 1;
                    }
                    self.metadata[i - 1] = PageStatus::Last;
                    assert(self.metadata@ =~= mark_allocated(before, start as int, n as int));
                    assert(has_fit(before, n as int));
                    assert(start * PAGE_SIZE <= len * PAGE_SIZE) by (nonlinear_arith)
                        requires
                            start <= len,
                    ;
                    return Some(self.first_page + (start as u64) * PAGE_SIZE);
                }
            } else {
                assert forall|s: int| start <= s <= i implies !is_free_run(
                    self.metadata@,
                    s,
                    n as int,
                ) by {
                    if is_free_run(self.metadata@, s, n as int) {
                        assert(self.metadata@[i as int] == PageStatus::Free);
                    }
                }
                i = i + 1;
                start = i;
            }
        }
        assert forall|s: int| !is_free_run(self.metadata@, s, n as int) by {
            if is_free_run(self.metadata@, s, n as int) {
                assert(s >= start);
            }
        }
        None
    }

    /// Releases the allocation whose first frame is at `addr` and returns the
    /// number of frames released. An address that does not start an allocation
    /// releases nothing.
    pub fn dealloc(&mut self, addr: u64) -> (released: usize)
        requires
            old(self).wf(),
        ensures
            final(self).wf(),
            final(self).base() == old(self).base(),
            final(self)@.len() == old(self)@.len(),
            final(self)@ == after_dealloc(old(self)@, old(self).base(), addr),
            match old(self).page_index(addr) {
                Some(i) if is_allocation_start(old(self)@, i) => exists|j: int|
                    {
                        &&& #[trigger] is_run_end(old(self)@, i, j)
                        &&& final(self)@ == mark_free(old(self)@, i, j)
                        &&& released == j - i + 1
                    },
                _ => final(self)@ == old(self)@ && released == 0,
            },
    {
        if addr < self.first_page || (addr - self.first_page) % PAGE_SIZE != 0 {
            return 0;
        }
        let index: u64 = (addr - self.first_page) / PAGE_SIZE;
        if index >= self.metadata.len() as u64 {
            return 0;
        }
        let i: usize = index as usize;
        if self.metadata[i] == PageStatus::Free {
            return 0;
        }
        if i > 0 && self.metadata[i - 1] == PageStatus::Used {
            return 0;
        }
        let ghost before = self.metadata@;
        assert(is_allocation_start(before, i as int));
        let len: usize = self.metadata.len();
        let mut j: usize = i;
        while self.metadata[j] != PageStatus::Last
            invariant
                i <= j < self.metadata@.len(),
                len == before.len(),
                before.len() == self.metadata@.len(),
                well_formed(before),
                self.first_page == old(self).first_page,
                before[j as int] != PageStatus::Free,
                forall|k: int| i <= k < j ==> before[k] == PageStatus::Used,
                forall|k: int|
                    0 <= k < before.len() ==> self.metadata@[k] == if i <= k < j {
                        PageStatus::Free
                    } else {
                        before[k]
                    },
            decreases self.metadata@.len() - j,
        {
            assert(is_used(before, j as int));
            self.metadata[j] = PageStatus::Free;
            j = j + 1;
        }
        self.metadata[j] = PageStatus::Free;
        assert(is_run_end(before, i as int, j as int));
        assert(self.metadata@ =~= mark_free(before, i as int, j as int));
        proof {
            lemma_mark_free_well_formed(before, i as int, j as int);
            lemma_run_end_unique(before, i as int, j as int, run_end(before, i as int));
        }
        j - i + 1
    }
}

} // verus!
