//! sv39 address spaces: a tree of up to three levels of 512-entry tables, a
//! leaf at any level (1 GiB, 2 MiB or 4 KiB pages).
//!
//! The tables of one address space are kept in one list; table 0 is the root.
//! An entry that points to a next-level table names it by its place in that
//! list, where the hardware format holds the number of the frame that the
//! table lies in.

use vstd::prelude::*;
use super::{align_down, PAGE_SIZE, PHYSICAL_ADDRESS_LIMIT};

verus! {

/// Entries of one table.
pub const ENTRIES_PER_TABLE: usize = 512;

/// One past the highest virtual address that sv39 translates here.
pub const VIRTUAL_ADDRESS_LIMIT: u64 = 0x80_0000_0000;

/// One past the highest frame number an entry can hold.
pub const PPN_LIMIT: u64 = 0x1000_0000_0000;

/// Bytes of a level-1 leaf.
pub const MEGA_PAGE_SIZE: u64 = 0x20_0000;

/// Bytes of a level-2 leaf.
pub const GIGA_PAGE_SIZE: u64 = 0x4000_0000;

/// The execute/write/read bits of an entry. With none of them set a valid
/// entry points to the next-level table.
#[derive(Clone, Copy, PartialEq, Eq, Debug, Structural)]
pub enum XWRMode {
    PointerToNextLevel,
    ReadOnly,
    ReadWrite,
    ExecuteOnly,
    ReadExecute,
    ReadWriteExecute,
}

impl XWRMode {
    /// The mode has the W bit.
    pub open spec fn spec_is_writable(self) -> bool {
        self == XWRMode::ReadWrite || self == XWRMode::ReadWriteExecute
    }

    /// Whether the mode has the W bit.
    pub fn is_writable(self) -> (writable: bool)
        ensures
            writable == self.spec_is_writable(),
    {
        match self {
            XWRMode::ReadWrite => true,
            XWRMode::ReadWriteExecute => true,
            _ => false,
        }
    }
}

/// One page-table entry: the V, X/W/R, U and G bits and the frame number.
#[derive(Clone, Copy, PartialEq, Eq, Debug, Structural)]
pub struct PageTableEntry {
    pub valid: bool,
    pub xwr: XWRMode,
    pub user: bool,
    pub global: bool,
    pub ppn: u64,
}

impl PageTableEntry {
    /// A valid entry that points to a next-level table.
    pub open spec fn is_pointer(self) -> bool {
        self.valid && self.xwr == XWRMode::PointerToNextLevel
    }

    /// A valid entry that maps a page.
    pub open spec fn is_leaf(self) -> bool {
        self.valid && self.xwr != XWRMode::PointerToNextLevel
    }

    /// The entry with V clear.
    pub open spec fn spec_invalid() -> PageTableEntry {
        PageTableEntry {
            valid: false,
            xwr: XWRMode::PointerToNextLevel,
            user: false,
            global: false,
            ppn: 0,
        }
    }

    /// The leaf for the frame at `physical_address`. A user mapping has U set;
    /// a kernel mapping has U clear and G set.
    pub open spec fn spec_leaf(physical_address: int, xwr: XWRMode, user: bool) -> PageTableEntry {
        PageTableEntry {
            valid: true,
            xwr,
            user,
            global: !user,
            ppn: (physical_address / (PAGE_SIZE as int)) as u64,
        }
    }

    /// The entry that points to table `table`.
    pub open spec fn spec_pointer(table: int) -> PageTableEntry {
        PageTableEntry {
            valid: true,
            xwr: XWRMode::PointerToNextLevel,
            user: false,
            global: false,
            ppn: table as u64,
        }
    }

    /// The entry with V clear.
    pub fn invalid() -> (entry: Self)
        ensures
            entry == Self::spec_invalid(),
    {
        PageTableEntry {
            valid: false,
            xwr: XWRMode::PointerToNextLevel,
            user: false,
            global: false,
            ppn: 0,
        }
    }

    /// The leaf for the frame at `physical_address`.
    pub fn leaf(physical_address: u64, xwr: XWRMode, user: bool) -> (entry: Self)
        ensures
            entry == Self::spec_leaf(physical_address as int, xwr, user),
    {
        PageTableEntry { valid: true, xwr, user, global: !user, ppn: physical_address / PAGE_SIZE }
    }

    /// The entry that points to table `table`.
    pub fn pointer(table: u64) -> (entry: Self)
        ensures
            entry == Self::spec_pointer(table as int),
    {
        PageTableEntry {
            valid: true,
            xwr: XWRMode::PointerToNextLevel,
            user: false,
            global: false,
            ppn: table,
        }
    }
}

impl XWRMode {
    /// The three bits in the order X, W, R, as a number.
    pub open spec fn spec_bits(self) -> int {
        match self {
            XWRMode::PointerToNextLevel => 0,
            XWRMode::ReadOnly => 1,
            XWRMode::ReadWrite => 3,
            XWRMode::ExecuteOnly => 4,
            XWRMode::ReadExecute => 5,
            XWRMode::ReadWriteExecute => 7,
        }
    }

    /// The mode that the three bits stand for; the combinations with W and
    /// without R are reserved and stand for none.
    pub open spec fn spec_from_bits(bits: int) -> Option<XWRMode> {
        if bits == 0 {
            Some(XWRMode::PointerToNextLevel)
        } else if bits == 1 {
            Some(XWRMode::ReadOnly)
        } else if bits == 3 {
            Some(XWRMode::ReadWrite)
        } else if bits == 4 {
            Some(XWRMode::ExecuteOnly)
        } else if bits == 5 {
            Some(XWRMode::ReadExecute)
        } else if bits == 7 {
            Some(XWRMode::ReadWriteExecute)
        } else {
            None
        }
    }

    /// The three bits in the order X, W, R, as a number.
    pub fn bits(self) -> (bits: u64)
        ensures
            bits == self.spec_bits(),
    {
        match self {
            XWRMode::PointerToNextLevel => 0,
            XWRMode::ReadOnly => 1,
            XWRMode::ReadWrite => 3,
            XWRMode::ExecuteOnly => 4,
            XWRMode::ReadExecute => 5,
            XWRMode::ReadWriteExecute => 7,
        }
    }

    /// The mode that the three bits stand for.
    pub fn from_bits(bits: u64) -> (mode: Option<XWRMode>)
        ensures
            mode == Self::spec_from_bits(bits as int),
    {
        if bits == 0 {
            Some(XWRMode::PointerToNextLevel)
        } else if bits == 1 {
            Some(XWRMode::ReadOnly)
        } else if bits == 3 {
            Some(XWRMode::ReadWrite)
        } else if bits == 4 {
            Some(XWRMode::ExecuteOnly)
        } else if bits == 5 {
            Some(XWRMode::ReadExecute)
        } else if bits == 7 {
            Some(XWRMode::ReadWriteExecute)
        } else {
            None
        }
    }
}

impl PageTableEntry {
    /// The entry in the format of the hardware: V in bit 0, R, W and X in bits
    /// 1 to 3, U in bit 4, G in bit 5, A and D in bits 6 and 7, the frame
    /// number from bit 10 on. A leaf has A and D set, so that no access
    /// faults for them.
    pub open spec fn spec_to_bits(self) -> int {
        (if self.valid {
            1int
        } else {
            0int
        }) + 2 * self.xwr.spec_bits() + (if self.user {
            16int
        } else {
            0int
        }) + (if self.global {
            32int
        } else {
            0int
        }) + (if self.is_leaf() {
            192int
        } else {
            0int
        }) + 1024 * self.ppn
    }

    /// The entry that the bits stand for, read without A, D and the bits
    /// above the frame number; none where the X, W and R bits are reserved.
    pub open spec fn spec_from_bits(bits: int) -> Option<PageTableEntry> {
        match XWRMode::spec_from_bits((bits / 2) % 8) {
            Some(xwr) => Some(
                PageTableEntry {
                    valid: bits % 2 == 1,
                    xwr,
                    user: (bits / 16) % 2 == 1,
                    global: (bits / 32) % 2 == 1,
                    ppn: ((bits / 1024) % 0x1000_0000_0000) as u64,
                },
            ),
            None => None,
        }
    }

    /// The entry in the format of the hardware.
    pub fn to_bits(&self) -> (bits: u64)
        requires
            self.ppn < PPN_LIMIT,
        ensures
            bits == self.spec_to_bits(),
    {
        let valid: u64 = if self.valid {
            1
        } else {
            0
        };
        let user: u64 = if self.user {
            16
        } else {
            0
        };
        let global: u64 = if self.global {
            32
        } else {
            0
        };
        let touched: u64 = if self.valid && self.xwr != XWRMode::PointerToNextLevel {
            192
        } else {
            0
        };
        valid + 2 * self.xwr.bits() + user + global + touched + 1024 * self.ppn
    }

    /// The entry that the bits stand for.
    pub fn from_bits(bits: u64) -> (entry: Option<Self>)
        ensures
            entry == Self::spec_from_bits(bits as int),
    {
        match XWRMode::from_bits((bits / 2) % 8) {
            Some(xwr) => Some(
                PageTableEntry {
                    valid: bits % 2 == 1,
                    xwr,
                    user: (bits / 16) % 2 == 1,
                    global: (bits / 32) % 2 == 1,
                    ppn: (bits / 1024) % 0x1000_0000_0000,
                },
            ),
            None => None,
        }
    }
}

/// An entry comes back from its bits as it went in.
pub proof fn lemma_bits_round_trip(entry: PageTableEntry)
    requires
        entry.ppn < PPN_LIMIT,
    ensures
        0 <= entry.spec_to_bits() <= u64::MAX,
        PageTableEntry::spec_from_bits(entry.spec_to_bits()) == Some(entry),
{
    let bits = entry.spec_to_bits();
    let low = bits - 1024 * entry.ppn;
    assert(0 <= low < 256);
    assert(bits / 1024 == entry.ppn);
    assert(bits % 2 == low % 2);
    assert((bits / 2) % 8 == (low / 2) % 8);
    assert((bits / 16) % 2 == (low / 16) % 2);
    assert((bits / 32) % 2 == (low / 32) % 2);
    assert((low / 2) % 8 == entry.xwr.spec_bits());
}

/// Bytes that a leaf of this level maps.
pub open spec fn level_size(level: int) -> int {
    if level == 2 {
        0x4000_0000
    } else if level == 1 {
        0x20_0000
    } else {
        0x1000
    }
}

/// The 9 bits of `va` that index the table of this level.
pub open spec fn vpn(va: int, level: int) -> int {
    (va / level_size(level)) % 512
}

/// What the walk for `va` finds: the leaf and its level, or nothing where an
/// entry on the way is not valid or `va` is beyond the translated range.
#[verifier::opaque]
pub open spec fn walk(entries: Seq<PageTableEntry>, va: int) -> Option<(PageTableEntry, int)> {
    if va < 0 || va >= VIRTUAL_ADDRESS_LIMIT {
        None
    } else {
        let e2 = entries[vpn(va, 2)];
        if !e2.valid {
            None
        } else if e2.xwr != XWRMode::PointerToNextLevel {
            Some((e2, 2))
        } else {
            let e1 = entries[e2.ppn * 512 + vpn(va, 1)];
            if !e1.valid {
                None
            } else if e1.xwr != XWRMode::PointerToNextLevel {
                Some((e1, 1))
            } else {
                let e0 = entries[e1.ppn * 512 + vpn(va, 0)];
                if e0.valid && e0.xwr != XWRMode::PointerToNextLevel {
                    Some((e0, 0))
                } else {
                    None
                }
            }
        }
    }
}

/// The physical address that `va` translates to.
pub open spec fn translation(entries: Seq<PageTableEntry>, va: int) -> Option<int> {
    match walk(entries, va) {
        Some((entry, level)) => Some(entry.ppn * PAGE_SIZE + va % level_size(level)),
        None => None,
    }
}

/// `va` is mapped and user mode may read it, and write it where `write` asks.
pub open spec fn user_accessible(entries: Seq<PageTableEntry>, va: int, write: bool) -> bool {
    match walk(entries, va) {
        Some((entry, level)) => entry.user && (write ==> entry.xwr.spec_is_writable()),
        None => false,
    }
}

/// `va` translates to `pa` through a leaf with these privileges.
pub open spec fn maps_to(
    entries: Seq<PageTableEntry>,
    va: int,
    pa: int,
    xwr: XWRMode,
    user: bool,
) -> bool {
    match walk(entries, va) {
        Some((entry, level)) => {
            &&& entry.ppn * PAGE_SIZE + va % level_size(level) == pa
            &&& entry.xwr == xwr
            &&& entry.user == user
            &&& entry.global == !user
        },
        None => false,
    }
}

/// No address of `va .. va + size` is mapped.
pub open spec fn range_unmapped(entries: Seq<PageTableEntry>, va: int, size: int) -> bool {
    forall|v: int| va <= v < va + size ==> #[trigger] walk(entries, v) is None
}

/// `after` is `before` with `va .. va + size` mapped to `pa .. pa + size` and
/// every other address as it was.
pub open spec fn is_mapping_of(
    before: Seq<PageTableEntry>,
    after: Seq<PageTableEntry>,
    va: int,
    pa: int,
    size: int,
    xwr: XWRMode,
    user: bool,
) -> bool {
    &&& forall|v: int| va <= v < va + size ==> #[trigger] maps_along(after, va, pa, v, xwr, user)
    &&& forall|v: int| !(va <= v < va + size) ==> #[trigger] walk(after, v) == walk(before, v)
}

/// `v` translates to the address as far behind `pa` as `v` is behind `va`,
/// through a leaf with these privileges.
pub open spec fn maps_along(
    entries: Seq<PageTableEntry>,
    va: int,
    pa: int,
    v: int,
    xwr: XWRMode,
    user: bool,
) -> bool {
    maps_to(entries, v, pa + (v - va), xwr, user)
}

/// A range that is mapped up to `done` bytes is mapped up to the end of the
/// next block once the leaf of that block is written.
pub proof fn lemma_mapping_grows(
    start: Seq<PageTableEntry>,
    before: Seq<PageTableEntry>,
    after: Seq<PageTableEntry>,
    va: int,
    pa: int,
    done: int,
    level: int,
    xwr: XWRMode,
    user: bool,
)
    requires
        is_mapping_of(start, before, va, pa, done, xwr, user),
        0 <= level <= 2,
        0 <= done,
        0 <= va,
        0 <= pa,
        (va + done) % level_size(level) == 0,
        (pa + done) % (PAGE_SIZE as int) == 0,
        pa + done < PHYSICAL_ADDRESS_LIMIT,
        forall|u: int|
            va + done <= u < va + done + level_size(level) ==> #[trigger] walk(after, u) == Some(
                (PageTableEntry::spec_leaf(pa + done, xwr, user), level),
            ),
        forall|u: int|
            !(va + done <= u < va + done + level_size(level)) ==> #[trigger] walk(after, u) == walk(
                before,
                u,
            ),
    ensures
        is_mapping_of(start, after, va, pa, done + level_size(level), xwr, user),
{
    let size = level_size(level);
    let leaf = PageTableEntry::spec_leaf(pa + done, xwr, user);
    assert(leaf.ppn * PAGE_SIZE == pa + done);
    assert forall|u: int| va <= u < va + done + size implies #[trigger] maps_along(
        after,
        va,
        pa,
        u,
        xwr,
        user,
    ) by {
        if u < va + done {
            assert(walk(after, u) == walk(before, u));
            assert(maps_along(before, va, pa, u, xwr, user));
        } else {
            assert(walk(after, u) == Some((leaf, level)));
            lemma_block_members(va + done, u, level);
        }
    }
    assert forall|u: int| !(va <= u < va + done + size) implies #[trigger] walk(after, u) == walk(
        start,
        u,
    ) by {
        assert(walk(after, u) == walk(before, u));
    }
}

/// A leaf of `level` can map `v` within the mapping of `size` bytes from `va`
/// to `pa`: the aligned block of that level around `v` lies within the range,
/// and the physical side is aligned as the virtual side is.
pub open spec fn block_fits(va: int, pa: int, size: int, v: int, level: int) -> bool {
    let block = level_size(level);
    let base = v - v % block;
    &&& va <= base
    &&& base + block <= va + size
    &&& (pa - va) % block == 0
}

/// The level of the largest page that can map `v` within the mapping of
/// `size` bytes from `va` to `pa`.
pub open spec fn natural_level(va: int, pa: int, size: int, v: int) -> int {
    if block_fits(va, pa, size, v, 2) {
        2
    } else if block_fits(va, pa, size, v, 1) {
        1
    } else {
        0
    }
}

/// A leaf of `level` can be written at `done` bytes into the mapping: both
/// sides are aligned to its size there, and as much is left to map.
pub open spec fn level_allowed(va: int, pa: int, size: int, done: int, level: int) -> bool {
    &&& size - done >= level_size(level)
    &&& (va + done) % level_size(level) == 0
    &&& (pa + done) % level_size(level) == 0
}

/// The level that `map` uses at `done` bytes into the mapping: the highest
/// that is allowed there.
pub open spec fn chosen_level(va: int, pa: int, size: int, done: int) -> int {
    if level_allowed(va, pa, size, done, 2) {
        2
    } else if level_allowed(va, pa, size, done, 1) {
        1
    } else {
        0
    }
}

/// The place `done` bytes into the mapping lies inside no larger block that a
/// single leaf could have mapped: no such block was cut into smaller pages.
pub open spec fn no_block_cut(va: int, pa: int, size: int, done: int) -> bool {
    forall|level: int|
        1 <= level <= 2 && (va + done) % level_size(level) != 0 ==> !#[trigger] block_fits(
            va,
            pa,
            size,
            va + done,
            level,
        )
}

/// The first `done` bytes of the mapping are mapped with the largest pages
/// that can map them.
pub open spec fn uses_natural_pages(
    entries: Seq<PageTableEntry>,
    va: int,
    pa: int,
    size: int,
    done: int,
) -> bool {
    forall|v: int|
        va <= v < va + done ==> (#[trigger] walk(entries, v) matches Some((entry, level))
            && level == natural_level(va, pa, size, v))
}

/// `big` is a page size and a multiple of the page size `small`.
pub open spec fn page_sizes(small: int, big: int) -> bool {
    ||| (small == 0x1000 && big == 0x1000)
    ||| (small == 0x1000 && big == 0x20_0000)
    ||| (small == 0x1000 && big == 0x4000_0000)
    ||| (small == 0x20_0000 && big == 0x20_0000)
    ||| (small == 0x20_0000 && big == 0x4000_0000)
    ||| (small == 0x4000_0000 && big == 0x4000_0000)
}

/// The aligned block of `big` bytes around an address is the one around the
/// start of the aligned block of `small` bytes that holds the address.
pub proof fn lemma_blocks_nest(x: int, v: int, small: int, big: int)
    requires
        0 <= x <= v < x + small,
        x % small == 0,
        page_sizes(small, big),
    ensures
        v - v % big == x - x % big,
{
    if small == 0x1000 && big == 0x1000 {
        assert(x % 0x1000 == 0);
        assert(v - v % 0x1000 == x - x % 0x1000);
    } else if small == 0x1000 && big == 0x20_0000 {
        assert(x % 0x1000 == 0);
        assert(v - v % 0x20_0000 == x - x % 0x20_0000);
    } else if small == 0x1000 && big == 0x4000_0000 {
        assert(x % 0x1000 == 0);
        assert(v - v % 0x4000_0000 == x - x % 0x4000_0000);
    } else if small == 0x20_0000 && big == 0x20_0000 {
        assert(x % 0x20_0000 == 0);
        assert(v - v % 0x20_0000 == x - x % 0x20_0000);
    } else if small == 0x20_0000 && big == 0x4000_0000 {
        assert(x % 0x20_0000 == 0);
        assert(v - v % 0x4000_0000 == x - x % 0x4000_0000);
    } else if small == 0x4000_0000 && big == 0x4000_0000 {
        assert(x % 0x4000_0000 == 0);
        assert(v - v % 0x4000_0000 == x - x % 0x4000_0000);
    }
}

/// The aligned block of `small` bytes around an address lies within the
/// aligned block of `big` bytes that holds the address.
pub proof fn lemma_sub_block(x: int, v: int, small: int, big: int)
    requires
        0 <= x <= v < x + big,
        x % big == 0,
        page_sizes(small, big),
    ensures
        x <= v - v % small,
        v - v % small + small <= x + big,
{
    if small == 0x1000 && big == 0x1000 {
        assert(x % 0x1000 == 0);
        assert(x <= v - v % 0x1000);
        assert(v - v % 0x1000 + 0x1000 <= x + 0x1000);
    } else if small == 0x1000 && big == 0x20_0000 {
        assert(x % 0x20_0000 == 0);
        assert(x <= v - v % 0x1000);
        assert(v - v % 0x1000 + 0x1000 <= x + 0x20_0000);
    } else if small == 0x1000 && big == 0x4000_0000 {
        assert(x % 0x4000_0000 == 0);
        assert(x <= v - v % 0x1000);
        assert(v - v % 0x1000 + 0x1000 <= x + 0x4000_0000);
    } else if small == 0x20_0000 && big == 0x20_0000 {
        assert(x % 0x20_0000 == 0);
        assert(x <= v - v % 0x20_0000);
        assert(v - v % 0x20_0000 + 0x20_0000 <= x + 0x20_0000);
    } else if small == 0x20_0000 && big == 0x4000_0000 {
        assert(x % 0x4000_0000 == 0);
        assert(x <= v - v % 0x20_0000);
        assert(v - v % 0x20_0000 + 0x20_0000 <= x + 0x4000_0000);
    } else if small == 0x4000_0000 && big == 0x4000_0000 {
        assert(x % 0x4000_0000 == 0);
        assert(x <= v - v % 0x4000_0000);
        assert(v - v % 0x4000_0000 + 0x4000_0000 <= x + 0x4000_0000);
    }
}

/// What is aligned to a page size is aligned to the smaller page sizes.
pub proof fn lemma_alignment(x: int, small: int, big: int)
    requires
        0 <= x,
        page_sizes(small, big),
        x % big == 0,
    ensures
        x % small == 0,
        (x + big) % small == 0,
{
    if small == 0x1000 && big == 0x1000 {
        assert(x % 0x1000 == 0);
        assert(x % 0x1000 == 0);
        assert((x + 0x1000) % 0x1000 == 0);
    } else if small == 0x1000 && big == 0x20_0000 {
        assert(x % 0x20_0000 == 0);
        assert(x % 0x1000 == 0);
        assert((x + 0x20_0000) % 0x1000 == 0);
    } else if small == 0x1000 && big == 0x4000_0000 {
        assert(x % 0x4000_0000 == 0);
        assert(x % 0x1000 == 0);
        assert((x + 0x4000_0000) % 0x1000 == 0);
    } else if small == 0x20_0000 && big == 0x20_0000 {
        assert(x % 0x20_0000 == 0);
        assert(x % 0x20_0000 == 0);
        assert((x + 0x20_0000) % 0x20_0000 == 0);
    } else if small == 0x20_0000 && big == 0x4000_0000 {
        assert(x % 0x4000_0000 == 0);
        assert(x % 0x20_0000 == 0);
        assert((x + 0x4000_0000) % 0x20_0000 == 0);
    } else if small == 0x4000_0000 && big == 0x4000_0000 {
        assert(x % 0x4000_0000 == 0);
        assert(x % 0x4000_0000 == 0);
        assert((x + 0x4000_0000) % 0x4000_0000 == 0);
    }
}

/// Where one address is aligned, another is aligned exactly if their
/// difference is.
pub proof fn lemma_congruent(a: int, b: int, block: int)
    requires
        0 <= a,
        0 <= b,
        block == 0x1000 || block == 0x20_0000 || block == 0x4000_0000,
        a % block == 0,
    ensures
        b % block == 0 <==> (b - a) % block == 0,
{
    if block == 0x1000 {
        assert(a % 0x1000 == 0);
        assert(b % 0x1000 == 0 <==> (b - a) % 0x1000 == 0);
    } else if block == 0x20_0000 {
        assert(a % 0x20_0000 == 0);
        assert(b % 0x20_0000 == 0 <==> (b - a) % 0x20_0000 == 0);
    } else {
        assert(a % 0x4000_0000 == 0);
        assert(b % 0x4000_0000 == 0 <==> (b - a) % 0x4000_0000 == 0);
    }
}

/// At `done` bytes into a mapping, a larger page than the chosen one cannot
/// map the block around that place.
pub proof fn lemma_no_larger_block(va: int, pa: int, size: int, done: int, other: int)
    requires
        0 <= va,
        0 <= pa,
        0 <= done < size,
        no_block_cut(va, pa, size, done),
        chosen_level(va, pa, size, done) < other <= 2,
    ensures
        !block_fits(va, pa, size, va + done, other),
{
    let x = va + done;
    let big = level_size(other);
    if x % big == 0 {
        if block_fits(va, pa, size, x, other) {
            assert(x - x % big == x);
            lemma_congruent(x, pa + done, big);
            assert(level_allowed(va, pa, size, done, other));
        }
    } else {
        assert(!block_fits(va, pa, size, va + done, other));
    }
}

/// Every address of the block that `map` writes next is mapped by the largest
/// page that can map it.
pub proof fn lemma_chosen_level_is_natural(va: int, pa: int, size: int, done: int, v: int)
    requires
        0 <= va,
        0 <= pa,
        0 <= done < size,
        va % 4096 == 0,
        pa % 4096 == 0,
        size % 4096 == 0,
        done % 4096 == 0,
        no_block_cut(va, pa, size, done),
        va + done <= v < va + done + level_size(chosen_level(va, pa, size, done)),
    ensures
        natural_level(va, pa, size, v) == chosen_level(va, pa, size, done),
{
    let x = va + done;
    let p = pa + done;
    let level = chosen_level(va, pa, size, done);
    let small = level_size(level);
    lemma_chosen_level_allowed(va, pa, size, done);
    assert forall|other: int| 1 <= other <= 2 implies (block_fits(va, pa, size, v, other)
        <==> other <= level) by {
        let big = level_size(other);
        if other <= level {
            lemma_sub_block(x, v, big, small);
            lemma_alignment(x, big, small);
            lemma_alignment(p, big, small);
            lemma_congruent(x, p, big);
        } else {
            lemma_blocks_nest(x, v, small, big);
            lemma_no_larger_block(va, pa, size, done, other);
        }
    }
}

/// The level that `map` chooses is allowed where it is chosen.
pub proof fn lemma_chosen_level_allowed(va: int, pa: int, size: int, done: int)
    requires
        0 <= va,
        0 <= pa,
        0 <= done < size,
        va % 4096 == 0,
        pa % 4096 == 0,
        size % 4096 == 0,
        done % 4096 == 0,
    ensures
        level_allowed(va, pa, size, done, chosen_level(va, pa, size, done)),
        0 <= chosen_level(va, pa, size, done) <= 2,
{
    lemma_congruent(0, done, 0x1000);
    lemma_congruent(done, size, 0x1000);
    lemma_congruent(va, va + done, 0x1000);
    lemma_congruent(pa, pa + done, 0x1000);
}

/// Behind the block that `map` writes next, the place again lies inside no
/// larger block that a single leaf could have mapped.
pub proof fn lemma_no_block_cut_next(va: int, pa: int, size: int, done: int)
    requires
        0 <= va,
        0 <= pa,
        0 <= done < size,
        va % 4096 == 0,
        pa % 4096 == 0,
        size % 4096 == 0,
        done % 4096 == 0,
        no_block_cut(va, pa, size, done),
    ensures
        no_block_cut(va, pa, size, done + level_size(chosen_level(va, pa, size, done))),
{
    let x = va + done;
    let level = chosen_level(va, pa, size, done);
    let small = level_size(level);
    let y = x + small;
    lemma_chosen_level_allowed(va, pa, size, done);
    assert forall|other: int| 1 <= other <= 2 && y % level_size(other) != 0
        implies !#[trigger] block_fits(
        va,
        pa,
        size,
        va + (done + small),
        other,
    ) by {
        let big = level_size(other);
        if other <= level {
            lemma_alignment(x, big, small);
        } else {
            // the block around the next place is the block around this one
            lemma_blocks_nest(x, y - 1, small, big);
            assert((y - 1) - (y - 1) % big == y - y % big);
            lemma_no_larger_block(va, pa, size, done, other);
        }
    }
}

/// The mapping stays one of largest pages when the next block is written
/// with the level that `map` chooses.
pub proof fn lemma_natural_pages_grow(
    before: Seq<PageTableEntry>,
    after: Seq<PageTableEntry>,
    va: int,
    pa: int,
    size: int,
    done: int,
    leaf: PageTableEntry,
)
    requires
        0 <= va,
        0 <= pa,
        0 <= done < size,
        va % 4096 == 0,
        pa % 4096 == 0,
        size % 4096 == 0,
        done % 4096 == 0,
        no_block_cut(va, pa, size, done),
        uses_natural_pages(before, va, pa, size, done),
        forall|u: int|
            va + done <= u < va + done + level_size(chosen_level(va, pa, size, done))
                ==> #[trigger] walk(after, u) == Some((leaf, chosen_level(va, pa, size, done))),
        forall|u: int|
            !(va + done <= u < va + done + level_size(chosen_level(va, pa, size, done)))
                ==> #[trigger] walk(after, u) == walk(before, u),
    ensures
        uses_natural_pages(
            after,
            va,
            pa,
            size,
            done + level_size(chosen_level(va, pa, size, done)),
        ),
        no_block_cut(va, pa, size, done + level_size(chosen_level(va, pa, size, done))),
{
    let level = chosen_level(va, pa, size, done);
    lemma_no_block_cut_next(va, pa, size, done);
    assert forall|v: int| va <= v < va + done + level_size(level) implies (#[trigger] walk(
        after,
        v,
    ) matches Some((entry, found)) && found == natural_level(va, pa, size, v)) by {
        if v < va + done {
            assert(walk(after, v) == walk(before, v));
        } else {
            lemma_chosen_level_is_natural(va, pa, size, done, v);
            assert(walk(after, v) == Some((leaf, level)));
        }
    }
}

/// What `map` has done once `done` bytes of the mapping are mapped: these
/// bytes are mapped with the largest pages that can map them, nothing else
/// has changed, and no larger block was cut into smaller pages.
#[verifier::opaque]
pub open spec fn map_progress(
    start: Seq<PageTableEntry>,
    entries: Seq<PageTableEntry>,
    va: int,
    pa: int,
    size: int,
    done: int,
    xwr: XWRMode,
    user: bool,
) -> bool {
    &&& is_mapping_of(start, entries, va, pa, done, xwr, user)
    &&& no_block_cut(va, pa, size, done)
    &&& uses_natural_pages(entries, va, pa, size, done)
}

/// Before `map` has mapped anything, nothing is done.
pub proof fn lemma_progress_begins(
    start: Seq<PageTableEntry>,
    va: int,
    pa: int,
    size: int,
    xwr: XWRMode,
    user: bool,
)
    requires
        0 <= va,
    ensures
        map_progress(start, start, va, pa, size, 0, xwr, user),
{
    reveal(map_progress);
    assert forall|level: int|
        1 <= level <= 2 && (va + 0) % level_size(level) != 0 implies !#[trigger] block_fits(
        va,
        pa,
        size,
        va + 0,
        level,
    ) by {
        let block = level_size(level);
        assert(va - va % block < va);
    }
}

/// The block that `map` writes next lies in the part of the range that is
/// not mapped yet.
pub proof fn lemma_progress_unmapped(
    start: Seq<PageTableEntry>,
    entries: Seq<PageTableEntry>,
    va: int,
    pa: int,
    size: int,
    done: int,
    xwr: XWRMode,
    user: bool,
)
    requires
        map_progress(start, entries, va, pa, size, done, xwr, user),
        range_unmapped(start, va, size),
        0 <= done < size,
    ensures
        walk(entries, va + done) is None,
{
    reveal(map_progress);
    assert(walk(entries, va + done) == walk(start, va + done));
}

/// Writing the next block with the level that `map` chooses takes the
/// mapping one block further.
pub proof fn lemma_progress_step(
    start: Seq<PageTableEntry>,
    before: Seq<PageTableEntry>,
    after: Seq<PageTableEntry>,
    va: int,
    pa: int,
    size: int,
    done: int,
    xwr: XWRMode,
    user: bool,
)
    requires
        map_progress(start, before, va, pa, size, done, xwr, user),
        0 <= va,
        0 <= pa,
        0 <= done < size,
        va % 4096 == 0,
        pa % 4096 == 0,
        size % 4096 == 0,
        done % 4096 == 0,
        pa + size <= PHYSICAL_ADDRESS_LIMIT,
        forall|u: int|
            va + done <= u < va + done + level_size(chosen_level(va, pa, size, done))
                ==> #[trigger] walk(after, u) == Some(
                (PageTableEntry::spec_leaf(pa + done, xwr, user), chosen_level(va, pa, size, done)),
            ),
        forall|u: int|
            !(va + done <= u < va + done + level_size(chosen_level(va, pa, size, done)))
                ==> #[trigger] walk(after, u) == walk(before, u),
    ensures
        map_progress(
            start,
            after,
            va,
            pa,
            size,
            done + level_size(chosen_level(va, pa, size, done)),
            xwr,
            user,
        ),
        done + level_size(chosen_level(va, pa, size, done)) <= size,
{
    reveal(map_progress);
    let level = chosen_level(va, pa, size, done);
    lemma_chosen_level_allowed(va, pa, size, done);
    lemma_mapping_grows(start, before, after, va, pa, done, level, xwr, user);
    lemma_natural_pages_grow(
        before,
        after,
        va,
        pa,
        size,
        done,
        PageTableEntry::spec_leaf(pa + done, xwr, user),
    );
}

/// Once all bytes are done, the range is mapped, with the largest pages that
/// can map it.
pub proof fn lemma_progress_ends(
    start: Seq<PageTableEntry>,
    entries: Seq<PageTableEntry>,
    va: int,
    pa: int,
    size: int,
    xwr: XWRMode,
    user: bool,
)
    requires
        map_progress(start, entries, va, pa, size, size, xwr, user),
    ensures
        is_mapping_of(start, entries, va, pa, size, xwr, user),
        uses_natural_pages(entries, va, pa, size, size),
{
    reveal(map_progress);
}

/// The tables form a tree under the root: every pointer names a table of the
/// list other than the root, no table is named twice, and every leaf holds a
/// frame number of 44 bits.
#[verifier::opaque]
pub open spec fn tables_wf(entries: Seq<PageTableEntry>) -> bool {
    &&& entries.len() >= 512
    &&& entries.len() % 512 == 0
    &&& forall|k: int|
        0 <= k < entries.len() && (#[trigger] entries[k]).is_pointer() ==> 1 <= entries[k].ppn
            && entries[k].ppn * 512 + 512 <= entries.len()
    &&& forall|k: int|
        0 <= k < entries.len() && (#[trigger] entries[k]).is_leaf() ==> entries[k].ppn < PPN_LIMIT
    &&& forall|j: int, k: int|
        0 <= j < entries.len() && 0 <= k < entries.len() && (#[trigger] entries[j]).is_pointer()
            && (
        #[trigger] entries[k]).is_pointer() && entries[j].ppn == entries[k].ppn ==> j == k
}

/// The index parts of an address put it together again.
pub proof fn lemma_vpn(va: int)
    requires
        0 <= va < VIRTUAL_ADDRESS_LIMIT,
    ensures
        0 <= vpn(va, 2) < 512,
        0 <= vpn(va, 1) < 512,
        0 <= vpn(va, 0) < 512,
        va / 0x4000_0000 == vpn(va, 2),
        va / 0x20_0000 == vpn(va, 2) * 512 + vpn(va, 1),
        va / 0x1000 == (vpn(va, 2) * 512 + vpn(va, 1)) * 512 + vpn(va, 0),
{
}

/// Two addresses lie in the same aligned block of a level exactly if they
/// agree in the index parts from that level upwards.
pub proof fn lemma_same_block(a: int, b: int, level: int)
    requires
        0 <= a < VIRTUAL_ADDRESS_LIMIT,
        0 <= b < VIRTUAL_ADDRESS_LIMIT,
        0 <= level <= 2,
    ensures
        a / level_size(level) == b / level_size(level) <==> {
            &&& vpn(a, 2) == vpn(b, 2)
            &&& level <= 1 ==> vpn(a, 1) == vpn(b, 1)
            &&& level <= 0 ==> vpn(a, 0) == vpn(b, 0)
        },
{
    lemma_vpn(a);
    lemma_vpn(b);
}

/// The addresses of the aligned block that starts at `base` are those with
/// the quotient of `base`.
pub proof fn lemma_block_members(base: int, v: int, level: int)
    requires
        0 <= base,
        0 <= level <= 2,
        base % level_size(level) == 0,
    ensures
        base <= v < base + level_size(level) <==> v / level_size(level) == base / level_size(level),
        base <= v < base + level_size(level) ==> v % level_size(level) == v - base,
{
    if level == 2 {
        assert(level_size(level) == 0x4000_0000);
    } else if level == 1 {
        assert(level_size(level) == 0x20_0000);
    } else {
        assert(level_size(level) == 0x1000);
    }
}

/// The slot that holds the entry of `va` at `level`, where the tables above
/// it exist.
pub open spec fn slot_index(entries: Seq<PageTableEntry>, va: int, level: int) -> int {
    if level == 2 {
        vpn(va, 2)
    } else if level == 1 {
        entries[vpn(va, 2)].ppn * 512 + vpn(va, 1)
    } else {
        entries[entries[vpn(va, 2)].ppn * 512 + vpn(va, 1)].ppn * 512 + vpn(va, 0)
    }
}

/// The tables above the slot of `va` at `level` exist.
pub open spec fn path_exists(entries: Seq<PageTableEntry>, va: int, level: int) -> bool {
    level == 2 || (entries[vpn(va, 2)].is_pointer() && (level == 1 || entries[slot_index(
        entries,
        va,
        1,
    )].is_pointer()))
}

/// Writing a leaf into the slot of an aligned block maps exactly that block
/// and changes the walk of no other address.
pub proof fn lemma_install_leaf(
    entries: Seq<PageTableEntry>,
    base: int,
    level: int,
    leaf: PageTableEntry,
)
    requires
        tables_wf(entries),
        0 <= level <= 2,
        0 <= base,
        base + level_size(level) <= VIRTUAL_ADDRESS_LIMIT,
        base % level_size(level) == 0,
        path_exists(entries, base, level),
        leaf.is_leaf(),
        leaf.ppn < PPN_LIMIT,
    ensures
        0 <= slot_index(entries, base, level) < entries.len(),
        tables_wf(entries.update(slot_index(entries, base, level), leaf)),
        forall|v: int|
            base <= v < base + level_size(level) ==> #[trigger] walk(
                entries.update(slot_index(entries, base, level), leaf),
                v,
            ) == Some((leaf, level)),
        forall|v: int|
            !(base <= v < base + level_size(level)) ==> #[trigger] walk(
                entries.update(slot_index(entries, base, level), leaf),
                v,
            ) == walk(entries, v),
{
    reveal(walk);
    reveal(tables_wf);
    let k = slot_index(entries, base, level);
    let after = entries.update(k, leaf);
    lemma_vpn(base);
    let r = entries[vpn(base, 2)];
    if level <= 1 {
        assert(r.is_pointer());
        if level == 0 {
            assert(entries[r.ppn * 512 + vpn(base, 1)].is_pointer());
        }
    }
    assert(0 <= k < entries.len());
    assert(tables_wf(after)) by {
        assert forall|j: int| 0 <= j < after.len() && (#[trigger] after[j]).is_pointer() implies 1
            <= after[j].ppn && after[j].ppn * 512 + 512 <= after.len() by {
            assert(entries[j].is_pointer());
        }
        assert forall|j: int| 0 <= j < after.len() && (#[trigger] after[j]).is_leaf()
            implies after[j].ppn
            < PPN_LIMIT by {
            if j != k {
                assert(entries[j].is_leaf());
            }
        }
        assert forall|i: int, j: int|
            0 <= i < after.len() && 0 <= j < after.len() && (#[trigger] after[i]).is_pointer() && (
            #[trigger] after[j]).is_pointer() && after[i].ppn == after[j].ppn implies i == j by {
            assert(entries[i].is_pointer());
            assert(entries[j].is_pointer());
        }
    }
    assert forall|v: int| base <= v < base + level_size(level) implies #[trigger] walk(after, v)
        == Some((leaf, level)) by {
        lemma_vpn(v);
        lemma_block_members(base, v, level);
        lemma_same_block(base, v, level);
        let i2 = vpn(v, 2);
        if level <= 1 {
            assert(i2 != k);
            assert(after[i2] == r);
            let k1 = r.ppn * 512 + vpn(v, 1);
            if level == 0 {
                assert(k1 != k) by {
                    if k1 == k {
                        assert(entries[k1].is_pointer());
                        assert(entries[i2].is_pointer());
                    }
                }
            }
        }
    }
    assert forall|v: int| !(base <= v < base + level_size(level)) implies #[trigger] walk(after, v)
        == walk(entries, v) by {
        if 0 <= v < VIRTUAL_ADDRESS_LIMIT {
            lemma_vpn(v);
            lemma_block_members(base, v, level);
            lemma_same_block(base, v, level);
            let i2 = vpn(v, 2);
            let e2 = entries[i2];
            if level == 2 {
                assert(i2 != k);
            } else {
                assert(i2 < 512 && k >= 512);
            }
            assert(after[i2] == e2);
            if e2.is_pointer() {
                let k1 = e2.ppn * 512 + vpn(v, 1);
                let e1 = entries[k1];
                assert(k1 != k) by {
                    if k1 == k {
                        if level == 1 {
                            assert(e2.ppn == r.ppn);
                            assert(entries[vpn(base, 2)].is_pointer());
                        } else if level == 0 {
                            let kb = r.ppn * 512 + vpn(base, 1);
                            assert(entries[kb].is_pointer());
                            assert(entries[kb].ppn == e2.ppn);
                            assert(kb == i2);
                        }
                    }
                }
                assert(after[k1] == e1);
                if e1.is_pointer() {
                    let k0 = e1.ppn * 512 + vpn(v, 0);
                    assert(k0 != k) by {
                        if k0 == k {
                            if level == 1 {
                                assert(e1.ppn == r.ppn);
                                assert(entries[vpn(base, 2)].is_pointer());
                                assert(k1 == vpn(base, 2));
                            } else if level == 0 {
                                let kb = r.ppn * 512 + vpn(base, 1);
                                assert(entries[kb].is_pointer());
                                assert(entries[kb].ppn == e1.ppn);
                                assert(kb == k1);
                                assert(r.ppn == e2.ppn);
                                assert(entries[vpn(base, 2)].is_pointer());
                                assert(i2 == vpn(base, 2));
                            }
                        }
                    }
                    assert(after[k0] == entries[k0]);
                }
            }
        }
    }
}

/// A new, empty table hung into a slot that was not valid changes the walk of
/// no address.
pub proof fn lemma_add_table(entries: Seq<PageTableEntry>, k: int)
    requires
        tables_wf(entries),
        entries.len() <= u64::MAX,
        0 <= k < entries.len(),
        !entries[k].valid,
    ensures
        tables_wf(with_new_table(entries, k)),
        forall|v: int| #[trigger] walk(with_new_table(entries, k), v) == walk(entries, v),
        forall|j: int| 0 <= j < entries.len() && j != k ==> with_new_table(entries, k)[j]
            == entries[j],
{
    reveal(walk);
    reveal(tables_wf);
    let t = entries.len() / 512;
    let after = with_new_table(entries, k);
    let pointer = PageTableEntry::spec_pointer(t as int);
    assert(after.len() == entries.len() + 512);
    assert forall|j: int| 0 <= j < after.len() && j != k implies #[trigger] after[j] == if j
        < entries.len() {
        entries[j]
    } else {
        PageTableEntry::spec_invalid()
    } by {}
    assert(after[k] == pointer);
    assert(tables_wf(after)) by {
        assert forall|j: int| 0 <= j < after.len() && (#[trigger] after[j]).is_pointer() implies 1
            <= after[j].ppn && after[j].ppn * 512 + 512 <= after.len() by {
            if j != k {
                assert(entries[j].is_pointer());
            }
        }
        assert forall|j: int| 0 <= j < after.len() && (#[trigger] after[j]).is_leaf()
            implies after[j].ppn
            < PPN_LIMIT by {
            assert(j != k);
            assert(entries[j].is_leaf());
        }
        assert forall|i: int, j: int|
            0 <= i < after.len() && 0 <= j < after.len() && (#[trigger] after[i]).is_pointer() && (
            #[trigger] after[j]).is_pointer() && after[i].ppn == after[j].ppn implies i == j by {
            if i != k {
                assert(entries[i].is_pointer());
            }
            if j != k {
                assert(entries[j].is_pointer());
            }
        }
    }
    assert forall|v: int| #[trigger] walk(after, v) == walk(entries, v) by {
        if 0 <= v < VIRTUAL_ADDRESS_LIMIT {
            lemma_vpn(v);
            let i2 = vpn(v, 2);
            let e2 = entries[i2];
            if i2 == k {
                assert(after[t * 512 + vpn(v, 1)] == PageTableEntry::spec_invalid());
            } else {
                assert(after[i2] == e2);
                if e2.is_pointer() {
                    let k1 = e2.ppn * 512 + vpn(v, 1);
                    let e1 = entries[k1];
                    if k1 == k {
                        assert(after[t * 512 + vpn(v, 0)] == PageTableEntry::spec_invalid());
                    } else {
                        assert(after[k1] == e1);
                        if e1.is_pointer() {
                            let k0 = e1.ppn * 512 + vpn(v, 0);
                            if k0 != k {
                                assert(after[k0] == entries[k0]);
                            }
                        }
                    }
                }
            }
        }
    }
}

/// The tables with one more table, all of its entries invalid, and slot `k`
/// pointing to it.
pub open spec fn with_new_table(entries: Seq<PageTableEntry>, k: int) -> Seq<PageTableEntry> {
    (entries + Seq::new(512, |i: int| PageTableEntry::spec_invalid())).update(
        k,
        PageTableEntry::spec_pointer(entries.len() as int / 512),
    )
}

/// Where an address is not mapped, the slots on its way hold no leaf: the
/// slot of the root, and the slot of the table under it where there is one.
pub proof fn lemma_unmapped_slots(entries: Seq<PageTableEntry>, va: int)
    requires
        tables_wf(entries),
        0 <= va < VIRTUAL_ADDRESS_LIMIT,
        walk(entries, va) is None,
    ensures
        0 <= vpn(va, 2) < 512 <= entries.len(),
        !entries[vpn(va, 2)].is_leaf(),
        entries[vpn(va, 2)].is_pointer() ==> 0 <= slot_index(entries, va, 1) < entries.len()
            && !entries[slot_index(entries, va, 1)].is_leaf(),
{
    reveal(walk);
    reveal(tables_wf);
    lemma_vpn(va);
}

/// All addresses of one 4 KiB page walk alike.
pub proof fn lemma_walk_same_page(entries: Seq<PageTableEntry>, a: int, b: int)
    requires
        0 <= a,
        0 <= b,
        a / 0x1000 == b / 0x1000,
    ensures
        walk(entries, a) == walk(entries, b),
{
    reveal(walk);
    reveal(tables_wf);
    if a < VIRTUAL_ADDRESS_LIMIT {
        lemma_vpn(a);
        lemma_vpn(b);
    }
}

/// One address space: the root table and the tables under it.
pub struct RootPageTableHolder {
    entries: Vec<PageTableEntry>,
}

impl RootPageTableHolder {
    /// The entries of all tables, table after table, the root first.
    pub closed spec fn view(&self) -> Seq<PageTableEntry> {
        self.entries@
    }

    /// The tables form a tree under the root.
    pub open spec fn wf(&self) -> bool {
        tables_wf(self@)
    }

    /// The address space that maps nothing.
    pub fn empty() -> (tables: Self)
        ensures
            tables.wf(),
            forall|v: int| #[trigger] walk(tables@, v) is None,
    {
        proof {
            reveal(walk);
            reveal(tables_wf);
        }
        let mut entries: Vec<PageTableEntry> = Vec::new();
        let mut i: usize = 0;
        while i < ENTRIES_PER_TABLE
            invariant
                i <= ENTRIES_PER_TABLE,
                entries@.len() == i,
                forall|k: int| 0 <= k < i ==> entries@[k] == PageTableEntry::spec_invalid(),
            decreases ENTRIES_PER_TABLE - i,
        {
            entries.push(PageTableEntry::invalid());
            i = i + 1;
        }
        let tables = RootPageTableHolder { entries };
        assert forall|v: int| #[trigger] walk(tables@, v) is None by {
            if 0 <= v < VIRTUAL_ADDRESS_LIMIT {
                lemma_vpn(v);
            }
        }
        tables
    }

    /// The number of tables of this address space, the root included.
    pub fn table_count(&self) -> (n: usize)
        requires
            self.wf(),
        ensures
            n == self@.len() / 512,
    {
        proof {
            reveal(walk);
            reveal(tables_wf);
        }
        self.entries.len() / ENTRIES_PER_TABLE
    }

    /// Walks the tables for `va` and returns the leaf and its level.
    pub fn lookup(&self, va: u64) -> (found: Option<(PageTableEntry, u8)>)
        requires
            self.wf(),
        ensures
            match found {
                Some((entry, level)) => walk(self@, va as int) == Some((entry, level as int)),
                None => walk(self@, va as int) is None,
            },
    {
        proof {
            reveal(walk);
            reveal(tables_wf);
        }
        if va >= VIRTUAL_ADDRESS_LIMIT {
            return None;
        }
        proof {
            lemma_vpn(va as int);
        }
        let len: usize = self.entries.len();
        let i2: usize = ((va / GIGA_PAGE_SIZE) % 512) as usize;
        let e2 = self.entries[i2];
        if !e2.valid {
            return None;
        }
        if e2.xwr != XWRMode::PointerToNextLevel {
            return Some((e2, 2));
        }
        assert(e2.is_pointer());
        let k1: usize = (e2.ppn as usize) * 512 + ((va / MEGA_PAGE_SIZE) % 512) as usize;
        let e1 = self.entries[k1];
        if !e1.valid {
            return None;
        }
        if e1.xwr != XWRMode::PointerToNextLevel {
            return Some((e1, 1));
        }
        assert(e1.is_pointer());
        let k0: usize = (e1.ppn as usize) * 512 + ((va / PAGE_SIZE) % 512) as usize;
        let e0 = self.entries[k0];
        if e0.valid && e0.xwr != XWRMode::PointerToNextLevel {
            Some((e0, 0))
        } else {
            None
        }
    }

    /// The physical address that `va` translates to, or `None` where an entry
    /// on the way is not valid.
    pub fn translate(&self, va: u64) -> (pa: Option<u64>)
        requires
            self.wf(),
        ensures
            pa is Some <==> translation(self@, va as int) is Some,
            pa matches Some(p) ==> translation(self@, va as int) == Some(p as int),
    {
        match self.lookup(va) {
            Some((entry, level)) => {
                proof {
                    lemma_walk_finds_leaf(self@, va as int);
                }
                let size: u64 = if level == 2 {
                    GIGA_PAGE_SIZE
                } else if level == 1 {
                    MEGA_PAGE_SIZE
                } else {
                    PAGE_SIZE
                };
                Some(entry.ppn * PAGE_SIZE + va % size)
            },
            None => None,
        }
    }

    /// The physical address that `va` translates to, where user mode may
    /// access `va`; `None` for an address that is not mapped or is the
    /// kernel's.
    pub fn translate_userspace_address(&self, va: u64) -> (pa: Option<u64>)
        requires
            self.wf(),
        ensures
            pa is Some <==> user_accessible(self@, va as int, false),
            pa matches Some(p) ==> translation(self@, va as int) == Some(p as int),
    {
        match self.lookup(va) {
            Some((entry, level)) => {
                if !entry.user {
                    return None;
                }
                self.translate(va)
            },
            None => None,
        }
    }

    /// Whether user mode may access every byte of `ptr .. ptr + len`: each
    /// page that the range touches is mapped with U set and, where `write` is
    /// asked, with W set.
    pub fn is_valid_userspace_ptr(&self, ptr: u64, len: u64, write: bool) -> (valid: bool)
        requires
            self.wf(),
        ensures
            valid == forall|a: int| ptr <= a < ptr + len ==> user_accessible(self@, a, write),
    {
        proof {
            reveal(walk);
            reveal(tables_wf);
        }
        if len == 0 {
            return true;
        }
        if ptr >= VIRTUAL_ADDRESS_LIMIT {
            assert(!user_accessible(self@, ptr as int, write));
            return false;
        }
        if len > VIRTUAL_ADDRESS_LIMIT - ptr {
            assert(!user_accessible(self@, VIRTUAL_ADDRESS_LIMIT as int, write));
            return false;
        }
        let end: u64 = ptr + len;
        let mut page: u64 = align_down(ptr, PAGE_SIZE);
        while page < end
            invariant
                self.wf(),
                len > 0,
                end == ptr + len,
                end <= VIRTUAL_ADDRESS_LIMIT,
                page % PAGE_SIZE == 0,
                page <= ptr || page <= end + PAGE_SIZE,
                page > ptr - PAGE_SIZE,
                forall|a: int| ptr <= a < end && a < page ==> user_accessible(self@, a, write),
            decreases end + PAGE_SIZE - page,
        {
            let ok = match self.lookup(page) {
                Some((entry, level)) => entry.user && (!write || entry.xwr.is_writable()),
                None => false,
            };
            if !ok {
                let ghost witness: int = if page < ptr {
                    ptr as int
                } else {
                    page as int
                };
                proof {
                    lemma_walk_same_page(self@, witness, page as int);
                }
                assert(!user_accessible(self@, witness, write));
                assert(ptr <= witness < ptr + len);
                return false;
            }
            assert forall|a: int| ptr <= a < end && a < page + PAGE_SIZE implies user_accessible(
                self@,
                a,
                write,
            ) by {
                if a >= page {
                    lemma_walk_same_page(self@, a, page as int);
                }
            }
            page = page + PAGE_SIZE;
        }
        true
    }

    /// Whether no address of `va .. va + size` is mapped.
    pub fn is_range_unmapped(&self, va: u64, size: u64) -> (unmapped: bool)
        requires
            self.wf(),
        ensures
            unmapped == range_unmapped(self@, va as int, size as int),
    {
        proof {
            reveal(walk);
            reveal(tables_wf);
        }
        if size == 0 || va >= VIRTUAL_ADDRESS_LIMIT {
            return true;
        }
        let end: u64 = if size > VIRTUAL_ADDRESS_LIMIT - va {
            VIRTUAL_ADDRESS_LIMIT
        } else {
            va + size
        };
        let mut page: u64 = align_down(va, PAGE_SIZE);
        while page < end
            invariant
                self.wf(),
                va < end <= VIRTUAL_ADDRESS_LIMIT,
                end <= va + size,
                end == va + size || end == VIRTUAL_ADDRESS_LIMIT,
                page % PAGE_SIZE == 0,
                page > va - PAGE_SIZE,
                forall|a: int| va <= a < end && a < page ==> walk(self@, a) is None,
            decreases end + PAGE_SIZE - page,
        {
            if self.lookup(page).is_some() {
                let ghost witness: int = if page < va {
                    va as int
                } else {
                    page as int
                };
                proof {
                    lemma_walk_same_page(self@, witness, page as int);
                }
                assert(walk(self@, witness) is Some);
                return false;
            }
            assert forall|a: int| va <= a < end && a < page + PAGE_SIZE implies walk(
                self@,
                a,
            ) is None by {
                if a >= page {
                    lemma_walk_same_page(self@, a, page as int);
                }
            }
            page = page + PAGE_SIZE;
        }
        true
    }

    /// The table under slot `k`; where the slot is not valid, a new empty
    /// table is made and hung into it first.
    fn get_or_create_table(&mut self, k: usize) -> (table: usize)
        requires
            old(self).wf(),
            k < old(self)@.len(),
            !old(self)@[k as int].is_leaf(),
        ensures
            final(self).wf(),
            final(self)@.len() >= old(self)@.len(),
            final(self)@[k as int].is_pointer(),
            final(self)@[k as int].ppn == table,
            1 <= table,
            table * 512 + 512 <= final(self)@.len(),
            final(self)@.len() <= usize::MAX,
            forall|v: int| #[trigger] walk(final(self)@, v) == walk(old(self)@, v),
            forall|j: int| 0 <= j < old(self)@.len() && j != k ==> final(self)@[j] == old(self)@[j],
    {
        proof {
            reveal(walk);
            reveal(tables_wf);
        }
        let entry = self.entries[k];
        let len: usize = self.entries.len();
        if entry.valid {
            assert(entry.is_pointer());
            return entry.ppn as usize;
        }
        let table: usize = len / ENTRIES_PER_TABLE;
        proof {
            lemma_add_table(self@, k as int);
        }
        let mut i: usize = 0;
        while i < ENTRIES_PER_TABLE
            invariant
                i <= ENTRIES_PER_TABLE,
                self.entries@.len() == len + i,
                self.entries@.subrange(0, len as int) == old(self).entries@,
                forall|j: int| len <= j < len + i ==> self.entries@[j]
                    == PageTableEntry::spec_invalid(),
            decreases ENTRIES_PER_TABLE - i,
        {
            self.entries.push(PageTableEntry::invalid());
            i = i + 1;
            assert(self.entries@.subrange(0, len as int) =~= old(self).entries@);
        }
        assert(self.entries@ =~= old(self).entries@ + Seq::new(
            512,
            |i: int| PageTableEntry::spec_invalid(),
        )) by {
            assert forall|j: int| 0 <= j < len implies self.entries@[j]
                == old(self).entries@[j] by {
                assert(self.entries@.subrange(0, len as int)[j] == self.entries@[j]);
            }
        }
        self.entries[k] = PageTableEntry::pointer(table as u64);
        assert(self.entries@ =~= with_new_table(old(self)@, k as int));
        let ghost grown = self.entries.len();
        table
    }

    /// Writes the leaf that maps the aligned block of `level` at `v` to the
    /// physical memory at `p`, and makes the tables above its slot first.
    fn map_chunk(&mut self, v: u64, p: u64, level: u8, privileges: XWRMode, user: bool)
        requires
            old(self).wf(),
            level <= 2,
            v % (level_size(level as int) as u64) == 0,
            v + level_size(level as int) <= VIRTUAL_ADDRESS_LIMIT,
            p < PHYSICAL_ADDRESS_LIMIT,
            privileges != XWRMode::PointerToNextLevel,
            walk(old(self)@, v as int) is None,
        ensures
            final(self).wf(),
            forall|u: int|
                v <= u < v + level_size(level as int) ==> #[trigger] walk(final(self)@, u) == Some(
                    (PageTableEntry::spec_leaf(p as int, privileges, user), level as int),
                ),
            forall|u: int|
                !(v <= u < v + level_size(level as int)) ==> #[trigger] walk(final(self)@, u)
                    == walk(old(self)@, u),
    {
        let leaf = PageTableEntry::leaf(p, privileges, user);
        let ghost before = self@;
        proof {
            lemma_vpn(v as int);
            lemma_unmapped_slots(before, v as int);
        }
        let len: usize = self.entries.len();
        let mut slot: usize = ((v / GIGA_PAGE_SIZE) % 512) as usize;
        if level <= 1 {
            let table = self.get_or_create_table(slot);
            slot = table * 512 + ((v / MEGA_PAGE_SIZE) % 512) as usize;
        }
        let ghost middle = self@;
        if level == 0 {
            let ghost root_slot = vpn(v as int, 2);
            proof {
                assert(walk(middle, v as int) == walk(before, v as int));
                lemma_unmapped_slots(middle, v as int);
            }
            let table = self.get_or_create_table(slot);
            assert(self@[root_slot] == middle[root_slot]);
            slot = table * 512 + ((v / PAGE_SIZE) % 512) as usize;
        }
        let ghost ready = self@;
        assert(path_exists(ready, v as int, level as int));
        assert(slot == slot_index(ready, v as int, level as int));
        assert forall|u: int| #[trigger] walk(ready, u) == walk(before, u) by {
            assert(walk(ready, u) == walk(middle, u));
            assert(walk(middle, u) == walk(before, u));
        }
        proof {
            lemma_install_leaf(ready, v as int, level as int, leaf);
        }
        self.entries[slot] = leaf;
        assert(self@ == ready.update(slot as int, leaf));
    }

    /// Maps `size` bytes from `virtual_address_start` to the physical memory
    /// from `physical_address_start`, each stretch with the largest page that
    /// its alignment and what is left of the range allow; tables on the way
    /// are made as needed. Nothing is mapped, and `false` returned, where the
    /// privileges are those of a pointer, where the range leaves the
    /// translated virtual or the physical address range, or where some
    /// address of it is mapped already.
    pub fn map(
        &mut self,
        virtual_address_start: u64,
        physical_address_start: u64,
        size: u64,
        privileges: XWRMode,
        is_user_mode_accessible: bool,
    ) -> (mapped: bool)
        requires
            old(self).wf(),
            virtual_address_start % PAGE_SIZE == 0,
            physical_address_start % PAGE_SIZE == 0,
            size % PAGE_SIZE == 0,
        ensures
            final(self).wf(),
            mapped <==> {
                &&& privileges != XWRMode::PointerToNextLevel
                &&& virtual_address_start + size <= VIRTUAL_ADDRESS_LIMIT
                &&& physical_address_start + size <= PHYSICAL_ADDRESS_LIMIT
                &&& range_unmapped(old(self)@, virtual_address_start as int, size as int)
            },
            mapped ==> is_mapping_of(
                old(self)@,
                final(self)@,
                virtual_address_start as int,
                physical_address_start as int,
                size as int,
                privileges,
                is_user_mode_accessible,
            ),
            mapped ==> uses_natural_pages(
                final(self)@,
                virtual_address_start as int,
                physical_address_start as int,
                size as int,
                size as int,
            ),
            !mapped ==> final(self)@ == old(self)@,
    {
        if privileges == XWRMode::PointerToNextLevel {
            return false;
        }
        if virtual_address_start > VIRTUAL_ADDRESS_LIMIT || size > VIRTUAL_ADDRESS_LIMIT
            - virtual_address_start {
            return false;
        }
        if physical_address_start > PHYSICAL_ADDRESS_LIMIT || size > PHYSICAL_ADDRESS_LIMIT
            - physical_address_start {
            return false;
        }
        if !self.is_range_unmapped(virtual_address_start, size) {
            return false;
        }
        let va = virtual_address_start;
        let pa = physical_address_start;
        let mut offset: u64 = 0;
        proof {
            lemma_progress_begins(
                self@,
                va as int,
                pa as int,
                size as int,
                privileges,
                is_user_mode_accessible,
            );
        }
        while offset < size
            invariant
                self.wf(),
                privileges != XWRMode::PointerToNextLevel,
                va % PAGE_SIZE == 0,
                pa % PAGE_SIZE == 0,
                size % PAGE_SIZE == 0,
                offset % PAGE_SIZE == 0,
                offset <= size,
                va + size <= VIRTUAL_ADDRESS_LIMIT,
                pa + size <= PHYSICAL_ADDRESS_LIMIT,
                range_unmapped(old(self)@, va as int, size as int),
                map_progress(
                    old(self)@,
                    self@,
                    va as int,
                    pa as int,
                    size as int,
                    offset as int,
                    privileges,
                    is_user_mode_accessible,
                ),
            decreases size - offset,
        {
            let v: u64 = va + offset;
            let p: u64 = pa + offset;
            let remaining: u64 = size - offset;
            let ghost before = self@;
            let level: u8 = if remaining >= GIGA_PAGE_SIZE && v % GIGA_PAGE_SIZE == 0 && p
                % GIGA_PAGE_SIZE == 0 {
                2
            } else if remaining >= MEGA_PAGE_SIZE && v % MEGA_PAGE_SIZE == 0 && p % MEGA_PAGE_SIZE
                == 0 {
                1
            } else {
                0
            };
            let step: u64 = if level == 2 {
                GIGA_PAGE_SIZE
            } else if level == 1 {
                MEGA_PAGE_SIZE
            } else {
                PAGE_SIZE
            };
            proof {
                lemma_chosen_level_allowed(va as int, pa as int, size as int, offset as int);
                assert(level == chosen_level(va as int, pa as int, size as int, offset as int));
                assert(step == level_size(level as int));
                lemma_progress_unmapped(
                    old(self)@,
                    before,
                    va as int,
                    pa as int,
                    size as int,
                    offset as int,
                    privileges,
                    is_user_mode_accessible,
                );
            }
            self.map_chunk(v, p, level, privileges, is_user_mode_accessible);
            proof {
                lemma_progress_step(
                    old(self)@,
                    before,
                    self@,
                    va as int,
                    pa as int,
                    size as int,
                    offset as int,
                    privileges,
                    is_user_mode_accessible,
                );
            }
            offset = offset + step;
        }
        proof {
            lemma_progress_ends(
                old(self)@,
                self@,
                va as int,
                pa as int,
                size as int,
                privileges,
                is_user_mode_accessible,
            );
        }
        true
    }

    /// Maps a range for user mode: `map` with U set.
    pub fn map_userspace(
        &mut self,
        virtual_address_start: u64,
        physical_address_start: u64,
        size: u64,
        privileges: XWRMode,
    ) -> (mapped: bool)
        requires
            old(self).wf(),
            virtual_address_start % PAGE_SIZE == 0,
            physical_address_start % PAGE_SIZE == 0,
            size % PAGE_SIZE == 0,
        ensures
            final(self).wf(),
            mapped <==> {
                &&& privileges != XWRMode::PointerToNextLevel
                &&& virtual_address_start + size <= VIRTUAL_ADDRESS_LIMIT
                &&& physical_address_start + size <= PHYSICAL_ADDRESS_LIMIT
                &&& range_unmapped(old(self)@, virtual_address_start as int, size as int)
            },
            mapped ==> is_mapping_of(
                old(self)@,
                final(self)@,
                virtual_address_start as int,
                physical_address_start as int,
                size as int,
                privileges,
                true,
            ),
            mapped ==> uses_natural_pages(
                final(self)@,
                virtual_address_start as int,
                physical_address_start as int,
                size as int,
                size as int,
            ),
            !mapped ==> final(self)@ == old(self)@,
    {
        self.map(virtual_address_start, physical_address_start, size, privileges, true)
    }

    /// Maps a range for the kernel at the same virtual as physical addresses:
    /// `map` with U clear and G set.
    pub fn map_identity_kernel(
        &mut self,
        address_start: u64,
        size: u64,
        privileges: XWRMode,
    ) -> (mapped: bool)
        requires
            old(self).wf(),
            address_start % PAGE_SIZE == 0,
            size % PAGE_SIZE == 0,
        ensures
            final(self).wf(),
            mapped <==> {
                &&& privileges != XWRMode::PointerToNextLevel
                &&& address_start + size <= VIRTUAL_ADDRESS_LIMIT
                &&& range_unmapped(old(self)@, address_start as int, size as int)
            },
            mapped ==> is_mapping_of(
                old(self)@,
                final(self)@,
                address_start as int,
                address_start as int,
                size as int,
                privileges,
                false,
            ),
            mapped ==> uses_natural_pages(
                final(self)@,
                address_start as int,
                address_start as int,
                size as int,
                size as int,
            ),
            !mapped ==> final(self)@ == old(self)@,
    {
        self.map(address_start, address_start, size, privileges, false)
    }
}

/// What a walk finds is a leaf with a frame number of 44 bits.
pub proof fn lemma_walk_finds_leaf(entries: Seq<PageTableEntry>, va: int)
    requires
        tables_wf(entries),
        walk(entries, va) is Some,
    ensures
        walk(entries, va) matches Some((entry, level)) && entry.is_leaf() && entry.ppn < PPN_LIMIT
            && 0 <= level <= 2,
        0 <= va < VIRTUAL_ADDRESS_LIMIT,
{
    reveal(walk);
    reveal(tables_wf);
    lemma_vpn(va);
    let e2 = entries[vpn(va, 2)];
    if e2.is_pointer() {
        let e1 = entries[e2.ppn * 512 + vpn(va, 1)];
        if e1.is_pointer() {
            let e0 = entries[e1.ppn * 512 + vpn(va, 0)];
            assert(e0.is_leaf());
        } else {
            assert(e1.is_leaf());
        }
    } else {
        assert(e2.is_leaf());
    }
}

/// After a range was mapped, each of its addresses translates to the address
/// at the same distance into the physical range, and user mode may read it
/// exactly if the mapping was made for user mode.
pub proof fn lemma_map_round_trip(
    before: Seq<PageTableEntry>,
    after: Seq<PageTableEntry>,
    va: int,
    pa: int,
    size: int,
    xwr: XWRMode,
    user: bool,
    v: int,
)
    requires
        is_mapping_of(before, after, va, pa, size, xwr, user),
        va <= v < va + size,
    ensures
        translation(after, v) == Some(pa + (v - va)),
        user_accessible(after, v, false) <==> user,
        user_accessible(after, v, true) <==> user && xwr.spec_is_writable(),
{
    assert(maps_along(after, va, pa, v, xwr, user));
}

} // verus!
