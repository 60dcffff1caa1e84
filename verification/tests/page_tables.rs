use kernel::memory::page_tables::{
    PageTableEntry, RootPageTableHolder, XWRMode, GIGA_PAGE_SIZE, MEGA_PAGE_SIZE,
    VIRTUAL_ADDRESS_LIMIT,
};
use kernel::memory::PAGE_SIZE;

#[test]
fn empty_address_space_translates_nothing() {
    let tables = RootPageTableHolder::empty();
    assert_eq!(tables.table_count(), 1);
    assert_eq!(tables.translate(0), None);
    assert_eq!(tables.translate(0x1000), None);
    assert_eq!(tables.translate(VIRTUAL_ADDRESS_LIMIT - 1), None);
    assert!(!tables.is_valid_userspace_ptr(0x1000, 1, false));
}

#[test]
fn mapped_page_translates_back() {
    let mut tables = RootPageTableHolder::empty();
    assert!(tables.map(0x10_0000, 0x8020_3000, PAGE_SIZE, XWRMode::ReadWrite, true));
    assert_eq!(tables.translate(0x10_0000), Some(0x8020_3000));
    assert_eq!(tables.translate(0x10_0abc), Some(0x8020_3abc));
    assert_eq!(tables.translate(0x10_0fff), Some(0x8020_3fff));
    assert_eq!(tables.translate(0x10_1000), None);
    assert_eq!(tables.translate(0x0f_ffff), None);
    // root, one level-1 table, one level-0 table
    assert_eq!(tables.table_count(), 3);
}

#[test]
fn user_pointer_is_valid_exactly_for_user_mappings() {
    let mut tables = RootPageTableHolder::empty();
    assert!(tables.map(0x10_0000, 0x8020_3000, PAGE_SIZE, XWRMode::ReadWrite, true));
    assert!(tables.map(0x20_0000, 0x8020_4000, PAGE_SIZE, XWRMode::ReadWrite, false));
    assert!(tables.map(0x30_0000, 0x8020_5000, PAGE_SIZE, XWRMode::ReadOnly, true));
    assert!(tables.is_valid_userspace_ptr(0x10_0000, 1, false));
    assert!(tables.is_valid_userspace_ptr(0x10_0000, 1, true));
    assert!(!tables.is_valid_userspace_ptr(0x20_0000, 1, false));
    assert!(tables.is_valid_userspace_ptr(0x30_0000, 1, false));
    assert!(!tables.is_valid_userspace_ptr(0x30_0000, 1, true));
    assert_eq!(tables.translate(0x20_0000), Some(0x8020_4000));
    assert_eq!(tables.translate_userspace_address(0x20_0000), None);
    assert_eq!(tables.translate_userspace_address(0x10_0010), Some(0x8020_3010));
}

#[test]
fn range_is_valid_only_if_every_page_is() {
    let mut tables = RootPageTableHolder::empty();
    assert!(tables.map(0x10_0000, 0x8020_0000, 2 * PAGE_SIZE, XWRMode::ReadWrite, true));
    assert!(tables.is_valid_userspace_ptr(0x10_0000, 2 * PAGE_SIZE, true));
    assert!(tables.is_valid_userspace_ptr(0x10_0ff0, 0x20, true));
    assert!(!tables.is_valid_userspace_ptr(0x10_0000, 2 * PAGE_SIZE + 1, true));
    assert!(!tables.is_valid_userspace_ptr(0x0f_ffff, 2, true));
    assert!(tables.is_valid_userspace_ptr(0x10_1fff, 1, true));
    assert!(!tables.is_valid_userspace_ptr(0x10_1fff, 2, true));
    assert!(tables.is_valid_userspace_ptr(0x5000, 0, true));
    assert!(!tables.is_valid_userspace_ptr(u64::MAX, 2, false));
    assert!(!tables.is_valid_userspace_ptr(VIRTUAL_ADDRESS_LIMIT - 1, 2, false));
}

#[test]
fn largest_page_that_fits_is_used() {
    let mut tables = RootPageTableHolder::empty();
    // 1 GiB, aligned on both sides: one leaf in the root.
    assert!(tables.map(GIGA_PAGE_SIZE, 2 * GIGA_PAGE_SIZE, GIGA_PAGE_SIZE, XWRMode::ReadExecute, false));
    assert_eq!(tables.table_count(), 1);
    let (entry, level) = tables.lookup(GIGA_PAGE_SIZE + 0x12_3456).unwrap();
    assert_eq!(level, 2);
    assert_eq!(entry, PageTableEntry::leaf(2 * GIGA_PAGE_SIZE, XWRMode::ReadExecute, false));
    assert!(entry.global && !entry.user);
    assert_eq!(tables.translate(GIGA_PAGE_SIZE + 0x12_3456), Some(2 * GIGA_PAGE_SIZE + 0x12_3456));

    // 2 MiB + 4 KiB from a 2 MiB boundary: one level-1 leaf, then one page.
    let va = 4 * GIGA_PAGE_SIZE;
    let pa = 0x4000_0000 + 6 * MEGA_PAGE_SIZE;
    assert!(tables.map(va, pa, MEGA_PAGE_SIZE + PAGE_SIZE, XWRMode::ReadWrite, true));
    assert_eq!(tables.lookup(va).unwrap().1, 1);
    assert_eq!(tables.lookup(va + MEGA_PAGE_SIZE - 1).unwrap().1, 1);
    assert_eq!(tables.lookup(va + MEGA_PAGE_SIZE).unwrap().1, 0);
    assert_eq!(tables.translate(va + MEGA_PAGE_SIZE + 7), Some(pa + MEGA_PAGE_SIZE + 7));
    assert_eq!(tables.translate(va + MEGA_PAGE_SIZE + PAGE_SIZE), None);
    assert!(tables.lookup(va).unwrap().0.user);

    // Virtual side aligned to 2 MiB, physical side only to 4 KiB: pages.
    let va = 8 * GIGA_PAGE_SIZE;
    assert!(tables.map(va, 0x8000_1000, 2 * PAGE_SIZE, XWRMode::ReadOnly, true));
    assert_eq!(tables.lookup(va).unwrap().1, 0);
}

#[test]
fn map_refuses_what_it_cannot_map() {
    let mut tables = RootPageTableHolder::empty();
    assert!(tables.map(0x10_0000, 0x8020_0000, 2 * PAGE_SIZE, XWRMode::ReadWrite, true));
    let count = tables.table_count();
    // overlap
    assert!(!tables.map(0x10_1000, 0x9000_0000, PAGE_SIZE, XWRMode::ReadWrite, true));
    assert!(!tables.map(0x0f_f000, 0x9000_0000, 2 * PAGE_SIZE, XWRMode::ReadWrite, true));
    // the privileges of a pointer
    assert!(!tables.map(0x40_0000, 0x9000_0000, PAGE_SIZE, XWRMode::PointerToNextLevel, true));
    // beyond the translated range
    assert!(!tables.map(VIRTUAL_ADDRESS_LIMIT, 0x9000_0000, PAGE_SIZE, XWRMode::ReadWrite, true));
    assert!(!tables.map(
        VIRTUAL_ADDRESS_LIMIT - PAGE_SIZE,
        0x9000_0000,
        2 * PAGE_SIZE,
        XWRMode::ReadWrite,
        true
    ));
    assert_eq!(tables.table_count(), count);
    assert_eq!(tables.translate(0x10_1000), Some(0x8020_1000));
    assert_eq!(tables.translate(0x0f_f000), None);
    assert!(tables.is_range_unmapped(0x40_0000, PAGE_SIZE));
    assert!(!tables.is_range_unmapped(0x0f_f000, 2 * PAGE_SIZE));
    // an empty range is mapped trivially
    assert!(tables.map(0x50_0000, 0x9000_0000, 0, XWRMode::ReadWrite, true));
    assert_eq!(tables.translate(0x50_0000), None);
}

#[test]
fn kernel_identity_mapping_is_global_and_not_for_user_mode() {
    let mut tables = RootPageTableHolder::empty();
    assert!(tables.map_identity_kernel(0x8000_0000, 4 * PAGE_SIZE, XWRMode::ReadExecute));
    assert_eq!(tables.translate(0x8000_2004), Some(0x8000_2004));
    let (entry, _) = tables.lookup(0x8000_2004).unwrap();
    assert!(entry.valid && entry.global && !entry.user);
    assert_eq!(entry.xwr, XWRMode::ReadExecute);
    assert!(!tables.is_valid_userspace_ptr(0x8000_2004, 1, false));
    assert!(tables.map_userspace(0x1000, 0x9000_0000, PAGE_SIZE, XWRMode::ReadOnly));
    let (entry, _) = tables.lookup(0x1000).unwrap();
    assert!(entry.user && !entry.global);
}
