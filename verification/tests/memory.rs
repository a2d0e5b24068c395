use bronze_kernel::memory::{
    alloc_page, calculate_free_pages, can_init, free_page, init, MemoryManager, MemoryRegion, MemoryRegionKind,
    PMMListEntry, PAGE_SIZE,
};

fn map() -> Vec<MemoryRegion> {
    vec![
        MemoryRegion { start: 0x0, end: 0x1000, kind: MemoryRegionKind::Bootloader },
        MemoryRegion { start: 0x1000, end: 0x3800, kind: MemoryRegionKind::Usable },
        MemoryRegion { start: 0x3800, end: 0x8000, kind: MemoryRegionKind::UnknownBios(2) },
        MemoryRegion { start: 0x10000, end: 0x12000, kind: MemoryRegionKind::Usable },
    ]
}

#[test]
fn counts_whole_usable_pages() {
    // 0x2800 bytes give two whole pages, 0x2000 bytes give two
    assert_eq!(calculate_free_pages(&map(), PAGE_SIZE), 4);
    assert_eq!(calculate_free_pages(&map(), 0x800), 5 + 4);
    assert_eq!(calculate_free_pages(&[], PAGE_SIZE), 0);
}

#[test]
fn init_lists_pages_and_alloc_hands_out_the_last_first() {
    let mut mm = MemoryManager::new();
    let mut pmm = PMMListEntry::new();
    init(&mut mm, &mut pmm, map(), 0xffff_8000_0000_0000, PAGE_SIZE);
    assert_eq!(pmm.free_page_count(), 4);
    assert_eq!(pmm.len(), 4);
    assert_eq!(alloc_page(&mut pmm), Some(0xffff_8000_0001_1000));
    assert_eq!(alloc_page(&mut pmm), Some(0xffff_8000_0001_0000));
    assert_eq!(alloc_page(&mut pmm), Some(0xffff_8000_0000_2000));
    assert_eq!(alloc_page(&mut pmm), Some(0xffff_8000_0000_1000));
    assert_eq!(pmm.len(), 0);
    // the count is not lowered by handing out pages
    assert_eq!(pmm.free_page_count(), 4);
}

#[test]
fn empty_list_hands_out_nothing() {
    let mut pmm = PMMListEntry::new();
    assert_eq!(alloc_page(&mut pmm), None);
    assert_eq!(pmm.free_page_count(), 0);
}

#[test]
fn init_with_no_usable_memory() {
    let mut mm = MemoryManager::new();
    let mut pmm = PMMListEntry::new();
    let regions = vec![MemoryRegion { start: 0, end: 0x5000, kind: MemoryRegionKind::UnknownUefi(3) }];
    init(&mut mm, &mut pmm, regions, 0, PAGE_SIZE);
    assert_eq!(pmm.free_page_count(), 0);
    assert_eq!(alloc_page(&mut pmm), None);
}

#[test]
fn free_aligned_page() {
    let mut mm = MemoryManager::new();
    let mut pmm = PMMListEntry::new();
    init(&mut mm, &mut pmm, map(), 0, PAGE_SIZE);
    free_page(&mm, 0x2000);
}

#[test]
fn map_checks() {
    assert!(can_init(&map(), 0xffff_8000_0000_0000, PAGE_SIZE));
    assert!(!can_init(&map(), 0, 0));
    // a usable region that ends before it starts cannot be counted
    let backwards = [MemoryRegion { start: 0x5000, end: 0x1000, kind: MemoryRegionKind::Usable }];
    assert!(!can_init(&backwards, 0, PAGE_SIZE));
    // the walk past the last page would leave u64
    let top = [MemoryRegion { start: u64::MAX - 0x17ff, end: u64::MAX, kind: MemoryRegionKind::Usable }];
    assert!(!can_init(&top, 0, PAGE_SIZE));
    // the virtual address of a page would leave u64
    assert!(!can_init(&map(), u64::MAX - 0x1000, PAGE_SIZE));
    // unusable regions are not looked at
    let odd = [MemoryRegion { start: 0x5000, end: 0x1000, kind: MemoryRegionKind::Bootloader }];
    assert!(can_init(&odd, 0, PAGE_SIZE));
}
