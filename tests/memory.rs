use interstellar_os::frame::{BootInfoFrameAllocator, EmptyFrameAllocator, Memory, MemoryRegion, MemoryRegionKind};
use interstellar_os::heap::init_heap;
use interstellar_os::paging::{
    frames_spanned, map_address, map_pages_from, search_free_addr_from, MappingError, PageEntry, PageRange, PageTable,
    PRESENT, USER_ACCESSIBLE, WRITABLE,
};

fn region(start: u64, end: u64, kind: MemoryRegionKind) -> MemoryRegion {
    MemoryRegion { start, end, kind }
}

fn sample_map() -> Vec<MemoryRegion> {
    vec![
        region(0x0000, 0x1000, MemoryRegionKind::Bootloader),
        region(0x1000, 0x3000, MemoryRegionKind::Usable),
        region(0x3000, 0x5000, MemoryRegionKind::UnknownBios(2)),
        region(0x5000, 0x6800, MemoryRegionKind::Usable),
    ]
}

#[test]
fn frames_come_in_ascending_order_from_usable_regions() {
    let mut frames = BootInfoFrameAllocator::init(sample_map());
    let mut got = Vec::new();
    while let Some(f) = frames.allocate_frame() {
        got.push(f);
    }
    assert_eq!(got, vec![0x1000, 0x2000, 0x5000]);
    assert_eq!(frames.allocate_frame(), None);
}

#[test]
fn frames_lie_whole_inside_their_region() {
    let mut frames = BootInfoFrameAllocator::init(vec![
        region(0, 100, MemoryRegionKind::Usable),
        region(0x1800, 0x4000, MemoryRegionKind::Usable),
    ]);
    assert_eq!(frames.allocate_frame(), Some(0x2000));
    assert_eq!(frames.allocate_frame(), Some(0x3000));
    assert_eq!(frames.allocate_frame(), None);
}

#[test]
fn a_range_ending_on_a_page_boundary_takes_no_extra_page() {
    let mut table = PageTable::new();
    table.map_to(11, 1, PRESENT).unwrap();
    let window = PageRange { start: 10, end: 12 };
    assert_eq!(map_pages_from(&mut table, 0x1000, 0x1000, window), Ok(10 * 4096));
    let mut table = PageTable::new();
    table.map_to(13, 1, PRESENT).unwrap();
    let window = PageRange { start: 10, end: 14 };
    // offset 0x800 plus 0x1800 bytes end exactly at the second page's end
    assert_eq!(map_pages_from(&mut table, 0x7800, 0x1800, window), Ok(10 * 4096 + 0x800));
    assert_eq!(table.translate_addr(11 * 4096), Some(0x8000));
    assert_eq!(table.translate_addr(12 * 4096), None);
}

#[test]
fn no_frame_is_handed_out_twice() {
    let mut frames = BootInfoFrameAllocator::init(vec![
        region(0x10000, 0x14000, MemoryRegionKind::Usable),
        region(0x20000, 0x22000, MemoryRegionKind::Usable),
    ]);
    let mut got = Vec::new();
    while let Some(f) = frames.allocate_frame() {
        assert_eq!(f % 4096, 0);
        assert!(!got.contains(&f));
        got.push(f);
    }
    assert_eq!(got.len(), 6);
}

#[test]
fn an_empty_frame_allocator_has_nothing() {
    assert_eq!(EmptyFrameAllocator.allocate_frame(), None);
}

#[test]
fn memory_counts_usable_and_bootloader_regions() {
    let mut memory = Memory::new(&sample_map());
    assert_eq!(memory.total_memory, 0x1000 + 0x2000 + 0x1800);
    assert_eq!(memory.used_memory, 0);
    memory.add_to_used_mem(100);
    memory.takeaway_from_used_mem(40);
    assert_eq!(memory.used_memory, 60);
}

#[test]
fn map_to_refuses_a_second_translation() {
    let mut table = PageTable::new();
    assert_eq!(table.map_to(5, 9, PRESENT), Ok(()));
    assert_eq!(table.map_to(5, 10, PRESENT), Err(MappingError::DoubleMapping));
    assert_eq!(table.translate_addr(5 * 4096 + 0x123), Some(9 * 4096 + 0x123));
    assert_eq!(table.translate_addr(6 * 4096), None);
    assert_eq!(table.unmap(5), Ok(9));
    assert_eq!(table.unmap(5), Err(MappingError::NotMapped));
    assert_eq!(table.translate_addr(5 * 4096), None);
}

#[test]
fn search_finds_the_only_run_long_enough() {
    let mut table = PageTable::new();
    for p in [100u64, 103, 105] {
        table.map_to(p, 1, PRESENT).unwrap();
    }
    let window = PageRange { start: 100, end: 106 };
    assert_eq!(search_free_addr_from(&table, 2, window), Some(101));
    assert_eq!(search_free_addr_from(&table, 1, window), Some(101));
    assert_eq!(search_free_addr_from(&table, 3, window), None);
}

#[test]
fn search_skips_the_null_page() {
    let table = PageTable::new();
    assert_eq!(search_free_addr_from(&table, 2, PageRange { start: 0, end: 10 }), Some(1));
}

#[test]
fn map_pages_into_a_run_of_two() {
    let mut table = PageTable::new();
    for p in [100u64, 103, 105] {
        table.map_to(p, 1, PRESENT).unwrap();
    }
    let window = PageRange { start: 100, end: 106 };
    // two frames: 0x5000 and 0x6000
    let virt = map_pages_from(&mut table, 0x5010, 0x1000, window).unwrap();
    assert_eq!(virt, 101 * 4096 + 0x10);
    assert_eq!(table.translate_addr(virt), Some(0x5010));
    assert_eq!(table.translate_addr(102 * 4096), Some(0x6000));
    assert_eq!(table.map_to(101, 0, PRESENT), Err(MappingError::DoubleMapping));
}

#[test]
fn map_pages_fails_on_runs_of_one() {
    let mut table = PageTable::new();
    for p in [200u64, 202, 204] {
        table.map_to(p, 1, PRESENT).unwrap();
    }
    let window = PageRange { start: 200, end: 205 };
    // 0x2000 bytes from a frame boundary need two pages
    assert_eq!(
        map_pages_from(&mut table, 0x5000, 0x2000, window),
        Err(MappingError::VirtualAddressSpaceExhausted)
    );
    assert_eq!(table.translate_addr(201 * 4096), None);
    // one page is enough for 0x1000 bytes from a frame boundary
    assert_eq!(map_pages_from(&mut table, 0x5000, 0x1000, window), Ok(201 * 4096));
    assert_eq!(table.translate_addr(203 * 4096), None);
}

#[test]
fn map_pages_rejects_a_range_past_the_address_space() {
    let mut table = PageTable::new();
    let window = PageRange { start: 1, end: 10 };
    assert_eq!(map_pages_from(&mut table, u64::MAX - 10, 100, window), Err(MappingError::AllocationTooLarge));
}

#[test]
fn map_address_uses_the_higher_half() {
    let mut table = PageTable::new();
    let virt = map_address(&mut table, 0xFEE0_0123, 4).unwrap();
    assert_eq!(virt, 0xFFFF_8000_0000_0123);
    assert_eq!(table.translate_addr(virt), Some(0xFEE0_0123));
    let second = map_address(&mut table, 0xFEC0_0000, 0x10).unwrap();
    assert_eq!(second, 0xFFFF_8000_0000_1000);
}

#[test]
fn init_heap_maps_each_page_to_a_fresh_frame() {
    let mut table = PageTable::new();
    let mut frames = BootInfoFrameAllocator::init(sample_map());
    assert_eq!(init_heap(&mut table, &mut frames, 0x4444_4444_0000, 3 * 4096), Ok(()));
    let first = 0x4444_4444_0000u64 / 4096;
    assert_eq!(table.translate_addr(first * 4096), Some(0x1000));
    assert_eq!(table.translate_addr((first + 2) * 4096 + 8), Some(0x5008));
    assert_eq!(frames.allocate_frame(), None);
    let mut table2 = PageTable::new();
    table2.map_to(first + 1, 7, PRESENT | WRITABLE | USER_ACCESSIBLE).unwrap();
    let mut frames2 = BootInfoFrameAllocator::init(sample_map());
    assert_eq!(init_heap(&mut table2, &mut frames2, first * 4096, 2 * 4096), Err(MappingError::DoubleMapping));
    let mut table3 = PageTable::new();
    let mut frames3 = BootInfoFrameAllocator::init(sample_map());
    assert_eq!(
        init_heap(&mut table3, &mut frames3, 0x4444_4444_0000, 5 * 4096),
        Err(MappingError::PhysicalMemoryExhausted)
    );
}

#[test]
fn page_entries_compare_by_fields() {
    assert_eq!(PageEntry { frame: 1, flags: PRESENT }, PageEntry { frame: 1, flags: PRESENT });
}

#[test]
fn frames_spanned_counts_the_frames_touched() {
    assert_eq!(frames_spanned(0x5000, 0), Some(1));
    assert_eq!(frames_spanned(0x5010, 0xff0), Some(1));
    assert_eq!(frames_spanned(0x5010, 0xff1), Some(2));
    assert_eq!(frames_spanned(0x1000, 0x1000), Some(1));
    assert_eq!(frames_spanned(0x5000, 0x1fff), Some(2));
    assert_eq!(frames_spanned(u64::MAX, 1), Some(1));
    assert_eq!(frames_spanned(u64::MAX, 2), None);
}

#[test]
fn table_entries_can_be_read_back() {
    let mut table = PageTable::new();
    table.map_to(3, 8, PRESENT | WRITABLE).unwrap();
    assert_eq!(table.entry(3), Some(PageEntry { frame: 8, flags: PRESENT | WRITABLE }));
    assert_eq!(table.entry(4), None);
}
