use interstellar_os::bump::BumpAllocator;
use interstellar_os::fixed_size_block::FixedSizeBlockAllocator;
use interstellar_os::layout::{align_up, is_power_of_two, AlignedAlloc, Dummy, Layout};
use interstellar_os::linked_list::{LinkedListAllocator, ListNode};

const HEAP: usize = 0x4444_4444_0000;

fn layout(size: usize, align: usize) -> Layout {
    Layout::from_size_align(size, align).unwrap()
}

#[test]
fn align_up_rounds_to_the_next_multiple() {
    assert_eq!(align_up(0, 8), Some(0));
    assert_eq!(align_up(1, 8), Some(8));
    assert_eq!(align_up(8, 8), Some(8));
    assert_eq!(align_up(4097, 4096), Some(8192));
    assert_eq!(align_up(usize::MAX, 2), None);
    assert_eq!(align_up(usize::MAX - 1, 2), Some(usize::MAX - 1));
}

#[test]
fn power_of_two_check() {
    assert!(is_power_of_two(1));
    assert!(is_power_of_two(2048));
    assert!(!is_power_of_two(0));
    assert!(!is_power_of_two(24));
}

#[test]
fn layout_rejects_bad_alignment_and_oversize() {
    assert!(Layout::from_size_align(16, 3).is_none());
    assert!(Layout::from_size_align(16, 0).is_none());
    assert!(Layout::from_size_align(usize::MAX, 1).is_none());
    assert_eq!(Layout::from_size_align(24, 8), Some(Layout { size: 24, align: 8 }));
}

#[test]
fn dummy_allocator_refuses() {
    assert_eq!(Dummy.allocate(layout(8, 8)), None);
}

#[test]
fn bump_cursor_resets_only_when_all_freed() {
    let mut bump = BumpAllocator::new();
    bump.init(HEAP, 1024);
    let mut addrs = Vec::new();
    for i in 0..4 {
        let a = bump.allocate(layout(256, 1)).unwrap();
        assert_eq!(a, HEAP + 256 * i);
        addrs.push(a);
    }
    assert_eq!(bump.next(), HEAP + 1024);
    assert_eq!(bump.allocate(layout(1, 1)), None);
    for a in &addrs[..3] {
        bump.deallocate(*a, layout(256, 1));
        assert_eq!(bump.next(), HEAP + 1024);
    }
    assert_eq!(bump.allocations(), 1);
    bump.deallocate(addrs[3], layout(256, 1));
    assert_eq!(bump.next(), HEAP);
    assert_eq!(bump.allocate(layout(1024, 1)), Some(HEAP));
}

#[test]
fn bump_aligns_the_cursor() {
    let mut bump = BumpAllocator::new();
    bump.init(HEAP + 1, 100);
    assert_eq!(bump.allocate(layout(3, 1)), Some(HEAP + 1));
    assert_eq!(bump.allocate(layout(8, 16)), Some(HEAP + 16));
    assert_eq!(bump.next(), HEAP + 24);
    assert_eq!(bump.allocate(layout(90, 1)), None);
    assert_eq!(bump.next(), HEAP + 24);
}

#[test]
fn linked_list_size_align_adjusts_for_a_node() {
    assert_eq!(LinkedListAllocator::size_align(layout(1, 1)), Some((16, 8)));
    assert_eq!(LinkedListAllocator::size_align(layout(0, 1)), Some((16, 8)));
    assert_eq!(LinkedListAllocator::size_align(layout(17, 4)), Some((24, 8)));
    assert_eq!(LinkedListAllocator::size_align(layout(4000, 1)), Some((4000, 8)));
    assert_eq!(LinkedListAllocator::size_align(layout(10, 64)), Some((64, 64)));
}

fn free_total(regions: &[ListNode]) -> usize {
    regions.iter().map(|r| r.size).sum()
}

#[test]
fn linked_list_split_and_restore() {
    let mut list = LinkedListAllocator::new();
    list.init(HEAP, 4096);
    let a = list.allocate(layout(4000, 1)).unwrap();
    assert_eq!(a, HEAP);
    let regions = list.free_regions();
    assert_eq!(regions, vec![ListNode::new(HEAP + 4000, 96)]);
    list.deallocate(a, layout(4000, 1));
    let regions = list.free_regions();
    assert_eq!(free_total(&regions), 4096);
    assert_eq!(regions[0], ListNode::new(HEAP, 4000));
    assert_eq!(list.allocate(layout(4000, 1)), Some(HEAP));
}

#[test]
fn linked_list_small_tail_is_absorbed() {
    let mut list = LinkedListAllocator::new();
    list.init(HEAP, 24);
    assert_eq!(list.allocate(layout(16, 8)), Some(HEAP));
    assert!(list.free_regions().is_empty());
    let mut list = LinkedListAllocator::new();
    list.init(HEAP, 64);
    // 56 bytes leave 8 behind, too little for a node: they go with the block
    assert_eq!(list.allocate(layout(56, 8)), Some(HEAP));
    assert!(list.free_regions().is_empty());
    assert_eq!(list.allocate(layout(8, 8)), None);
    list.deallocate(HEAP, layout(56, 8));
    assert_eq!(list.free_regions(), vec![ListNode::new(HEAP, 56)]);
}

#[test]
fn linked_list_first_fit_and_alignment() {
    let mut list = LinkedListAllocator::new();
    list.init(HEAP, 4096);
    let a = list.allocate(layout(16, 8)).unwrap();
    let b = list.allocate(layout(100, 256)).unwrap();
    assert_eq!(a, HEAP);
    assert_eq!(b % 256, 0);
    assert!(b >= a + 16);
    list.deallocate(a, layout(16, 8));
    // the freed block heads the list and is the first fit
    assert_eq!(list.allocate(layout(8, 8)), Some(HEAP));
}

#[test]
fn linked_list_round_trip_reuses_the_address() {
    let mut list = LinkedListAllocator::new();
    list.init(HEAP, 8192);
    let _keep = list.allocate(layout(100, 8)).unwrap();
    let a = list.allocate(layout(200, 16)).unwrap();
    let before = list.free_regions();
    list.deallocate(a, layout(200, 16));
    assert_eq!(list.allocate(layout(200, 16)), Some(a));
    assert_eq!(list.free_regions(), before);
}

#[test]
fn list_index_picks_the_smallest_class() {
    assert_eq!(FixedSizeBlockAllocator::list_index(&layout(1, 1)), Some(0));
    assert_eq!(FixedSizeBlockAllocator::list_index(&layout(8, 8)), Some(0));
    assert_eq!(FixedSizeBlockAllocator::list_index(&layout(9, 1)), Some(1));
    assert_eq!(FixedSizeBlockAllocator::list_index(&layout(24, 8)), Some(2));
    assert_eq!(FixedSizeBlockAllocator::list_index(&layout(4, 64)), Some(3));
    assert_eq!(FixedSizeBlockAllocator::list_index(&layout(2048, 1)), Some(8));
    assert_eq!(FixedSizeBlockAllocator::list_index(&layout(2049, 1)), None);
    assert_eq!(FixedSizeBlockAllocator::list_index(&layout(1, 4096)), None);
}

#[test]
fn block_sizes_double() {
    let sizes: Vec<usize> = (0..9).map(FixedSizeBlockAllocator::block_size_of).collect();
    assert_eq!(sizes, vec![8, 16, 32, 64, 128, 256, 512, 1024, 2048]);
}

#[test]
fn fixed_size_class_list_reuse() {
    let mut fsb = FixedSizeBlockAllocator::new();
    fsb.init(HEAP, 64 * 1024);
    let l = layout(24, 8);
    let mut addrs = Vec::new();
    for _ in 0..1000 {
        let a = fsb.allocate(l).unwrap();
        assert_eq!(a % 32, 0);
        addrs.push(a);
    }
    let mut sorted = addrs.clone();
    sorted.sort();
    sorted.dedup();
    assert_eq!(sorted.len(), 1000);
    for a in &addrs {
        fsb.deallocate(*a, l);
    }
    assert_eq!(fsb.list_len(2), 1000);
    let fallback_before = fsb.fallback_regions();
    let again = fsb.allocate(l).unwrap();
    assert!(addrs.contains(&again));
    assert_eq!(again, *addrs.last().unwrap());
    assert_eq!(fsb.list_len(2), 999);
    assert_eq!(fsb.fallback_regions(), fallback_before);
}

#[test]
fn fixed_size_large_requests_use_the_fallback() {
    let mut fsb = FixedSizeBlockAllocator::new();
    fsb.init(HEAP, 16 * 1024);
    let big = layout(5000, 8);
    let a = fsb.allocate(big).unwrap();
    assert_eq!(a, HEAP);
    assert_eq!(fsb.allocate(layout(12000, 8)), None);
    fsb.deallocate(a, big);
    assert_eq!(fsb.fallback_regions()[0], ListNode::new(HEAP, 5000));
    assert_eq!(fsb.allocate(big), Some(HEAP));
}

#[test]
fn fixed_size_exhaustion_fails() {
    let mut fsb = FixedSizeBlockAllocator::new();
    fsb.init(HEAP, 64);
    assert!(fsb.allocate(layout(32, 32)).is_some());
    assert!(fsb.allocate(layout(32, 32)).is_some());
    assert_eq!(fsb.allocate(layout(32, 32)), None);
}

#[test]
fn linked_list_blocks_never_overlap() {
    let mut list = LinkedListAllocator::new();
    list.init(HEAP, 1 << 16);
    let mut live: Vec<(usize, usize)> = Vec::new();
    let shapes = [(24, 8), (100, 64), (7, 1), (512, 512), (33, 16), (4000, 8)];
    for (i, &(size, align)) in shapes.iter().cycle().take(30).enumerate() {
        let a = list.allocate(layout(size, align)).unwrap();
        assert_eq!(a % align, 0);
        assert!(a >= HEAP && a + size <= HEAP + (1 << 16));
        for &(b, s) in &live {
            assert!(a + size <= b || b + s <= a);
        }
        live.push((a, size));
        if i % 3 == 2 {
            let (b, s) = live.remove(0);
            let al = shapes.iter().find(|x| x.0 == s).unwrap().1;
            list.deallocate(b, layout(s, al));
        }
    }
}

#[test]
fn align_to_raises_the_alignment_only() {
    assert_eq!(layout(24, 8).align_to(64), Some(Layout { size: 24, align: 64 }));
    assert_eq!(layout(24, 64).align_to(8), Some(Layout { size: 24, align: 64 }));
    assert_eq!(layout(24, 8).align_to(12), None);
    assert_eq!(AlignedAlloc::<4096>::layout_for(layout(10, 1)), Some(Layout { size: 10, align: 4096 }));
    assert_eq!(AlignedAlloc::<3>::layout_for(layout(10, 1)), None);
}
