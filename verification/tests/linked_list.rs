use kernel_heap::allocator::linked_list::{LinkedListAllocator, ListNode, NODE_ALIGN, NODE_SIZE};

const HEAP_START: usize = 0x4444_0000;

fn heap(size: usize) -> LinkedListAllocator {
    let mut allocator = LinkedListAllocator::new();
    allocator.init(HEAP_START, size);
    allocator
}

#[test]
fn linked_list_scenario_on_a_heap_of_1024_bytes() {
    let mut allocator = heap(1024);
    let first = allocator.allocate(100, 8);
    assert_eq!(first, Some(HEAP_START));
    assert_eq!(allocator.allocate(2000, 8), None);
    allocator.deallocate(HEAP_START, 100, 8);
    assert_eq!(allocator.allocate(100, 8), Some(HEAP_START));
}

#[test]
fn node_of_a_size_has_no_address_yet() {
    let node = ListNode::new(48);
    assert_eq!(node.start_addr(), 0);
    assert_eq!(node.end_addr(), 48);
}

#[test]
fn node_constants_are_those_of_two_machine_words() {
    assert_eq!(NODE_SIZE, 16);
    assert_eq!(NODE_ALIGN, 8);
}

#[test]
fn size_align_pads_the_request() {
    assert_eq!(LinkedListAllocator::size_align(100, 8), (104, 8));
    assert_eq!(LinkedListAllocator::size_align(104, 8), (104, 8));
    assert_eq!(LinkedListAllocator::size_align(17, 4), (24, 8));
    assert_eq!(LinkedListAllocator::size_align(33, 32), (64, 32));
}

#[test]
fn size_align_makes_room_for_a_node() {
    assert_eq!(LinkedListAllocator::size_align(0, 1), (16, 8));
    assert_eq!(LinkedListAllocator::size_align(1, 1), (16, 8));
    assert_eq!(LinkedListAllocator::size_align(8, 8), (16, 8));
    assert_eq!(LinkedListAllocator::size_align(16, 2), (16, 8));
    assert_eq!(LinkedListAllocator::size_align(0, 64), (16, 64));
}

#[test]
fn find_region_takes_the_node_from_the_list() {
    let mut allocator = heap(64);
    let (node, start) = allocator.find_region(16, 8).unwrap();
    assert_eq!(start, HEAP_START);
    assert_eq!(node.start_addr(), HEAP_START);
    assert_eq!(node.end_addr(), HEAP_START + 64);
    // the only region is gone
    assert!(allocator.find_region(16, 8).is_none());
}

#[test]
fn find_region_finds_nothing_in_an_empty_list() {
    let mut allocator = LinkedListAllocator::new();
    assert!(allocator.find_region(16, 8).is_none());
    assert_eq!(allocator.allocate(1, 1), None);
}

#[test]
fn find_region_takes_the_first_region_that_fits() {
    let mut allocator = LinkedListAllocator::new();
    allocator.add_free_region(0x3000, 256);
    allocator.add_free_region(0x2000, 32);
    allocator.add_free_region(0x1000, 128);
    // list order: 0x1000 (128), 0x2000 (32), 0x3000 (256)
    let (node, start) = allocator.find_region(200, 8).unwrap();
    assert_eq!((node.start_addr(), node.end_addr(), start), (0x3000, 0x3100, 0x3000));
    let (node, start) = allocator.find_region(32, 8).unwrap();
    assert_eq!((node.start_addr(), node.end_addr(), start), (0x1000, 0x1080, 0x1000));
    let (node, start) = allocator.find_region(32, 8).unwrap();
    assert_eq!((node.start_addr(), node.end_addr(), start), (0x2000, 0x2020, 0x2000));
    assert!(allocator.find_region(16, 8).is_none());
}

#[test]
fn alloc_from_region_checks_size_and_remainder() {
    let mut allocator = heap(64);
    let (node, _) = allocator.find_region(16, 8).unwrap();
    assert_eq!(LinkedListAllocator::alloc_from_region(&node, 64, 8), Ok(HEAP_START));
    assert_eq!(LinkedListAllocator::alloc_from_region(&node, 48, 8), Ok(HEAP_START));
    assert_eq!(LinkedListAllocator::alloc_from_region(&node, 16, 8), Ok(HEAP_START));
    // too large
    assert_eq!(LinkedListAllocator::alloc_from_region(&node, 65, 8), Err(()));
    assert_eq!(LinkedListAllocator::alloc_from_region(&node, usize::MAX, 8), Err(()));
    // what is left could not hold a node
    assert_eq!(LinkedListAllocator::alloc_from_region(&node, 56, 8), Err(()));
    assert_eq!(LinkedListAllocator::alloc_from_region(&node, 49, 8), Err(()));
    assert_eq!(LinkedListAllocator::alloc_from_region(&node, 63, 8), Err(()));
}

#[test]
fn alloc_from_region_aligns_the_start() {
    let mut allocator = LinkedListAllocator::new();
    allocator.add_free_region(0x1008, 0x100);
    let (node, _) = allocator.find_region(16, 8).unwrap();
    assert_eq!(LinkedListAllocator::alloc_from_region(&node, 16, 8), Ok(0x1008));
    assert_eq!(LinkedListAllocator::alloc_from_region(&node, 16, 16), Ok(0x1010));
    assert_eq!(LinkedListAllocator::alloc_from_region(&node, 16, 0x100), Err(()));
    assert_eq!(LinkedListAllocator::alloc_from_region(&node, 8, 0x100), Ok(0x1100));
    assert_eq!(LinkedListAllocator::alloc_from_region(&node, 16, 1 << (usize::BITS - 1)), Err(()));
}

#[test]
fn linked_list_splits_the_region() {
    let mut allocator = heap(1024);
    assert_eq!(allocator.allocate(100, 8), Some(HEAP_START));
    // the rest of the heap is one free region behind the block of 104 bytes
    let (node, start) = allocator.find_region(16, 8).unwrap();
    assert_eq!(start, HEAP_START + 104);
    assert_eq!(node.start_addr(), HEAP_START + 104);
    assert_eq!(node.end_addr(), HEAP_START + 1024);
    assert!(allocator.find_region(16, 8).is_none());
}

#[test]
fn linked_list_uses_a_region_up_when_it_fits_exactly() {
    let mut allocator = heap(128);
    assert_eq!(allocator.allocate(128, 8), Some(HEAP_START));
    assert!(allocator.find_region(16, 8).is_none());
}

#[test]
fn linked_list_skips_a_region_with_an_unusable_rest() {
    let mut allocator = heap(128);
    // 120 bytes would leave 8, which cannot hold a node
    assert_eq!(allocator.allocate(120, 8), None);
    assert_eq!(allocator.allocate(112, 8), Some(HEAP_START));
    assert_eq!(allocator.allocate(16, 8), Some(HEAP_START + 112));
    assert_eq!(allocator.allocate(1, 1), None);
}

#[test]
fn linked_list_blocks_do_not_overlap() {
    let mut allocator = heap(4096);
    let requests: [(usize, usize); 6] = [(10, 1), (24, 8), (1, 64), (100, 4), (0, 2), (512, 512)];
    let mut blocks: Vec<(usize, usize)> = Vec::new();
    for (size, align) in requests {
        let addr = allocator.allocate(size, align).unwrap();
        let size = LinkedListAllocator::size_align(size, align).0;
        assert_eq!(addr % align, 0);
        assert!(addr >= HEAP_START && addr + size <= HEAP_START + 4096);
        for &(other, other_size) in &blocks {
            assert!(other + other_size <= addr || addr + size <= other);
        }
        blocks.push((addr, size));
    }
}

#[test]
fn linked_list_reuses_the_block_released_last() {
    let mut allocator = heap(1024);
    let first = allocator.allocate(64, 8).unwrap();
    let second = allocator.allocate(64, 8).unwrap();
    let third = allocator.allocate(64, 8).unwrap();
    assert_eq!((first, second, third), (HEAP_START, HEAP_START + 64, HEAP_START + 128));
    allocator.deallocate(first, 64, 8);
    allocator.deallocate(third, 64, 8);
    assert_eq!(allocator.allocate(64, 8), Some(third));
    assert_eq!(allocator.allocate(64, 8), Some(first));
    assert_eq!(allocator.allocate(64, 8), Some(HEAP_START + 192));
}

#[test]
fn linked_list_does_not_merge_neighbours() {
    let mut allocator = heap(256);
    let first = allocator.allocate(128, 8).unwrap();
    let second = allocator.allocate(128, 8).unwrap();
    allocator.deallocate(first, 128, 8);
    allocator.deallocate(second, 128, 8);
    // 256 bytes are free, in two regions of 128
    assert_eq!(allocator.allocate(256, 8), None);
    assert_eq!(allocator.allocate(128, 8), Some(second));
    assert_eq!(allocator.allocate(128, 8), Some(first));
}

#[test]
fn linked_list_fails_beyond_the_free_space() {
    let mut allocator = heap(1024);
    assert_eq!(allocator.allocate(1025, 8), None);
    assert_eq!(allocator.allocate(1024, 8), Some(HEAP_START));
    assert_eq!(allocator.allocate(1, 1), None);
}

#[test]
fn linked_list_loses_the_bytes_before_an_aligned_block() {
    let mut allocator = LinkedListAllocator::new();
    allocator.init(0x1008, 0x200);
    assert_eq!(allocator.allocate(64, 64), Some(0x1040));
    // what lay behind the block is free, what lay before it is not
    let (node, _) = allocator.find_region(16, 8).unwrap();
    assert_eq!((node.start_addr(), node.end_addr()), (0x1080, 0x1208));
    assert!(allocator.find_region(16, 8).is_none());
}

#[test]
fn overlaps_free_region_tells_free_from_used() {
    let mut allocator = heap(1024);
    assert!(allocator.overlaps_free_region(HEAP_START, 16));
    assert!(allocator.overlaps_free_region(HEAP_START + 1023, 1));
    assert!(allocator.overlaps_free_region(HEAP_START - 8, 16));
    assert!(!allocator.overlaps_free_region(HEAP_START - 16, 16));
    assert!(!allocator.overlaps_free_region(HEAP_START + 1024, 16));
    let block = allocator.allocate(100, 8).unwrap();
    assert!(!allocator.overlaps_free_region(block, 104));
    assert!(allocator.overlaps_free_region(block, 105));
    allocator.deallocate(block, 100, 8);
    assert!(allocator.overlaps_free_region(block, 104));
}

#[test]
fn overlaps_free_region_of_an_empty_list() {
    let allocator = LinkedListAllocator::new();
    assert!(!allocator.overlaps_free_region(0, 16));
    assert!(!allocator.overlaps_free_region(HEAP_START, 1024));
}
