use kernel_heap::allocator::fixed_size_block::{
    block_of, FixedSizeBlockAllocator, Released, BLOCK_SIZES,
};
use linked_list_allocator::Heap;
use std::mem::MaybeUninit;

const HEAP_SIZE: usize = 64 * 1024;

/// An allocator whose fallback heap manages `size` bytes, and the first
/// address of those bytes.
fn heap_of(size: usize) -> (FixedSizeBlockAllocator, usize) {
    let memory: &'static mut [MaybeUninit<u8>] =
        Box::leak(vec![MaybeUninit::<u8>::uninit(); size].into_boxed_slice());
    let start = memory.as_ptr() as usize;
    let mut allocator = FixedSizeBlockAllocator::new();
    allocator.init(Heap::from_slice(memory));
    (allocator, start)
}

fn heap() -> (FixedSizeBlockAllocator, usize) {
    heap_of(HEAP_SIZE)
}

#[test]
fn fixed_size_block_scenario_on_a_heap_of_1024_bytes() {
    let (mut allocator, start) = heap_of(1024);
    let first = allocator.allocate(100, 8).unwrap();
    assert_eq!(first % 128, 0);
    assert!(first >= start && first + 128 <= start + 1024);
    assert_eq!(allocator.allocate(2000, 8), None);
    assert_eq!(allocator.deallocate(first, 100, 8), Released::Pooled);
    assert_eq!(allocator.allocate(100, 8), Some(first));
}

#[test]
fn block_sizes_are_the_powers_of_two_from_8_to_2048() {
    assert_eq!(BLOCK_SIZES, [8, 16, 32, 64, 128, 256, 512, 1024, 2048]);
}

#[test]
fn list_index_picks_the_smallest_block_size() {
    assert_eq!(FixedSizeBlockAllocator::list_index(0, 1), Some(0));
    assert_eq!(FixedSizeBlockAllocator::list_index(1, 1), Some(0));
    assert_eq!(FixedSizeBlockAllocator::list_index(8, 8), Some(0));
    assert_eq!(FixedSizeBlockAllocator::list_index(9, 1), Some(1));
    assert_eq!(FixedSizeBlockAllocator::list_index(100, 8), Some(4));
    assert_eq!(FixedSizeBlockAllocator::list_index(128, 8), Some(4));
    assert_eq!(FixedSizeBlockAllocator::list_index(129, 8), Some(5));
    assert_eq!(FixedSizeBlockAllocator::list_index(2048, 1), Some(8));
}

#[test]
fn list_index_goes_by_the_alignment_too() {
    assert_eq!(FixedSizeBlockAllocator::list_index(1, 64), Some(3));
    assert_eq!(FixedSizeBlockAllocator::list_index(16, 64), Some(3));
    assert_eq!(FixedSizeBlockAllocator::list_index(100, 2048), Some(8));
}

#[test]
fn list_index_has_no_block_size_for_large_requests() {
    assert_eq!(FixedSizeBlockAllocator::list_index(2049, 1), None);
    assert_eq!(FixedSizeBlockAllocator::list_index(8, 4096), None);
    assert_eq!(FixedSizeBlockAllocator::list_index(usize::MAX, 1), None);
}

#[test]
fn empty_fallback_heap_yields_nothing() {
    let mut allocator = FixedSizeBlockAllocator::new();
    assert_eq!(allocator.fallback_alloc(64, 8), None);
    assert_eq!(allocator.allocate(100, 8), None);
    assert_eq!(allocator.allocate(4096, 8), None);
    assert_eq!(allocator.allocate(0, 1), None);
}

#[test]
fn fallback_alloc_yields_an_aligned_block_of_the_heap() {
    let (mut allocator, start) = heap();
    let block = allocator.fallback_alloc(100, 64).unwrap();
    assert_ne!(block, 0);
    assert_eq!(block % 64, 0);
    assert!(block >= start && block + 100 <= start + HEAP_SIZE);
    let next = allocator.fallback_alloc(100, 64).unwrap();
    assert!(block + 100 <= next || next + 100 <= block);
}

#[test]
fn fresh_block_comes_from_the_fallback_heap() {
    let (mut allocator, start) = heap();
    let block = allocator.allocate(100, 8).unwrap();
    // a block of 128 bytes, aligned to 128
    assert_eq!(block % 128, 0);
    assert!(block >= start && block + 128 <= start + HEAP_SIZE);
    let other = allocator.allocate(100, 8).unwrap();
    assert_eq!(other % 128, 0);
    assert!(block + 128 <= other || other + 128 <= block);
}

#[test]
fn released_block_is_used_again() {
    let (mut allocator, _) = heap();
    let block = allocator.allocate(100, 8).unwrap();
    assert_eq!(allocator.deallocate(block, 100, 8), Released::Pooled);
    assert_eq!(allocator.allocate(100, 8), Some(block));
}

#[test]
fn released_block_serves_any_request_of_its_block_size() {
    let (mut allocator, _) = heap();
    let block = allocator.allocate(128, 8).unwrap();
    assert_eq!(allocator.deallocate(block, 128, 8), Released::Pooled);
    assert_eq!(allocator.allocate(65, 1), Some(block));
    assert_eq!(allocator.deallocate(block, 65, 1), Released::Pooled);
    assert_eq!(allocator.allocate(1, 128), Some(block));
}

#[test]
fn released_block_is_used_again_without_the_fallback_heap() {
    // the fallback heap is empty, so a block can only come from a list
    let mut allocator = FixedSizeBlockAllocator::new();
    assert_eq!(allocator.allocate(24, 8), None);
    assert_eq!(allocator.deallocate(0x2000, 24, 8), Released::Pooled);
    assert_eq!(allocator.allocate(32, 4), Some(0x2000));
    assert_eq!(allocator.allocate(32, 4), None);
}

#[test]
fn released_block_does_not_serve_another_block_size() {
    let mut allocator = FixedSizeBlockAllocator::new();
    assert_eq!(allocator.deallocate(0x2000, 64, 8), Released::Pooled);
    assert_eq!(allocator.allocate(8, 8), None);
    assert_eq!(allocator.allocate(128, 8), None);
    assert_eq!(allocator.allocate(33, 1), Some(0x2000));
}

#[test]
fn lists_give_back_the_block_released_last() {
    let mut allocator = FixedSizeBlockAllocator::new();
    assert_eq!(allocator.deallocate(0x1000, 16, 8), Released::Pooled);
    assert_eq!(allocator.deallocate(0x1010, 16, 8), Released::Pooled);
    assert_eq!(allocator.deallocate(0x1020, 16, 8), Released::Pooled);
    assert_eq!(allocator.allocate(16, 8), Some(0x1020));
    assert_eq!(allocator.allocate(16, 8), Some(0x1010));
    assert_eq!(allocator.allocate(16, 8), Some(0x1000));
    assert_eq!(allocator.allocate(16, 8), None);
}

#[test]
fn large_request_goes_to_the_fallback_heap() {
    let (mut allocator, start) = heap();
    let block = allocator.allocate(4096, 8).unwrap();
    assert_eq!(block % 8, 0);
    assert!(block >= start && block + 4096 <= start + HEAP_SIZE);
    // it is for the caller to hand the block back to the fallback heap
    assert_eq!(allocator.deallocate(block, 4096, 8), Released::Fallback);
    assert_eq!(allocator.deallocate(block, 8, 4096), Released::Fallback);
}

#[test]
fn request_beyond_the_fallback_heap_fails() {
    let (mut allocator, _) = heap();
    assert_eq!(allocator.allocate(HEAP_SIZE + 1, 8), None);
    assert_eq!(allocator.allocate(2 * HEAP_SIZE, 4096), None);
    assert!(allocator.allocate(2048, 8).is_some());
}

#[test]
fn init_replaces_the_fallback_heap() {
    let (mut allocator, start) = heap();
    assert_eq!(allocator.fallback_allocator().bottom(), start);
    assert_eq!(allocator.fallback_allocator().size(), HEAP_SIZE);
    allocator.init(Heap::empty());
    assert_eq!(allocator.fallback_allocator().size(), 0);
    assert_eq!(allocator.allocate(64, 8), None);
}

#[test]
fn init_keeps_the_lists() {
    let mut allocator = FixedSizeBlockAllocator::new();
    assert_eq!(allocator.deallocate(0x2000, 64, 8), Released::Pooled);
    allocator.init(Heap::empty());
    assert_eq!(allocator.allocate(64, 8), Some(0x2000));
}

#[test]
fn fallback_heap_is_left_alone_while_a_list_serves() {
    let (mut allocator, _) = heap();
    let block = allocator.allocate(256, 8).unwrap();
    let used = allocator.fallback_allocator().used();
    assert_eq!(allocator.deallocate(block, 256, 8), Released::Pooled);
    assert_eq!(allocator.allocate(200, 16), Some(block));
    assert_eq!(allocator.fallback_allocator().used(), used);
}

#[test]
fn blocks_of_lists_and_of_the_fallback_heap_do_not_overlap() {
    let (mut allocator, start) = heap();
    let requests: [(usize, usize); 7] =
        [(8, 8), (100, 8), (4096, 16), (100, 8), (2048, 2048), (3000, 8), (1, 1)];
    let mut blocks: Vec<(usize, usize)> = Vec::new();
    for (size, align) in requests {
        let addr = allocator.allocate(size, align).unwrap();
        assert_eq!(addr % align, 0);
        assert!(addr >= start && addr + size <= start + HEAP_SIZE);
        for &(other, other_size) in &blocks {
            assert!(other + other_size <= addr || addr + size <= other);
        }
        blocks.push((addr, size));
    }
}

#[test]
fn request_that_the_fallback_heap_cannot_round_up_fails() {
    let (mut allocator, _) = heap();
    // a layout, but not once the size is a multiple of a machine word
    let size = isize::MAX as usize - 3;
    assert_eq!(allocator.fallback_alloc(size, 4), None);
    assert_eq!(allocator.allocate(size, 4), None);
    assert_eq!(allocator.allocate(isize::MAX as usize, 1), None);
    // the heap is as it was
    assert!(allocator.allocate(4096, 8).is_some());
}

#[test]
fn request_with_the_largest_alignment_fails() {
    let (mut allocator, _) = heap();
    let align = 1usize << (usize::BITS - 1);
    assert_eq!(allocator.allocate(0, align), None);
    assert_eq!(allocator.allocate(8, align >> 1), None);
    assert!(allocator.allocate(8, 8).is_some());
}

#[test]
fn block_of_hands_on_what_the_search_found() {
    assert_eq!(block_of(Ok(0x2000)), Some(0x2000));
    assert_eq!(block_of(Ok(8)), Some(8));
    assert_eq!(block_of(Err(())), None);
}

#[test]
fn fallback_alloc_yields_what_the_heap_has() {
    // a heap of 1024 bytes has one block of 512 bytes aligned to 512, at most
    let (mut allocator, start) = heap_of(1024);
    let first = allocator.fallback_alloc(512, 8).unwrap();
    assert!(first >= start && first + 512 <= start + 1024);
    assert_eq!(allocator.fallback_alloc(1024, 8), None);
    assert!(allocator.fallback_alloc(16, 8).is_some());
}
