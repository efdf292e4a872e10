use kernel::bitmap_chunk_allocator::BitmapChunkAllocator;
use kernel::free_list_allocator::{effective_size, FreeListAllocator};

const CHUNK_SIZE: usize = 4096;

fn allocator_over(memory: &mut Vec<u8>) -> FreeListAllocator {
    let base = memory.as_mut_ptr() as usize;
    let chunk_allocator = BitmapChunkAllocator::with_chunk_size(CHUNK_SIZE, &[(base, memory.len())]);
    FreeListAllocator::new(chunk_allocator)
}

#[test]
fn allocate_small_returns_non_null() {
    let mut memory = vec![0u8; 10 * CHUNK_SIZE];
    let mut allocator = allocator_over(&mut memory);
    let ptr = allocator.allocate(64, 8);
    assert!(ptr != 0);
}

#[test]
fn two_allocations_do_not_overlap() {
    let mut memory = vec![0u8; 10 * CHUNK_SIZE];
    let mut allocator = allocator_over(&mut memory);
    let first = allocator.allocate(64, 8);
    let second = allocator.allocate(64, 8);
    assert!(first != 0);
    assert!(second != 0);
    assert_ne!(first, second);
    let distance = second.abs_diff(first);
    assert!(distance >= 64);
}

#[test]
fn allocate_zero_bytes_returns_null() {
    let mut memory = vec![0u8; 10 * CHUNK_SIZE];
    let mut allocator = allocator_over(&mut memory);
    let ptr = allocator.allocate(0, 1);
    assert_eq!(ptr, 0);
}

#[test]
fn allocation_pointer_within_chunk_bounds() {
    let mut memory = vec![0u8; 10 * CHUNK_SIZE];
    let base = memory.as_mut_ptr() as usize;
    let end = base + memory.len();
    let mut allocator = allocator_over(&mut memory);
    let ptr = allocator.allocate(64, 8);
    assert!(ptr >= base);
    assert!(ptr + 64 <= end);
}

#[test]
fn exhausting_chunk_triggers_second_chunk_request() {
    let mut memory = vec![0u8; 10 * CHUNK_SIZE];
    let mut allocator = allocator_over(&mut memory);
    let alloc_size = CHUNK_SIZE / 2;
    let first = allocator.allocate(alloc_size, 8);
    let second = allocator.allocate(alloc_size, 8);
    let third = allocator.allocate(alloc_size, 8);
    assert!(first != 0);
    assert!(second != 0);
    assert!(third != 0);
    let all_different = first != second && second != third && first != third;
    assert!(all_different);
}

#[test]
fn deallocate_reuses_freed_memory() {
    let mut memory = vec![0u8; 10 * CHUNK_SIZE];
    let mut allocator = allocator_over(&mut memory);
    let first = allocator.allocate(128, 8);
    let _second = allocator.allocate(128, 8);
    allocator.deallocate(first, 128, 8);
    let third = allocator.allocate(128, 8);
    assert_eq!(third, first);
}

#[test]
fn deallocate_null_is_noop() {
    let mut memory = vec![0u8; 10 * CHUNK_SIZE];
    let mut allocator = allocator_over(&mut memory);
    allocator.deallocate(0, 64, 8);
    let ptr = allocator.allocate(64, 8);
    assert!(ptr != 0);
}

#[test]
fn multiple_deallocate_reallocate_cycles() {
    let mut memory = vec![0u8; 10 * CHUNK_SIZE];
    let mut allocator = allocator_over(&mut memory);
    for _ in 0..100 {
        let ptr = allocator.allocate(256, 8);
        assert!(ptr != 0);
        allocator.deallocate(ptr, 256, 8);
    }
}

#[test]
fn allocate_returns_null_when_exhausted() {
    let mut memory = vec![0u8; 2 * CHUNK_SIZE];
    let mut allocator = allocator_over(&mut memory);
    let mut count = 0;
    loop {
        let ptr = allocator.allocate(CHUNK_SIZE, 8);
        if ptr == 0 {
            break;
        }
        count += 1;
        assert!(count <= 2);
    }
    assert!(count > 0);
}

#[test]
fn effective_size_rounds_to_header_and_alignment() {
    assert_eq!(effective_size(1, 1), 16);
    assert_eq!(effective_size(17, 8), 24);
    assert_eq!(effective_size(17, 32), 32);
    assert_eq!(effective_size(64, 8), 64);
}

#[test]
fn split_block_serves_next_allocation_right_after() {
    let mut memory = vec![0u8; 10 * CHUNK_SIZE];
    let mut allocator = allocator_over(&mut memory);
    let first = allocator.allocate(64, 8);
    let second = allocator.allocate(40, 8);
    assert_eq!(second, first + 64);
}
