use kernel::bitmap_chunk_allocator::BitmapChunkAllocator;
use kernel::memory::userspace_allocator::{UserSpaceAllocator, BLOCK_HEADER_SIZE};

fn make_allocator(chunk_size: usize, memory: &mut Vec<u8>) -> UserSpaceAllocator {
    let base = memory.as_mut_ptr() as usize;
    UserSpaceAllocator::new(BitmapChunkAllocator::with_chunk_size(chunk_size, &[(base, memory.len())]))
}

#[test]
fn alloc_returns_non_null_for_small_allocation() {
    let mut memory = vec![0u8; 10 * 4096];
    let mut allocator = make_allocator(4096, &mut memory);
    let ptr = allocator.allocate(64, 8);
    assert!(ptr != 0);
}

#[test]
fn dealloc_returns_space_for_reuse() {
    let mut memory = vec![0u8; 10 * 4096];
    let mut allocator = make_allocator(4096, &mut memory);
    let ptr_a = allocator.allocate(64, 8);
    let ptr_b = allocator.allocate(64, 8);
    assert!(ptr_a != 0);
    assert!(ptr_b != 0);
    allocator.dealloc(ptr_a, 64);
    let ptr_c = allocator.allocate(64, 8);
    assert_eq!(ptr_c, ptr_a);
}

#[test]
fn dealloc_coalesces_adjacent_free_nodes() {
    let mut memory = vec![0u8; 10 * 4096];
    let mut allocator = make_allocator(4096, &mut memory);
    let ptr_a = allocator.allocate(64, 8);
    let ptr_b = allocator.allocate(64, 8);
    let _ptr_c = allocator.allocate(64, 8);
    assert!(ptr_a != 0);
    assert!(ptr_b != 0);
    allocator.dealloc(ptr_a, 64);
    allocator.dealloc(ptr_b, 64);
    let ptr_d = allocator.allocate(128, 8);
    assert_eq!(ptr_d, ptr_a);
}

#[test]
fn alloc_acquires_new_chunk_when_block_is_full() {
    let chunk_size = 512;
    let alloc_size = 64;
    let allocs_per_block = (chunk_size - BLOCK_HEADER_SIZE) / alloc_size;
    let mut memory = vec![0u8; 3 * chunk_size];
    let base = memory.as_mut_ptr() as usize;
    let mut allocator = make_allocator(chunk_size, &mut memory);
    for _ in 0..allocs_per_block {
        assert!(allocator.allocate(alloc_size, 8) != 0);
    }
    let ptr = allocator.allocate(alloc_size, 8);
    assert!(ptr != 0);
    assert!(ptr >= base + chunk_size);
}

#[test]
fn alloc_returns_null_when_memory_is_exhausted() {
    let mut memory = vec![0u8; 3 * 512];
    let mut allocator = make_allocator(512, &mut memory);
    while allocator.allocate(64, 8) != 0 {}
    assert_eq!(allocator.allocate(64, 8), 0);
}

#[test]
fn dealloc_releases_block_chunk_when_above_reserve_threshold() {
    let chunk_size = 512;
    let alloc_size = 64;
    let allocs_per_block = (chunk_size - BLOCK_HEADER_SIZE) / alloc_size;
    let mut memory = vec![0u8; 10 * chunk_size];
    let mut allocator = make_allocator(chunk_size, &mut memory);

    let ptrs_a: Vec<usize> = (0..allocs_per_block).map(|_| allocator.allocate(alloc_size, 8)).collect();
    let ptr_b = allocator.allocate(alloc_size, 8);
    assert!(ptr_b != 0);

    let chunks_used = allocator.chunk_allocator().used_chunks();
    for &ptr in &ptrs_a {
        allocator.dealloc(ptr, alloc_size);
    }
    assert_eq!(allocator.chunk_allocator().used_chunks(), chunks_used, "A's chunk should be kept as reserve");

    allocator.dealloc(ptr_b, alloc_size);
    assert_eq!(
        allocator.chunk_allocator().used_chunks(),
        chunks_used - 1,
        "B's chunk should be returned when free_block_count exceeds RESERVE_THRESHOLD"
    );
}

#[test]
fn two_allocations_from_same_block_do_not_overlap() {
    let mut memory = vec![0u8; 10 * 4096];
    let mut allocator = make_allocator(4096, &mut memory);
    let ptr1 = allocator.allocate(64, 8);
    let ptr2 = allocator.allocate(64, 8);
    assert!(ptr1 != 0);
    assert!(ptr2 != 0);
    assert_ne!(ptr1, ptr2);
    assert!(ptr1.abs_diff(ptr2) >= 64);
}

#[test]
fn first_allocation_follows_block_header() {
    let mut memory = vec![0u8; 10 * 4096];
    let mut allocator = make_allocator(4096, &mut memory);
    let ptr = allocator.allocate(24, 8);
    assert_eq!(ptr % 8, 0);
    let next = allocator.allocate(24, 8);
    assert_eq!(next, ptr + 24);
}
