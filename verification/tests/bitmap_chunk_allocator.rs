use kernel::bitmap_chunk_allocator::{metadata_size, BitmapChunkAllocator, DEFAULT_CHUNK_SIZE};
use kernel::bits::BITS_PER_WORD;

fn metadata_overhead(region_count: usize, raw_total_chunks: usize) -> usize {
    metadata_size(region_count, raw_total_chunks)
}

fn usable_base(base: usize, region_count: usize, raw_total_chunks: usize) -> usize {
    base + metadata_overhead(region_count, raw_total_chunks)
}

#[test]
fn bits_per_word_matches_native_word_size() {
    assert_eq!(BITS_PER_WORD, usize::BITS as usize);
}

#[test]
fn new_embeds_metadata_in_first_range() {
    let mut memory = vec![0u8; 8 * DEFAULT_CHUNK_SIZE];
    let base = memory.as_mut_ptr() as usize;

    let allocator = BitmapChunkAllocator::new(&[(base, memory.len())]);

    let overhead = metadata_overhead(1, 8);
    let expected_chunks = (8 * DEFAULT_CHUNK_SIZE - overhead) / DEFAULT_CHUNK_SIZE;
    assert_eq!(allocator.free_chunks(), expected_chunks);
    assert_eq!(allocator.used_chunks(), 0);
}

#[test]
fn new_trims_unaligned_tail() {
    let mut memory = vec![0u8; 4 * DEFAULT_CHUNK_SIZE + 100];
    let base = memory.as_mut_ptr() as usize;

    let allocator = BitmapChunkAllocator::new(&[(base, memory.len())]);

    let overhead = metadata_overhead(1, 4);
    let expected_chunks = (4 * DEFAULT_CHUNK_SIZE + 100 - overhead) / DEFAULT_CHUNK_SIZE;
    assert_eq!(allocator.free_chunks(), expected_chunks);
}

#[test]
fn new_with_multiple_ranges() {
    let mut mem1 = vec![0u8; 4 * DEFAULT_CHUNK_SIZE];
    let mut mem2 = vec![0u8; 5 * DEFAULT_CHUNK_SIZE];
    let base1 = mem1.as_mut_ptr() as usize;
    let base2 = mem2.as_mut_ptr() as usize;

    let allocator = BitmapChunkAllocator::new(&[
        (base1, mem1.len()),
        (base2, mem2.len()),
    ]);

    let overhead = metadata_overhead(2, 9);
    let first_region_chunks = (4 * DEFAULT_CHUNK_SIZE - overhead) / DEFAULT_CHUNK_SIZE;
    let expected_total = first_region_chunks + 5;
    assert_eq!(allocator.region_count(), 2);
    assert_eq!(allocator.free_chunks(), expected_total);
}

#[test]
fn allocate_single_chunk() {
    let mut memory = vec![0u8; 4 * DEFAULT_CHUNK_SIZE];
    let base = memory.as_mut_ptr() as usize;
    let usable = usable_base(base, 1, 4);

    let mut allocator = BitmapChunkAllocator::new(&[(base, memory.len())]);

    let alloc = allocator.allocate(DEFAULT_CHUNK_SIZE).unwrap();

    assert_eq!(alloc.ptr, usable);
}

#[test]
fn allocate_multiple_contiguous_chunks() {
    let mut memory = vec![0u8; 8 * DEFAULT_CHUNK_SIZE];
    let base = memory.as_mut_ptr() as usize;
    let usable = usable_base(base, 1, 8);

    let mut allocator = BitmapChunkAllocator::new(&[(base, memory.len())]);

    let alloc = allocator.allocate(3 * DEFAULT_CHUNK_SIZE).unwrap();

    assert_eq!(alloc.ptr, usable);
}

#[test]
fn allocate_successive_calls_return_non_overlapping_regions() {
    let mut memory = vec![0u8; 8 * DEFAULT_CHUNK_SIZE];
    let base = memory.as_mut_ptr() as usize;
    let usable = usable_base(base, 1, 8);

    let mut allocator = BitmapChunkAllocator::new(&[(base, memory.len())]);

    let first = allocator.allocate(2 * DEFAULT_CHUNK_SIZE).unwrap();
    let second = allocator.allocate(3 * DEFAULT_CHUNK_SIZE).unwrap();

    assert_eq!(first.ptr, usable);
    assert_eq!(second.ptr, usable + 2 * DEFAULT_CHUNK_SIZE);
}

#[test]
fn allocate_returns_none_when_not_enough_contiguous_chunks() {
    let mut memory = vec![0u8; 3 * DEFAULT_CHUNK_SIZE];
    let base = memory.as_mut_ptr() as usize;

    let mut allocator = BitmapChunkAllocator::new(&[(base, memory.len())]);

    let overhead = metadata_overhead(1, 3);
    let available = (3 * DEFAULT_CHUNK_SIZE - overhead) / DEFAULT_CHUNK_SIZE;
    let result = allocator.allocate((available + 1) * DEFAULT_CHUNK_SIZE);

    assert!(result.is_none());
}

#[test]
fn allocate_zero_bytes_returns_none_default_chunk() {
    let mut memory = vec![0u8; 4 * DEFAULT_CHUNK_SIZE];
    let base = memory.as_mut_ptr() as usize;

    let mut allocator = BitmapChunkAllocator::new(&[(base, memory.len())]);

    assert!(allocator.allocate(0).is_none());
}

#[test]
fn allocate_until_full_then_returns_none() {
    let mut memory = vec![0u8; 3 * DEFAULT_CHUNK_SIZE];
    let base = memory.as_mut_ptr() as usize;

    let mut allocator = BitmapChunkAllocator::new(&[(base, memory.len())]);

    let overhead = metadata_overhead(1, 3);
    let available = (3 * DEFAULT_CHUNK_SIZE - overhead) / DEFAULT_CHUNK_SIZE;

    for _ in 0..available {
        assert!(allocator.allocate(DEFAULT_CHUNK_SIZE).is_some());
    }
    assert!(allocator.allocate(DEFAULT_CHUNK_SIZE).is_none());
}

#[test]
fn allocate_from_second_region_when_first_is_full() {
    let mut mem1 = vec![0u8; 2 * DEFAULT_CHUNK_SIZE];
    let mut mem2 = vec![0u8; 4 * DEFAULT_CHUNK_SIZE];
    let base1 = mem1.as_mut_ptr() as usize;
    let base2 = mem2.as_mut_ptr() as usize;

    let mut allocator = BitmapChunkAllocator::new(&[
        (base1, mem1.len()),
        (base2, mem2.len()),
    ]);

    let overhead = metadata_overhead(2, 6);
    let first_region_chunks = (2 * DEFAULT_CHUNK_SIZE - overhead) / DEFAULT_CHUNK_SIZE;

    for _ in 0..first_region_chunks {
        allocator.allocate(DEFAULT_CHUNK_SIZE).unwrap();
    }

    let from_second = allocator.allocate(2 * DEFAULT_CHUNK_SIZE).unwrap();
    assert_eq!(from_second.ptr, base2);
}

#[test]
fn deallocate_then_reallocate_same_space() {
    let mut memory = vec![0u8; 3 * DEFAULT_CHUNK_SIZE];
    let base = memory.as_mut_ptr() as usize;
    let usable = usable_base(base, 1, 3);

    let mut allocator = BitmapChunkAllocator::new(&[(base, memory.len())]);

    let overhead = metadata_overhead(1, 3);
    let available = (3 * DEFAULT_CHUNK_SIZE - overhead) / DEFAULT_CHUNK_SIZE;

    let alloc = allocator.allocate(available * DEFAULT_CHUNK_SIZE).unwrap();
    assert!(allocator.allocate(DEFAULT_CHUNK_SIZE).is_none());

    allocator.deallocate(alloc.ptr, available);

    let alloc2 = allocator.allocate(available * DEFAULT_CHUNK_SIZE).unwrap();
    assert_eq!(alloc2.ptr, usable);
}

#[test]
fn deallocate_creates_gap_for_new_contiguous_allocation() {
    let mut memory = vec![0u8; 5 * DEFAULT_CHUNK_SIZE];
    let base = memory.as_mut_ptr() as usize;
    let usable = usable_base(base, 1, 5);

    let mut allocator = BitmapChunkAllocator::new(&[(base, memory.len())]);

    let a = allocator.allocate(DEFAULT_CHUNK_SIZE).unwrap();
    let _b = allocator.allocate(DEFAULT_CHUNK_SIZE).unwrap();
    let _c = allocator.allocate(DEFAULT_CHUNK_SIZE).unwrap();
    allocator.allocate(DEFAULT_CHUNK_SIZE).unwrap();

    allocator.deallocate(a.ptr, 1);
    let reused = allocator.allocate(DEFAULT_CHUNK_SIZE).unwrap();
    assert_eq!(reused.ptr, usable);
}

#[test]
fn deallocate_middle_chunks_allows_reuse() {
    let mut memory = vec![0u8; 5 * DEFAULT_CHUNK_SIZE];
    let base = memory.as_mut_ptr() as usize;
    let usable = usable_base(base, 1, 5);

    let mut allocator = BitmapChunkAllocator::new(&[(base, memory.len())]);

    allocator.allocate(DEFAULT_CHUNK_SIZE).unwrap();
    let b = allocator.allocate(2 * DEFAULT_CHUNK_SIZE).unwrap();
    allocator.allocate(DEFAULT_CHUNK_SIZE).unwrap();

    allocator.deallocate(b.ptr, 2);

    let reused = allocator.allocate(2 * DEFAULT_CHUNK_SIZE).unwrap();
    assert_eq!(reused.ptr, usable + DEFAULT_CHUNK_SIZE);
}

#[test]
fn fresh_region_all_chunks_free() {
    let mut memory = vec![0u8; 5 * DEFAULT_CHUNK_SIZE];
    let base = memory.as_mut_ptr() as usize;

    let allocator = BitmapChunkAllocator::new(&[(base, memory.len())]);

    let overhead = metadata_overhead(1, 5);
    let expected = (5 * DEFAULT_CHUNK_SIZE - overhead) / DEFAULT_CHUNK_SIZE;
    assert_eq!(allocator.free_chunks(), expected);
    assert_eq!(allocator.used_chunks(), 0);
}

#[test]
fn counts_reflect_allocations() {
    let mut memory = vec![0u8; 5 * DEFAULT_CHUNK_SIZE];
    let base = memory.as_mut_ptr() as usize;

    let mut allocator = BitmapChunkAllocator::new(&[(base, memory.len())]);

    let total = allocator.free_chunks();

    allocator.allocate(DEFAULT_CHUNK_SIZE);
    assert_eq!(allocator.used_chunks(), 1);
    assert_eq!(allocator.free_chunks(), total - 1);

    allocator.allocate(2 * DEFAULT_CHUNK_SIZE);
    assert_eq!(allocator.used_chunks(), 3);
    assert_eq!(allocator.free_chunks(), total - 3);
}

#[test]
fn counts_reflect_deallocations() {
    let mut memory = vec![0u8; 5 * DEFAULT_CHUNK_SIZE];
    let base = memory.as_mut_ptr() as usize;

    let mut allocator = BitmapChunkAllocator::new(&[(base, memory.len())]);

    let total = allocator.free_chunks();

    let alloc = allocator.allocate(3 * DEFAULT_CHUNK_SIZE).unwrap();
    assert_eq!(allocator.used_chunks(), 3);

    allocator.deallocate(alloc.ptr, 2);
    assert_eq!(allocator.used_chunks(), 1);
    assert_eq!(allocator.free_chunks(), total - 1);
}

#[test]
fn counts_across_multiple_regions() {
    let mut mem1 = vec![0u8; 4 * DEFAULT_CHUNK_SIZE];
    let mut mem2 = vec![0u8; 3 * DEFAULT_CHUNK_SIZE];
    let base1 = mem1.as_mut_ptr() as usize;
    let base2 = mem2.as_mut_ptr() as usize;

    let mut allocator = BitmapChunkAllocator::new(&[
        (base1, mem1.len()),
        (base2, mem2.len()),
    ]);

    let total = allocator.free_chunks();
    allocator.allocate(DEFAULT_CHUNK_SIZE);
    allocator.allocate(2 * DEFAULT_CHUNK_SIZE);
    assert_eq!(allocator.used_chunks(), 3);
    assert_eq!(allocator.free_chunks(), total - 3);
}

#[test]
fn new_accepts_more_than_32_ranges() {
    let range_count = 40;
    let mems: Vec<Vec<u8>> = (0..range_count)
        .map(|_| vec![0u8; 2 * DEFAULT_CHUNK_SIZE])
        .collect();
    let ranges: Vec<(usize, usize)> = mems.iter()
        .map(|m| (m.as_ptr() as usize, m.len()))
        .collect();

    let allocator = BitmapChunkAllocator::new(&ranges);

    assert_eq!(allocator.region_count(), range_count);
}

#[test]
fn allocate_bytes_returns_allocation_struct() {
    let chunk_size: usize = 4096;
    let mut memory = vec![0u8; 10 * chunk_size];
    let base = memory.as_mut_ptr() as usize;

    let mut allocator = BitmapChunkAllocator::with_chunk_size(
        chunk_size,
        &[(base, memory.len())],
    );

    let alloc = allocator.allocate(chunk_size + 1).unwrap();

    assert_eq!(alloc.chunk_count, 2);
    assert_eq!(alloc.chunk_size, chunk_size);
    assert!(alloc.ptr != 0);
}

#[test]
fn allocate_exact_chunk_boundary() {
    let chunk_size: usize = 4096;
    let mut memory = vec![0u8; 10 * chunk_size];
    let base = memory.as_mut_ptr() as usize;

    let mut allocator = BitmapChunkAllocator::with_chunk_size(
        chunk_size,
        &[(base, memory.len())],
    );

    let alloc = allocator.allocate(chunk_size).unwrap();
    assert_eq!(alloc.chunk_count, 1);

    let alloc2 = allocator.allocate(2 * chunk_size).unwrap();
    assert_eq!(alloc2.chunk_count, 2);
}

#[test]
fn allocate_zero_bytes_returns_none() {
    let chunk_size: usize = 4096;
    let mut memory = vec![0u8; 10 * chunk_size];
    let base = memory.as_mut_ptr() as usize;

    let mut allocator = BitmapChunkAllocator::with_chunk_size(
        chunk_size,
        &[(base, memory.len())],
    );

    assert!(allocator.allocate(0).is_none());
}

#[test]
fn with_custom_chunk_size() {
    let custom_size: usize = 4096;
    let mut memory = vec![0u8; 8 * custom_size];
    let base = memory.as_mut_ptr() as usize;

    let allocator = BitmapChunkAllocator::with_chunk_size(
        custom_size,
        &[(base, memory.len())],
    );

    assert_eq!(allocator.chunk_size(), custom_size);
    assert!(allocator.free_chunks() > 0);
    assert!(allocator.free_chunks() < 8);
}

#[test]
fn new_accepts_overlapping_ranges() {
    let mut memory = vec![0u8; 8 * DEFAULT_CHUNK_SIZE];
    let base = memory.as_mut_ptr() as usize;
    let half = 4 * DEFAULT_CHUNK_SIZE;

    let mut allocator = BitmapChunkAllocator::new(&[(base, memory.len()), (base + half, half)]);

    assert_eq!(allocator.region_count(), 2);
    assert_eq!(allocator.used_chunks(), 0);
    let overhead = metadata_overhead(2, 12);
    let expected_chunks = (8 * DEFAULT_CHUNK_SIZE - overhead) / DEFAULT_CHUNK_SIZE + 4;
    assert_eq!(allocator.free_chunks(), expected_chunks);
    assert!(allocator.allocate(DEFAULT_CHUNK_SIZE).is_some());
    assert_eq!(allocator.used_chunks(), 1);
}

#[test]
fn allocate_accepts_bytes_one_below_the_overflow_point() {
    let mut memory = vec![0u8; 8 * DEFAULT_CHUNK_SIZE];
    let base = memory.as_mut_ptr() as usize;
    let mut allocator = BitmapChunkAllocator::new(&[(base, memory.len())]);
    assert!(allocator.allocate(usize::MAX - DEFAULT_CHUNK_SIZE + 1).is_none());
}
