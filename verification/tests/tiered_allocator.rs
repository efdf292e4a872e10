use kernel::tiered_allocator::{
    init_region, region_alloc, region_dealloc, BlockProvider, Region, TieredAllocator, ALIGNMENT, HEADER_SIZE,
    REGION_HEADER_SIZE,
};
use std::cell::{Cell, RefCell};

const WORD: usize = core::mem::size_of::<usize>();

struct MockBlockProvider {
    block_size: usize,
    memory: Vec<u128>,
    next_offset: Cell<usize>,
    released: RefCell<Vec<(usize, usize)>>,
}

impl MockBlockProvider {
    fn new(block_size: usize, total_blocks: usize) -> Self {
        MockBlockProvider {
            block_size,
            memory: vec![0u128; block_size * total_blocks / 16],
            next_offset: Cell::new(0),
            released: RefCell::new(Vec::new()),
        }
    }

    fn released_count(&self) -> usize {
        self.released.borrow().len()
    }
}

impl BlockProvider for MockBlockProvider {
    fn spec_block_size(&self) -> usize {
        self.block_size
    }

    fn grants(&self, min_blocks: usize, blocks: Option<(usize, usize)>) -> bool {
        match blocks {
            None => true,
            Some((_, count)) => count == min_blocks,
        }
    }

    fn block_size(&self) -> usize {
        self.block_size
    }

    fn allocate_blocks(&self, min_blocks: usize) -> Option<(usize, usize)> {
        let offset = self.next_offset.get();
        let bytes_needed = min_blocks * self.block_size;
        if offset + bytes_needed > self.memory.len() * 16 {
            return None;
        }
        let ptr = self.memory.as_ptr() as usize + offset;
        self.next_offset.set(offset + bytes_needed);
        Some((ptr, min_blocks))
    }

    fn release_blocks(&self, ptr: usize, count: usize) {
        self.released.borrow_mut().push((ptr, count));
    }
}

fn init_test_region(provider: &MockBlockProvider, blocks: usize) -> Region {
    let (ptr, count) = provider.allocate_blocks(blocks).unwrap();
    init_region(ptr, count * provider.block_size(), count)
}

fn chunk_size_at(region: &Region, addr: usize) -> usize {
    region.header_at(addr).unwrap().size()
}

fn head_size(region: &Region) -> usize {
    chunk_size_at(region, region.free_list_head().unwrap())
}

#[test]
fn mock_provider_should_allocate_blocks() {
    let provider = MockBlockProvider::new(4096, 4);
    let result = provider.allocate_blocks(1);
    assert!(result.is_some());
    let (ptr, count) = result.unwrap();
    assert!(ptr != 0);
    assert_eq!(count, 1);
}

#[test]
fn mock_provider_should_allocate_multiple_blocks() {
    let provider = MockBlockProvider::new(4096, 4);
    let (ptr1, _) = provider.allocate_blocks(2).unwrap();
    let (ptr2, _) = provider.allocate_blocks(2).unwrap();
    assert_eq!(ptr2 - ptr1, 8192);
}

#[test]
fn mock_provider_should_return_none_when_exhausted() {
    let provider = MockBlockProvider::new(4096, 2);
    provider.allocate_blocks(2).unwrap();
    assert!(provider.allocate_blocks(1).is_none());
}

#[test]
fn mock_provider_should_track_releases() {
    let provider = MockBlockProvider::new(4096, 4);
    let (ptr, _) = provider.allocate_blocks(1).unwrap();
    provider.release_blocks(ptr, 1);
    assert_eq!(provider.released_count(), 1);
}

#[test]
fn region_init_should_create_single_free_chunk() {
    let provider = MockBlockProvider::new(4096, 1);
    let region = init_test_region(&provider, 1);
    assert_eq!(region.total_size(), 4096);
    assert_eq!(region.block_count(), 1);
    assert_eq!(region.used_bytes(), 0);
    assert!(region.free_list_head().is_some());
    assert_eq!(region.free_list_len(), 1);
}

#[test]
fn region_init_should_have_free_chunk_covering_usable_space() {
    let provider = MockBlockProvider::new(4096, 1);
    let region = init_test_region(&provider, 1);
    let chunk = region.free_list_head().unwrap();
    let base = region.base();
    let usable_start = (base + REGION_HEADER_SIZE + ALIGNMENT - 1) & !(ALIGNMENT - 1);
    let expected_size = 4096 - (usable_start - base);
    let expected_size = expected_size - (expected_size % ALIGNMENT);
    assert_eq!(chunk_size_at(&region, chunk), expected_size);
    assert_eq!(chunk, usable_start);
    assert_eq!(region.free_list_len(), 1);
}

#[test]
fn region_init_should_work_with_multiple_blocks() {
    let provider = MockBlockProvider::new(4096, 4);
    let region = init_test_region(&provider, 3);
    assert_eq!(region.total_size(), 4096 * 3);
    assert_eq!(region.block_count(), 3);
    assert!(head_size(&region) > 4096 * 2);
}

#[test]
fn region_free_chunk_should_not_be_marked_allocated() {
    let provider = MockBlockProvider::new(4096, 1);
    let region = init_test_region(&provider, 1);
    let header = region.header_at(region.free_list_head().unwrap()).unwrap();
    assert!(!header.is_allocated());
}

#[test]
fn region_alloc_should_return_valid_pointer() {
    let provider = MockBlockProvider::new(4096, 1);
    let mut region = init_test_region(&provider, 1);
    let ptr = region_alloc(&mut region, 64, WORD);
    assert!(ptr != 0);
    let region_base = region.base();
    assert!(ptr > region_base);
    assert!(ptr < region_base + 4096);
}

#[test]
fn region_alloc_should_mark_chunk_as_allocated() {
    let provider = MockBlockProvider::new(4096, 1);
    let mut region = init_test_region(&provider, 1);
    let ptr = region_alloc(&mut region, 64, WORD);
    assert!(region.header_at(ptr - WORD).unwrap().is_allocated());
}

#[test]
fn region_alloc_should_return_null_when_too_large() {
    let provider = MockBlockProvider::new(256, 1);
    let mut region = init_test_region(&provider, 1);
    let ptr = region_alloc(&mut region, 4096, WORD);
    assert_eq!(ptr, 0);
}

#[test]
fn region_alloc_should_return_pointer_after_header() {
    let provider = MockBlockProvider::new(4096, 1);
    let mut region = init_test_region(&provider, 1);
    let free_chunk_addr = region.free_list_head().unwrap();
    let ptr = region_alloc(&mut region, 64, WORD);
    assert_eq!(ptr, free_chunk_addr + HEADER_SIZE);
}

#[test]
fn region_alloc_should_track_used_bytes() {
    let provider = MockBlockProvider::new(4096, 1);
    let mut region = init_test_region(&provider, 1);
    region_alloc(&mut region, 64, WORD);
    assert!(region.used_bytes() > 0);
}

#[test]
fn region_alloc_should_split_large_chunk() {
    let provider = MockBlockProvider::new(4096, 1);
    let mut region = init_test_region(&provider, 1);
    let ptr = region_alloc(&mut region, 64, WORD);
    assert!(ptr != 0);
    assert!(region.free_list_head().is_some());
    assert!(head_size(&region) > 0);
}

#[test]
fn region_alloc_should_allow_multiple_allocations_after_splitting() {
    let provider = MockBlockProvider::new(4096, 1);
    let mut region = init_test_region(&provider, 1);
    let ptr1 = region_alloc(&mut region, 64, WORD);
    let ptr2 = region_alloc(&mut region, 64, WORD);
    assert!(ptr1 != 0);
    assert!(ptr2 != 0);
    assert_ne!(ptr1, ptr2);
}

#[test]
fn region_alloc_split_should_only_track_allocated_portion() {
    let provider = MockBlockProvider::new(4096, 1);
    let mut region = init_test_region(&provider, 1);
    let original_size = head_size(&region);
    let ptr = region_alloc(&mut region, 64, WORD);
    let alloc_size = chunk_size_at(&region, ptr - WORD);
    assert!(alloc_size < original_size);
    assert_eq!(region.used_bytes(), alloc_size);
}

#[test]
fn region_alloc_should_fill_region_with_many_small_allocations() {
    let provider = MockBlockProvider::new(4096, 1);
    let mut region = init_test_region(&provider, 1);
    let mut count = 0;
    loop {
        let ptr = region_alloc(&mut region, 32, WORD);
        if ptr == 0 {
            break;
        }
        count += 1;
    }
    assert!(count > 10);
}

#[test]
fn region_dealloc_should_mark_chunk_as_free() {
    let provider = MockBlockProvider::new(4096, 1);
    let mut region = init_test_region(&provider, 1);
    let ptr = region_alloc(&mut region, 64, WORD);
    region_dealloc(&mut region, ptr);
    assert!(!region.header_at(ptr - WORD).unwrap().is_allocated());
}

#[test]
fn region_dealloc_should_add_chunk_to_free_list() {
    let provider = MockBlockProvider::new(4096, 1);
    let mut region = init_test_region(&provider, 1);
    let ptr = region_alloc(&mut region, 64, WORD);
    region_dealloc(&mut region, ptr);
    assert_eq!(region.free_list_head(), Some(ptr - WORD));
}

#[test]
fn region_dealloc_should_decrement_used_bytes() {
    let provider = MockBlockProvider::new(4096, 1);
    let mut region = init_test_region(&provider, 1);
    let ptr = region_alloc(&mut region, 64, WORD);
    let used_after_alloc = region.used_bytes();
    region_dealloc(&mut region, ptr);
    assert_eq!(region.used_bytes(), 0);
    assert!(used_after_alloc > 0);
}

#[test]
fn region_dealloc_should_allow_reallocation() {
    let provider = MockBlockProvider::new(4096, 1);
    let mut region = init_test_region(&provider, 1);
    let ptr1 = region_alloc(&mut region, 64, WORD);
    region_dealloc(&mut region, ptr1);
    let ptr2 = region_alloc(&mut region, 64, WORD);
    assert!(ptr2 != 0);
}

#[test]
fn region_dealloc_should_handle_multiple_alloc_dealloc_cycles() {
    let provider = MockBlockProvider::new(4096, 1);
    let mut region = init_test_region(&provider, 1);
    for _ in 0..100 {
        let ptr = region_alloc(&mut region, 32, WORD);
        assert!(ptr != 0);
        region_dealloc(&mut region, ptr);
    }
    assert_eq!(region.used_bytes(), 0);
}

#[test]
fn region_dealloc_should_coalesce_with_next_free_chunk() {
    let provider = MockBlockProvider::new(4096, 1);
    let mut region = init_test_region(&provider, 1);
    let ptr1 = region_alloc(&mut region, 64, WORD);
    let ptr2 = region_alloc(&mut region, 64, WORD);
    let chunk1_size = chunk_size_at(&region, ptr1 - WORD);
    let chunk2_size = chunk_size_at(&region, ptr2 - WORD);
    region_dealloc(&mut region, ptr2);
    region_dealloc(&mut region, ptr1);
    assert!(head_size(&region) >= chunk1_size + chunk2_size);
}

#[test]
fn region_dealloc_should_coalesce_with_prev_free_chunk() {
    let provider = MockBlockProvider::new(4096, 1);
    let mut region = init_test_region(&provider, 1);
    let ptr1 = region_alloc(&mut region, 64, WORD);
    let ptr2 = region_alloc(&mut region, 64, WORD);
    let chunk1_size = chunk_size_at(&region, ptr1 - WORD);
    let chunk2_size = chunk_size_at(&region, ptr2 - WORD);
    region_dealloc(&mut region, ptr1);
    region_dealloc(&mut region, ptr2);
    assert!(head_size(&region) >= chunk1_size + chunk2_size);
}

#[test]
fn region_dealloc_should_coalesce_both_neighbors() {
    let provider = MockBlockProvider::new(4096, 1);
    let mut region = init_test_region(&provider, 1);
    let ptr1 = region_alloc(&mut region, 64, WORD);
    let ptr2 = region_alloc(&mut region, 64, WORD);
    let ptr3 = region_alloc(&mut region, 64, WORD);
    region_dealloc(&mut region, ptr1);
    region_dealloc(&mut region, ptr3);
    region_dealloc(&mut region, ptr2);
    assert_eq!(region.free_list_head(), Some(ptr1 - WORD));
}

#[test]
fn region_dealloc_should_restore_full_region_after_freeing_all() {
    let provider = MockBlockProvider::new(4096, 1);
    let mut region = init_test_region(&provider, 1);
    let original_size = head_size(&region);
    let ptr1 = region_alloc(&mut region, 64, WORD);
    let ptr2 = region_alloc(&mut region, 64, WORD);
    let ptr3 = region_alloc(&mut region, 64, WORD);
    region_dealloc(&mut region, ptr2);
    region_dealloc(&mut region, ptr1);
    region_dealloc(&mut region, ptr3);
    assert_eq!(head_size(&region), original_size);
    assert_eq!(region.free_list_len(), 1);
    assert_eq!(region.used_bytes(), 0);
}

#[test]
fn region_dealloc_should_not_coalesce_with_allocated_neighbors() {
    let provider = MockBlockProvider::new(4096, 1);
    let mut region = init_test_region(&provider, 1);
    let _ptr1 = region_alloc(&mut region, 64, WORD);
    let ptr2 = region_alloc(&mut region, 64, WORD);
    let _ptr3 = region_alloc(&mut region, 64, WORD);
    let chunk2_size = chunk_size_at(&region, ptr2 - WORD);
    region_dealloc(&mut region, ptr2);
    assert_eq!(head_size(&region), chunk2_size);
}

#[test]
fn region_alloc_should_return_16_byte_aligned_pointer() {
    let provider = MockBlockProvider::new(4096, 1);
    let mut region = init_test_region(&provider, 1);
    let ptr = region_alloc(&mut region, 64, 16);
    assert!(ptr != 0);
    assert_eq!(ptr % 16, 0);
}

#[test]
fn region_alloc_should_return_32_byte_aligned_pointer() {
    let provider = MockBlockProvider::new(4096, 1);
    let mut region = init_test_region(&provider, 1);
    let ptr = region_alloc(&mut region, 64, 32);
    assert!(ptr != 0);
    assert_eq!(ptr % 32, 0);
}

#[test]
fn region_alloc_should_return_64_byte_aligned_pointer() {
    let provider = MockBlockProvider::new(4096, 1);
    let mut region = init_test_region(&provider, 1);
    let ptr = region_alloc(&mut region, 64, 64);
    assert!(ptr != 0);
    assert_eq!(ptr % 64, 0);
}

#[test]
fn region_dealloc_should_work_after_aligned_alloc() {
    let provider = MockBlockProvider::new(4096, 1);
    let mut region = init_test_region(&provider, 1);
    let ptr = region_alloc(&mut region, 64, 32);
    assert_eq!(ptr % 32, 0);
    region_dealloc(&mut region, ptr);
    assert_eq!(region.used_bytes(), 0);
}

#[test]
fn region_should_support_mixed_alignment_alloc_dealloc() {
    let provider = MockBlockProvider::new(4096, 1);
    let mut region = init_test_region(&provider, 1);
    let ptr1 = region_alloc(&mut region, 32, WORD);
    let ptr2 = region_alloc(&mut region, 64, 32);
    let ptr3 = region_alloc(&mut region, 16, WORD);
    assert!(ptr1 != 0);
    assert!(ptr2 != 0);
    assert!(ptr3 != 0);
    assert_eq!(ptr2 % 32, 0);
    region_dealloc(&mut region, ptr2);
    region_dealloc(&mut region, ptr1);
    region_dealloc(&mut region, ptr3);
    assert_eq!(region.used_bytes(), 0);
}

#[test]
fn tiered_alloc_should_request_blocks_on_first_alloc() {
    let provider = MockBlockProvider::new(4096, 4);
    let mut alloc = TieredAllocator::new(provider);
    let ptr = alloc.allocate(64, WORD);
    assert!(ptr != 0);
    assert!(alloc.region_count() > 0);
}

#[test]
fn tiered_alloc_should_return_valid_pointer() {
    let provider = MockBlockProvider::new(4096, 4);
    let mut alloc = TieredAllocator::new(provider);
    let ptr = alloc.allocate(64, WORD);
    assert!(ptr != 0);
    let region = alloc.region(0);
    assert!(region.base() < ptr && ptr + 64 <= region.base() + region.total_size());
}

#[test]
fn tiered_dealloc_should_free_allocated_memory() {
    let provider = MockBlockProvider::new(4096, 4);
    let mut alloc = TieredAllocator::new(provider);
    let ptr = alloc.allocate(64, WORD);
    alloc.dealloc(ptr);
    assert_eq!(alloc.region(0).used_bytes(), 0);
}

#[test]
fn tiered_alloc_should_support_multiple_allocations() {
    let provider = MockBlockProvider::new(4096, 4);
    let mut alloc = TieredAllocator::new(provider);
    let ptr1 = alloc.allocate(64, WORD);
    let ptr2 = alloc.allocate(128, WORD);
    let ptr3 = alloc.allocate(32, WORD);
    assert!(ptr1 != 0);
    assert!(ptr2 != 0);
    assert!(ptr3 != 0);
    assert_ne!(ptr1, ptr2);
    assert_ne!(ptr2, ptr3);
}

#[test]
fn tiered_alloc_should_reuse_freed_memory() {
    let provider = MockBlockProvider::new(4096, 4);
    let mut alloc = TieredAllocator::new(provider);
    let ptr1 = alloc.allocate(64, WORD);
    alloc.dealloc(ptr1);
    let ptr2 = alloc.allocate(64, WORD);
    assert!(ptr2 != 0);
}

#[test]
fn tiered_alloc_should_return_null_when_provider_exhausted() {
    let provider = MockBlockProvider::new(256, 1);
    let mut alloc = TieredAllocator::new(provider);
    alloc.allocate(128, WORD);
    let ptr = alloc.allocate(4096, WORD);
    assert_eq!(ptr, 0);
}

#[test]
fn tiered_alloc_takes_enough_blocks_for_large_request() {
    let provider = MockBlockProvider::new(256, 64);
    let mut alloc = TieredAllocator::new(provider);
    let ptr = alloc.allocate(1000, 16);
    assert!(ptr != 0);
    assert_eq!(ptr % 16, 0);
    let region = alloc.region(0);
    assert!(region.block_count() * 256 >= 1000 + 80);
    assert_eq!(region.total_size(), region.block_count() * 256);
}

#[test]
fn tiered_dealloc_of_foreign_pointer_is_ignored() {
    let provider = MockBlockProvider::new(4096, 4);
    let mut alloc = TieredAllocator::new(provider);
    let ptr = alloc.allocate(64, WORD);
    let used = alloc.region(0).used_bytes();
    alloc.dealloc(16);
    assert_eq!(alloc.region(0).used_bytes(), used);
    alloc.dealloc(ptr);
    assert_eq!(alloc.region(0).used_bytes(), 0);
}

#[test]
fn place_region_refuses_blocks_that_cannot_hold_a_region() {
    let provider = MockBlockProvider::new(4096, 1);
    let mut allocator = TieredAllocator::new(provider);
    assert_eq!(allocator.place_region(4096, 0, 4096, 64, WORD), 0);
    assert_eq!(allocator.place_region(4096, 1, 16, 64, WORD), 0);
    assert_eq!(allocator.place_region(4096, usize::MAX, 4096, 64, WORD), 0);
    assert_eq!(allocator.region_count(), 0);
}

#[test]
fn place_region_serves_from_a_new_front_region() {
    let provider = MockBlockProvider::new(4096, 2);
    let base = provider.memory.as_ptr() as usize;
    let mut allocator = TieredAllocator::new(provider);
    let ptr = allocator.place_region(base, 1, 4096, 64, WORD);
    assert_eq!(allocator.region_count(), 1);
    let usable = (base + REGION_HEADER_SIZE + ALIGNMENT - 1) / ALIGNMENT * ALIGNMENT;
    assert_eq!(ptr, usable + HEADER_SIZE);
    let second = allocator.place_region(base + 4096, 1, 4096, 64, WORD);
    assert_eq!(allocator.region_count(), 2);
    assert_eq!(allocator.region(0).base(), base + 4096);
    assert_ne!(second, 0);
}

#[test]
fn allocate_asks_the_provider_for_one_block_for_a_small_request() {
    let provider = MockBlockProvider::new(4096, 4);
    let mut allocator = TieredAllocator::new(provider);
    let ptr = allocator.allocate(64, WORD);
    assert_ne!(ptr, 0);
    assert_eq!(allocator.provider().next_offset.get(), 4096);
    assert!(allocator.provider().grants(1, Some((0, 1))));
}

#[test]
fn place_region_builds_a_region_on_blocks_not_aligned_to_sixteen() {
    let provider = MockBlockProvider::new(4096, 1);
    let mut allocator = TieredAllocator::new(provider);
    // Base and size both 8 past a multiple of 16: the chunks start at the
    // next aligned address after the header and end where the bytes end.
    let ptr = allocator.place_region(4104, 1, 4104, 64, WORD);
    assert_eq!(ptr, 4144 + HEADER_SIZE);
    assert_eq!(allocator.region_count(), 1);
    // A size 4 past a multiple of 16 leaves its last bytes unused.
    let second = allocator.place_region(4100, 1, 4096, 64, WORD);
    assert_eq!(second, 4144 + HEADER_SIZE);
    assert_eq!(allocator.region_count(), 2);
}

#[test]
fn region_init_should_write_footer() {
    let provider = MockBlockProvider::new(4096, 1);
    let region = init_test_region(&provider, 1);
    let chunk = region.free_list_head().unwrap();
    let chunk_size = chunk_size_at(&region, chunk);
    assert_eq!(region.footer_at(chunk + chunk_size - WORD), Some(chunk_size));
}

#[test]
fn region_alloc_split_chunks_should_have_correct_footers() {
    let provider = MockBlockProvider::new(4096, 1);
    let mut region = init_test_region(&provider, 1);
    let ptr = region_alloc(&mut region, 64, WORD);
    let alloc_chunk = ptr - WORD;
    let alloc_size = chunk_size_at(&region, alloc_chunk);
    assert_eq!(region.footer_at(alloc_chunk + alloc_size - WORD), Some(alloc_size));
    let free_chunk = region.free_list_head().unwrap();
    let free_size = chunk_size_at(&region, free_chunk);
    assert_eq!(region.footer_at(free_chunk + free_size - WORD), Some(free_size));
}

#[test]
fn region_dealloc_should_write_footer_without_allocated_flag() {
    let provider = MockBlockProvider::new(4096, 1);
    let mut region = init_test_region(&provider, 1);
    let ptr = region_alloc(&mut region, 64, WORD);
    region_dealloc(&mut region, ptr);
    let chunk = ptr - WORD;
    let chunk_size = chunk_size_at(&region, chunk);
    let footer = region.footer_at(chunk + chunk_size - WORD).unwrap();
    assert_eq!(footer, chunk_size);
    assert_eq!(footer & 1, 0);
}
