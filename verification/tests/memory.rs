use kernel::memory::free_list_allocator::FreeListAllocator;
use kernel::memory::memory_manager::{can_bootstrap, can_report, memory_report, MemoryManager};
use kernel::memory::{MemoryBlock, MemoryBlocks, MAX_MEMORY_BLOCKS};

fn make_manager(memory: &mut Vec<u8>) -> MemoryManager {
    let mut manager = MemoryManager::new();
    let mut blocks = MemoryBlocks { blocks: [MemoryBlock { start: 0, size: 0 }; MAX_MEMORY_BLOCKS], count: 1 };
    blocks.blocks[0] = MemoryBlock { start: memory.as_mut_ptr() as usize, size: memory.len() };
    manager.bootstrap(&blocks);
    manager
}

#[test]
fn allocate_single_block_returns_nonnull_pointer() {
    let mut memory = vec![0u8; 4096];
    let base = memory.as_mut_ptr() as usize;
    let mut alloc = FreeListAllocator::new(&[(base, 4096)]);
    let ptr = alloc.allocate(64, 8);
    assert!(ptr != 0);
}

#[test]
fn allocated_pointer_is_within_the_region() {
    let mut memory = vec![0u8; 4096];
    let base = memory.as_mut_ptr() as usize;
    let mut alloc = FreeListAllocator::new(&[(base, 4096)]);
    let ptr = alloc.allocate(64, 8);
    assert!(ptr >= base);
    assert!(ptr + 64 <= base + 4096);
}

#[test]
fn allocated_pointer_respects_alignment() {
    let mut memory = vec![0u8; 4096];
    let base = memory.as_mut_ptr() as usize;
    let mut alloc = FreeListAllocator::new(&[(base, 4096)]);
    let ptr = alloc.allocate(64, 8);
    assert_eq!(ptr % 8, 0);
}

#[test]
fn free_list_allocation_starts_after_size_word_of_aligned_block() {
    // Region starting at 0x1003: the block starts at the next multiple of 8.
    let mut alloc = FreeListAllocator::new(&[(0x1003, 4096)]);
    assert_eq!(alloc.allocate(24, 8), 0x1008 + 8);
    // 8 + 24 = 32 bytes were taken from the front of the block.
    assert_eq!(alloc.allocate(1, 1), 0x1008 + 32 + 8);
}

#[test]
fn free_list_zero_size_and_exhaustion_return_zero() {
    let mut alloc = FreeListAllocator::new(&[(0x2000, 64)]);
    assert_eq!(alloc.allocate(0, 8), 0);
    assert_eq!(alloc.allocate(128, 8), 0);
    let p = alloc.allocate(48, 8);
    assert_eq!(p, 0x2008);
    assert_eq!(alloc.allocate(1, 1), 0);
}

#[test]
fn free_list_freed_block_is_served_again_first() {
    let mut alloc = FreeListAllocator::new(&[(0x4000, 1024)]);
    let a = alloc.allocate(32, 8);
    let _b = alloc.allocate(32, 8);
    alloc.deallocate(a);
    assert_eq!(alloc.allocate(32, 8), a);
}

#[test]
fn used_starts_at_zero() {
    let mut memory = vec![0u8; 1024 * 1024];
    let manager = make_manager(&mut memory);
    assert_eq!(manager.used(), 0);
}

#[test]
fn alloc_returns_non_null() {
    let mut memory = vec![0u8; 1024 * 1024];
    let mut manager = make_manager(&mut memory);
    let ptr = manager.allocate(64, 8);
    assert!(ptr != 0);
    manager.dealloc(ptr, 64);
}

#[test]
fn alloc_increases_used() {
    let mut memory = vec![0u8; 1024 * 1024];
    let mut manager = make_manager(&mut memory);
    let ptr = manager.allocate(64, 8);
    assert_eq!(manager.used(), 64);
    manager.dealloc(ptr, 64);
}

#[test]
fn dealloc_decreases_used() {
    let mut memory = vec![0u8; 1024 * 1024];
    let mut manager = make_manager(&mut memory);
    let ptr = manager.allocate(64, 8);
    manager.dealloc(ptr, 64);
    assert_eq!(manager.used(), 0);
}

#[test]
fn alloc_with_cpu_setup_returns_non_null() {
    let mut memory = vec![0u8; 1024 * 1024];
    let mut manager = make_manager(&mut memory);
    manager.setup();
    let ptr = manager.allocate(64, 8);
    assert!(ptr != 0);
    manager.dealloc(ptr, 64);
}

#[test]
fn interrupts_are_guarded_only_after_setup() {
    let mut memory = vec![0u8; 4096];
    let mut manager = make_manager(&mut memory);
    assert!(!manager.guards_interrupts(true));
    manager.setup();
    assert!(manager.guards_interrupts(true));
    assert!(!manager.guards_interrupts(false));
}

#[test]
fn print_config_reports_regions_and_total() {
    let mut manager = MemoryManager::new();
    let mut blocks = MemoryBlocks { blocks: [MemoryBlock { start: 0, size: 0 }; MAX_MEMORY_BLOCKS], count: 2 };
    blocks.blocks[0] = MemoryBlock { start: 0x10_0000, size: 0x20_0000 };
    blocks.blocks[1] = MemoryBlock { start: 0x100_0000, size: 0x10_0800 };
    manager.bootstrap(&blocks);
    let report = manager.print_config();
    assert_eq!(report.regions.len(), 2);
    assert_eq!(report.regions[0].start, 0x10_0000);
    assert_eq!(report.regions[0].end, 0x30_0000);
    assert_eq!(report.regions[0].size_kb, 2048);
    assert_eq!(report.regions[1].size_kb, 1026);
    assert_eq!(report.total_mb, 3);
}

fn blocks_of(list: &[(usize, usize)]) -> MemoryBlocks {
    let mut blocks = MemoryBlocks { blocks: [MemoryBlock { start: 0, size: 0 }; MAX_MEMORY_BLOCKS], count: list.len() };
    for (i, &(start, size)) in list.iter().enumerate() {
        blocks.blocks[i] = MemoryBlock { start, size };
    }
    blocks
}

#[test]
fn can_bootstrap_refuses_overlapping_blocks() {
    assert!(can_bootstrap(&blocks_of(&[(0x1000, 0x1000), (0x2000, 0x1000)])));
    assert!(!can_bootstrap(&blocks_of(&[(0x1000, 0x1000), (0x1800, 0x1000)])));
    assert!(!can_bootstrap(&blocks_of(&[(usize::MAX - 4, 1)])));
}

#[test]
fn memory_report_lists_each_block_and_the_total() {
    let blocks = blocks_of(&[(0x10_0000, 0x10_0000), (0x40_0000, 0x20_0000)]);
    assert!(can_report(&blocks));
    let report = memory_report(&blocks);
    assert_eq!(report.regions.len(), 2);
    assert_eq!((report.regions[0].start, report.regions[0].end, report.regions[0].size_kb), (0x10_0000, 0x20_0000, 1024));
    assert_eq!((report.regions[1].start, report.regions[1].end, report.regions[1].size_kb), (0x40_0000, 0x60_0000, 2048));
    assert_eq!(report.total_mb, 3);
    assert!(!can_report(&blocks_of(&[(usize::MAX, 2)])));
}
