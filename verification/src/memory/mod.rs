pub mod free_list_allocator;
pub mod memory_manager;
pub mod userspace_allocator;

use vstd::prelude::*;

verus! {

/// Most memory blocks that the boot information can describe.
pub const MAX_MEMORY_BLOCKS: usize = 32;

/// A block of usable physical memory: its start address and its size.
#[derive(Copy, Clone)]
pub struct MemoryBlock {
    pub start: usize,
    pub size: usize,
}

/// The usable memory blocks: the first `count` entries are valid.
#[derive(Copy, Clone)]
pub struct MemoryBlocks {
    pub blocks: [MemoryBlock; 32],
    pub count: usize,
}

} // verus!
