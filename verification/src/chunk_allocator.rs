use vstd::prelude::*;

verus! {

/// A source of runs of fixed-size chunks of memory.
pub trait ChunkAllocator {
    fn chunk_size(&self) -> usize;

    /// The address of `count` free chunks in a row, now in use; `None` when
    /// there is no such run.
    fn allocate_chunks(&mut self, count: usize) -> Option<usize>;

    /// Gives back `count` chunks from `ptr`.
    fn deallocate_chunks(&mut self, ptr: usize, count: usize);
}

} // verus!
