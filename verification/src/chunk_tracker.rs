use vstd::prelude::*;

verus! {

/// Counts the chunks that an owner holds, for chunks of one fixed size.
pub struct ChunkTracker {
    chunk_size: usize,
    count: usize,
}

impl ChunkTracker {
    pub closed spec fn spec_chunk_size(&self) -> usize {
        self.chunk_size
    }

    pub closed spec fn spec_owned_count(&self) -> usize {
        self.count
    }

    /// A tracker for chunks of `chunk_size` bytes that owns none yet.
    pub fn new(chunk_size: usize) -> (tracker: Self)
        ensures
            tracker.spec_chunk_size() == chunk_size,
            tracker.spec_owned_count() == 0,
    {
        ChunkTracker { chunk_size, count: 0 }
    }

    /// How many chunks the tracker owns.
    pub fn owned_count(&self) -> (count: usize)
        ensures
            count == self.spec_owned_count(),
    {
        self.count
    }
}

} // verus!
