use vstd::prelude::*;

use crate::bitmap_chunk_allocator::{chunks_needed, has_run, region_hi, region_lo, BitmapChunkAllocator};
use crate::bits::{align_up, spec_align_up};

verus! {

/// Bytes of a free block's header: its size and the address of the next one.
pub const FREE_BLOCK_SIZE: usize = 16;

/// Alignment of a free block's header.
pub const FREE_BLOCK_ALIGN: usize = 8;

/// A free block: its address and its size.
#[derive(Copy, Clone)]
pub struct FreeBlock {
    pub start: usize,
    pub size: usize,
}

/// A first-fit allocator over a list of free blocks that takes more memory
/// from a chunk allocator when no block is large enough. Freed memory goes
/// back to the head of the list.
pub struct FreeListAllocator {
    chunk_allocator: BitmapChunkAllocator,
    free_list: Vec<FreeBlock>,
}

/// Bytes that an allocation of `size` bytes aligned to `align` takes: at
/// least a free block's header, rounded up to the larger alignment.
pub open spec fn spec_effective_size(size: int, align: int) -> int {
    let min_align = if align > FREE_BLOCK_ALIGN { align } else { FREE_BLOCK_ALIGN as int };
    let sz = if size > FREE_BLOCK_SIZE { size } else { FREE_BLOCK_SIZE as int };
    spec_align_up(sz, min_align)
}

/// Computes the bytes that an allocation of `size` bytes aligned to `align` takes.
pub fn effective_size(size: usize, align: usize) -> (bytes: usize)
    requires
        size + align + FREE_BLOCK_SIZE <= usize::MAX,
    ensures
        bytes == spec_effective_size(size as int, align as int),
        bytes >= size,
        bytes >= FREE_BLOCK_SIZE,
{
    let min_align = if align > FREE_BLOCK_ALIGN { align } else { FREE_BLOCK_ALIGN };
    let sz = if size > FREE_BLOCK_SIZE { size } else { FREE_BLOCK_SIZE };
    align_up(sz, min_align)
}

/// Whether block `i` is the first of `free` with at least `size` bytes.
pub open spec fn is_first_fit(free: Seq<FreeBlock>, size: int, i: int) -> bool {
    &&& 0 <= i < free.len()
    &&& free[i].size >= size
    &&& forall|j: int| 0 <= j < i ==> #[trigger] free[j].size < size
}

/// Whether no block of `free` has `size` bytes.
pub open spec fn none_fits(free: Seq<FreeBlock>, size: int) -> bool {
    forall|j: int| 0 <= j < free.len() ==> #[trigger] free[j].size < size
}

/// The free list after `size` bytes are taken from the front of block `i`:
/// the rest stays in its place when it can hold a header.
pub open spec fn take_from(free: Seq<FreeBlock>, i: int, size: int) -> Seq<FreeBlock> {
    let b = free[i];
    let remainder = b.size - size;
    if remainder >= FREE_BLOCK_SIZE {
        free.update(i, FreeBlock { start: (b.start + size) as usize, size: remainder as usize })
    } else {
        free.remove(i)
    }
}

/// Whether a size and an alignment make a valid layout whose effective
/// size can be asked of the chunk allocator.
pub open spec fn layout_ok(size: int, align: int) -> bool {
    &&& align > 0
    &&& size + align + FREE_BLOCK_SIZE <= isize::MAX
    &&& spec_effective_size(size, align) <= isize::MAX
}

impl FreeListAllocator {
    /// The free list, from its head.
    pub closed spec fn free(&self) -> Seq<FreeBlock> {
        self.free_list@
    }

    /// The chunk allocator that memory comes from.
    pub closed spec fn spec_chunk_allocator(&self) -> BitmapChunkAllocator {
        self.chunk_allocator
    }

    /// The chunk allocator is sound and no free block runs past the end of
    /// the address space.
    pub open spec fn wf(&self) -> bool {
        &&& self.spec_chunk_allocator().wf()
        &&& self.spec_chunk_allocator().spec_chunk_size() <= isize::MAX + 1
        &&& forall|i: int| 0 <= i < self.free().len() ==> #[trigger] self.free()[i].start + self.free()[i].size <= usize::MAX
    }

    /// An allocator with an empty free list over `chunk_allocator`.
    pub fn new(chunk_allocator: BitmapChunkAllocator) -> (allocator: Self)
        requires
            chunk_allocator.wf(),
            chunk_allocator.spec_chunk_size() <= isize::MAX + 1,
        ensures
            allocator.wf(),
            allocator.free() == Seq::<FreeBlock>::empty(),
            allocator.spec_chunk_allocator() == chunk_allocator,
    {
        FreeListAllocator { chunk_allocator, free_list: Vec::new() }
    }

    /// Takes `size` bytes from the front of the first free block that has
    /// them; the rest of the block stays free when it can hold a header.
    fn find_and_remove(&mut self, size: usize) -> (result: Option<usize>)
        requires
            old(self).wf(),
        ensures
            final(self).wf(),
            final(self).spec_chunk_allocator() == old(self).spec_chunk_allocator(),
            result is None <==> none_fits(old(self).free(), size as int),
            result is None ==> final(self).free() == old(self).free(),
            forall|i: int|
                #[trigger] is_first_fit(old(self).free(), size as int, i) ==> {
                    &&& result == Some(old(self).free()[i].start)
                    &&& final(self).free() == take_from(old(self).free(), i, size as int)
                },
    {
        let ghost old_free = self.free_list@;
        let mut i: usize = 0;
        while i < self.free_list.len()
            invariant
                self.free_list@ == old_free,
                old_free == old(self).free(),
                self.chunk_allocator == old(self).spec_chunk_allocator(),
                old(self).wf(),
                i <= old_free.len(),
                forall|j: int| 0 <= j < i ==> #[trigger] old_free[j].size < size,
            decreases old_free.len() - i,
        {
            let b = self.free_list[i];
            if b.size >= size {
                assert(old_free[i as int].start + old_free[i as int].size <= usize::MAX);
                let remainder = b.size - size;
                if remainder >= FREE_BLOCK_SIZE {
                    self.free_list.set(i, FreeBlock { start: b.start + size, size: remainder });
                } else {
                    self.free_list.remove(i);
                }
                proof {
                    let ii = i as int;
                    assert(self.free_list@ =~= take_from(old_free, ii, size as int));
                    assert forall|k: int| #[trigger] is_first_fit(old_free, size as int, k) implies k == ii by {
                        if k < ii {
                            assert(old_free[k].size < size);
                        } else if k > ii {
                            assert(old_free[ii].size < size);
                        }
                    }
                    assert(!none_fits(old_free, size as int));
                    assert forall|q: int| 0 <= q < self.free().len() implies #[trigger] self.free()[q].start + self.free()[q].size <= usize::MAX by {
                        if remainder < FREE_BLOCK_SIZE && q >= ii {
                            assert(self.free()[q] == old_free[q + 1]);
                        } else if q != ii {
                            assert(self.free()[q] == old_free[q]);
                        }
                    }
                }
                return Some(b.start);
            }
            i = i + 1;
        }
        None
    }

    /// Serves `size` bytes aligned to `align`: from the first free block
    /// large enough, else from a run of chunks that is put at the head of the
    /// free list first; 0 when `size` is 0 or no memory is left.
    pub fn allocate(&mut self, size: usize, align: usize) -> (ptr: usize)
        requires
            old(self).wf(),
            layout_ok(size as int, align as int),
        ensures
            final(self).wf(),
            final(self).spec_chunk_allocator().regions_view() == old(self).spec_chunk_allocator().regions_view(),
            final(self).spec_chunk_allocator().spec_chunk_size() == old(self).spec_chunk_allocator().spec_chunk_size(),
            size == 0 ==> ptr == 0 && final(self).free() == old(self).free() && final(self).spec_chunk_allocator()
                == old(self).spec_chunk_allocator(),
            forall|i: int|
                size > 0 && #[trigger] is_first_fit(old(self).free(), spec_effective_size(size as int, align as int), i) ==> {
                    &&& ptr == old(self).free()[i].start
                    &&& final(self).free() == take_from(old(self).free(), i, spec_effective_size(size as int, align as int))
                    &&& final(self).spec_chunk_allocator() == old(self).spec_chunk_allocator()
                },
            size > 0 && none_fits(old(self).free(), spec_effective_size(size as int, align as int)) ==> {
                let ca = old(self).spec_chunk_allocator();
                let es = spec_effective_size(size as int, align as int);
                let needed = chunks_needed(es, ca.spec_chunk_size());
                let no_run = forall|r: int|
                    0 <= r < ca.regions_view().len() ==> !#[trigger] has_run(
                        ca.chunks(),
                        region_lo(ca.regions_view()[r]),
                        region_hi(ca.regions_view()[r]),
                        needed,
                    );
                &&& no_run ==> {
                    &&& ptr == 0
                    &&& final(self).free() == old(self).free()
                    &&& final(self).spec_chunk_allocator().chunks() == ca.chunks()
                }
                &&& !no_run ==> {
                    &&& final(self).free() == take_from(
                        seq![FreeBlock { start: ptr, size: (needed * ca.spec_chunk_size()) as usize }] + old(self).free(),
                        0,
                        es,
                    )
                    &&& final(self).spec_chunk_allocator().spec_used() == ca.spec_used() + needed
                }
            },
    {
        if size == 0 {
            return 0;
        }
        let size = effective_size(size, align);
        let ghost old_free = self.free_list@;
        let ghost old_ca = self.chunk_allocator;
        match self.find_and_remove(size) {
            Some(ptr) => {
                return ptr;
            },
            None => {},
        }
        let allocation = match self.chunk_allocator.allocate(size) {
            Some(a) => a,
            None => {
                return 0;
            },
        };
        proof {
            let chunks = old_ca.chunks();
            let regions = old_ca.regions_view();
            let needed = chunks_needed(size as int, old_ca.spec_chunk_size());
            let (r, st) = choose|r: int, st: int|
                #![trigger crate::bitmap_chunk_allocator::is_first_fit(chunks, region_lo(regions[r]), region_hi(regions[r]), st, needed)]
                0 <= r < regions.len() && crate::bitmap_chunk_allocator::is_first_fit(
                    chunks,
                    region_lo(regions[r]),
                    region_hi(regions[r]),
                    st,
                    needed,
                );
            assert(crate::bitmap_chunk_allocator::is_run(chunks, region_lo(regions[r]), region_hi(regions[r]), st, needed));
            assert(has_run(chunks, region_lo(regions[r]), region_hi(regions[r]), needed));
        }
        let total = allocation.chunk_count * allocation.chunk_size;
        self.free_list.insert(0, FreeBlock { start: allocation.ptr, size: total });
        let ghost with_new = self.free_list@;
        proof {
            assert(with_new == seq![FreeBlock { start: allocation.ptr, size: total }] + old_free);
            assert(is_first_fit(with_new, size as int, 0));
        }
        match self.find_and_remove(size) {
            Some(ptr) => ptr,
            None => 0,
        }
    }

    /// Puts the memory of the allocation of `size` bytes aligned to `align`
    /// at `ptr` back at the head of the free list. Does nothing for a null
    /// pointer or an empty layout.
    pub fn deallocate(&mut self, ptr: usize, size: usize, align: usize)
        requires
            old(self).wf(),
            layout_ok(size as int, align as int),
            ptr != 0 && size > 0 ==> ptr + spec_effective_size(size as int, align as int) <= usize::MAX,
        ensures
            final(self).wf(),
            final(self).spec_chunk_allocator() == old(self).spec_chunk_allocator(),
            ptr == 0 || size == 0 ==> final(self).free() == old(self).free(),
            ptr != 0 && size > 0 ==> final(self).free() == seq![
                FreeBlock { start: ptr, size: spec_effective_size(size as int, align as int) as usize },
            ] + old(self).free(),
    {
        if ptr == 0 || size == 0 {
            return;
        }
        let size = effective_size(size, align);
        self.free_list.insert(0, FreeBlock { start: ptr, size });
        proof {
            assert forall|q: int| 0 <= q < self.free().len() implies #[trigger] self.free()[q].start + self.free()[q].size <= usize::MAX by {
                if q > 0 {
                    assert(self.free()[q] == old(self).free()[q - 1]);
                }
            }
        }
    }
}

} // verus!
