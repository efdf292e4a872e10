use vstd::prelude::*;

use crate::bitmap_chunk_allocator::{chunks_needed, has_run, region_hi, region_lo, BitmapChunkAllocator};
use crate::bits::{align_up, spec_align_up};

verus! {

/// Idle blocks kept for reuse before one is given back to the chunk allocator.
pub const RESERVE_THRESHOLD: usize = 1;

/// Bytes of the header at the start of each block.
pub const BLOCK_HEADER_SIZE: usize = 40;

/// Bytes of a free-list node: the smallest free span that is kept.
pub const FREE_NODE_MIN: usize = 16;

/// A free span of a block: its address and its size.
#[derive(Copy, Clone)]
pub struct FreeNode {
    pub start: usize,
    pub size: usize,
}

/// A block of chunks taken from the chunk allocator: where it starts, how
/// many chunks of which size it has, how many allocations live in it, and
/// its free spans in address order.
pub struct BlockHeader {
    pub start: usize,
    pub chunk_count: usize,
    pub chunk_size: usize,
    pub allocation_count: usize,
    pub free_list: Vec<FreeNode>,
}

/// What the specification sees of a block: its header fields and its spans.
pub struct BlockState {
    pub start: usize,
    pub chunk_count: usize,
    pub chunk_size: usize,
    pub allocation_count: usize,
    pub free: Seq<FreeNode>,
}

impl View for BlockHeader {
    type V = BlockState;

    open spec fn view(&self) -> BlockState {
        BlockState {
            start: self.start,
            chunk_count: self.chunk_count,
            chunk_size: self.chunk_size,
            allocation_count: self.allocation_count,
            free: self.free_list@,
        }
    }
}

/// One past the last byte of a free span.
pub open spec fn node_end(n: FreeNode) -> int {
    n.start + n.size
}

/// Where an allocation aligned to `align` would start in span `n`.
pub open spec fn alloc_start(n: FreeNode, align: int) -> int {
    spec_align_up(n.start as int, align)
}

/// Whether span `n` can hold `size` bytes aligned to `align`.
pub open spec fn node_fits(n: FreeNode, size: int, align: int) -> bool {
    alloc_start(n, align) - n.start + size <= n.size
}

/// Whether span `i` is the first of `free` that can hold the allocation.
pub open spec fn is_first_fit_node(free: Seq<FreeNode>, size: int, align: int, i: int) -> bool {
    &&& 0 <= i < free.len()
    &&& node_fits(free[i], size, align)
    &&& forall|j: int| 0 <= j < i ==> !node_fits(#[trigger] free[j], size, align)
}

/// Whether no span of `free` can hold the allocation.
pub open spec fn no_node_fits(free: Seq<FreeNode>, size: int, align: int) -> bool {
    forall|j: int| 0 <= j < free.len() ==> !node_fits(#[trigger] free[j], size, align)
}

/// The free list after an allocation is carved out of span `i`: the part in
/// front of it and the part behind it stay free when each can hold a node.
pub open spec fn carve(free: Seq<FreeNode>, i: int, size: int, align: int) -> Seq<FreeNode> {
    let n = free[i];
    let a = alloc_start(n, align);
    let padding = a - n.start;
    let trail_addr = a + size;
    let trail_size = node_end(n) - trail_addr;
    let lead = if padding >= FREE_NODE_MIN {
        seq![FreeNode { start: n.start, size: padding as usize }]
    } else {
        Seq::<FreeNode>::empty()
    };
    let trail = if trail_size >= FREE_NODE_MIN {
        seq![FreeNode { start: trail_addr as usize, size: trail_size as usize }]
    } else {
        Seq::<FreeNode>::empty()
    };
    free.take(i) + lead + trail + free.skip(i + 1)
}

/// Bytes of a block.
pub open spec fn block_bytes(b: BlockState) -> int {
    b.chunk_count * b.chunk_size
}

/// Whether every span of `free` lies in `[lo, hi)`.
pub open spec fn nodes_within(free: Seq<FreeNode>, lo: int, hi: int) -> bool {
    forall|k: int| 0 <= k < free.len() ==> lo <= (#[trigger] free[k]).start && node_end(free[k]) <= hi
}

/// Whether block `b` came from `ca` and keeps its spans inside itself.
pub open spec fn block_ok(b: BlockState, ca: BitmapChunkAllocator) -> bool {
    &&& b.chunk_size == ca.spec_chunk_size()
    &&& block_bytes(b) >= BLOCK_HEADER_SIZE
    &&& b.start + block_bytes(b) <= usize::MAX
    &&& ca.in_one_region(b.start as int, block_bytes(b))
    &&& ca.can_release(b.start as int, b.chunk_count as int)
    &&& nodes_within(b.free, b.start as int, b.start + block_bytes(b))
}

/// Whether `p` is where a span at `ptr` goes in the address-ordered list:
/// before the first span that starts after `ptr`.
pub open spec fn is_insert_pos(free: Seq<FreeNode>, ptr: int, p: int) -> bool {
    &&& 0 <= p <= free.len()
    &&& p < free.len() ==> ptr < free[p].start
    &&& forall|j: int| 0 <= j < p ==> (#[trigger] free[j]).start <= ptr
}

/// The free list after `size` bytes at `ptr` are given back at position
/// `p`: the span merges with the span after it when they touch, and then
/// with the span before it when they touch.
pub open spec fn insert_free(free: Seq<FreeNode>, p: int, ptr: int, size: int) -> Seq<FreeNode> {
    let fwd = p < free.len() && ptr + size == free[p].start;
    let n = if fwd {
        FreeNode { start: ptr as usize, size: (size + free[p].size) as usize }
    } else {
        FreeNode { start: ptr as usize, size: size as usize }
    };
    let rest = if fwd { free.skip(p + 1) } else { free.skip(p) };
    if p > 0 && free[p - 1].start + free[p - 1].size == ptr {
        free.take(p - 1) + seq![FreeNode { start: free[p - 1].start, size: (free[p - 1].size + n.size) as usize }] + rest
    } else {
        free.take(p) + seq![n] + rest
    }
}

/// The free list after `size` bytes at `ptr` are given back.
pub open spec fn freed(free: Seq<FreeNode>, ptr: int, size: int) -> Seq<FreeNode> {
    insert_free(free, choose|p: int| is_insert_pos(free, ptr, p), ptr, size)
}

/// Whether `ptr` lies in block `b`.
pub open spec fn block_contains(b: BlockState, ptr: int) -> bool {
    b.start <= ptr < b.start + block_bytes(b)
}

/// Whether block `k` is the first of `blocks` that holds `ptr`.
pub open spec fn is_first_container(blocks: Seq<BlockState>, ptr: int, k: int) -> bool {
    &&& 0 <= k < blocks.len()
    &&& block_contains(blocks[k], ptr)
    &&& forall|j: int| 0 <= j < k ==> !block_contains(#[trigger] blocks[j], ptr)
}

/// Whether an alignment of `align` taken at any address of `ca`'s regions
/// stays within the address space.
pub open spec fn align_fits(ca: BitmapChunkAllocator, align: int) -> bool {
    forall|r: int|
        0 <= r < ca.regions_view().len() ==> (#[trigger] ca.regions_view()[r]).base
            + ca.regions_view()[r].chunk_count * ca.spec_chunk_size() + align <= usize::MAX + 1
}

/// Number of blocks among the first `n` with no allocation in them.
pub open spec fn idle_count(blocks: Seq<BlockState>, n: int) -> nat
    decreases n,
{
    if n <= 0 {
        0
    } else {
        idle_count(blocks, n - 1) + if blocks[n - 1].allocation_count == 0 { 1nat } else { 0nat }
    }
}

/// A span's address lies in a block that lies in a region of `ca`, so an
/// alignment that fits `ca` fits the span.
proof fn lemma_node_align_room(b: BlockState, ca: BitmapChunkAllocator, n: FreeNode, align: int)
    requires
        block_ok(b, ca),
        align_fits(ca, align),
        align > 0,
        b.start <= n.start,
        node_end(n) <= b.start + block_bytes(b),
    ensures
        n.start + align - 1 <= usize::MAX,
        node_end(n) <= usize::MAX,
{
    let r = choose|r: int|
        0 <= r < ca.regions_view().len() && (#[trigger] ca.regions_view()[r]).base <= b.start
            && b.start + block_bytes(b) <= ca.regions_view()[r].base + ca.regions_view()[r].chunk_count
            * ca.spec_chunk_size();
    assert(ca.regions_view()[r].base + ca.regions_view()[r].chunk_count * ca.spec_chunk_size() + align
        <= usize::MAX + 1);
}

/// Gives back `size` bytes at `ptr` to the block's free list, merging them
/// with the spans they touch.
fn dealloc_from_block(block: &mut BlockHeader, ptr: usize, size: usize, Ghost(ca): Ghost<BitmapChunkAllocator>)
    requires
        block_ok(old(block)@, ca),
        old(block).start <= ptr,
        ptr + size <= old(block).start + block_bytes(old(block)@),
    ensures
        block_ok(final(block)@, ca),
        final(block).start == old(block).start,
        final(block).chunk_count == old(block).chunk_count,
        final(block).chunk_size == old(block).chunk_size,
        final(block).allocation_count == old(block).allocation_count,
        final(block).free_list@ == freed(old(block).free_list@, ptr as int, size as int),
{
    let ghost old_free = block.free_list@;
    let ghost lo = block.start as int;
    let ghost hi = block.start + block_bytes(block@);
    let mut p: usize = 0;
    while p < block.free_list.len() && !(ptr < block.free_list[p].start)
        invariant
            block.free_list@ == old_free,
            p <= old_free.len(),
            forall|j: int| 0 <= j < p ==> (#[trigger] old_free[j]).start <= ptr,
        decreases old_free.len() - p,
    {
        p = p + 1;
    }
    proof {
        assert(is_insert_pos(old_free, ptr as int, p as int));
        let q = choose|q: int| is_insert_pos(old_free, ptr as int, q);
        assert(is_insert_pos(old_free, ptr as int, q));
        if q < p {
            assert(old_free[q].start <= ptr);
        } else if q > p {
            assert(old_free[p as int].start <= ptr);
        }
        assert(q == p);
    }
    let mut node = FreeNode { start: ptr, size };
    if p < block.free_list.len() && ptr + size == block.free_list[p].start {
        let next = block.free_list.remove(p);
        assert(lo <= next.start && node_end(next) <= hi);
        node = FreeNode { start: ptr, size: size + next.size };
    }
    block.free_list.insert(p, node);
    let ghost merged_fwd = block.free_list@;
    if p > 0 && block.free_list[p - 1].start + block.free_list[p - 1].size == ptr {
        let prev = block.free_list[p - 1];
        assert(prev == old_free[p - 1]);
        block.free_list.set(p - 1, FreeNode { start: prev.start, size: prev.size + node.size });
        block.free_list.remove(p);
    }
    proof {
        assert(block.free_list@ =~= insert_free(old_free, p as int, ptr as int, size as int));
        assert forall|k: int| 0 <= k < block.free_list@.len() implies lo <= (#[trigger] block.free_list@[k]).start && node_end(block.free_list@[k]) <= hi by {
            let f = insert_free(old_free, p as int, ptr as int, size as int);
            assert(f[k] == block.free_list@[k]);
        }
    }
}

/// Carves an allocation of `size` bytes aligned to `align` out of the first
/// span of the block that can hold it.
fn alloc_from_block(block: &mut BlockHeader, size: usize, align: usize, Ghost(ca): Ghost<BitmapChunkAllocator>) -> (result: Option<usize>)
    requires
        block_ok(old(block)@, ca),
        align_fits(ca, align as int),
        align > 0,
        size + align <= usize::MAX,
    ensures
        block_ok(final(block)@, ca),
        final(block).start == old(block).start,
        final(block).chunk_count == old(block).chunk_count,
        final(block).chunk_size == old(block).chunk_size,
        final(block).allocation_count == old(block).allocation_count,
        result is None <==> no_node_fits(old(block).free_list@, size as int, align as int),
        result is None ==> final(block)@ == old(block)@,
        forall|i: int|
            #[trigger] is_first_fit_node(old(block).free_list@, size as int, align as int, i) ==> {
                &&& result == Some(alloc_start(old(block).free_list@[i], align as int) as usize)
                &&& final(block).free_list@ == carve(old(block).free_list@, i, size as int, align as int)
            },
{
    let ghost old_free = block.free_list@;
    let ghost lo = block.start as int;
    let ghost hi = block.start + block_bytes(block@);
    let mut i: usize = 0;
    while i < block.free_list.len()
        invariant
            block.free_list@ == old_free,
            block.start == old(block).start,
            block.chunk_count == old(block).chunk_count,
            block.chunk_size == old(block).chunk_size,
            block.allocation_count == old(block).allocation_count,
            old_free == old(block).free_list@,
            block_ok(old(block)@, ca),
            lo == block.start,
            hi == block.start + block_bytes(old(block)@),
            align_fits(ca, align as int),
            align > 0,
            size + align <= usize::MAX,
            i <= old_free.len(),
            forall|j: int| 0 <= j < i ==> !node_fits(#[trigger] old_free[j], size as int, align as int),
        decreases old_free.len() - i,
    {
        let node = block.free_list[i];
        proof {
            lemma_node_align_room(old(block)@, ca, node, align as int);
        }
        let start = align_up(node.start, align);
        let padding = start - node.start;
        if padding + size <= node.size {
            let trail_addr = start + size;
            let trail_size = node.start + node.size - trail_addr;
            block.free_list.remove(i);
            if trail_size >= FREE_NODE_MIN {
                block.free_list.insert(i, FreeNode { start: trail_addr, size: trail_size });
            }
            if padding >= FREE_NODE_MIN {
                block.free_list.insert(i, FreeNode { start: node.start, size: padding });
            }
            proof {
                let ii = i as int;
                assert(is_first_fit_node(old_free, size as int, align as int, ii));
                assert forall|k: int| #[trigger] is_first_fit_node(old_free, size as int, align as int, k) implies k == ii by {
                    if k < ii {
                        assert(!node_fits(old_free[k], size as int, align as int));
                    } else if k > ii {
                        assert(!node_fits(old_free[ii], size as int, align as int));
                    }
                }
                assert(block.free_list@ =~= carve(old_free, ii, size as int, align as int));
                assert(!no_node_fits(old_free, size as int, align as int));
                assert forall|k: int| 0 <= k < block.free_list@.len() implies lo <= (#[trigger] block.free_list@[k]).start && node_end(block.free_list@[k]) <= hi by {
                    let c = carve(old_free, ii, size as int, align as int);
                    assert(c[k] == block.free_list@[k]);
                    assert(old_free[ii].start >= lo && node_end(old_free[ii]) <= hi);
                }
            }
            return Some(start);
        }
        i = i + 1;
    }
    None
}

/// An allocator for user space: blocks of chunks taken from a chunk
/// allocator, each with its own address-ordered free list. An idle block is
/// kept in reserve; one more idle block is given back to the chunk allocator.
pub struct UserSpaceAllocator {
    chunk_allocator: BitmapChunkAllocator,
    block_list: Vec<BlockHeader>,
    free_block_count: usize,
}

/// Whether block `k` is the first of `blocks` that can serve the allocation.
pub open spec fn is_first_fit_block(blocks: Seq<BlockState>, size: int, align: int, k: int) -> bool {
    &&& 0 <= k < blocks.len()
    &&& !no_node_fits(blocks[k].free, size, align)
    &&& forall|j: int| 0 <= j < k ==> no_node_fits(#[trigger] blocks[j].free, size, align)
}

/// Whether no block can serve the allocation.
pub open spec fn no_block_fits(blocks: Seq<BlockState>, size: int, align: int) -> bool {
    forall|j: int| 0 <= j < blocks.len() ==> no_node_fits(#[trigger] blocks[j].free, size, align)
}

/// Whether `b` is `old` with the allocation carved out of its first fitting
/// span and one more allocation counted.
pub open spec fn carved_block(old: BlockState, b: BlockState, size: int, align: int) -> bool {
    &&& b.start == old.start
    &&& b.chunk_count == old.chunk_count
    &&& b.chunk_size == old.chunk_size
    &&& b.allocation_count == old.allocation_count + 1
    &&& forall|i: int|
        #[trigger] is_first_fit_node(old.free, size, align, i) ==> b.free == carve(old.free, i, size, align)
}

/// Where the first fitting span of `b` places the allocation.
pub open spec fn placed_at(b: BlockState, size: int, align: int, ptr: int) -> bool {
    forall|i: int| #[trigger] is_first_fit_node(b.free, size, align, i) ==> ptr == alloc_start(b.free[i], align)
}

impl UserSpaceAllocator {
    /// The blocks, from the most recently taken one.
    pub closed spec fn blocks(&self) -> Seq<BlockState> {
        Seq::new(self.block_list@.len(), |i: int| self.block_list@[i]@)
    }

    /// The idle blocks that are counted as kept in reserve.
    pub closed spec fn spec_free_block_count(&self) -> nat {
        self.free_block_count as nat
    }

    /// The chunk allocator that the blocks come from.
    pub closed spec fn spec_chunk_allocator(&self) -> BitmapChunkAllocator {
        self.chunk_allocator
    }

    /// The chunk allocator is sound, every block came from it and keeps its
    /// spans inside itself, and no more idle blocks are counted than exist.
    pub open spec fn wf(&self) -> bool {
        &&& self.spec_chunk_allocator().wf()
        &&& self.spec_chunk_allocator().spec_chunk_size() <= isize::MAX + 1
        &&& self.spec_chunk_allocator().regions_disjoint()
        &&& forall|k: int|
            0 <= k < self.blocks().len() ==> block_ok(#[trigger] self.blocks()[k], self.spec_chunk_allocator())
        &&& self.spec_free_block_count() <= idle_count(self.blocks(), self.blocks().len() as int)
    }

    /// Whether every idle block is counted.
    pub open spec fn counts_idle_blocks(&self) -> bool {
        self.spec_free_block_count() == idle_count(self.blocks(), self.blocks().len() as int)
    }

    /// Whether taking the first block that can serve `size` bytes aligned to
    /// `align` leaves the count of idle blocks whole: when that block is
    /// idle, the count is positive.
    pub open spec fn idle_reuse_counted(&self, size: int, align: int) -> bool {
        forall|k: int|
            #[trigger] is_first_fit_block(self.blocks(), size, align, k) && self.blocks()[k].allocation_count == 0
                ==> self.spec_free_block_count() > 0
    }

    /// When every idle block is counted, any allocation can take an idle block.
    pub proof fn lemma_counted_idle_can_be_reused(&self, size: int, align: int)
        requires
            self.counts_idle_blocks(),
        ensures
            self.idle_reuse_counted(size, align),
    {
        assert forall|k: int|
            #[trigger] is_first_fit_block(self.blocks(), size, align, k) && self.blocks()[k].allocation_count == 0
                implies self.spec_free_block_count() > 0 by {
            lemma_idle_count_positive(self.blocks(), k);
        }
    }

    /// An allocator with no block yet over `chunk_allocator`, whose regions
    /// must not overlap: a block is given back to the first region that
    /// holds it, which must be the region it came from.
    pub fn new(chunk_allocator: BitmapChunkAllocator) -> (allocator: Self)
        requires
            chunk_allocator.wf(),
            chunk_allocator.spec_chunk_size() <= isize::MAX + 1,
            chunk_allocator.regions_disjoint(),
        ensures
            allocator.wf(),
            allocator.counts_idle_blocks(),
            allocator.blocks().len() == 0,
            allocator.spec_chunk_allocator() == chunk_allocator,
    {
        UserSpaceAllocator { chunk_allocator, block_list: Vec::new(), free_block_count: 0 }
    }

    /// The chunk allocator that the blocks come from.
    pub fn chunk_allocator(&self) -> (ca: &BitmapChunkAllocator)
        ensures
            *ca == self.spec_chunk_allocator(),
    {
        &self.chunk_allocator
    }

    /// Whether no block has reached the most allocations a count can hold.
    pub open spec fn counts_have_room(&self) -> bool {
        forall|k: int| 0 <= k < self.blocks().len() ==> (#[trigger] self.blocks()[k]).allocation_count < usize::MAX
    }

    /// The span that a fresh block starts with: all of it after the header.
    pub open spec fn fresh_span(b: BlockState) -> FreeNode {
        FreeNode { start: (b.start + BLOCK_HEADER_SIZE) as usize, size: (block_bytes(b) - BLOCK_HEADER_SIZE) as usize }
    }

    /// Serves `size` bytes aligned to `align` from the first block that can
    /// hold them, else from a new block of chunks; 0 when `size` is 0 or no
    /// memory is left.
    #[verifier::spinoff_prover]
    #[verifier::rlimit(60)]
    pub fn allocate(&mut self, size: usize, align: usize) -> (ptr: usize)
        requires
            old(self).wf(),
            old(self).idle_reuse_counted(size as int, align as int),
            old(self).counts_have_room(),
            align > 0,
            align_fits(old(self).spec_chunk_allocator(), align as int),
            size + align <= usize::MAX,
        ensures
            final(self).wf(),
            final(self).spec_chunk_allocator().regions_view() == old(self).spec_chunk_allocator().regions_view(),
            final(self).spec_chunk_allocator().spec_chunk_size() == old(self).spec_chunk_allocator().spec_chunk_size(),
            size == 0 ==> ptr == 0 && final(self).blocks() == old(self).blocks()
                && final(self).spec_free_block_count() == old(self).spec_free_block_count()
                && final(self).spec_chunk_allocator() == old(self).spec_chunk_allocator(),
            forall|k: int|
                size > 0 && #[trigger] is_first_fit_block(old(self).blocks(), size as int, align as int, k) ==> {
                    let b = old(self).blocks()[k];
                    &&& placed_at(b, size as int, align as int, ptr as int)
                    &&& final(self).blocks().len() == old(self).blocks().len()
                    &&& carved_block(b, final(self).blocks()[k], size as int, align as int)
                    &&& forall|j: int| 0 <= j < old(self).blocks().len() && j != k ==> #[trigger] final(self).blocks()[j] == old(self).blocks()[j]
                    &&& final(self).spec_free_block_count() == old(self).spec_free_block_count() - if b.allocation_count == 0 { 1int } else { 0int }
                    &&& final(self).spec_chunk_allocator() == old(self).spec_chunk_allocator()
                },
            size > 0 && no_block_fits(old(self).blocks(), size as int, align as int) ==> {
                let ca = old(self).spec_chunk_allocator();
                let bytes = size + BLOCK_HEADER_SIZE;
                let needed = chunks_needed(bytes, ca.spec_chunk_size());
                &&& final(self).spec_free_block_count() == old(self).spec_free_block_count()
                &&& (bytes > isize::MAX || forall|r: int|
                        0 <= r < ca.regions_view().len() ==> !#[trigger] has_run(
                            ca.chunks(),
                            region_lo(ca.regions_view()[r]),
                            region_hi(ca.regions_view()[r]),
                            needed,
                        )) ==> {
                    &&& ptr == 0
                    &&& final(self).blocks() == old(self).blocks()
                    &&& final(self).spec_chunk_allocator().chunks() == ca.chunks()
                }
                &&& !(bytes > isize::MAX || forall|r: int|
                        0 <= r < ca.regions_view().len() ==> !#[trigger] has_run(
                            ca.chunks(),
                            region_lo(ca.regions_view()[r]),
                            region_hi(ca.regions_view()[r]),
                            needed,
                        )) ==> {
                    let b = final(self).blocks()[0];
                    let fresh = Self::fresh_span(b);
                    &&& final(self).blocks().len() == old(self).blocks().len() + 1
                    &&& final(self).blocks().skip(1) == old(self).blocks()
                    &&& b.chunk_size == ca.spec_chunk_size()
                    &&& b.chunk_count == needed
                    &&& final(self).spec_chunk_allocator().spec_used() == ca.spec_used() + needed
                    &&& node_fits(fresh, size as int, align as int) ==> {
                        &&& ptr == alloc_start(fresh, align as int)
                        &&& b.allocation_count == 1
                        &&& b.free == carve(seq![fresh], 0, size as int, align as int)
                    }
                    &&& !node_fits(fresh, size as int, align as int) ==> {
                        &&& ptr == 0
                        &&& b.allocation_count == 0
                        &&& b.free == seq![fresh]
                    }
                }
            },
    {
        if size == 0 {
            return 0;
        }
        let ghost old_blocks = self.blocks();
        let mut k: usize = 0;
        while k < self.block_list.len()
            invariant
                self.wf(),
                self.blocks() == old_blocks,
                old_blocks == old(self).blocks(),
                self.spec_free_block_count() == old(self).spec_free_block_count(),
                self.spec_chunk_allocator() == old(self).spec_chunk_allocator(),
                old(self).idle_reuse_counted(size as int, align as int),
                old(self).counts_have_room(),
                align > 0,
                align_fits(self.spec_chunk_allocator(), align as int),
                size + align <= usize::MAX,
                size > 0,
                k <= old_blocks.len(),
                forall|j: int| 0 <= j < k ==> no_node_fits(#[trigger] old_blocks[j].free, size as int, align as int),
            decreases old_blocks.len() - k,
        {
            let mut block = self.block_list.remove(k);
            assert(block@ == old_blocks[k as int]);
            let result = alloc_from_block(&mut block, size, align, Ghost(self.chunk_allocator));
            match result {
                Some(ptr) => {
                    if block.allocation_count == 0 {
                        proof {
                            assert(is_first_fit_block(old_blocks, size as int, align as int, k as int));
                        }
                        self.free_block_count = self.free_block_count - 1;
                    }
                    block.allocation_count = block.allocation_count + 1;
                    self.block_list.insert(k, block);
                    proof {
                        let kk = k as int;
                        let nb = self.block_list@[kk]@;
                        assert(self.blocks() =~= old_blocks.update(kk, nb));
                        lemma_idle_count_update(old_blocks, kk, nb);
                        lemma_first_fit_block_unique(old_blocks, size as int, align as int, kk);
                    }
                    return ptr;
                },
                None => {
                    self.block_list.insert(k, block);
                    assert(self.blocks() =~= old_blocks);
                },
            }
            k = k + 1;
        }
        assert(no_block_fits(old_blocks, size as int, align as int));
        self.alloc_new_block(size, align)
    }

    /// Takes a new block of chunks large enough for `size` bytes after its
    /// header and serves the allocation from it.
    #[verifier::spinoff_prover]
    #[verifier::rlimit(100)]
    fn alloc_new_block(&mut self, size: usize, align: usize) -> (ptr: usize)
        requires
            old(self).wf(),
            align > 0,
            align_fits(old(self).spec_chunk_allocator(), align as int),
            size + align <= usize::MAX,
            size > 0,
        ensures
            final(self).wf(),
            final(self).spec_chunk_allocator().regions_view() == old(self).spec_chunk_allocator().regions_view(),
            final(self).spec_chunk_allocator().spec_chunk_size() == old(self).spec_chunk_allocator().spec_chunk_size(),
            final(self).spec_free_block_count() == old(self).spec_free_block_count(),
            ({
                let ca = old(self).spec_chunk_allocator();
                let bytes = size + BLOCK_HEADER_SIZE;
                let needed = chunks_needed(bytes, ca.spec_chunk_size());
                &&& (bytes > isize::MAX || forall|r: int|
                        0 <= r < ca.regions_view().len() ==> !#[trigger] has_run(
                            ca.chunks(),
                            region_lo(ca.regions_view()[r]),
                            region_hi(ca.regions_view()[r]),
                            needed,
                        )) ==> {
                    &&& ptr == 0
                    &&& final(self).blocks() == old(self).blocks()
                    &&& final(self).spec_chunk_allocator().chunks() == ca.chunks()
                }
                &&& !(bytes > isize::MAX || forall|r: int|
                        0 <= r < ca.regions_view().len() ==> !#[trigger] has_run(
                            ca.chunks(),
                            region_lo(ca.regions_view()[r]),
                            region_hi(ca.regions_view()[r]),
                            needed,
                        )) ==> {
                    let b = final(self).blocks()[0];
                    let fresh = Self::fresh_span(b);
                    &&& final(self).blocks().len() == old(self).blocks().len() + 1
                    &&& final(self).blocks().skip(1) == old(self).blocks()
                    &&& b.chunk_size == ca.spec_chunk_size()
                    &&& b.chunk_count == needed
                    &&& final(self).spec_chunk_allocator().spec_used() == ca.spec_used() + needed
                    &&& node_fits(fresh, size as int, align as int) ==> {
                        &&& ptr == alloc_start(fresh, align as int)
                        &&& b.allocation_count == 1
                        &&& b.free == carve(seq![fresh], 0, size as int, align as int)
                    }
                    &&& !node_fits(fresh, size as int, align as int) ==> {
                        &&& ptr == 0
                        &&& b.allocation_count == 0
                        &&& b.free == seq![fresh]
                    }
                }
            }),
    {
        if size > isize::MAX as usize - BLOCK_HEADER_SIZE {
            return 0;
        }
        let bytes = size + BLOCK_HEADER_SIZE;
        let ghost old_ca = self.chunk_allocator;
        let ghost old_blocks = self.blocks();
        let allocation = match self.chunk_allocator.allocate(bytes) {
            Some(a) => a,
            None => {
                assert(self.blocks() == old_blocks);
                proof {
                    self.lemma_blocks_stay_ok(old_ca);
                }
                return 0;
            },
        };
        proof {
            let chunks = old_ca.chunks();
            let regions = old_ca.regions_view();
            let needed = chunks_needed(bytes as int, old_ca.spec_chunk_size());
            let (r, st) = choose|r: int, st: int|
                #![trigger crate::bitmap_chunk_allocator::is_first_fit(chunks, region_lo(regions[r]), region_hi(regions[r]), st, needed)]
                0 <= r < regions.len() && crate::bitmap_chunk_allocator::is_first_fit(
                    chunks,
                    region_lo(regions[r]),
                    region_hi(regions[r]),
                    st,
                    needed,
                ) && allocation.ptr == regions[r].base + (st - regions[r].bitmap_offset) * old_ca.spec_chunk_size()
                    && self.chunk_allocator.chunks() == crate::bitmap_chunk_allocator::mark_range(chunks, st, needed, true);
            assert(crate::bitmap_chunk_allocator::is_run(chunks, region_lo(regions[r]), region_hi(regions[r]), st, needed));
            assert(has_run(chunks, region_lo(regions[r]), region_hi(regions[r]), needed));
        }
        let block_start = allocation.ptr;
        let total_bytes = allocation.chunk_count * allocation.chunk_size;
        let node = FreeNode { start: block_start + BLOCK_HEADER_SIZE, size: total_bytes - BLOCK_HEADER_SIZE };
        let mut free_list: Vec<FreeNode> = Vec::new();
        free_list.push(node);
        let mut block = BlockHeader {
            start: block_start,
            chunk_count: allocation.chunk_count,
            chunk_size: allocation.chunk_size,
            allocation_count: 0,
            free_list,
        };
        proof {
            self.lemma_blocks_stay_ok(old_ca);
            assert(block_ok(block@, self.chunk_allocator));
        }
        let ghost fresh = Self::fresh_span(block@);
        assert(block@.free == seq![fresh]);
        let result = alloc_from_block(&mut block, size, align, Ghost(self.chunk_allocator));
        let ptr = match result {
            Some(p) => {
                block.allocation_count = 1;
                p
            },
            None => 0,
        };
        self.block_list.insert(0, block);
        proof {
            assert(self.blocks().skip(1) =~= old_blocks);
            assert(self.blocks() =~= seq![self.blocks()[0]] + old_blocks);
            lemma_idle_count_prepend(old_blocks, self.blocks()[0]);
            if node_fits(fresh, size as int, align as int) {
                assert(is_first_fit_node(seq![fresh], size as int, align as int, 0));
            }
        }
        ptr
    }

    /// Whether block `k` holds `ptr`.
    fn block_holds(&self, k: usize, ptr: usize) -> (holds: bool)
        requires
            self.wf(),
            k < self.blocks().len(),
        ensures
            holds == block_contains(self.blocks()[k as int], ptr as int),
    {
        let ghost b = self.blocks()[k as int];
        assert(block_ok(b, self.chunk_allocator));
        assert(self.block_list@[k as int]@ == b);
        let block = &self.block_list[k];
        block.start <= ptr && ptr - block.start < block.chunk_count * block.chunk_size
    }

    /// Gives back the allocation of `size` bytes at `ptr` to the first block
    /// that holds it. A block left without allocations becomes idle; when
    /// more idle blocks are counted than the reserve keeps, it is removed and
    /// its chunks go back to the chunk allocator. Nothing happens when no
    /// block holds `ptr`.
    #[verifier::rlimit(60)]
    pub fn dealloc(&mut self, ptr: usize, size: usize)
        requires
            old(self).wf(),
            forall|k: int|
                #[trigger] is_first_container(old(self).blocks(), ptr as int, k) ==> {
                    &&& old(self).blocks()[k].allocation_count > 0
                    &&& ptr + size <= old(self).blocks()[k].start + block_bytes(old(self).blocks()[k])
                },
        ensures
            final(self).wf(),
            final(self).spec_chunk_allocator().regions_view() == old(self).spec_chunk_allocator().regions_view(),
            final(self).spec_chunk_allocator().spec_chunk_size() == old(self).spec_chunk_allocator().spec_chunk_size(),
            old(self).counts_idle_blocks() ==> final(self).counts_idle_blocks(),
            (forall|k: int| 0 <= k < old(self).blocks().len() ==> !block_contains(#[trigger] old(self).blocks()[k], ptr as int))
                ==> final(self).blocks() == old(self).blocks() && final(self).spec_free_block_count()
                == old(self).spec_free_block_count() && final(self).spec_chunk_allocator()
                == old(self).spec_chunk_allocator(),
            forall|k: int|
                #[trigger] is_first_container(old(self).blocks(), ptr as int, k) ==> {
                    let b = old(self).blocks()[k];
                    let nb = BlockState {
                        allocation_count: (b.allocation_count - 1) as usize,
                        free: freed(b.free, ptr as int, size as int),
                        ..b
                    };
                    let fbc = old(self).spec_free_block_count();
                    &&& nb.allocation_count > 0 ==> {
                        &&& final(self).blocks() == old(self).blocks().update(k, nb)
                        &&& final(self).spec_free_block_count() == fbc
                        &&& final(self).spec_chunk_allocator() == old(self).spec_chunk_allocator()
                    }
                    &&& nb.allocation_count == 0 && fbc + 1 <= RESERVE_THRESHOLD ==> {
                        &&& final(self).blocks() == old(self).blocks().update(k, nb)
                        &&& final(self).spec_free_block_count() == fbc + 1
                        &&& final(self).spec_chunk_allocator() == old(self).spec_chunk_allocator()
                    }
                    &&& nb.allocation_count == 0 && fbc + 1 > RESERVE_THRESHOLD ==> {
                        &&& final(self).blocks() == old(self).blocks().remove(k)
                        &&& final(self).spec_free_block_count() == fbc
                        &&& old(self).spec_chunk_allocator().released_to(
                            final(self).spec_chunk_allocator(),
                            b.start as int,
                            b.chunk_count as int,
                        )
                    }
                },
    {
        let ghost old_blocks = self.blocks();
        let mut k: usize = 0;
        while k < self.block_list.len() && !self.block_holds(k, ptr)
            invariant
                self.wf(),
                self.blocks() == old_blocks,
                k <= old_blocks.len(),
                forall|j: int| 0 <= j < k ==> !block_contains(#[trigger] old_blocks[j], ptr as int),
            decreases old_blocks.len() - k,
        {
            k = k + 1;
        }
        if k == self.block_list.len() {
            return;
        }
        let ghost kk = k as int;
        proof {
            assert(self.block_list@[kk]@ == old_blocks[kk]);
            assert(block_contains(old_blocks[kk], ptr as int));
            assert(is_first_container(old_blocks, ptr as int, kk));
        }
        let mut block = self.block_list.remove(k);
        dealloc_from_block(&mut block, ptr, size, Ghost(self.chunk_allocator));
        block.allocation_count = block.allocation_count - 1;
        let ghost rest = self.blocks();
        proof {
            assert(rest =~= old_blocks.remove(kk));
            lemma_idle_count_not_idle(old_blocks, kk);
        }
        if block.allocation_count == 0 {
            self.free_block_count = self.free_block_count + 1;
            if self.free_block_count > RESERVE_THRESHOLD {
                let ghost old_ca = self.chunk_allocator;
                self.chunk_allocator.deallocate(block.start, block.chunk_count);
                self.free_block_count = self.free_block_count - 1;
                proof {
                    self.lemma_blocks_stay_ok(old_ca);
                    lemma_idle_count_remove(old_blocks, kk);
                    assert forall|q: int| #[trigger] is_first_container(old_blocks, ptr as int, q) implies q == kk by {
                        if q < kk {
                            assert(!block_contains(old_blocks[q], ptr as int));
                        } else if q > kk {
                            assert(!block_contains(old_blocks[kk], ptr as int));
                        }
                    }
                }
                return;
            }
        }
        self.block_list.insert(k, block);
        proof {
            let nb = self.block_list@[kk]@;
            assert(self.blocks() =~= old_blocks.update(kk, nb));
            lemma_idle_count_update(old_blocks, kk, nb);
            assert forall|q: int| #[trigger] is_first_container(old_blocks, ptr as int, q) implies q == kk by {
                if q < kk {
                    assert(!block_contains(old_blocks[q], ptr as int));
                } else if q > kk {
                    assert(!block_contains(old_blocks[kk], ptr as int));
                }
            }
        }
    }

    /// Blocks that were sound with the old chunk allocator stay sound when
    /// its layout is kept.
    proof fn lemma_blocks_stay_ok(&self, old_ca: BitmapChunkAllocator)
        requires
            forall|k: int| 0 <= k < self.blocks().len() ==> block_ok(#[trigger] self.blocks()[k], old_ca),
            self.spec_chunk_allocator().regions_view() == old_ca.regions_view(),
            self.spec_chunk_allocator().spec_chunk_size() == old_ca.spec_chunk_size(),
            self.spec_chunk_allocator().spec_total_chunks() == old_ca.spec_total_chunks(),
        ensures
            forall|k: int| 0 <= k < self.blocks().len() ==> block_ok(#[trigger] self.blocks()[k], self.spec_chunk_allocator()),
    {
        assert forall|k: int| 0 <= k < self.blocks().len() implies block_ok(#[trigger] self.blocks()[k], self.spec_chunk_allocator()) by {
            let b = self.blocks()[k];
            old_ca.lemma_layout_facts_stable(&self.chunk_allocator, b.start as int, b.chunk_count as int, block_bytes(b));
        }
    }
}

/// An idle block counts for one in the idle count.
/// A block that can serve the allocation after blocks that cannot is the
/// one first-fit block.
proof fn lemma_first_fit_block_unique(blocks: Seq<BlockState>, size: int, align: int, k: int)
    requires
        0 <= k < blocks.len(),
        !no_node_fits(blocks[k].free, size, align),
        forall|j: int| 0 <= j < k ==> no_node_fits(#[trigger] blocks[j].free, size, align),
    ensures
        is_first_fit_block(blocks, size, align, k),
        forall|q: int| #[trigger] is_first_fit_block(blocks, size, align, q) ==> q == k,
        !no_block_fits(blocks, size, align),
{
    assert forall|q: int| #[trigger] is_first_fit_block(blocks, size, align, q) implies q == k by {
        if q < k {
            assert(no_node_fits(blocks[q].free, size, align));
        } else if q > k {
            assert(no_node_fits(blocks[k].free, size, align));
        }
    }
}

proof fn lemma_idle_count_positive(blocks: Seq<BlockState>, k: int)
    requires
        0 <= k < blocks.len(),
        blocks[k].allocation_count == 0,
    ensures
        idle_count(blocks, blocks.len() as int) >= 1,
    decreases blocks.len(),
{
    lemma_idle_count_split(blocks, k, blocks.len() as int);
}

proof fn lemma_idle_count_split(blocks: Seq<BlockState>, k: int, n: int)
    requires
        0 <= k < n <= blocks.len(),
        blocks[k].allocation_count == 0,
    ensures
        idle_count(blocks, n) >= idle_count(blocks, k) + 1,
    decreases n,
{
    if n - 1 > k {
        lemma_idle_count_split(blocks, k, n - 1);
    }
}

/// Replacing block `k` changes the idle count by whether it and its
/// replacement are idle.
proof fn lemma_idle_count_update(blocks: Seq<BlockState>, k: int, b: BlockState)
    requires
        0 <= k < blocks.len(),
    ensures
        idle_count(blocks.update(k, b), blocks.len() as int) == idle_count(blocks, blocks.len() as int)
            - (if blocks[k].allocation_count == 0 { 1int } else { 0int })
            + (if b.allocation_count == 0 { 1int } else { 0int }),
{
    lemma_idle_count_update_prefix(blocks, k, b, blocks.len() as int);
}

proof fn lemma_idle_count_update_prefix(blocks: Seq<BlockState>, k: int, b: BlockState, n: int)
    requires
        0 <= k < blocks.len(),
        0 <= n <= blocks.len(),
    ensures
        idle_count(blocks.update(k, b), n) == idle_count(blocks, n) - (if k < n && blocks[k].allocation_count == 0 { 1int } else { 0int })
            + (if k < n && b.allocation_count == 0 { 1int } else { 0int }),
    decreases n,
{
    if n > 0 {
        lemma_idle_count_update_prefix(blocks, k, b, n - 1);
    }
}

/// A block with allocations leaves room for one more idle block in the count.
proof fn lemma_idle_count_not_idle(blocks: Seq<BlockState>, k: int)
    requires
        0 <= k < blocks.len(),
        blocks[k].allocation_count > 0,
    ensures
        idle_count(blocks, blocks.len() as int) + 1 <= blocks.len(),
{
    lemma_idle_count_bound_except(blocks, k, blocks.len() as int);
}

proof fn lemma_idle_count_bound_except(blocks: Seq<BlockState>, k: int, n: int)
    requires
        0 <= k < blocks.len(),
        0 <= n <= blocks.len(),
        blocks[k].allocation_count > 0,
    ensures
        idle_count(blocks, n) + (if k < n { 1int } else { 0int }) <= n,
    decreases n,
{
    if n > 0 {
        lemma_idle_count_bound_except(blocks, k, n - 1);
    }
}

/// Removing block `k` takes it out of the idle count.
proof fn lemma_idle_count_remove(blocks: Seq<BlockState>, k: int)
    requires
        0 <= k < blocks.len(),
    ensures
        idle_count(blocks.remove(k), blocks.len() - 1) == idle_count(blocks, blocks.len() as int)
            - (if blocks[k].allocation_count == 0 { 1int } else { 0int }),
{
    lemma_idle_count_remove_prefix(blocks, k, blocks.len() as int);
}

proof fn lemma_idle_count_remove_prefix(blocks: Seq<BlockState>, k: int, n: int)
    requires
        0 <= k < n <= blocks.len(),
    ensures
        idle_count(blocks.remove(k), n - 1) == idle_count(blocks, n) - (if blocks[k].allocation_count == 0 { 1int } else { 0int }),
    decreases n,
{
    let r = blocks.remove(k);
    if n - 1 > k {
        lemma_idle_count_remove_prefix(blocks, k, n - 1);
        assert(r[n - 2] == blocks[n - 1]);
    } else {
        lemma_idle_count_prefix_same(blocks, r, k);
    }
}

proof fn lemma_idle_count_prefix_same(a: Seq<BlockState>, b: Seq<BlockState>, n: int)
    requires
        0 <= n <= a.len(),
        n <= b.len(),
        forall|i: int| 0 <= i < n ==> a[i] == b[i],
    ensures
        idle_count(a, n) == idle_count(b, n),
    decreases n,
{
    if n > 0 {
        lemma_idle_count_prefix_same(a, b, n - 1);
    }
}

/// Putting a block in front adds one to the idle count when it is idle.
proof fn lemma_idle_count_prepend(blocks: Seq<BlockState>, b: BlockState)
    ensures
        idle_count(seq![b] + blocks, blocks.len() + 1int) == idle_count(blocks, blocks.len() as int)
            + (if b.allocation_count == 0 { 1int } else { 0int }),
{
    lemma_idle_count_prepend_prefix(blocks, b, blocks.len() as int);
}

proof fn lemma_idle_count_prepend_prefix(blocks: Seq<BlockState>, b: BlockState, n: int)
    requires
        0 <= n <= blocks.len(),
    ensures
        idle_count(seq![b] + blocks, n + 1) == idle_count(blocks, n) + (if b.allocation_count == 0 { 1int } else { 0int }),
    decreases n,
{
    let s = seq![b] + blocks;
    if n > 0 {
        lemma_idle_count_prepend_prefix(blocks, b, n - 1);
        assert(s[n] == blocks[n - 1]);
        assert(idle_count(s, n + 1) == idle_count(s, n) + if s[n].allocation_count == 0 { 1nat } else { 0nat });
        assert(idle_count(blocks, n) == idle_count(blocks, n - 1) + if blocks[n - 1].allocation_count == 0 { 1nat } else { 0nat });
    } else {
        assert(s[0] == b);
        assert(idle_count(s, 1) == idle_count(s, 0) + if s[0].allocation_count == 0 { 1nat } else { 0nat });
    }
}

} // verus!
