use vstd::prelude::*;

use crate::bits::{align_up, spec_align_up};

verus! {

/// Bytes of a free block's header: its size and the address of the next one.
pub const BLOCK_HDR: usize = 16;

/// Bytes of the size word in front of an allocation.
pub const SIZE_SLOT: usize = 8;

/// Alignment of every block.
pub const BLOCK_ALIGN: usize = 8;

/// A block of memory: its address and the size word stored at that address.
#[derive(Copy, Clone)]
pub struct Block {
    pub start: usize,
    pub size: usize,
}

/// A first-fit allocator over a singly linked list of free blocks. Each
/// allocation is preceded by a word that holds its block's size; freeing an
/// allocation puts its block back at the head of the list.
pub struct FreeListAllocator {
    free: Vec<Block>,
    allocated: Vec<Block>,
}

/// The bytes that block `b` covers.
pub open spec fn block_end(b: Block) -> int {
    b.start + b.size
}

/// Whether two blocks share no byte.
pub open spec fn disjoint(a: Block, b: Block) -> bool {
    block_end(a) <= b.start || block_end(b) <= a.start
}

/// Whether the blocks of `s` pairwise share no byte.
pub open spec fn pairwise_disjoint(s: Seq<Block>) -> bool {
    forall|i: int, j: int| 0 <= i < s.len() && 0 <= j < s.len() && i != j ==> disjoint(#[trigger] s[i], #[trigger] s[j])
}

/// Whether a block can hold a free-block header and lies in the address space.
pub open spec fn block_ok(b: Block) -> bool {
    &&& b.size >= BLOCK_HDR
    &&& b.start % 8 == 0
    &&& block_end(b) <= usize::MAX
}

/// Bytes a block must have to serve `size` bytes: the size word and the
/// size rounded up to the block alignment, and at least a header.
pub open spec fn needed_size(size: int) -> int {
    let usable = spec_align_up(size, 8);
    if 8 + usable >= 16 { 8 + usable } else { 16 }
}

/// Whether block `i` of `free` is the first one with at least `needed` bytes.
pub open spec fn is_first_fit(free: Seq<Block>, needed: int, i: int) -> bool {
    &&& 0 <= i < free.len()
    &&& free[i].size >= needed
    &&& forall|j: int| 0 <= j < i ==> #[trigger] free[j].size < needed
}

/// Whether no block of `free` has `needed` bytes.
pub open spec fn none_fits(free: Seq<Block>, needed: int) -> bool {
    forall|j: int| 0 <= j < free.len() ==> #[trigger] free[j].size < needed
}

/// The free block made from region `(base, size)`, if the region can hold one.
pub open spec fn region_block(base: int, size: int) -> Option<Block> {
    let aligned = spec_align_up(base, 8);
    let shrink = aligned - base;
    if size <= shrink || size - shrink < BLOCK_HDR {
        None
    } else {
        Some(Block { start: aligned as usize, size: (size - shrink) as usize })
    }
}

/// The free list built from the first `n` regions, in region order.
pub open spec fn region_blocks(regions: Seq<(usize, usize)>, n: int) -> Seq<Block>
    decreases n,
{
    if n <= 0 {
        Seq::empty()
    } else {
        let rest = region_blocks(regions, n - 1);
        match region_block(regions[n - 1].0 as int, regions[n - 1].1 as int) {
            Some(b) => rest.push(b),
            None => rest,
        }
    }
}

/// Whether two regions share no byte.
pub open spec fn regions_disjoint(a: (usize, usize), b: (usize, usize)) -> bool {
    a.0 + a.1 <= b.0 || b.0 + b.1 <= a.0
}

/// Whether `regions` can be handed to `FreeListAllocator::new`: each lies in
/// the address space and no two overlap.
pub open spec fn regions_acceptable(regions: Seq<(usize, usize)>) -> bool {
    &&& forall|k: int| 0 <= k < regions.len() ==> #[trigger] regions[k].0 + regions[k].1 + 8 <= usize::MAX
    &&& forall|i: int, j: int|
        0 <= i < regions.len() && 0 <= j < regions.len() && i != j ==> regions_disjoint(
            #[trigger] regions[i],
            #[trigger] regions[j],
        )
}

/// Whether an allocation of `size` bytes that returned `ptr` took the free
/// list and the allocated blocks from `free`, `alloc` to `free2`, `alloc2`:
/// nothing changes and `ptr` is 0 when `size` is 0 or no block is large
/// enough; else the first block large enough is split when what is left of
/// it can hold a header, or taken whole, and `ptr` is the address after its
/// size word.
pub open spec fn allocated_as(
    free: Seq<Block>,
    alloc: Seq<Block>,
    free2: Seq<Block>,
    alloc2: Seq<Block>,
    size: int,
    ptr: int,
) -> bool {
    let needed = needed_size(size);
    &&& size == 0 ==> ptr == 0 && free2 == free && alloc2 == alloc
    &&& size > 0 && none_fits(free, needed) ==> ptr == 0 && free2 == free && alloc2 == alloc
    &&& forall|i: int|
        size > 0 && #[trigger] is_first_fit(free, needed, i) ==> {
            let b = free[i];
            let remaining = b.size - needed;
            &&& ptr == b.start + SIZE_SLOT
            &&& remaining >= BLOCK_HDR ==> {
                &&& free2 == free.update(i, Block { start: (b.start + needed) as usize, size: remaining as usize })
                &&& alloc2 == alloc.push(Block { start: b.start, size: needed as usize })
            }
            &&& remaining < BLOCK_HDR ==> {
                &&& free2 == free.remove(i)
                &&& alloc2 == alloc.push(b)
            }
        }
    &&& ptr == 0 ==> free2 == free && alloc2 == alloc
}

/// Whether giving back the allocation at `ptr` took the free list and the
/// allocated blocks from `free`, `alloc` to `free2`, `alloc2`: the block
/// whose size word lies in front of `ptr` leaves the allocated blocks and
/// goes to the head of the free list.
pub open spec fn deallocated_as(free: Seq<Block>, alloc: Seq<Block>, free2: Seq<Block>, alloc2: Seq<Block>, ptr: int) -> bool {
    forall|j: int|
        0 <= j < alloc.len() && #[trigger] alloc[j].start + SIZE_SLOT == ptr ==> {
            &&& free2 == seq![alloc[j]] + free
            &&& alloc2 == alloc.remove(j)
        }
}

/// Whether `ptr` is the address that an allocation of `alloc` handed out.
pub open spec fn is_allocation(alloc: Seq<Block>, ptr: int) -> bool {
    exists|j: int| 0 <= j < alloc.len() && #[trigger] alloc[j].start + SIZE_SLOT == ptr
}

impl FreeListAllocator {
    /// The free list, from its head.
    pub closed spec fn free_list(&self) -> Seq<Block> {
        self.free@
    }

    /// The blocks handed out, each with the size word in front of its allocation.
    pub closed spec fn allocated(&self) -> Seq<Block> {
        self.allocated@
    }

    /// Every block is well placed and no two blocks, free or handed out, overlap.
    pub open spec fn wf(&self) -> bool {
        &&& forall|i: int| 0 <= i < self.free_list().len() ==> block_ok(#[trigger] self.free_list()[i])
        &&& forall|i: int| 0 <= i < self.allocated().len() ==> block_ok(#[trigger] self.allocated()[i])
        &&& pairwise_disjoint(self.free_list() + self.allocated())
    }

    /// Two allocations that are live at once share no byte, and no live
    /// allocation shares a byte with a free block.
    pub proof fn lemma_allocations_disjoint(&self)
        requires
            self.wf(),
        ensures
            forall|i: int, j: int|
                0 <= i < self.allocated().len() && 0 <= j < self.allocated().len() && i != j ==> disjoint(
                    #[trigger] self.allocated()[i],
                    #[trigger] self.allocated()[j],
                ),
            forall|i: int, j: int|
                0 <= i < self.allocated().len() && 0 <= j < self.free_list().len() ==> disjoint(
                    #[trigger] self.allocated()[i],
                    #[trigger] self.free_list()[j],
                ),
    {
        let all = self.free_list() + self.allocated();
        let n = self.free_list().len() as int;
        assert forall|i: int, j: int|
            0 <= i < self.allocated().len() && 0 <= j < self.allocated().len() && i != j implies disjoint(
                #[trigger] self.allocated()[i],
                #[trigger] self.allocated()[j],
            ) by {
            assert(all[n + i] == self.allocated()[i]);
            assert(all[n + j] == self.allocated()[j]);
        }
        assert forall|i: int, j: int|
            0 <= i < self.allocated().len() && 0 <= j < self.free_list().len() implies disjoint(
                #[trigger] self.allocated()[i],
                #[trigger] self.free_list()[j],
            ) by {
            assert(all[n + i] == self.allocated()[i]);
            assert(all[j] == self.free_list()[j]);
        }
    }
}


/// Whether block `x` lies within block `y`.
pub open spec fn within(x: Block, y: Block) -> bool {
    y.start <= x.start && block_end(x) <= block_end(y)
}

/// Blocks that each lie within a block of a pairwise disjoint sequence share
/// no byte, as long as two of them that lie in the same block share none.
proof fn lemma_disjoint_transfer(s: Seq<Block>, t: Seq<Block>, origin: spec_fn(int) -> int)
    requires
        pairwise_disjoint(s),
        forall|p: int| 0 <= p < t.len() ==> 0 <= #[trigger] origin(p) < s.len() && within(t[p], s[origin(p)]),
        forall|p: int, q: int|
            0 <= p < t.len() && 0 <= q < t.len() && p != q && #[trigger] origin(p) == #[trigger] origin(q)
                ==> disjoint(t[p], t[q]),
    ensures
        pairwise_disjoint(t),
{
    assert forall|p: int, q: int| 0 <= p < t.len() && 0 <= q < t.len() && p != q implies disjoint(
        #[trigger] t[p],
        #[trigger] t[q],
    ) by {
        let a = origin(p);
        let b = origin(q);
        if a != b {
            assert(disjoint(s[a], s[b]));
        }
    }
}

impl FreeListAllocator {
    /// Builds the free list from memory regions, one block per region that
    /// can hold one after its start is aligned, in the regions' order.
    pub fn new(regions: &[(usize, usize)]) -> (allocator: Self)
        requires
            regions_acceptable(regions@),
        ensures
            allocator.wf(),
            allocator.free_list() == region_blocks(regions@, regions@.len() as int),
            allocator.allocated() == Seq::<Block>::empty(),
    {
        let mut free: Vec<Block> = Vec::new();
        let mut k: usize = 0;
        while k < regions.len()
            invariant
                regions_acceptable(regions@),
                k <= regions@.len(),
                free@ == region_blocks(regions@, k as int),
                forall|i: int| 0 <= i < free@.len() ==> block_ok(#[trigger] free@[i]),
                pairwise_disjoint(free@),
                forall|i: int|
                    0 <= i < free@.len() ==> exists|j: int|
                        0 <= j < k && within(#[trigger] free@[i], Block { start: regions@[j].0, size: regions@[j].1 }),
            decreases regions@.len() - k,
        {
            let (base, size) = regions[k];
            assert(regions@[k as int].0 + regions@[k as int].1 + 8 <= usize::MAX);
            let aligned = align_up(base, BLOCK_ALIGN);
            let shrink = aligned - base;
            if !(size <= shrink || size - shrink < BLOCK_HDR) {
                let b = Block { start: aligned, size: size - shrink };
                let ghost old_free = free@;
                let ghost rk = Block { start: regions@[k as int].0, size: regions@[k as int].1 };
                proof {
                    assert forall|i: int| 0 <= i < old_free.len() implies disjoint(#[trigger] old_free[i], b) by {
                        let j = choose|j: int|
                            0 <= j < k && within(old_free[i], Block { start: regions@[j].0, size: regions@[j].1 });
                        assert(regions_disjoint(regions@[j], regions@[k as int]));
                    }
                }
                free.push(b);
                proof {
                    assert(free@ == old_free.push(b));
                    assert forall|i: int| 0 <= i < free@.len() implies exists|j: int|
                        0 <= j < k + 1 && within(#[trigger] free@[i], Block { start: regions@[j].0, size: regions@[j].1 }) by {
                        if i < old_free.len() {
                            let j = choose|j: int|
                                0 <= j < k && within(old_free[i], Block { start: regions@[j].0, size: regions@[j].1 });
                            assert(within(free@[i], Block { start: regions@[j].0, size: regions@[j].1 }));
                        } else {
                            assert(within(free@[i], rk));
                        }
                    }
                }
            }
            k = k + 1;
        }
        let allocator = FreeListAllocator { free, allocated: Vec::new() };
        assert(allocator.free_list() + allocator.allocated() =~= allocator.free_list());
        allocator
    }

    /// Serves `size` bytes at an alignment of at most 8: takes the first free
    /// block that is large enough, splits off what is left of it when that
    /// can hold a header, and returns the address after the block's size
    /// word; 0 when `size` is 0 or no block is large enough.
    pub fn allocate(&mut self, size: usize, align: usize) -> (ptr: usize)
        requires
            old(self).wf(),
            size > 0 ==> align <= BLOCK_ALIGN,
            size + 15 <= usize::MAX,
        ensures
            final(self).wf(),
            allocated_as(
                old(self).free_list(),
                old(self).allocated(),
                final(self).free_list(),
                final(self).allocated(),
                size as int,
                ptr as int,
            ),
            ptr != 0 ==> ptr % 8 == 0,
    {
        if size == 0 {
            return 0;
        }
        let usable = align_up(size, BLOCK_ALIGN);
        let needed = if SIZE_SLOT + usable >= BLOCK_HDR {
            SIZE_SLOT + usable
        } else {
            BLOCK_HDR
        };
        let ghost old_free = self.free@;
        let ghost old_alloc = self.allocated@;
        let mut i: usize = 0;
        while i < self.free.len()
            invariant
                self.free@ == old_free,
                self.allocated@ == old_alloc,
                self.wf(),
                old_free == old(self).free@,
                old_alloc == old(self).allocated@,
                size > 0,
                needed == needed_size(size as int),
                i <= old_free.len(),
                forall|j: int| 0 <= j < i ==> #[trigger] old_free[j].size < needed,
            decreases old_free.len() - i,
        {
            let b = self.free[i];
            if b.size >= needed {
                proof {
                    assert(is_first_fit(old_free, needed as int, i as int));
                    assert(!none_fits(old_free, needed_size(size as int)));
                    assert forall|k: int| is_first_fit(old_free, needed_size(size as int), k) implies k == i by {
                        if k < i {
                            assert(old_free[k].size < needed);
                        } else if k > i {
                            assert(old_free[i as int].size < needed_size(size as int));
                        }
                    }
                    assert(block_ok(old_free[i as int]));
                }
                let remaining = b.size - needed;
                if remaining >= BLOCK_HDR {
                    let rest = Block { start: b.start + needed, size: remaining };
                    let head = Block { start: b.start, size: needed };
                    self.free.set(i, rest);
                    self.allocated.push(head);
                    proof {
                        let s = old_free + old_alloc;
                        let t = self.free@ + self.allocated@;
                        let n = old_free.len() as int;
                        let last = t.len() - 1;
                        let origin = |p: int| if p == last { i as int } else { p };
                        assert forall|p: int| 0 <= p < t.len() implies 0 <= #[trigger] origin(p) < s.len() && within(t[p], s[origin(p)]) by {
                            if p < n {
                                if p == i {
                                    assert(t[p] == rest);
                                } else {
                                    assert(t[p] == s[p]);
                                }
                            } else if p < last {
                                assert(t[p] == s[p]);
                            } else {
                                assert(t[p] == head);
                            }
                        }
                        lemma_disjoint_transfer(s, t, origin);
                        self.lemma_blocks_ok(old_free, old_alloc, i as int, rest, head);
                    }
                } else {
                    self.free.remove(i);
                    self.allocated.push(b);
                    proof {
                        let s = old_free + old_alloc;
                        let t = self.free@ + self.allocated@;
                        let n = old_free.len() as int;
                        let last = t.len() - 1;
                        let origin = |p: int|
                            if p == last {
                                i as int
                            } else if p < i {
                                p
                            } else {
                                p + 1
                            };
                        assert forall|p: int| 0 <= p < t.len() implies 0 <= #[trigger] origin(p) < s.len() && within(t[p], s[origin(p)]) by {
                            if p < i {
                                assert(t[p] == s[p]);
                            } else if p < last {
                                assert(t[p] == s[p + 1]);
                            } else {
                                assert(t[p] == b);
                            }
                        }
                        lemma_disjoint_transfer(s, t, origin);
                        assert forall|q: int| 0 <= q < self.free@.len() implies block_ok(#[trigger] self.free@[q]) by {
                            if q < i {
                                assert(self.free@[q] == old_free[q]);
                            } else {
                                assert(self.free@[q] == old_free[q + 1]);
                            }
                        }
                        assert forall|q: int| 0 <= q < self.allocated@.len() implies block_ok(#[trigger] self.allocated@[q]) by {
                            if q < old_alloc.len() {
                                assert(self.allocated@[q] == old_alloc[q]);
                            }
                        }
                    }
                }
                return b.start + SIZE_SLOT;
            }
            i = i + 1;
        }
        0
    }

    proof fn lemma_blocks_ok(self, old_free: Seq<Block>, old_alloc: Seq<Block>, i: int, rest: Block, head: Block)
        requires
            forall|q: int| 0 <= q < old_free.len() ==> block_ok(#[trigger] old_free[q]),
            forall|q: int| 0 <= q < old_alloc.len() ==> block_ok(#[trigger] old_alloc[q]),
            0 <= i < old_free.len(),
            block_ok(rest),
            block_ok(head),
            self.free@ == old_free.update(i, rest),
            self.allocated@ == old_alloc.push(head),
        ensures
            forall|q: int| 0 <= q < self.free@.len() ==> block_ok(#[trigger] self.free@[q]),
            forall|q: int| 0 <= q < self.allocated@.len() ==> block_ok(#[trigger] self.allocated@[q]),
    {
        assert forall|q: int| 0 <= q < self.allocated@.len() implies block_ok(#[trigger] self.allocated@[q]) by {
            if q < old_alloc.len() {
                assert(self.allocated@[q] == old_alloc[q]);
            }
        }
    }

    /// Gives back the allocation at `ptr`: its block, with the size word in
    /// front of it, goes to the head of the free list.
    pub fn deallocate(&mut self, ptr: usize)
        requires
            old(self).wf(),
            is_allocation(old(self).allocated(), ptr as int),
        ensures
            final(self).wf(),
            deallocated_as(old(self).free_list(), old(self).allocated(), final(self).free_list(), final(self).allocated(), ptr as int),
    {
        let ghost old_free = self.free@;
        let ghost old_alloc = self.allocated@;
        let ghost jw = choose|j: int| 0 <= j < old_alloc.len() && old_alloc[j].start + SIZE_SLOT == ptr;
        let mut j: usize = 0;
        while j < self.allocated.len() && self.allocated[j].start + SIZE_SLOT != ptr
            invariant
                self.free@ == old_free,
                self.allocated@ == old_alloc,
                self.wf(),
                0 <= jw < old_alloc.len(),
                old_alloc[jw].start + SIZE_SLOT == ptr,
                j <= jw,
            decreases old_alloc.len() - j,
        {
            j = j + 1;
        }
        assert(old_alloc[j as int].start + SIZE_SLOT == ptr);
        let b = self.allocated.remove(j);
        self.free.insert(0, b);
        proof {
            let s = old_free + old_alloc;
            let t = self.free@ + self.allocated@;
            let n = old_free.len() as int;
            let origin = |p: int|
                if p == 0 {
                    n + j
                } else if p <= n {
                    p - 1
                } else if p - 1 < n + j {
                    p - 1
                } else {
                    p
                };
            assert forall|p: int| 0 <= p < t.len() implies 0 <= #[trigger] origin(p) < s.len() && within(t[p], s[origin(p)]) by {
                if p == 0 {
                    assert(t[p] == b);
                } else if p <= n {
                    assert(t[p] == s[p - 1]);
                } else if p - 1 < n + j {
                    assert(t[p] == s[p - 1]);
                } else {
                    assert(t[p] == s[p]);
                }
            }
            lemma_disjoint_transfer(s, t, origin);
            assert forall|q: int| 0 <= q < self.free@.len() implies block_ok(#[trigger] self.free@[q]) by {
                if q > 0 {
                    assert(self.free@[q] == old_free[q - 1]);
                }
            }
            assert forall|q: int| 0 <= q < self.allocated@.len() implies block_ok(#[trigger] self.allocated@[q]) by {
                if q < j {
                    assert(self.allocated@[q] == old_alloc[q]);
                } else {
                    assert(self.allocated@[q] == old_alloc[q + 1]);
                }
            }
            assert forall|k: int|
                0 <= k < old_alloc.len() && #[trigger] old_alloc[k].start + SIZE_SLOT == ptr implies k == j by {
                if k != j {
                    assert(disjoint(s[n + k], s[n + j]));
                }
            }
            assert(self.free@ == seq![b] + old_free);
        }
    }
}

} // verus!
