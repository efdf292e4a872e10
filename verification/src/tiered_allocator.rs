use vstd::prelude::*;

use crate::bits::{align_up, spec_align_up};

verus! {

/// Bytes of a machine word.
pub const WORD_SIZE: usize = 8;

/// Alignment of every chunk: two words.
pub const ALIGNMENT: usize = 16;

/// Smallest chunk: room for a header, two links and a footer.
pub const MIN_CHUNK_SIZE: usize = 32;

/// Bytes of a chunk's header word, in front of its payload.
pub const HEADER_SIZE: usize = 8;

/// Bytes of the header at the start of each region.
pub const REGION_HEADER_SIZE: usize = 40;

/// A source of blocks of memory for the allocator's regions.
pub trait BlockProvider {
    /// The size of each block, in bytes.
    spec fn spec_block_size(&self) -> usize;

    /// Whether `blocks` may answer a request for `min_blocks` blocks; each
    /// kind of provider says what it grants.
    spec fn grants(&self, min_blocks: usize, blocks: Option<(usize, usize)>) -> bool;

    fn block_size(&self) -> (size: usize)
        ensures
            size == self.spec_block_size(),
    ;

    /// At least `min_blocks` blocks in a row: their address and how many
    /// they are; `None` when there are not so many.
    fn allocate_blocks(&self, min_blocks: usize) -> (blocks: Option<(usize, usize)>)
        ensures
            self.grants(min_blocks, blocks),
    ;

    fn release_blocks(&self, ptr: usize, count: usize);
}

/// A chunk's header word: its size, with the lowest bit set while it is
/// allocated.
#[derive(Copy, Clone)]
pub struct ChunkHeader {
    pub size_and_flags: usize,
}

impl ChunkHeader {
    /// The chunk's size: the header word without its lowest bit.
    pub fn size(&self) -> (size: usize)
        ensures
            size == self.size_and_flags - self.size_and_flags % 2,
    {
        let w = self.size_and_flags;
        assert(w & !1usize == w - w % 2) by (bit_vector);
        w & !1usize
    }

    /// Whether the chunk is allocated: the lowest bit of the header word.
    pub fn is_allocated(&self) -> (allocated: bool)
        ensures
            allocated == (self.size_and_flags % 2 == 1),
    {
        let w = self.size_and_flags;
        assert((w & 1usize != 0) == (w % 2 == 1)) by (bit_vector);
        w & 1usize != 0
    }
}

/// Bytes of the chunk that holds `payload_size` bytes: a header and a
/// footer word around the payload, rounded up to the alignment, and at least
/// the smallest chunk.
#[verifier::opaque]
pub open spec fn spec_required_chunk_size(payload_size: int) -> int {
    let aligned = spec_align_up(WORD_SIZE + payload_size + WORD_SIZE, ALIGNMENT as int);
    if aligned < MIN_CHUNK_SIZE { MIN_CHUNK_SIZE as int } else { aligned }
}

/// Computes the bytes of the chunk that holds `payload_size` bytes.
pub fn required_chunk_size(payload_size: usize) -> (size: usize)
    requires
        payload_size + 31 <= usize::MAX,
    ensures
        size == spec_required_chunk_size(payload_size as int),
        size >= MIN_CHUNK_SIZE,
        size % 16 == 0,
        size >= payload_size + 16,
{
    reveal(spec_required_chunk_size);
    let total = WORD_SIZE + payload_size + WORD_SIZE;
    let aligned = align_up(total, ALIGNMENT);
    if aligned < MIN_CHUNK_SIZE {
        MIN_CHUNK_SIZE
    } else {
        aligned
    }
}

/// Where the chunks of the region at `base` start: after the region's
/// header, aligned.
pub open spec fn spec_usable_start(base: int) -> int {
    spec_align_up(base + REGION_HEADER_SIZE, ALIGNMENT as int)
}

/// Where the chunks of the region of `total_size` bytes at `base` end: the
/// bytes after the header, trimmed to a multiple of the alignment.
pub open spec fn spec_region_end(base: int, total_size: int) -> int {
    let start = spec_usable_start(base);
    let usable = base + total_size - start;
    start + usable - usable % (ALIGNMENT as int)
}

/// Computes where the chunks of the region at `base` start.
pub fn region_usable_start(base: usize) -> (start: usize)
    requires
        base + REGION_HEADER_SIZE + ALIGNMENT <= usize::MAX,
    ensures
        start == spec_usable_start(base as int),
        start >= base + REGION_HEADER_SIZE,
        start < base + REGION_HEADER_SIZE + ALIGNMENT,
        start % 16 == 0,
{
    align_up(base + REGION_HEADER_SIZE, ALIGNMENT)
}

/// A chunk of a region: its address, its size, whether it is allocated
/// and, when it is, the address that was handed out.
#[derive(Copy, Clone)]
pub struct Chunk {
    pub addr: usize,
    pub size: usize,
    pub allocated: bool,
    pub payload: usize,
}

/// One past the last byte of a chunk.
pub open spec fn chunk_end(c: Chunk) -> int {
    c.addr + c.size
}

/// Whether `chunks` lie back to back from `start` to `end`, each aligned
/// and at least the smallest size.
pub open spec fn tiles(chunks: Seq<Chunk>, start: int, end: int) -> bool {
    &&& chunks.len() > 0
    &&& chunks[0].addr == start
    &&& chunk_end(chunks.last()) == end
    &&& forall|i: int| 0 < i < chunks.len() ==> (#[trigger] chunks[i]).addr == chunk_end(chunks[i - 1])
    &&& forall|i: int|
        0 <= i < chunks.len() ==> (#[trigger] chunks[i]).size >= MIN_CHUNK_SIZE && chunks[i].size % 16 == 0
            && chunks[i].addr % 16 == 0
}

/// Whether the payload of an allocated chunk lies inside it, after its header.
pub open spec fn payload_ok(c: Chunk) -> bool {
    c.allocated ==> c.addr + HEADER_SIZE <= c.payload < chunk_end(c)
}

/// Whether `chunks[i]` is free and `addr` is its address.
pub open spec fn is_free_at(chunks: Seq<Chunk>, addr: usize) -> bool {
    exists|i: int| 0 <= i < chunks.len() && (#[trigger] chunks[i]).addr == addr && !chunks[i].allocated
}

/// Whether `free_list` holds each free chunk's address exactly once and
/// nothing else.
pub open spec fn free_list_ok(chunks: Seq<Chunk>, free_list: Seq<usize>) -> bool {
    &&& free_list.no_duplicates()
    &&& forall|k: int| 0 <= k < free_list.len() ==> is_free_at(chunks, #[trigger] free_list[k])
    &&& forall|i: int| 0 <= i < chunks.len() && !(#[trigger] chunks[i]).allocated ==> free_list.contains(chunks[i].addr)
}

/// Whether no two neighbouring chunks are both free.
pub open spec fn coalesced(chunks: Seq<Chunk>) -> bool {
    forall|i: int| 0 < i < chunks.len() ==> chunks[i - 1].allocated || (#[trigger] chunks[i]).allocated
}

/// Bytes of the allocated chunks among the first `n`.
pub open spec fn allocated_bytes(chunks: Seq<Chunk>, n: int) -> int
    decreases n,
{
    if n <= 0 {
        0
    } else {
        allocated_bytes(chunks, n - 1) + if chunks[n - 1].allocated { chunks[n - 1].size as int } else { 0 }
    }
}

/// Whether a region at `base` of `total_size` bytes with these chunks, free
/// list and used bytes is sound: the chunks tile the region after its
/// header, the free list names the free chunks, no two free chunks are
/// neighbours, and the used bytes are those of the allocated chunks.
#[verifier::opaque]
pub open spec fn region_wf(base: int, total_size: int, chunks: Seq<Chunk>, free_list: Seq<usize>, used: int) -> bool {
    &&& base + total_size <= usize::MAX
    &&& spec_region_end(base, total_size) <= base + total_size
    &&& tiles(chunks, spec_usable_start(base), spec_region_end(base, total_size))
    &&& forall|i: int| 0 <= i < chunks.len() ==> payload_ok(#[trigger] chunks[i])
    &&& free_list_ok(chunks, free_list)
    &&& coalesced(chunks)
    &&& used == allocated_bytes(chunks, chunks.len() as int)
}

/// What a sound region satisfies, clause by clause.
pub proof fn lemma_region_wf_facts(base: int, total_size: int, chunks: Seq<Chunk>, free_list: Seq<usize>, used: int)
    requires
        region_wf(base, total_size, chunks, free_list, used),
    ensures
        base + total_size <= usize::MAX,
        spec_region_end(base, total_size) <= base + total_size,
        tiles(chunks, spec_usable_start(base), spec_region_end(base, total_size)),
        forall|i: int| 0 <= i < chunks.len() ==> payload_ok(#[trigger] chunks[i]),
        free_list_ok(chunks, free_list),
        coalesced(chunks),
        used == allocated_bytes(chunks, chunks.len() as int),
{
    reveal(region_wf);
}

/// What the specification sees of a region.
pub struct RegionState {
    pub base: usize,
    pub total_size: usize,
    pub block_count: usize,
    pub used_bytes: usize,
    pub chunks: Seq<Chunk>,
    pub free_list: Seq<usize>,
}

/// A region of blocks from the provider: its header fields, its chunks in
/// address order and its free list from the head.
pub struct Region {
    base: usize,
    total_size: usize,
    block_count: usize,
    used_bytes: usize,
    chunks: Vec<Chunk>,
    free_list: Vec<usize>,
}

impl View for Region {
    type V = RegionState;

    closed spec fn view(&self) -> RegionState {
        RegionState {
            base: self.base,
            total_size: self.total_size,
            block_count: self.block_count,
            used_bytes: self.used_bytes,
            chunks: self.chunks@,
            free_list: self.free_list@,
        }
    }
}

impl Region {
    /// What the view of a region says of its fields.
    pub proof fn lemma_view(&self)
        ensures
            self@.base == self.spec_base(),
            self@.total_size == self.spec_total_size(),
            self@.block_count == self.spec_block_count(),
            self@.used_bytes == self.spec_used_bytes(),
            self@.chunks == self.chunks(),
            self@.free_list == self.free_list(),
    {
    }

    pub closed spec fn spec_base(&self) -> usize {
        self.base
    }

    pub closed spec fn spec_total_size(&self) -> usize {
        self.total_size
    }

    pub closed spec fn spec_block_count(&self) -> usize {
        self.block_count
    }

    pub closed spec fn spec_used_bytes(&self) -> usize {
        self.used_bytes
    }

    /// The chunks, in address order.
    pub closed spec fn chunks(&self) -> Seq<Chunk> {
        self.chunks@
    }

    /// The free list, from its head.
    pub closed spec fn free_list(&self) -> Seq<usize> {
        self.free_list@
    }

    /// The chunks tile the region after its header, the free list names the
    /// free chunks, no two free chunks are neighbours, and the used bytes are
    /// those of the allocated chunks.
    pub open spec fn wf(&self) -> bool {
        region_wf(
            self.spec_base() as int,
            self.spec_total_size() as int,
            self.chunks(),
            self.free_list(),
            self.spec_used_bytes() as int,
        )
    }
}

/// Whether `(base, total_size)` can hold a region: in the address space,
/// and large enough for one chunk after the header.
pub open spec fn region_fits(base: int, total_size: int) -> bool {
    &&& base + total_size <= usize::MAX
    &&& spec_usable_start(base) + MIN_CHUNK_SIZE <= spec_region_end(base, total_size)
}

/// Sets up a region of `total_size` bytes at `base`: one free chunk covers
/// everything after the header.
pub fn init_region(base: usize, total_size: usize, block_count: usize) -> (region: Region)
    requires
        region_fits(base as int, total_size as int),
    ensures
        region.wf(),
        region.spec_base() == base,
        region.spec_total_size() == total_size,
        region.spec_block_count() == block_count,
        region.spec_used_bytes() == 0,
        region.chunks() == seq![
            Chunk {
                addr: spec_usable_start(base as int) as usize,
                size: (spec_region_end(base as int, total_size as int) - spec_usable_start(base as int)) as usize,
                allocated: false,
                payload: 0,
            },
        ],
        region.free_list() == seq![spec_usable_start(base as int) as usize],
{
    let usable_start = region_usable_start(base);
    let usable_size = total_size - (usable_start - base);
    let chunk_size = usable_size - (usable_size % ALIGNMENT);
    let mut chunks: Vec<Chunk> = Vec::new();
    chunks.push(Chunk { addr: usable_start, size: chunk_size, allocated: false, payload: 0 });
    let mut free_list: Vec<usize> = Vec::new();
    free_list.push(usable_start);
    let region = Region { base, total_size, block_count, used_bytes: 0, chunks, free_list };
    proof {
        reveal(region_wf);
        let c = region.chunks();
        assert(c[0].addr == usable_start);
        assert(is_free_at(c, region.free_list()[0]));
        assert(region.free_list().contains(c[0].addr));
        assert(allocated_bytes(c, 1) == allocated_bytes(c, 0));
    }
    region
}

/// Whether `ptr` lies in the region.
pub fn region_contains(region: &Region, ptr: usize) -> (contains: bool)
    requires
        region.wf(),
    ensures
        contains == (region.spec_base() <= ptr < region.spec_base() + region.spec_total_size()),
{
    ptr >= region.base && ptr - region.base < region.total_size
}

/// In a tiling, a chunk ends at or before the start of every later chunk.
proof fn lemma_tiles_ordered(chunks: Seq<Chunk>, start: int, end: int, i: int, j: int)
    requires
        tiles(chunks, start, end),
        0 <= i < j < chunks.len(),
    ensures
        chunk_end(chunks[i]) <= chunks[j].addr,
    decreases j - i,
{
    assert(chunks[j].addr == chunk_end(chunks[j - 1]));
    if j > i + 1 {
        lemma_tiles_ordered(chunks, start, end, i, j - 1);
    }
}

/// In a tiling, every chunk lies between the start and the end.
proof fn lemma_tiles_bounds(chunks: Seq<Chunk>, start: int, end: int, i: int)
    requires
        tiles(chunks, start, end),
        0 <= i < chunks.len(),
    ensures
        start <= chunks[i].addr,
        chunk_end(chunks[i]) <= end,
{
    if i > 0 {
        lemma_tiles_ordered(chunks, start, end, 0, i);
    }
    if i < chunks.len() - 1 {
        lemma_tiles_ordered(chunks, start, end, i, chunks.len() - 1);
    }
}

/// In a tiling, no two chunks share an address, and no chunk starts inside
/// another.
proof fn lemma_tiles_unique(chunks: Seq<Chunk>, start: int, end: int)
    requires
        tiles(chunks, start, end),
    ensures
        forall|i: int, j: int|
            0 <= i < chunks.len() && 0 <= j < chunks.len() && (#[trigger] chunks[i]).addr == (#[trigger] chunks[j]).addr ==> i == j,
        forall|i: int, j: int|
            0 <= i < chunks.len() && 0 <= j < chunks.len() && (#[trigger] chunks[i]).addr < (#[trigger] chunks[j]).addr ==> i < j,
        forall|i: int, j: int|
            0 <= i < chunks.len() && 0 <= j < chunks.len() && (#[trigger] chunks[i]).addr < (#[trigger] chunks[j]).addr < chunk_end(chunks[i]) ==> false,
{
    assert forall|i: int, j: int|
        0 <= i < chunks.len() && 0 <= j < chunks.len() && (#[trigger] chunks[i]).addr == (#[trigger] chunks[j]).addr implies i == j by {
        if i < j {
            lemma_tiles_ordered(chunks, start, end, i, j);
        } else if j < i {
            lemma_tiles_ordered(chunks, start, end, j, i);
        }
    }
    assert forall|i: int, j: int|
        0 <= i < chunks.len() && 0 <= j < chunks.len() && (#[trigger] chunks[i]).addr < (#[trigger] chunks[j]).addr implies i < j by {
        if j < i {
            lemma_tiles_ordered(chunks, start, end, j, i);
        }
    }
    assert forall|i: int, j: int|
        0 <= i < chunks.len() && 0 <= j < chunks.len() && (#[trigger] chunks[i]).addr < (#[trigger] chunks[j]).addr < chunk_end(chunks[i]) implies false by {
        if i < j {
            lemma_tiles_ordered(chunks, start, end, i, j);
        } else if j < i {
            lemma_tiles_ordered(chunks, start, end, j, i);
        }
    }
}

/// Replacing a chunk by two back-to-back pieces keeps the tiling.
#[verifier::spinoff_prover]
#[verifier::rlimit(30)]
proof fn lemma_tiles_split(chunks: Seq<Chunk>, start: int, end: int, i: int, a: Chunk, b: Chunk)
    requires
        tiles(chunks, start, end),
        0 <= i < chunks.len(),
        a.addr == chunks[i].addr,
        b.addr == chunk_end(a),
        chunk_end(b) == chunk_end(chunks[i]),
        a.size >= MIN_CHUNK_SIZE && a.size % 16 == 0,
        b.size >= MIN_CHUNK_SIZE && b.size % 16 == 0,
    ensures
        tiles(chunks.update(i, a).insert(i + 1, b), start, end),
{
    lemma_split_shape(chunks, i, a, b);
    let t = chunks.update(i, a).insert(i + 1, b);
    assert forall|k: int| 0 < k < t.len() implies (#[trigger] t[k]).addr == chunk_end(t[k - 1]) by {
        if k < i {
            assert(t[k] == chunks[k] && t[k - 1] == chunks[k - 1]);
            assert(chunks[k].addr == chunk_end(chunks[k - 1]));
        } else if k == i {
            assert(t[k] == a && t[k - 1] == chunks[k - 1]);
            assert(chunks[k].addr == chunk_end(chunks[k - 1]));
        } else if k == i + 1 {
            assert(t[k] == b && t[k - 1] == a);
        } else if k == i + 2 {
            assert(t[k] == chunks[i + 1] && t[k - 1] == b);
            assert(chunks[i + 1].addr == chunk_end(chunks[i]));
        } else {
            assert(t[k] == chunks[k - 1] && t[k - 1] == chunks[k - 2]);
            assert(chunks[k - 1].addr == chunk_end(chunks[k - 2]));
        }
    }
    assert forall|k: int| 0 <= k < t.len() implies (#[trigger] t[k]).size >= MIN_CHUNK_SIZE && t[k].size % 16 == 0 && t[k].addr % 16 == 0 by {
        if k < i {
            assert(t[k] == chunks[k]);
        } else if k > i + 1 {
            assert(t[k] == chunks[k - 1]);
        }
    }
    assert(t[0].addr == start) by {
        if i > 0 {
            assert(t[0] == chunks[0]);
        }
    }
    if i == chunks.len() - 1 {
        assert(t[t.len() - 1] == b);
    } else {
        assert(t[t.len() - 1] == chunks[chunks.len() - 1]);
    }
}

/// The allocated bytes after chunk `i` is replaced.
proof fn lemma_allocated_update(chunks: Seq<Chunk>, i: int, c: Chunk, n: int)
    requires
        0 <= i < chunks.len(),
        0 <= n <= chunks.len(),
    ensures
        allocated_bytes(chunks.update(i, c), n) == allocated_bytes(chunks, n) + if i < n {
            (if c.allocated { c.size as int } else { 0 }) - (if chunks[i].allocated { chunks[i].size as int } else { 0 })
        } else {
            0
        },
    decreases n,
{
    if n > 0 {
        lemma_allocated_update(chunks, i, c, n - 1);
    }
}

/// Putting a free chunk at `i` does not change the allocated bytes.
proof fn lemma_allocated_insert_free(chunks: Seq<Chunk>, i: int, c: Chunk, n: int)
    requires
        0 <= i <= chunks.len(),
        0 <= n <= chunks.len(),
        !c.allocated,
    ensures
        allocated_bytes(chunks.insert(i, c), if n < i { n } else { n + 1 }) == allocated_bytes(chunks, n),
    decreases n,
{
    let t = chunks.insert(i, c);
    chunks.insert_ensures(i, c);
    if n < i {
        if n > 0 {
            lemma_allocated_insert_free(chunks, i, c, n - 1);
            assert(t[n - 1] == chunks[n - 1]);
        }
    } else if n == i {
        if n > 0 {
            lemma_allocated_insert_free(chunks, i, c, n - 1);
            assert(t[n - 1] == chunks[n - 1]);
        }
        assert(t[i] == c);
        assert(allocated_bytes(t, i + 1) == allocated_bytes(t, i));
    } else {
        lemma_allocated_insert_free(chunks, i, c, n - 1);
        assert(chunks[n - 1] == t[n]);
    }
}

/// The bytes of the allocated chunks are at least those of any one of them.
proof fn lemma_allocated_at_least(chunks: Seq<Chunk>, i: int, n: int)
    requires
        0 <= i < n <= chunks.len(),
        chunks[i].allocated,
    ensures
        allocated_bytes(chunks, n) >= chunks[i].size,
    decreases n,
{
    if n - 1 > i {
        lemma_allocated_at_least(chunks, i, n - 1);
    } else {
        lemma_allocated_nonneg(chunks, n - 1);
    }
}

proof fn lemma_allocated_nonneg(chunks: Seq<Chunk>, n: int)
    ensures
        allocated_bytes(chunks, n) >= 0,
    decreases n,
{
    if n > 0 {
        lemma_allocated_nonneg(chunks, n - 1);
    }
}

/// The alignment an allocation gets: at least a word.
pub open spec fn alloc_align(align: int) -> int {
    if align < HEADER_SIZE { HEADER_SIZE as int } else { align }
}

/// Room asked up front for aligning beyond a word.
pub open spec fn extra_align(align: int) -> int {
    if alloc_align(align) > HEADER_SIZE { alloc_align(align) } else { 0 }
}

/// The address handed out from chunk `c`: after its header, aligned.
#[verifier::opaque]
pub open spec fn aligned_payload(c: Chunk, align: int) -> int {
    spec_align_up(c.addr + HEADER_SIZE, alloc_align(align))
}

/// Bytes of chunk `c` that an allocation of `size` bytes needs, counting
/// the padding in front of its aligned address.
pub open spec fn needed_size(c: Chunk, size: int, align: int) -> int {
    spec_required_chunk_size(size + aligned_payload(c, align) - (c.addr + HEADER_SIZE))
}

/// Whether free chunk `c` can serve the allocation.
pub open spec fn chunk_fits(c: Chunk, size: int, align: int) -> bool {
    &&& c.size >= spec_required_chunk_size(size + extra_align(align))
    &&& c.size >= needed_size(c, size, align)
}

/// The index of the chunk at `addr`.
pub open spec fn index_at(chunks: Seq<Chunk>, addr: usize) -> int {
    choose|i: int| 0 <= i < chunks.len() && (#[trigger] chunks[i]).addr == addr
}

/// Whether entry `k` of the free list is the first whose chunk can serve
/// the allocation.
pub open spec fn is_first_fit_free(chunks: Seq<Chunk>, free_list: Seq<usize>, size: int, align: int, k: int) -> bool {
    &&& 0 <= k < free_list.len()
    &&& chunk_fits(chunks[index_at(chunks, free_list[k])], size, align)
    &&& forall|j: int| 0 <= j < k ==> !chunk_fits(chunks[index_at(chunks, #[trigger] free_list[j])], size, align)
}

/// Whether no chunk on the free list can serve the allocation.
pub open spec fn no_free_fits(chunks: Seq<Chunk>, free_list: Seq<usize>, size: int, align: int) -> bool {
    forall|j: int| 0 <= j < free_list.len() ==> !chunk_fits(chunks[index_at(chunks, #[trigger] free_list[j])], size, align)
}

/// The chunks after the allocation is carved out of chunk `i`: it keeps
/// what the allocation needs and the rest becomes a free chunk after it,
/// unless the rest is smaller than the smallest chunk.
pub open spec fn carve_chunks(chunks: Seq<Chunk>, i: int, size: int, align: int) -> Seq<Chunk> {
    let c = chunks[i];
    let p = aligned_payload(c, align) as usize;
    let needed = needed_size(c, size, align);
    let rem = c.size - needed;
    if rem >= MIN_CHUNK_SIZE {
        chunks.update(i, Chunk { addr: c.addr, size: needed as usize, allocated: true, payload: p }).insert(
            i + 1,
            Chunk { addr: (c.addr + needed) as usize, size: rem as usize, allocated: false, payload: 0 },
        )
    } else {
        chunks.update(i, Chunk { addr: c.addr, size: c.size, allocated: true, payload: p })
    }
}

/// The free list after the allocation is carved out of the chunk of entry
/// `k`: the entry leaves, and the rest of the chunk, when it is kept, goes
/// to the head.
pub open spec fn carve_list(chunks: Seq<Chunk>, free_list: Seq<usize>, k: int, size: int, align: int) -> Seq<usize> {
    let c = chunks[index_at(chunks, free_list[k])];
    let needed = needed_size(c, size, align);
    if c.size - needed >= MIN_CHUNK_SIZE {
        seq![(c.addr + needed) as usize] + free_list.remove(k)
    } else {
        free_list.remove(k)
    }
}

/// Taking entry `k` out of a free list without duplicates keeps the
/// others, once each.
proof fn lemma_list_remove(chunks: Seq<Chunk>, fl: Seq<usize>, k: int)
    requires
        fl.no_duplicates(),
        forall|m: int| 0 <= m < fl.len() ==> is_free_at(chunks, #[trigger] fl[m]),
        0 <= k < fl.len(),
    ensures
        fl.remove(k).no_duplicates(),
        forall|m: int| 0 <= m < fl.remove(k).len() ==> #[trigger] fl.remove(k)[m] != fl[k],
        forall|m: int| 0 <= m < fl.remove(k).len() ==> is_free_at(chunks, #[trigger] fl.remove(k)[m]),
        forall|x: usize| fl.contains(x) && x != fl[k] ==> #[trigger] fl.remove(k).contains(x),
{
    let rl = fl.remove(k);
    fl.remove_ensures(k);
    assert forall|m: int| 0 <= m < rl.len() implies #[trigger] rl[m] == fl[if m < k { m } else { m + 1 }] by {}
    assert forall|m: int| 0 <= m < rl.len() implies #[trigger] rl[m] != fl[k] by {
        assert(rl[m] == fl[if m < k { m } else { m + 1 }]);
    }
    assert forall|m: int| 0 <= m < rl.len() implies is_free_at(chunks, #[trigger] rl[m]) by {
        assert(rl[m] == fl[if m < k { m } else { m + 1 }]);
    }
    assert forall|x: int, y: int| 0 <= x < rl.len() && 0 <= y < rl.len() && x != y implies rl[x] != rl[y] by {
        assert(rl[x] == fl[if x < k { x } else { x + 1 }]);
        assert(rl[y] == fl[if y < k { y } else { y + 1 }]);
    }
    assert forall|x: usize| fl.contains(x) && x != fl[k] implies #[trigger] rl.contains(x) by {
        let m = choose|m: int| 0 <= m < fl.len() && fl[m] == x;
        let rm = if m < k { m } else { m - 1 };
        assert(rl[rm] == fl[m]);
    }
}

/// Facts about the chunk that serves an allocation: where the handed-out
/// address lies and how large the kept part is.
proof fn lemma_fit_facts(c: Chunk, size: int, align: int)
    requires
        size >= 0,
        align > 0,
        c.addr >= 0,
    ensures
        aligned_payload(c, align) >= c.addr + HEADER_SIZE,
        aligned_payload(c, align) < c.addr + HEADER_SIZE + alloc_align(align),
        aligned_payload(c, align) % alloc_align(align) == 0,
        needed_size(c, size, align) % 16 == 0,
        needed_size(c, size, align) >= MIN_CHUNK_SIZE,
        needed_size(c, size, align) >= size + (aligned_payload(c, align) - (c.addr + HEADER_SIZE)) + 16,
{
    reveal(spec_required_chunk_size);
    reveal(aligned_payload);
    let aa = alloc_align(align);
    let v = c.addr + HEADER_SIZE;
    let q = (v + aa - 1) / aa;
    assert(q * aa <= v + aa - 1) by (nonlinear_arith) requires aa > 0, q == (v + aa - 1) / aa, v >= 0;
    assert(v + aa - 1 < q * aa + aa) by (nonlinear_arith) requires aa > 0, q == (v + aa - 1) / aa, v >= 0;
    assert((q * aa) % aa == 0) by (nonlinear_arith) requires aa > 0, q >= 0;
    let x = size + aligned_payload(c, align) - v;
    let t = WORD_SIZE + x + WORD_SIZE;
    let r = (t + 15) / 16;
    assert(r * 16 >= t && (r * 16) % 16 == 0) by (nonlinear_arith) requires r == (t + 15) / 16, t >= 0;
}

/// The chunks after chunk `i` is replaced by two pieces, position by position.
proof fn lemma_split_shape(chunks: Seq<Chunk>, i: int, ac: Chunk, fc: Chunk)
    requires
        0 <= i < chunks.len(),
    ensures
        chunks.update(i, ac).insert(i + 1, fc).len() == chunks.len() + 1,
        forall|j: int|
            0 <= j < chunks.len() + 1 ==> #[trigger] chunks.update(i, ac).insert(i + 1, fc)[j] == if j < i {
                chunks[j]
            } else if j == i {
                ac
            } else if j == i + 1 {
                fc
            } else {
                chunks[j - 1]
            },
{
    let u = chunks.update(i, ac);
    let nc = u.insert(i + 1, fc);
    u.insert_ensures(i + 1, fc);
    assert forall|j: int| 0 <= j < chunks.len() + 1 implies #[trigger] nc[j] == if j < i {
        chunks[j]
    } else if j == i {
        ac
    } else if j == i + 1 {
        fc
    } else {
        chunks[j - 1]
    } by {
        if j > i + 1 {
            assert(nc[(j - 1) + 1] == u[j - 1]);
        }
    }
}

/// Splitting a free chunk into an allocated piece and a free piece keeps
/// neighbouring free chunks apart.
proof fn lemma_split_coalesced(chunks: Seq<Chunk>, i: int, ac: Chunk, fc: Chunk)
    requires
        0 <= i < chunks.len(),
        coalesced(chunks),
        !chunks[i].allocated,
        ac.allocated,
    ensures
        coalesced(chunks.update(i, ac).insert(i + 1, fc)),
{
    lemma_split_shape(chunks, i, ac, fc);
    let nc = chunks.update(i, ac).insert(i + 1, fc);
    assert forall|j: int| 0 < j < nc.len() implies nc[j - 1].allocated || (#[trigger] nc[j]).allocated by {
        if j < i {
            assert(chunks[j - 1].allocated || chunks[j].allocated);
        } else if j == i + 2 {
            assert(chunks[i].allocated || chunks[i + 1].allocated);
        } else if j > i + 2 {
            assert(chunks[j - 2].allocated || chunks[j - 1].allocated);
        }
    }
}

/// Splitting keeps every payload in its chunk.
proof fn lemma_split_payloads(chunks: Seq<Chunk>, i: int, ac: Chunk, fc: Chunk)
    requires
        0 <= i < chunks.len(),
        forall|j: int| 0 <= j < chunks.len() ==> payload_ok(#[trigger] chunks[j]),
        payload_ok(ac),
        !fc.allocated,
    ensures
        forall|j: int| 0 <= j < chunks.len() + 1 ==> payload_ok(#[trigger] chunks.update(i, ac).insert(i + 1, fc)[j]),
{
    lemma_split_shape(chunks, i, ac, fc);
    let nc = chunks.update(i, ac).insert(i + 1, fc);
    assert forall|j: int| 0 <= j < chunks.len() + 1 implies payload_ok(#[trigger] nc[j]) by {
        if j < i {
            assert(payload_ok(chunks[j]));
        } else if j > i + 1 {
            assert(payload_ok(chunks[j - 1]));
        }
    }
}

/// Splitting the chunk of free-list entry `k` takes the entry out and puts
/// the free piece at the head.
#[verifier::spinoff_prover]
proof fn lemma_split_free_list(start: int, end: int, chunks: Seq<Chunk>, fl: Seq<usize>, k: int, i: int, ac: Chunk, fc: Chunk)
    requires
        tiles(chunks, start, end),
        free_list_ok(chunks, fl),
        0 <= k < fl.len(),
        0 <= i < chunks.len(),
        chunks[i].addr == fl[k],
        ac.addr == chunks[i].addr,
        ac.allocated,
        fc.addr == chunk_end(ac),
        chunk_end(fc) == chunk_end(chunks[i]),
        ac.size > 0,
        fc.size > 0,
        !fc.allocated,
    ensures
        free_list_ok(chunks.update(i, ac).insert(i + 1, fc), seq![fc.addr] + fl.remove(k)),
{
    lemma_tiles_unique(chunks, start, end);
    lemma_list_remove(chunks, fl, k);
    lemma_split_shape(chunks, i, ac, fc);
    let nc = chunks.update(i, ac).insert(i + 1, fc);
    let rl = fl.remove(k);
    let nl = seq![fc.addr] + rl;
    assert forall|m: int| 0 <= m < rl.len() implies (#[trigger] rl[m]) != fc.addr by {
        let e = rl[m];
        assert(is_free_at(chunks, e));
        let j = choose|j: int| 0 <= j < chunks.len() && (#[trigger] chunks[j]).addr == e && !chunks[j].allocated;
        assert(!(chunks[i].addr < chunks[j].addr < chunk_end(chunks[i])));
    }
    assert forall|x: int, y: int| 0 <= x < nl.len() && 0 <= y < nl.len() && x != y implies nl[x] != nl[y] by {
        if x > 0 && y > 0 {
            assert(nl[x] == rl[x - 1] && nl[y] == rl[y - 1]);
        } else if x == 0 {
            assert(nl[y] == rl[y - 1]);
        } else {
            assert(nl[x] == rl[x - 1]);
        }
    }
    assert forall|m: int| 0 <= m < nl.len() implies is_free_at(nc, #[trigger] nl[m]) by {
        if m == 0 {
            assert(nc[i + 1] == fc);
        } else {
            let e = rl[m - 1];
            assert(nl[m] == e);
            assert(is_free_at(chunks, e));
            assert(e != fl[k]);
            let j = choose|j: int| 0 <= j < chunks.len() && (#[trigger] chunks[j]).addr == e && !chunks[j].allocated;
            if j < i {
                assert(nc[j] == chunks[j]);
            } else {
                assert(nc[j + 1] == chunks[j]);
            }
        }
    }
    assert forall|j: int| 0 <= j < nc.len() && !(#[trigger] nc[j]).allocated implies nl.contains(nc[j].addr) by {
        if j == i + 1 {
            assert(nl[0] == fc.addr);
        } else {
            let oj = if j < i { j } else { j - 1 };
            assert(nc[j] == chunks[oj]);
            assert(fl.contains(chunks[oj].addr));
            assert(rl.contains(chunks[oj].addr));
            let m = choose|m: int| 0 <= m < rl.len() && rl[m] == chunks[oj].addr;
            assert(nl[m + 1] == rl[m]);
        }
    }
}

/// Carving with a split keeps the region sound.
proof fn lemma_carve_split_wf(base: int, total: int, chunks: Seq<Chunk>, fl: Seq<usize>, used: int, k: int, i: int, ac: Chunk, fc: Chunk)
    requires
        region_wf(base, total, chunks, fl, used),
        0 <= k < fl.len(),
        0 <= i < chunks.len(),
        chunks[i].addr == fl[k],
        !chunks[i].allocated,
        ac.addr == chunks[i].addr,
        ac.allocated,
        payload_ok(ac),
        ac.size >= MIN_CHUNK_SIZE && ac.size % 16 == 0,
        fc.addr == chunk_end(ac),
        !fc.allocated,
        fc.size >= MIN_CHUNK_SIZE && fc.size % 16 == 0,
        chunk_end(fc) == chunk_end(chunks[i]),
    ensures
        region_wf(base, total, chunks.update(i, ac).insert(i + 1, fc), seq![fc.addr] + fl.remove(k), used + ac.size),
{
    reveal(region_wf);
    let start = spec_usable_start(base);
    let end = spec_region_end(base, total);
    lemma_tiles_split(chunks, start, end, i, ac, fc);
    lemma_split_payloads(chunks, i, ac, fc);
    lemma_split_coalesced(chunks, i, ac, fc);
    lemma_split_free_list(start, end, chunks, fl, k, i, ac, fc);
    let u = chunks.update(i, ac);
    lemma_allocated_update(chunks, i, ac, chunks.len() as int);
    lemma_allocated_insert_free(u, i + 1, fc, chunks.len() as int);
}

/// Carving a whole chunk keeps the region sound.
#[verifier::spinoff_prover]
proof fn lemma_carve_whole_wf(base: int, total: int, chunks: Seq<Chunk>, fl: Seq<usize>, used: int, k: int, i: int, ac: Chunk)
    requires
        region_wf(base, total, chunks, fl, used),
        0 <= k < fl.len(),
        0 <= i < chunks.len(),
        chunks[i].addr == fl[k],
        !chunks[i].allocated,
        ac.addr == chunks[i].addr,
        ac.size == chunks[i].size,
        ac.allocated,
        payload_ok(ac),
    ensures
        region_wf(base, total, chunks.update(i, ac), fl.remove(k), used + ac.size),
{
    reveal(region_wf);
    let start = spec_usable_start(base);
    let end = spec_region_end(base, total);
    lemma_tiles_unique(chunks, start, end);
    lemma_list_remove(chunks, fl, k);
    let nc = chunks.update(i, ac);
    let rl = fl.remove(k);
    assert forall|j: int| 0 <= j < nc.len() implies payload_ok(#[trigger] nc[j]) by {
        if j != i {
            assert(payload_ok(chunks[j]));
        }
    }
    assert forall|j: int| 0 < j < nc.len() implies (#[trigger] nc[j]).addr == chunk_end(nc[j - 1]) by {
        assert(chunks[j].addr == chunk_end(chunks[j - 1]));
    }
    assert forall|j: int| 0 <= j < nc.len() implies (#[trigger] nc[j]).size >= MIN_CHUNK_SIZE && nc[j].size % 16 == 0 && nc[j].addr % 16 == 0 by {
        assert(chunks[j].size >= MIN_CHUNK_SIZE);
    }
    if i == chunks.len() - 1 {
        assert(nc.last() == ac);
    } else {
        assert(nc.last() == chunks.last());
    }
    lemma_allocated_update(chunks, i, ac, chunks.len() as int);
    assert forall|j: int| 0 < j < nc.len() implies nc[j - 1].allocated || (#[trigger] nc[j]).allocated by {
        assert(chunks[j - 1].allocated || chunks[j].allocated);
    }
    assert forall|m: int| 0 <= m < rl.len() implies is_free_at(nc, #[trigger] rl[m]) by {
        let e = rl[m];
        assert(is_free_at(chunks, e));
        let j = choose|j: int| 0 <= j < chunks.len() && (#[trigger] chunks[j]).addr == e && !chunks[j].allocated;
        assert(nc[j] == chunks[j]);
    }
    assert forall|j: int| 0 <= j < nc.len() && !(#[trigger] nc[j]).allocated implies rl.contains(nc[j].addr) by {
        assert(nc[j] == chunks[j]);
        assert(fl.contains(chunks[j].addr));
    }
}

impl Region {
    /// The index of the chunk at `addr`; there must be one.
    fn find_chunk(&self, addr: usize) -> (i: usize)
        requires
            self.wf(),
            exists|j: int| 0 <= j < self.chunks().len() && (#[trigger] self.chunks()[j]).addr == addr,
        ensures
            i < self.chunks().len(),
            self.chunks()[i as int].addr == addr,
            i == index_at(self.chunks(), addr),
    {
        proof {
            lemma_region_wf_facts(self.base as int, self.total_size as int, self.chunks@, self.free_list@, self.used_bytes as int);
            lemma_tiles_unique(self.chunks(), spec_usable_start(self.base as int), spec_region_end(self.base as int, self.total_size as int));
        }
        let ghost w = choose|j: int| 0 <= j < self.chunks().len() && (#[trigger] self.chunks()[j]).addr == addr;
        let mut i: usize = 0;
        while i < self.chunks.len() && self.chunks[i].addr != addr
            invariant
                0 <= w < self.chunks@.len(),
                self.chunks@[w].addr == addr,
                i <= w,
            decreases self.chunks@.len() - i,
        {
            i = i + 1;
        }
        i
    }
}

/// The allocated bytes together with one free chunk fit in the tiled span.
proof fn lemma_used_room(chunks: Seq<Chunk>, start: int, end: int, i: int)
    requires
        tiles(chunks, start, end),
        0 <= i < chunks.len(),
        !chunks[i].allocated,
    ensures
        allocated_bytes(chunks, chunks.len() as int) + chunks[i].size <= end - start,
{
    lemma_allocated_span(chunks, start, end, i, chunks.len() as int);
}

proof fn lemma_allocated_span(chunks: Seq<Chunk>, start: int, end: int, i: int, n: int)
    requires
        tiles(chunks, start, end),
        0 <= i < chunks.len(),
        !chunks[i].allocated,
        1 <= n <= chunks.len(),
    ensures
        allocated_bytes(chunks, n) + (if i < n { chunks[i].size as int } else { 0 }) <= chunk_end(chunks[n - 1]) - start,
    decreases n,
{
    assert(allocated_bytes(chunks, n) == allocated_bytes(chunks, n - 1) + if chunks[n - 1].allocated { chunks[n - 1].size as int } else { 0 });
    if n > 1 {
        lemma_allocated_span(chunks, start, end, i, n - 1);
        assert(chunks[n - 1].addr == chunk_end(chunks[n - 2]));
    } else {
        assert(allocated_bytes(chunks, 0) == 0);
    }
}

/// Entry `k` of a sound region's free list names a free chunk of the region.
proof fn lemma_free_entry(base: int, total: int, chunks: Seq<Chunk>, fl: Seq<usize>, used: int, k: int)
    requires
        region_wf(base, total, chunks, fl, used),
        0 <= k < fl.len(),
    ensures
        exists|j: int| 0 <= j < chunks.len() && (#[trigger] chunks[j]).addr == fl[k],
        0 <= index_at(chunks, fl[k]) < chunks.len(),
        chunks[index_at(chunks, fl[k])].addr == fl[k],
        !chunks[index_at(chunks, fl[k])].allocated,
        chunk_end(chunks[index_at(chunks, fl[k])]) <= spec_region_end(base, total),
        chunks[index_at(chunks, fl[k])].size >= MIN_CHUNK_SIZE,
{
    lemma_region_wf_facts(base, total, chunks, fl, used);
    let start = spec_usable_start(base);
    lemma_tiles_unique(chunks, start, spec_region_end(base, total));
    assert(is_free_at(chunks, fl[k]));
    let w = choose|w: int| 0 <= w < chunks.len() && (#[trigger] chunks[w]).addr == fl[k] && !chunks[w].allocated;
    assert(chunks[w].addr == fl[k]);
    let i = index_at(chunks, fl[k]);
    assert(i == w);
    lemma_tiles_bounds(chunks, start, spec_region_end(base, total), i);
}

/// A free chunk of a sound region lies in the address space, and its bytes
/// can be added to the used bytes.
proof fn lemma_chunk_room(base: int, total: int, chunks: Seq<Chunk>, fl: Seq<usize>, used: int, i: int)
    requires
        region_wf(base, total, chunks, fl, used),
        0 <= i < chunks.len(),
        !chunks[i].allocated,
    ensures
        chunk_end(chunks[i]) <= usize::MAX,
        used + chunks[i].size <= usize::MAX,
        chunks[i].size >= MIN_CHUNK_SIZE,
        chunks[i].size % 16 == 0,
        chunks[i].addr % 16 == 0,
{
    lemma_region_wf_facts(base, total, chunks, fl, used);
    let start = spec_usable_start(base);
    lemma_tiles_bounds(chunks, start, spec_region_end(base, total), i);
    lemma_used_room(chunks, start, spec_region_end(base, total), i);
}

/// Carves the allocation out of chunk `i`, the chunk of free-list entry `k`.
#[verifier::rlimit(60)]
fn carve_at(region: &mut Region, k: usize, i: usize, size: usize, align: usize, aligned_addr: usize, needed: usize)
    requires
        old(region).wf(),
        k < old(region).free_list().len(),
        i == index_at(old(region).chunks(), old(region).free_list()[k as int]),
        i < old(region).chunks().len(),
        old(region).chunks()[i as int].addr == old(region).free_list()[k as int],
        !old(region).chunks()[i as int].allocated,
        chunk_fits(old(region).chunks()[i as int], size as int, align as int),
        aligned_addr == aligned_payload(old(region).chunks()[i as int], align as int),
        needed == needed_size(old(region).chunks()[i as int], size as int, align as int),
        align > 0,
    ensures
        final(region).wf(),
        final(region).spec_base() == old(region).spec_base(),
        final(region).spec_total_size() == old(region).spec_total_size(),
        final(region).spec_block_count() == old(region).spec_block_count(),
        final(region).chunks() == carve_chunks(old(region).chunks(), i as int, size as int, align as int),
        final(region).free_list() == carve_list(old(region).chunks(), old(region).free_list(), k as int, size as int, align as int),
        final(region).spec_used_bytes() == old(region).spec_used_bytes() + final(region).chunks()[i as int].size,
{
    let ghost chunks0 = region.chunks@;
    let ghost fl0 = region.free_list@;
    let ghost start = spec_usable_start(region.base as int);
    let ghost end = region.base + region.total_size;
    let c = region.chunks[i];
    proof {
        lemma_chunk_room(region.base as int, region.total_size as int, chunks0, fl0, region.used_bytes as int, i as int);
        lemma_fit_facts(c, size as int, align as int);
    }
    let remainder = c.size - needed;
    region.free_list.remove(k);
    if remainder >= MIN_CHUNK_SIZE {
        let ac = Chunk { addr: c.addr, size: needed, allocated: true, payload: aligned_addr };
        let fc = Chunk { addr: c.addr + needed, size: remainder, allocated: false, payload: 0 };
        region.chunks.set(i, ac);
        let n = region.chunks.len();
        region.chunks.insert(i + 1, fc);
        region.free_list.insert(0, c.addr + needed);
        proof {
            assert(region.free_list@ =~= seq![fc.addr] + fl0.remove(k as int));
            assert(region.chunks@ =~= chunks0.update(i as int, ac).insert(i + 1, fc));
            lemma_carve_split_wf(region.base as int, region.total_size as int, chunks0, fl0, region.used_bytes as int, k as int, i as int, ac, fc);
            lemma_split_shape(chunks0, i as int, ac, fc);
        }
        region.used_bytes = region.used_bytes + needed;
    } else {
        let ac = Chunk { addr: c.addr, size: c.size, allocated: true, payload: aligned_addr };
        region.chunks.set(i, ac);
        proof {
            assert(region.free_list@ =~= fl0.remove(k as int));
            lemma_carve_whole_wf(region.base as int, region.total_size as int, chunks0, fl0, region.used_bytes as int, k as int, i as int, ac);
        }
        region.used_bytes = region.used_bytes + c.size;
    }
}

/// Serves `size` bytes aligned to `align` from the first chunk on the
/// region's free list that can hold them: the chunk becomes allocated and
/// its rest, if it can make a chunk, goes back to the head of the free
/// list. Returns the address handed out, or 0 when no chunk can serve.
#[verifier::rlimit(60)]
pub fn region_alloc(region: &mut Region, size: usize, align: usize) -> (ptr: usize)
    requires
        old(region).wf(),
        align > 0,
        size + align + 64 <= usize::MAX,
        old(region).spec_base() + old(region).spec_total_size() + align <= usize::MAX,
    ensures
        final(region).wf(),
        final(region).spec_base() == old(region).spec_base(),
        final(region).spec_total_size() == old(region).spec_total_size(),
        final(region).spec_block_count() == old(region).spec_block_count(),
        no_free_fits(old(region).chunks(), old(region).free_list(), size as int, align as int) ==> ptr == 0
            && final(region).chunks() == old(region).chunks() && final(region).free_list()
            == old(region).free_list() && final(region).spec_used_bytes() == old(region).spec_used_bytes(),
        forall|k: int|
            #[trigger] is_first_fit_free(old(region).chunks(), old(region).free_list(), size as int, align as int, k) ==> {
                let i = index_at(old(region).chunks(), old(region).free_list()[k]);
                &&& ptr == aligned_payload(old(region).chunks()[i], align as int)
                &&& final(region).chunks() == carve_chunks(old(region).chunks(), i, size as int, align as int)
                &&& final(region).free_list() == carve_list(old(region).chunks(), old(region).free_list(), k, size as int, align as int)
                &&& final(region).spec_used_bytes() == old(region).spec_used_bytes() + final(region).chunks()[i].size
            },
        ptr != 0 ==> (ptr as int) % alloc_align(align as int) == 0,
        (ptr == 0) == no_free_fits(old(region).chunks(), old(region).free_list(), size as int, align as int),
{
    let a = if align < HEADER_SIZE { HEADER_SIZE } else { align };
    let extra = if a > HEADER_SIZE { a } else { 0 };
    let chunk_size = required_chunk_size(size + extra);
    let ghost chunks0 = region.chunks@;
    let ghost fl0 = region.free_list@;
    let ghost start = spec_usable_start(region.base as int);
    let ghost end = region.base + region.total_size;
    let mut k: usize = 0;
    while k < region.free_list.len()
        invariant
            region.wf(),
            region.chunks@ == chunks0,
            region.free_list@ == fl0,
            region.base == old(region).spec_base(),
            region.total_size == old(region).spec_total_size(),
            region.block_count == old(region).spec_block_count(),
            region.used_bytes == old(region).spec_used_bytes(),
            chunks0 == old(region).chunks(),
            fl0 == old(region).free_list(),
            start == spec_usable_start(region.base as int),
            end == region.base + region.total_size,
            a == alloc_align(align as int),
            chunk_size == spec_required_chunk_size(size + extra_align(align as int)),
            size + align + 64 <= usize::MAX,
            align > 0,
            region.base + region.total_size + align <= usize::MAX,
            k <= fl0.len(),
            forall|j: int| 0 <= j < k ==> !chunk_fits(chunks0[index_at(chunks0, #[trigger] fl0[j])], size as int, align as int),
        decreases fl0.len() - k,
    {
        let current = region.free_list[k];
        proof {
            lemma_free_entry(region.base as int, region.total_size as int, chunks0, fl0, region.used_bytes as int, k as int);
        }
        let i = region.find_chunk(current);
        let c = region.chunks[i];
        if c.size >= chunk_size {
            let payload_addr = c.addr + HEADER_SIZE;
            let aligned_addr = align_up(payload_addr, a);
            proof {
                reveal(aligned_payload);
            }
            let padding = aligned_addr - payload_addr;
            let needed = required_chunk_size(size + padding);
            if c.size >= needed {
                proof {
                    lemma_fit_facts(c, size as int, align as int);
                    assert(chunk_fits(chunks0[i as int], size as int, align as int));
                }
                let ghost kk = k as int;
                carve_at(region, k, i, size, align, aligned_addr, needed);
                proof {
                    assert(is_first_fit_free(chunks0, fl0, size as int, align as int, kk));
                    assert forall|q: int| #[trigger] is_first_fit_free(chunks0, fl0, size as int, align as int, q) implies q == kk by {
                        if q < kk {
                            assert(!chunk_fits(chunks0[index_at(chunks0, fl0[q])], size as int, align as int));
                        } else if q > kk {
                            assert(!chunk_fits(chunks0[index_at(chunks0, fl0[kk])], size as int, align as int));
                        }
                    }
                    assert(!no_free_fits(chunks0, fl0, size as int, align as int));
                    lemma_fit_facts(c, size as int, align as int);
                }
                return aligned_addr;
            }
        }
        k = k + 1;
    }
    0
}

/// The index of the allocated chunk that handed out `ptr`.
pub open spec fn allocation_index(chunks: Seq<Chunk>, ptr: usize) -> int {
    choose|i: int| 0 <= i < chunks.len() && (#[trigger] chunks[i]).allocated && chunks[i].payload == ptr
}

/// Whether `ptr` is the address of a live allocation among `chunks`.
pub open spec fn is_live(chunks: Seq<Chunk>, ptr: usize) -> bool {
    exists|i: int| 0 <= i < chunks.len() && (#[trigger] chunks[i]).allocated && chunks[i].payload == ptr
}

/// Whether chunk `i` merges with the free chunk after it.
pub open spec fn merges_next(chunks: Seq<Chunk>, i: int) -> bool {
    i + 1 < chunks.len() && !chunks[i + 1].allocated
}

/// Whether chunk `i` merges with the free chunk before it.
pub open spec fn merges_prev(chunks: Seq<Chunk>, i: int) -> bool {
    i > 0 && !chunks[i - 1].allocated
}

/// The first index of the chunks that merge with chunk `i`.
pub open spec fn merge_lo(chunks: Seq<Chunk>, i: int) -> int {
    if merges_prev(chunks, i) { i - 1 } else { i }
}

/// One past the last index of the chunks that merge with chunk `i`.
pub open spec fn merge_hi(chunks: Seq<Chunk>, i: int) -> int {
    if merges_next(chunks, i) { i + 2 } else { i + 1 }
}

/// The free chunk that chunk `i` and its free neighbours merge into.
pub open spec fn merged_chunk(chunks: Seq<Chunk>, i: int) -> Chunk {
    let lo = merge_lo(chunks, i);
    let hi = merge_hi(chunks, i);
    Chunk {
        addr: chunks[lo].addr,
        size: (chunk_end(chunks[hi - 1]) - chunks[lo].addr) as usize,
        allocated: false,
        payload: 0,
    }
}

/// The chunks after chunk `i` is freed and merged with its free neighbours.
pub open spec fn freed_chunks(chunks: Seq<Chunk>, i: int) -> Seq<Chunk> {
    chunks.subrange(0, merge_lo(chunks, i)) + seq![merged_chunk(chunks, i)] + chunks.subrange(
        merge_hi(chunks, i),
        chunks.len() as int,
    )
}

/// The free list without the entry for address `x`.
pub open spec fn unlink(fl: Seq<usize>, x: usize) -> Seq<usize> {
    fl.remove(choose|j: int| 0 <= j < fl.len() && fl[j] == x)
}

/// The free list after chunk `i` is freed: the neighbours that merge leave
/// it (the one after first), and the merged chunk goes to its head.
pub open spec fn freed_list(chunks: Seq<Chunk>, fl: Seq<usize>, i: int) -> Seq<usize> {
    seq![merged_chunk(chunks, i).addr] + neighbours_unlinked(chunks, fl, i)
}

/// The free list without the free neighbours of chunk `i` that merge with it.
pub open spec fn neighbours_unlinked(chunks: Seq<Chunk>, fl: Seq<usize>, i: int) -> Seq<usize> {
    let fl1 = if merges_next(chunks, i) { unlink(fl, chunks[i + 1].addr) } else { fl };
    if merges_prev(chunks, i) { unlink(fl1, chunks[i - 1].addr) } else { fl1 }
}

/// The allocated bytes of a concatenation are those of its parts.
proof fn lemma_allocated_concat(a: Seq<Chunk>, b: Seq<Chunk>)
    ensures
        allocated_bytes(a + b, (a + b).len() as int) == allocated_bytes(a, a.len() as int) + allocated_bytes(b, b.len() as int),
    decreases b.len(),
{
    if b.len() == 0 {
        assert(a + b =~= a);
    } else {
        let bl = b.drop_last();
        lemma_allocated_concat(a, bl);
        assert((a + b).drop_last() =~= a + bl);
        lemma_allocated_prefix_same(a + b, a + bl, (a + bl).len() as int);
        lemma_allocated_prefix_same(b, bl, bl.len() as int);
        assert((a + b)[(a + b).len() - 1] == b[b.len() - 1]);
    }
}

proof fn lemma_allocated_prefix_same(x: Seq<Chunk>, y: Seq<Chunk>, n: int)
    requires
        0 <= n <= x.len(),
        n <= y.len(),
        forall|i: int| 0 <= i < n ==> x[i] == y[i],
    ensures
        allocated_bytes(x, n) == allocated_bytes(y, n),
    decreases n,
{
    if n > 0 {
        lemma_allocated_prefix_same(x, y, n - 1);
    }
}

/// Entry for address `x` taken out of a free list with it.
proof fn lemma_unlink(chunks: Seq<Chunk>, fl: Seq<usize>, x: usize)
    requires
        fl.no_duplicates(),
        forall|m: int| 0 <= m < fl.len() ==> is_free_at(chunks, #[trigger] fl[m]),
        fl.contains(x),
    ensures
        unlink(fl, x).no_duplicates(),
        forall|m: int| 0 <= m < unlink(fl, x).len() ==> #[trigger] unlink(fl, x)[m] != x,
        forall|m: int| 0 <= m < unlink(fl, x).len() ==> is_free_at(chunks, #[trigger] unlink(fl, x)[m]),
        forall|y: usize| fl.contains(y) && y != x ==> #[trigger] unlink(fl, x).contains(y),
        forall|m: int| 0 <= m < unlink(fl, x).len() ==> fl.contains(#[trigger] unlink(fl, x)[m]),
{
    let j = choose|j: int| 0 <= j < fl.len() && fl[j] == x;
    lemma_list_remove(chunks, fl, j);
    let rl = fl.remove(j);
    fl.remove_ensures(j);
    assert forall|m: int| 0 <= m < rl.len() implies fl.contains(#[trigger] rl[m]) by {
        assert(rl[m] == fl[if m < j { m } else { m + 1 }]);
    }
}

/// The chunks after `[lo, hi)` is replaced by one chunk, position by position.
proof fn lemma_merge_shape(chunks: Seq<Chunk>, lo: int, hi: int, m: Chunk)
    requires
        0 <= lo < hi <= chunks.len(),
    ensures
        (chunks.subrange(0, lo) + seq![m] + chunks.subrange(hi, chunks.len() as int)).len() == chunks.len() - (hi - lo) + 1,
        forall|j: int|
            0 <= j < chunks.len() - (hi - lo) + 1 ==> #[trigger] (chunks.subrange(0, lo) + seq![m] + chunks.subrange(
                hi,
                chunks.len() as int,
            ))[j] == if j < lo {
                chunks[j]
            } else if j == lo {
                m
            } else {
                chunks[j - lo - 1 + hi]
            },
{
    let t = chunks.subrange(0, lo) + seq![m] + chunks.subrange(hi, chunks.len() as int);
    assert forall|j: int| 0 <= j < chunks.len() - (hi - lo) + 1 implies #[trigger] t[j] == if j < lo {
        chunks[j]
    } else if j == lo {
        m
    } else {
        chunks[j - lo - 1 + hi]
    } by {
        if j < lo {
            assert((chunks.subrange(0, lo) + seq![m])[j] == chunks[j]);
        } else if j == lo {
            assert((chunks.subrange(0, lo) + seq![m])[j] == m);
        }
    }
}

/// Facts about the merge around chunk `i`: the range it covers and the
/// merged chunk's place.
#[verifier::spinoff_prover]
proof fn lemma_merge_range(chunks: Seq<Chunk>, start: int, end: int, i: int)
    requires
        tiles(chunks, start, end),
        end <= usize::MAX,
        0 <= i < chunks.len(),
    ensures
        0 <= merge_lo(chunks, i) <= i < merge_hi(chunks, i) <= chunks.len(),
        chunks[merge_lo(chunks, i)].addr <= chunks[i].addr,
        chunk_end(chunks[i]) <= chunk_end(chunks[merge_hi(chunks, i) - 1]),
        merged_chunk(chunks, i).size >= MIN_CHUNK_SIZE,
        merged_chunk(chunks, i).size % 16 == 0,
        merged_chunk(chunks, i).addr % 16 == 0,
        chunk_end(merged_chunk(chunks, i)) == chunk_end(chunks[merge_hi(chunks, i) - 1]),
        merged_chunk(chunks, i).size == chunks[i].size + (if merges_next(chunks, i) { chunks[i + 1].size as int } else { 0 })
            + (if merges_prev(chunks, i) { chunks[i - 1].size as int } else { 0 }),
        chunk_end(chunks[merge_hi(chunks, i) - 1]) <= end,
        start <= chunks[merge_lo(chunks, i)].addr,
{
    let lo = merge_lo(chunks, i);
    let hi = merge_hi(chunks, i);
    let c = chunks[i];
    lemma_tiles_bounds(chunks, start, end, lo);
    lemma_tiles_bounds(chunks, start, end, hi - 1);
    assert(chunks[hi - 1].addr % 16 == 0 && chunks[hi - 1].size % 16 == 0);
    assert(chunks[lo].addr % 16 == 0);
    assert(c.size >= MIN_CHUNK_SIZE);
    let span = chunk_end(chunks[hi - 1]) - chunks[lo].addr;
    if merges_prev(chunks, i) {
        assert(chunks[i].addr == chunk_end(chunks[i - 1]));
        if merges_next(chunks, i) {
            assert(chunks[i + 1].addr == chunk_end(chunks[i]));
            assert(span == chunks[i - 1].size + c.size + chunks[i + 1].size);
        } else {
            assert(span == chunks[i - 1].size + c.size);
        }
    } else {
        if merges_next(chunks, i) {
            assert(chunks[i + 1].addr == chunk_end(chunks[i]));
            assert(span == c.size + chunks[i + 1].size);
        } else {
            assert(span == c.size);
        }
    }
    lemma_mod16_span(chunks[hi - 1].addr as int, chunks[hi - 1].size as int, chunks[lo].addr as int);
    assert(merged_chunk(chunks, i).size == span);
}

proof fn lemma_mod16_span(a: int, s: int, b: int)
    requires
        a % 16 == 0,
        s % 16 == 0,
        b % 16 == 0,
    ensures
        (a + s - b) % 16 == 0,
{
    assert((a + s - b) % 16 == 0) by (nonlinear_arith)
        requires a % 16 == 0, s % 16 == 0, b % 16 == 0;
}

/// Freeing chunk `i` and merging it with its free neighbours keeps the
/// chunks tiled.
#[verifier::spinoff_prover]
proof fn lemma_freed_tiles(start: int, end: int, chunks: Seq<Chunk>, i: int)
    requires
        tiles(chunks, start, end),
        end <= usize::MAX,
        0 <= i < chunks.len(),
    ensures
        tiles(freed_chunks(chunks, i), start, end),
{
    let lo = merge_lo(chunks, i);
    let hi = merge_hi(chunks, i);
    let m = merged_chunk(chunks, i);
    lemma_merge_range(chunks, start, end, i);
    lemma_merge_shape(chunks, lo, hi, m);
    let t = freed_chunks(chunks, i);
    let d = hi - lo - 1;
    assert forall|k: int| 0 < k < t.len() implies (#[trigger] t[k]).addr == chunk_end(t[k - 1]) by {
        if k < lo {
            assert(chunks[k].addr == chunk_end(chunks[k - 1]));
        } else if k == lo {
            assert(chunks[k].addr == chunk_end(chunks[k - 1]));
        } else if k == lo + 1 {
            assert(t[k] == chunks[hi]);
            assert(chunks[hi].addr == chunk_end(chunks[hi - 1]));
        } else {
            assert(t[k] == chunks[k + d] && t[k - 1] == chunks[k - 1 + d]);
            assert(chunks[k + d].addr == chunk_end(chunks[k + d - 1]));
        }
    }
    assert forall|k: int| 0 <= k < t.len() implies (#[trigger] t[k]).size >= MIN_CHUNK_SIZE && t[k].size % 16 == 0 && t[k].addr % 16 == 0 by {
        if k > lo {
            assert(t[k] == chunks[k + d]);
        }
    }
    if hi == chunks.len() {
        assert(t[t.len() - 1] == m);
    } else {
        assert(t[t.len() - 1] == chunks[chunks.len() - 1]);
    }
}

/// Freeing chunk `i` keeps the payloads in place and free chunks apart.
#[verifier::spinoff_prover]
proof fn lemma_freed_shape_ok(start: int, end: int, chunks: Seq<Chunk>, i: int)
    requires
        tiles(chunks, start, end),
        end <= usize::MAX,
        forall|j: int| 0 <= j < chunks.len() ==> payload_ok(#[trigger] chunks[j]),
        coalesced(chunks),
        0 <= i < chunks.len(),
        chunks[i].allocated,
    ensures
        forall|j: int| 0 <= j < freed_chunks(chunks, i).len() ==> payload_ok(#[trigger] freed_chunks(chunks, i)[j]),
        coalesced(freed_chunks(chunks, i)),
{
    let lo = merge_lo(chunks, i);
    let hi = merge_hi(chunks, i);
    let m = merged_chunk(chunks, i);
    lemma_merge_range(chunks, start, end, i);
    lemma_merge_shape(chunks, lo, hi, m);
    let t = freed_chunks(chunks, i);
    let d = hi - lo - 1;
    assert forall|k: int| 0 <= k < t.len() implies payload_ok(#[trigger] t[k]) by {
        if k < lo {
            assert(payload_ok(chunks[k]));
        } else if k > lo {
            assert(payload_ok(chunks[k + d]));
        }
    }
    assert forall|k: int| 0 < k < t.len() implies t[k - 1].allocated || (#[trigger] t[k]).allocated by {
        if k < lo {
            assert(chunks[k - 1].allocated || chunks[k].allocated);
        } else if k == lo {
            if merges_prev(chunks, i) {
                assert(chunks[lo - 1].allocated || chunks[lo].allocated);
            } else {
                assert(chunks[i - 1].allocated || chunks[i].allocated);
            }
        } else if k == lo + 1 {
            assert(t[k] == chunks[hi]);
            if merges_next(chunks, i) {
                assert(chunks[hi - 1].allocated || chunks[hi].allocated);
            } else {
                assert(chunks[i].allocated || chunks[i + 1].allocated);
            }
        } else {
            assert(t[k] == chunks[k + d] && t[k - 1] == chunks[k - 1 + d]);
            assert(chunks[k + d - 1].allocated || chunks[k + d].allocated);
        }
    }
}

/// Freeing chunk `i` takes its bytes off the allocated bytes.
#[verifier::spinoff_prover]
proof fn lemma_freed_used(chunks: Seq<Chunk>, i: int)
    requires
        0 <= i < chunks.len(),
        chunks[i].allocated,
    ensures
        allocated_bytes(freed_chunks(chunks, i), freed_chunks(chunks, i).len() as int) == allocated_bytes(chunks, chunks.len() as int) - chunks[i].size,
{
    let lo = merge_lo(chunks, i);
    let hi = merge_hi(chunks, i);
    let m = merged_chunk(chunks, i);
    let t = freed_chunks(chunks, i);
    let pre = chunks.subrange(0, lo);
    let mid = chunks.subrange(lo, hi);
    let post = chunks.subrange(hi, chunks.len() as int);
    assert(chunks =~= pre + mid + post);
    assert(t =~= pre + seq![m] + post);
    lemma_allocated_concat(pre + mid, post);
    lemma_allocated_concat(pre, mid);
    lemma_allocated_concat(pre + seq![m], post);
    lemma_allocated_concat(pre, seq![m]);
    assert(allocated_bytes(seq![m], 1) == allocated_bytes(seq![m], 0));
    lemma_allocated_mid(chunks, lo, hi, i);
}

/// The allocated bytes of the merged range are those of chunk `i`.
proof fn lemma_allocated_mid(chunks: Seq<Chunk>, lo: int, hi: int, i: int)
    requires
        0 <= i < chunks.len(),
        lo == merge_lo(chunks, i),
        hi == merge_hi(chunks, i),
        chunks[i].allocated,
    ensures
        allocated_bytes(chunks.subrange(lo, hi), hi - lo) == chunks[i].size,
{
    let mid = chunks.subrange(lo, hi);
    assert(allocated_bytes(mid, 0) == 0);
    if merges_prev(chunks, i) {
        assert(mid[0] == chunks[i - 1]);
        assert(mid[1] == chunks[i]);
        assert(allocated_bytes(mid, 1) == 0);
        assert(allocated_bytes(mid, 2) == chunks[i].size);
        if merges_next(chunks, i) {
            assert(mid[2] == chunks[i + 1]);
            assert(allocated_bytes(mid, 3) == chunks[i].size);
        }
    } else {
        assert(mid[0] == chunks[i]);
        assert(allocated_bytes(mid, 1) == chunks[i].size);
        if merges_next(chunks, i) {
            assert(mid[1] == chunks[i + 1]);
            assert(allocated_bytes(mid, 2) == chunks[i].size);
        }
    }
}

/// Unlinking the free neighbours that merge with chunk `i` keeps the other
/// entries of the free list, without duplicates.
#[verifier::spinoff_prover]
#[verifier::rlimit(60)]
proof fn lemma_neighbours_unlinked(start: int, end: int, chunks: Seq<Chunk>, fl: Seq<usize>, i: int)
    requires
        tiles(chunks, start, end),
        end <= usize::MAX,
        free_list_ok(chunks, fl),
        0 <= i < chunks.len(),
        chunks[i].allocated,
    ensures
        ({
            let fl2 = neighbours_unlinked(chunks, fl, i);
            let nf = merges_next(chunks, i);
            let pf = merges_prev(chunks, i);
            &&& fl2.no_duplicates()
            &&& forall|q: int| 0 <= q < fl2.len() ==> is_free_at(chunks, #[trigger] fl2[q])
            &&& forall|q: int| 0 <= q < fl2.len() && nf ==> #[trigger] fl2[q] != chunks[i + 1].addr
            &&& forall|q: int| 0 <= q < fl2.len() && pf ==> #[trigger] fl2[q] != chunks[i - 1].addr
            &&& forall|y: usize|
                fl.contains(y) && (nf ==> y != chunks[i + 1].addr) && (pf ==> y != chunks[i - 1].addr) ==> #[trigger] fl2.contains(y)
        }),
{
    lemma_tiles_unique(chunks, start, end);
    lemma_merge_range(chunks, start, end, i);
    let nf = merges_next(chunks, i);
    let pf = merges_prev(chunks, i);
    let fl1 = if nf { unlink(fl, chunks[i + 1].addr) } else { fl };
    let fl2 = if pf { unlink(fl1, chunks[i - 1].addr) } else { fl1 };
    // What fl1 holds.
    if nf {
        assert(fl.contains(chunks[i + 1].addr));
        lemma_unlink(chunks, fl, chunks[i + 1].addr);
    }
    assert(fl1.no_duplicates());
    assert(forall|q: int| 0 <= q < fl1.len() ==> is_free_at(chunks, #[trigger] fl1[q]));
    assert(forall|q: int| 0 <= q < fl1.len() ==> fl.contains(#[trigger] fl1[q]));
    assert(forall|q: int| 0 <= q < fl1.len() && nf ==> #[trigger] fl1[q] != chunks[i + 1].addr);
    assert(forall|y: usize| fl.contains(y) && (nf ==> y != chunks[i + 1].addr) ==> #[trigger] fl1.contains(y));
    // What fl2 holds.
    if pf {
        assert(fl.contains(chunks[i - 1].addr));
        if nf {
            assert(chunks[i - 1].addr != chunks[i + 1].addr);
        }
        assert(fl1.contains(chunks[i - 1].addr));
        lemma_unlink(chunks, fl1, chunks[i - 1].addr);
    }
    assert(fl2.no_duplicates());
    assert(forall|q: int| 0 <= q < fl2.len() ==> is_free_at(chunks, #[trigger] fl2[q]));
    assert(forall|q: int| 0 <= q < fl2.len() ==> fl.contains(#[trigger] fl2[q]));
    assert(forall|q: int| 0 <= q < fl2.len() && nf ==> #[trigger] fl2[q] != chunks[i + 1].addr);
    assert(forall|q: int| 0 <= q < fl2.len() && pf ==> #[trigger] fl2[q] != chunks[i - 1].addr);
    assert(forall|y: usize|
        fl.contains(y) && (nf ==> y != chunks[i + 1].addr) && (pf ==> y != chunks[i - 1].addr) ==> #[trigger] fl2.contains(y));
}

/// The entries of the free list that stay after freeing chunk `i` name free
/// chunks outside the merged one.
#[verifier::spinoff_prover]
#[verifier::rlimit(60)]
proof fn lemma_unlinked_stay_free(start: int, end: int, chunks: Seq<Chunk>, fl: Seq<usize>, i: int)
    requires
        tiles(chunks, start, end),
        end <= usize::MAX,
        free_list_ok(chunks, fl),
        0 <= i < chunks.len(),
        chunks[i].allocated,
    ensures
        forall|q: int|
            0 <= q < neighbours_unlinked(chunks, fl, i).len() ==> is_free_at(
                freed_chunks(chunks, i),
                #[trigger] neighbours_unlinked(chunks, fl, i)[q],
            ) && neighbours_unlinked(chunks, fl, i)[q] != merged_chunk(chunks, i).addr,
{
    lemma_tiles_unique(chunks, start, end);
    let lo = merge_lo(chunks, i);
    let hi = merge_hi(chunks, i);
    let m = merged_chunk(chunks, i);
    let d = hi - lo - 1;
    lemma_merge_range(chunks, start, end, i);
    lemma_merge_shape(chunks, lo, hi, m);
    let t = freed_chunks(chunks, i);
    let nf = merges_next(chunks, i);
    let pf = merges_prev(chunks, i);
    let fl2 = neighbours_unlinked(chunks, fl, i);
    lemma_neighbours_unlinked(start, end, chunks, fl, i);
    assert forall|q: int| 0 <= q < fl2.len() implies is_free_at(t, #[trigger] fl2[q]) && fl2[q] != m.addr by {
        let e = fl2[q];
        assert(is_free_at(chunks, e));
        let j = choose|j: int| 0 <= j < chunks.len() && (#[trigger] chunks[j]).addr == e && !chunks[j].allocated;
        assert(j != i);
        if nf {
            assert(j != i + 1);
        }
        if pf {
            assert(j != i - 1);
        }
        assert(j < lo || j >= hi);
        if j < lo {
            assert(t[j] == chunks[j]);
            assert(chunks[j].addr != chunks[lo].addr);
        } else {
            assert(t[j - d] == chunks[j]);
            assert(chunks[j].addr != chunks[lo].addr);
        }
    }
}

/// After freeing chunk `i`, every free chunk is on the new free list.
#[verifier::spinoff_prover]
#[verifier::rlimit(60)]
proof fn lemma_free_chunks_listed(start: int, end: int, chunks: Seq<Chunk>, fl: Seq<usize>, i: int)
    requires
        tiles(chunks, start, end),
        end <= usize::MAX,
        free_list_ok(chunks, fl),
        0 <= i < chunks.len(),
        chunks[i].allocated,
    ensures
        forall|k: int|
            0 <= k < freed_chunks(chunks, i).len() && !(#[trigger] freed_chunks(chunks, i)[k]).allocated
                ==> freed_list(chunks, fl, i).contains(freed_chunks(chunks, i)[k].addr),
{
    lemma_tiles_unique(chunks, start, end);
    let lo = merge_lo(chunks, i);
    let hi = merge_hi(chunks, i);
    let m = merged_chunk(chunks, i);
    let d = hi - lo - 1;
    lemma_merge_range(chunks, start, end, i);
    lemma_merge_shape(chunks, lo, hi, m);
    let t = freed_chunks(chunks, i);
    let nf = merges_next(chunks, i);
    let pf = merges_prev(chunks, i);
    let fl2 = neighbours_unlinked(chunks, fl, i);
    lemma_neighbours_unlinked(start, end, chunks, fl, i);
    let nl = freed_list(chunks, fl, i);
    assert(nl == seq![m.addr] + fl2);
    assert forall|k: int| 0 <= k < t.len() && !(#[trigger] t[k]).allocated implies nl.contains(t[k].addr) by {
        if k == lo {
            assert(nl[0] == m.addr);
        } else {
            let j = if k < lo { k } else { k + d };
            assert(t[k] == chunks[j]);
            assert(fl.contains(chunks[j].addr));
            if nf {
                assert(j != i + 1);
                assert(chunks[j].addr != chunks[i + 1].addr);
            }
            if pf {
                assert(j != i - 1);
                assert(chunks[j].addr != chunks[i - 1].addr);
            }
            assert(fl2.contains(chunks[j].addr));
            let q = choose|q: int| 0 <= q < fl2.len() && fl2[q] == chunks[j].addr;
            assert(nl[q + 1] == fl2[q]);
        }
    }
}

/// Freeing chunk `i` keeps the free list naming exactly the free chunks.
#[verifier::spinoff_prover]
proof fn lemma_freed_list_ok(start: int, end: int, chunks: Seq<Chunk>, fl: Seq<usize>, i: int)
    requires
        tiles(chunks, start, end),
        end <= usize::MAX,
        free_list_ok(chunks, fl),
        0 <= i < chunks.len(),
        chunks[i].allocated,
    ensures
        free_list_ok(freed_chunks(chunks, i), freed_list(chunks, fl, i)),
{
    let lo = merge_lo(chunks, i);
    let m = merged_chunk(chunks, i);
    lemma_merge_range(chunks, start, end, i);
    lemma_merge_shape(chunks, lo, merge_hi(chunks, i), m);
    let t = freed_chunks(chunks, i);
    let fl2 = neighbours_unlinked(chunks, fl, i);
    lemma_neighbours_unlinked(start, end, chunks, fl, i);
    lemma_unlinked_stay_free(start, end, chunks, fl, i);
    lemma_free_chunks_listed(start, end, chunks, fl, i);
    let nl = freed_list(chunks, fl, i);
    assert(nl == seq![m.addr] + fl2);
    assert forall|x: int, y: int| 0 <= x < nl.len() && 0 <= y < nl.len() && x != y implies nl[x] != nl[y] by {
        if x > 0 && y > 0 {
            assert(nl[x] == fl2[x - 1] && nl[y] == fl2[y - 1]);
        } else if x == 0 {
            assert(nl[y] == fl2[y - 1]);
        } else {
            assert(nl[x] == fl2[x - 1]);
        }
    }
    assert forall|q: int| 0 <= q < nl.len() implies is_free_at(t, #[trigger] nl[q]) by {
        if q == 0 {
            assert(t[lo] == m);
        } else {
            assert(nl[q] == fl2[q - 1]);
        }
    }
}

/// Freeing chunk `i` keeps the region sound and takes its bytes off the
/// used bytes.
proof fn lemma_freed_wf(base: int, total: int, chunks: Seq<Chunk>, fl: Seq<usize>, used: int, i: int)
    requires
        region_wf(base, total, chunks, fl, used),
        0 <= i < chunks.len(),
        chunks[i].allocated,
    ensures
        used >= chunks[i].size,
        region_wf(base, total, freed_chunks(chunks, i), freed_list(chunks, fl, i), used - chunks[i].size),
        merge_lo(chunks, i) < freed_chunks(chunks, i).len(),
        freed_chunks(chunks, i)[merge_lo(chunks, i)] == merged_chunk(chunks, i),
        chunk_end(merged_chunk(chunks, i)) <= usize::MAX,
{
    lemma_region_wf_facts(base, total, chunks, fl, used);
    let start = spec_usable_start(base);
    let end = spec_region_end(base, total);
    lemma_allocated_at_least(chunks, i, chunks.len() as int);
    lemma_freed_tiles(start, end, chunks, i);
    lemma_freed_shape_ok(start, end, chunks, i);
    lemma_freed_used(chunks, i);
    lemma_freed_list_ok(start, end, chunks, fl, i);
    lemma_merge_range(chunks, start, end, i);
    lemma_merge_shape(chunks, merge_lo(chunks, i), merge_hi(chunks, i), merged_chunk(chunks, i));
    reveal(region_wf);
}

/// Takes the entry for address `x` out of the free list.
fn unlink_free_chunk(free_list: &mut Vec<usize>, x: usize, Ghost(chunks): Ghost<Seq<Chunk>>)
    requires
        old(free_list)@.no_duplicates(),
        forall|m: int| 0 <= m < old(free_list)@.len() ==> is_free_at(chunks, #[trigger] old(free_list)@[m]),
        old(free_list)@.contains(x),
    ensures
        final(free_list)@ == unlink(old(free_list)@, x),
{
    let ghost fl = free_list@;
    let ghost w = choose|j: int| 0 <= j < fl.len() && fl[j] == x;
    let mut j: usize = 0;
    while j < free_list.len() && free_list[j] != x
        invariant
            free_list@ == fl,
            0 <= w < fl.len(),
            fl[w] == x,
            j <= w,
            forall|q: int| 0 <= q < j ==> fl[q] != x,
        decreases fl.len() - j,
    {
        j = j + 1;
    }
    assert(j == w) by {
        if j < w {
            assert(fl[j as int] == x && fl[w] == x);
        }
    }
    free_list.remove(j);
}

/// The chunks after freeing chunk `i`, as the steps that make them: the
/// free chunk after it leaves, then the chunk itself when it joins the free
/// chunk before it, and the first of the merged chunks becomes the merged
/// free chunk.
proof fn lemma_freed_steps(chunks: Seq<Chunk>, i: int)
    requires
        0 <= i < chunks.len(),
    ensures
        ({
            let c1 = if merges_next(chunks, i) { chunks.remove(i + 1) } else { chunks };
            let c2 = if merges_prev(chunks, i) { c1.remove(i) } else { c1 };
            c2.update(merge_lo(chunks, i), merged_chunk(chunks, i)) == freed_chunks(chunks, i)
        }),
{
    let lo = merge_lo(chunks, i);
    let hi = merge_hi(chunks, i);
    let m = merged_chunk(chunks, i);
    let c1 = if merges_next(chunks, i) { chunks.remove(i + 1) } else { chunks };
    let c2 = if merges_prev(chunks, i) { c1.remove(i) } else { c1 };
    let r = c2.update(lo, m);
    lemma_merge_shape(chunks, lo, hi, m);
    let t = freed_chunks(chunks, i);
    if merges_next(chunks, i) {
        chunks.remove_ensures(i + 1);
    }
    if merges_prev(chunks, i) {
        c1.remove_ensures(i);
    }
    assert(r.len() == t.len());
    assert forall|k: int| 0 <= k < t.len() implies r[k] == t[k] by {
        if k < lo {
            assert(c2[k] == chunks[k]);
        } else if k > lo {
            assert(c2[k] == chunks[k + (hi - lo - 1)]);
        }
    }
    assert(r =~= t);
}

impl Region {
    /// The index of the allocated chunk that handed out `ptr`; there must be one.
    fn find_allocation(&self, ptr: usize) -> (i: usize)
        requires
            self.wf(),
            is_live(self.chunks(), ptr),
        ensures
            i == allocation_index(self.chunks(), ptr),
            i < self.chunks().len(),
            self.chunks()[i as int].allocated,
    {
        let ghost chunks0 = self.chunks@;
        let ghost start = spec_usable_start(self.base as int);
        let ghost end = spec_region_end(self.base as int, self.total_size as int);
        let ghost w = allocation_index(chunks0, ptr);
        proof {
            lemma_region_wf_facts(self.base as int, self.total_size as int, chunks0, self.free_list@, self.used_bytes as int);
            assert forall|j: int| 0 <= j < chunks0.len() && (#[trigger] chunks0[j]).allocated && chunks0[j].payload == ptr implies j == w by {
                assert(payload_ok(chunks0[j]) && payload_ok(chunks0[w]));
                if j < w {
                    lemma_tiles_ordered(chunks0, start, end, j, w);
                } else if w < j {
                    lemma_tiles_ordered(chunks0, start, end, w, j);
                }
            }
        }
        let mut i: usize = 0;
        while i < self.chunks.len() && !(self.chunks[i].allocated && self.chunks[i].payload == ptr)
            invariant
                self.chunks@ == chunks0,
                0 <= w < chunks0.len(),
                chunks0[w].allocated && chunks0[w].payload == ptr,
                i <= w,
            decreases chunks0.len() - i,
        {
            i = i + 1;
        }
        i
    }
}

/// Gives back the allocation at `ptr`: its chunk becomes free, merges with
/// the free chunks next to it, and goes to the head of the free list.
pub fn region_dealloc(region: &mut Region, ptr: usize)
    requires
        old(region).wf(),
        is_live(old(region).chunks(), ptr),
    ensures
        final(region).wf(),
        final(region).spec_base() == old(region).spec_base(),
        final(region).spec_total_size() == old(region).spec_total_size(),
        final(region).spec_block_count() == old(region).spec_block_count(),
        ({
            let i = allocation_index(old(region).chunks(), ptr);
            &&& final(region).chunks() == freed_chunks(old(region).chunks(), i)
            &&& final(region).free_list() == freed_list(old(region).chunks(), old(region).free_list(), i)
            &&& final(region).spec_used_bytes() == old(region).spec_used_bytes() - old(region).chunks()[i].size
        }),
{
    let i = region.find_allocation(ptr);
    let ghost chunks0 = region.chunks@;
    let ghost fl0 = region.free_list@;
    let ghost ii = i as int;
    proof {
        lemma_freed_wf(region.base as int, region.total_size as int, chunks0, fl0, region.used_bytes as int, ii);
        lemma_chunk_neighbours(region.base as int, region.total_size as int, chunks0, fl0, region.used_bytes as int, ii);
        lemma_freed_steps(chunks0, ii);
    }
    let c = region.chunks[i];
    region.used_bytes = region.used_bytes - c.size;
    let mut size = c.size;
    let mut lo = i;
    if i < region.chunks.len() - 1 && !region.chunks[i + 1].allocated {
        let next = region.chunks[i + 1];
        unlink_free_chunk(&mut region.free_list, next.addr, Ghost(chunks0));
        size = size + next.size;
        region.chunks.remove(i + 1);
    }
    if i > 0 && !region.chunks[i - 1].allocated {
        let prev = region.chunks[i - 1];
        unlink_free_chunk(&mut region.free_list, prev.addr, Ghost(chunks0));
        size = size + prev.size;
        region.chunks.remove(i);
        lo = i - 1;
    }
    let addr = region.chunks[lo].addr;
    region.chunks.set(lo, Chunk { addr, size, allocated: false, payload: 0 });
    region.free_list.insert(0, addr);
    assert(region.free_list@ =~= freed_list(chunks0, fl0, ii));
}

/// The neighbours of chunk `i` of a sound region, as the freeing of chunk
/// `i` needs them: the free ones are on the free list, once, and the sizes
/// that merge add up without overflow.
proof fn lemma_chunk_neighbours(base: int, total: int, chunks: Seq<Chunk>, fl: Seq<usize>, used: int, i: int)
    requires
        region_wf(base, total, chunks, fl, used),
        0 <= i < chunks.len(),
        chunks[i].allocated,
    ensures
        fl.no_duplicates(),
        forall|m: int| 0 <= m < fl.len() ==> is_free_at(chunks, #[trigger] fl[m]),
        merges_next(chunks, i) ==> fl.contains(chunks[i + 1].addr),
        merges_prev(chunks, i) ==> fl.contains(chunks[i - 1].addr),
        merges_prev(chunks, i) && merges_next(chunks, i) ==> chunks[i - 1].addr != chunks[i + 1].addr,
        merges_next(chunks, i) ==> unlink(fl, chunks[i + 1].addr).no_duplicates()
            && (forall|m: int| 0 <= m < unlink(fl, chunks[i + 1].addr).len() ==> is_free_at(chunks, #[trigger] unlink(fl, chunks[i + 1].addr)[m]))
            && (merges_prev(chunks, i) ==> unlink(fl, chunks[i + 1].addr).contains(chunks[i - 1].addr)),
        chunks[i].size + (if merges_next(chunks, i) { chunks[i + 1].size as int } else { 0 }) + (if merges_prev(chunks, i) { chunks[i - 1].size as int } else { 0 }) <= usize::MAX,
        merged_chunk(chunks, i).size == chunks[i].size + (if merges_next(chunks, i) { chunks[i + 1].size as int } else { 0 }) + (if merges_prev(chunks, i) { chunks[i - 1].size as int } else { 0 }),
        merged_chunk(chunks, i).addr == chunks[merge_lo(chunks, i)].addr,
{
    lemma_region_wf_facts(base, total, chunks, fl, used);
    let start = spec_usable_start(base);
    let end = spec_region_end(base, total);
    lemma_tiles_unique(chunks, start, end);
    lemma_merge_range(chunks, start, end, i);
    if merges_next(chunks, i) {
        lemma_unlink(chunks, fl, chunks[i + 1].addr);
    }
}

impl Region {
    /// Bytes of the allocated chunks.
    pub fn used_bytes(&self) -> (used: usize)
        ensures
            used == self.spec_used_bytes(),
    {
        self.used_bytes
    }

    /// Bytes of the region, its header included.
    pub fn total_size(&self) -> (total: usize)
        ensures
            total == self.spec_total_size(),
    {
        self.total_size
    }

    /// Blocks of the region.
    pub fn block_count(&self) -> (count: usize)
        ensures
            count == self.spec_block_count(),
    {
        self.block_count
    }

    /// Address of the region.
    pub fn base(&self) -> (base: usize)
        ensures
            base == self.spec_base(),
    {
        self.base
    }

    /// The chunk at the head of the free list, if any.
    pub fn free_list_head(&self) -> (head: Option<usize>)
        ensures
            head == if self.free_list().len() > 0 { Some(self.free_list()[0]) } else { None::<usize> },
    {
        if self.free_list.len() > 0 {
            Some(self.free_list[0])
        } else {
            None
        }
    }

    /// Number of entries on the free list.
    pub fn free_list_len(&self) -> (n: usize)
        ensures
            n == self.free_list().len(),
    {
        self.free_list.len()
    }

    /// The header word of the chunk at `addr`: its size, with the lowest bit
    /// set while it is allocated; `None` when no chunk starts there.
    pub fn header_at(&self, addr: usize) -> (header: Option<ChunkHeader>)
        requires
            self.wf(),
        ensures
            match header {
                Some(h) => exists|i: int|
                    0 <= i < self.chunks().len() && (#[trigger] self.chunks()[i]).addr == addr
                        && h.size_and_flags == self.chunks()[i].size + if self.chunks()[i].allocated { 1int } else { 0int },
                None => forall|i: int| 0 <= i < self.chunks().len() ==> (#[trigger] self.chunks()[i]).addr != addr,
            },
    {
        proof {
            lemma_region_wf_facts(self.base as int, self.total_size as int, self.chunks@, self.free_list@, self.used_bytes as int);
            assert(forall|j: int| 0 <= j < self.chunks@.len() ==> (#[trigger] self.chunks@[j]).size % 16 == 0);
        }
        let mut i: usize = 0;
        while i < self.chunks.len()
            invariant
                forall|j: int| 0 <= j < self.chunks@.len() ==> (#[trigger] self.chunks@[j]).size % 16 == 0,
                i <= self.chunks@.len(),
                forall|j: int| 0 <= j < i ==> (#[trigger] self.chunks@[j]).addr != addr,
            decreases self.chunks@.len() - i,
        {
            let c = self.chunks[i];
            if c.addr == addr {
                assert(c.size % 16 == 0);
                let flag: usize = if c.allocated { 1 } else { 0 };
                assert(self.chunks()[i as int] == c);
                return Some(ChunkHeader { size_and_flags: c.size + flag });
            }
            i = i + 1;
        }
        None
    }

    /// The footer word at `addr`, the last word of the chunk that ends just
    /// after it: that chunk's size, without the allocated flag; `None` when
    /// no chunk's last word is at `addr`.
    pub fn footer_at(&self, addr: usize) -> (footer: Option<usize>)
        requires
            self.wf(),
        ensures
            match footer {
                Some(size) => exists|i: int|
                    0 <= i < self.chunks().len() && chunk_end(#[trigger] self.chunks()[i]) - WORD_SIZE == addr
                        && size == self.chunks()[i].size,
                None => forall|i: int| 0 <= i < self.chunks().len() ==> chunk_end(#[trigger] self.chunks()[i]) - WORD_SIZE != addr,
            },
    {
        let ghost start = spec_usable_start(self.base as int);
        let ghost end = spec_region_end(self.base as int, self.total_size as int);
        proof {
            lemma_region_wf_facts(self.base as int, self.total_size as int, self.chunks@, self.free_list@, self.used_bytes as int);
        }
        let mut i: usize = 0;
        while i < self.chunks.len()
            invariant
                tiles(self.chunks@, start, end),
                end <= usize::MAX,
                i <= self.chunks@.len(),
                forall|j: int| 0 <= j < i ==> chunk_end(#[trigger] self.chunks@[j]) - WORD_SIZE != addr,
            decreases self.chunks@.len() - i,
        {
            let c = self.chunks[i];
            proof {
                lemma_tiles_bounds(self.chunks@, start, end, i as int);
            }
            if c.addr + c.size - WORD_SIZE == addr {
                assert(self.chunks()[i as int] == c);
                return Some(c.size);
            }
            i = i + 1;
        }
        None
    }
}

/// An allocator that takes regions of blocks from a provider and serves
/// allocations from them, newest region first.
pub struct TieredAllocator<P: BlockProvider> {
    provider: P,
    regions: Vec<Region>,
}

/// Whether region `k` is the first of `regions` whose free list can serve
/// the allocation.
pub open spec fn is_first_serving_region(regions: Seq<RegionState>, size: int, align: int, k: int) -> bool {
    &&& 0 <= k < regions.len()
    &&& !no_free_fits(regions[k].chunks, regions[k].free_list, size, align)
    &&& forall|j: int| 0 <= j < k ==> no_free_fits((#[trigger] regions[j]).chunks, regions[j].free_list, size, align)
}

/// Whether no region can serve the allocation.
pub open spec fn no_region_serves(regions: Seq<RegionState>, size: int, align: int) -> bool {
    forall|j: int| 0 <= j < regions.len() ==> no_free_fits((#[trigger] regions[j]).chunks, regions[j].free_list, size, align)
}

/// Whether region `k` is the first that holds `ptr`.
pub open spec fn is_first_holding_region(regions: Seq<RegionState>, ptr: int, k: int) -> bool {
    &&& 0 <= k < regions.len()
    &&& regions[k].base <= ptr < regions[k].base + regions[k].total_size
    &&& forall|j: int| 0 <= j < k ==> !((#[trigger] regions[j]).base <= ptr < regions[j].base + regions[j].total_size)
}

/// Whether `r` is `old` with the allocation carved out of the chunk of free
/// entry `k`.
pub open spec fn carved_region(old: RegionState, r: RegionState, k: int, size: int, align: int) -> bool {
    let i = index_at(old.chunks, old.free_list[k]);
    &&& r.base == old.base
    &&& r.total_size == old.total_size
    &&& r.block_count == old.block_count
    &&& r.chunks == carve_chunks(old.chunks, i, size, align)
    &&& r.free_list == carve_list(old.chunks, old.free_list, k, size, align)
    &&& r.used_bytes == old.used_bytes + r.chunks[i].size
}

/// The state of a region fresh from `init_region`.
pub open spec fn fresh_region(base: int, total_size: int, block_count: usize) -> RegionState {
    let usable = spec_usable_start(base);
    RegionState {
        base: base as usize,
        total_size: total_size as usize,
        block_count,
        used_bytes: 0,
        chunks: seq![Chunk { addr: usable as usize, size: (spec_region_end(base, total_size) - usable) as usize, allocated: false, payload: 0 }],
        free_list: seq![usable as usize],
    }
}

/// Bytes of the region header and the smallest chunk that a new region
/// needs besides the allocation's own chunk.
pub const REGION_OVERHEAD: usize = 80;

/// Whether a new region for `size` bytes aligned to `align` can be asked
/// for in blocks of `block_size` bytes without overflow.
pub open spec fn request_fits(size: int, align: int, block_size: int) -> bool {
    &&& block_size > 0
    &&& REGION_OVERHEAD + spec_required_chunk_size(size + align) + block_size - 1 <= usize::MAX
}

/// How many blocks of `block_size` bytes a new region for `size` bytes
/// aligned to `align` asks for: enough for the region overhead and the
/// allocation's chunk.
pub open spec fn spec_min_blocks(size: int, align: int, block_size: int) -> int {
    (REGION_OVERHEAD + spec_required_chunk_size(size + align) + block_size - 1) / block_size
}

/// Whether `count` blocks of `block_size` bytes at `base` can hold a region
/// that serves alignments up to `align`.
pub open spec fn blocks_fit(base: int, count: int, block_size: int, align: int) -> bool {
    let total = count * block_size;
    &&& total <= usize::MAX
    &&& base <= usize::MAX - 128
    &&& base + total + align <= usize::MAX
    &&& region_fits(base, total)
}

/// Whether `regions` are `old_regions` with a region made of `count` blocks
/// of `block_size` bytes at `base` put in front, the allocation served from
/// it when its chunk can, and `ptr` the address handed out (0 when none);
/// or, when the blocks cannot hold a region, `regions` are unchanged and
/// `ptr` is 0.
pub open spec fn placed(
    old_regions: Seq<RegionState>,
    regions: Seq<RegionState>,
    ptr: usize,
    base: usize,
    count: usize,
    block_size: usize,
    size: int,
    align: int,
) -> bool {
    if !blocks_fit(base as int, count as int, block_size as int, align) {
        ptr == 0 && regions == old_regions
    } else {
        let init = fresh_region(base as int, count * block_size, count);
        let r = regions[0];
        &&& regions.len() == old_regions.len() + 1
        &&& regions.skip(1) == old_regions
        &&& chunk_fits(init.chunks[0], size, align) ==> {
            &&& ptr == aligned_payload(init.chunks[0], align)
            &&& carved_region(init, r, 0, size, align)
        }
        &&& !chunk_fits(init.chunks[0], size, align) ==> ptr == 0 && r == init
    }
}

/// Whether `regions` and `ptr` are what growing `old_regions` for `size`
/// bytes aligned to `align` can give with `provider`: nothing when the
/// request cannot be asked for; else `provider` is asked for exactly
/// `spec_min_blocks` blocks, nothing changes when it has none, and its
/// blocks are placed in front when it has.
pub open spec fn grown<P: BlockProvider>(
    provider: P,
    old_regions: Seq<RegionState>,
    regions: Seq<RegionState>,
    ptr: usize,
    size: int,
    align: int,
) -> bool {
    let bs = provider.spec_block_size();
    if !request_fits(size, align, bs as int) {
        ptr == 0 && regions == old_regions
    } else {
        exists|blocks: Option<(usize, usize)>|
            #[trigger] provider.grants(spec_min_blocks(size, align, bs as int) as usize, blocks) && match blocks {
                None => ptr == 0 && regions == old_regions,
                Some((base, count)) => placed(old_regions, regions, ptr, base, count, bs, size, align),
            }
    }
}

impl<P: BlockProvider> TieredAllocator<P> {
    /// The regions, newest first.
    pub closed spec fn regions(&self) -> Seq<RegionState> {
        Seq::new(self.regions@.len(), |i: int| self.regions@[i]@)
    }

    /// Every region is sound.
    pub closed spec fn wf(&self) -> bool {
        forall|k: int| 0 <= k < self.regions@.len() ==> (#[trigger] self.regions@[k]).wf()
    }

    /// Whether an alignment of `align` taken at any address of the regions
    /// stays within the address space.
    pub open spec fn align_fits(&self, align: int) -> bool {
        forall|k: int| 0 <= k < self.regions().len() ==> (#[trigger] self.regions()[k]).base + self.regions()[k].total_size + align <= usize::MAX
    }

    /// The block provider.
    pub closed spec fn spec_provider(&self) -> P {
        self.provider
    }

    /// An allocator with no region yet.
    pub fn new(provider: P) -> (allocator: Self)
        ensures
            allocator.wf(),
            allocator.regions().len() == 0,
            allocator.spec_provider() == provider,
    {
        TieredAllocator { provider, regions: Vec::new() }
    }

    /// The block provider.
    pub fn provider(&self) -> (provider: &P)
        ensures
            *provider == self.spec_provider(),
    {
        &self.provider
    }

    /// Number of regions.
    pub fn region_count(&self) -> (n: usize)
        ensures
            n == self.regions().len(),
    {
        self.regions.len()
    }

    /// Region `k`, newest first.
    pub fn region(&self, k: usize) -> (region: &Region)
        requires
            self.wf(),
            k < self.regions().len(),
        ensures
            region@ == self.regions()[k as int],
            region.wf(),
    {
        &self.regions[k]
    }

    /// Serves `size` bytes aligned to `align` from the first region that can,
    /// newest first; else takes enough blocks from the provider for a new
    /// region in front and serves the allocation from it. Returns 0 when
    /// there is no memory for it, or when the provider's block size is 0 or
    /// its blocks cannot hold a region.
    pub fn allocate(&mut self, size: usize, align: usize) -> (ptr: usize)
        requires
            old(self).wf(),
            align > 0,
            size + align + 64 <= usize::MAX,
            old(self).align_fits(align as int),
        ensures
            final(self).wf(),
            final(self).align_fits(align as int),
            final(self).spec_provider() == old(self).spec_provider(),
            no_region_serves(old(self).regions(), size as int, align as int) ==> grown(
                old(self).spec_provider(),
                old(self).regions(),
                final(self).regions(),
                ptr,
                size as int,
                align as int,
            ),
            forall|k: int|
                #[trigger] is_first_serving_region(old(self).regions(), size as int, align as int, k) ==> {
                    &&& final(self).regions().len() == old(self).regions().len()
                    &&& forall|j: int| 0 <= j < old(self).regions().len() && j != k ==> #[trigger] final(self).regions()[j] == old(self).regions()[j]
                    &&& forall|q: int|
                        #[trigger] is_first_fit_free(old(self).regions()[k].chunks, old(self).regions()[k].free_list, size as int, align as int, q) ==> {
                            &&& ptr == aligned_payload(old(self).regions()[k].chunks[index_at(old(self).regions()[k].chunks, old(self).regions()[k].free_list[q])], align as int)
                            &&& carved_region(old(self).regions()[k], final(self).regions()[k], q, size as int, align as int)
                        }
                },
            no_region_serves(old(self).regions(), size as int, align as int) ==> {
                ||| ptr == 0 && final(self).regions() == old(self).regions()
                ||| {
                    let r = final(self).regions()[0];
                    let init = fresh_region(r.base as int, r.total_size as int, r.block_count);
                    &&& final(self).regions().len() == old(self).regions().len() + 1
                    &&& final(self).regions().skip(1) == old(self).regions()
                    &&& region_fits(r.base as int, r.total_size as int)
                    &&& chunk_fits(init.chunks[0], size as int, align as int) ==> {
                        &&& ptr == aligned_payload(init.chunks[0], align as int)
                        &&& carved_region(init, r, 0, size as int, align as int)
                    }
                    &&& !chunk_fits(init.chunks[0], size as int, align as int) ==> ptr == 0 && r == init
                }
            },
    {
        let ghost regions0 = self.regions();
        let mut k: usize = 0;
        while k < self.regions.len()
            invariant
                self.wf(),
                self.regions() == regions0,
                regions0 == old(self).regions(),
                self.spec_provider() == old(self).spec_provider(),
                align > 0,
                size + align + 64 <= usize::MAX,
                self.align_fits(align as int),
                k <= regions0.len(),
                forall|j: int| 0 <= j < k ==> no_free_fits((#[trigger] regions0[j]).chunks, regions0[j].free_list, size as int, align as int),
            decreases regions0.len() - k,
        {
            let mut region = self.regions.remove(k);
            proof {
                assert(region@ == regions0[k as int]);
                region.lemma_view();
            }
            let ptr = region_alloc(&mut region, size, align);
            self.regions.insert(k, region);
            proof {
                region.lemma_view();
                assert(self.regions() =~= regions0.update(k as int, region@));
            }
            if ptr != 0 {
                proof {
                    let kk = k as int;
                    assert(is_first_serving_region(regions0, size as int, align as int, kk));
                    assert forall|q: int| #[trigger] is_first_serving_region(regions0, size as int, align as int, q) implies q == kk by {
                        if q < kk {
                            assert(no_free_fits(regions0[q].chunks, regions0[q].free_list, size as int, align as int));
                        } else if q > kk {
                            assert(no_free_fits(regions0[kk].chunks, regions0[kk].free_list, size as int, align as int));
                        }
                    }
                    assert(!no_region_serves(regions0, size as int, align as int));
                }
                return ptr;
            }
            assert(self.regions() =~= regions0);
            k = k + 1;
        }
        proof {
            assert(no_region_serves(regions0, size as int, align as int));
        }
        self.new_region_for(size, align)
    }

    /// Takes blocks for a new region in front and serves the allocation
    /// from it.
    fn new_region_for(&mut self, size: usize, align: usize) -> (ptr: usize)
        requires
            old(self).wf(),
            align > 0,
            size + align + 64 <= usize::MAX,
            old(self).align_fits(align as int),
        ensures
            final(self).wf(),
            final(self).align_fits(align as int),
            final(self).spec_provider() == old(self).spec_provider(),
            grown(old(self).spec_provider(), old(self).regions(), final(self).regions(), ptr, size as int, align as int),
            ({
                ||| ptr == 0 && final(self).regions() == old(self).regions()
                ||| {
                    let r = final(self).regions()[0];
                    let init = fresh_region(r.base as int, r.total_size as int, r.block_count);
                    &&& final(self).regions().len() == old(self).regions().len() + 1
                    &&& final(self).regions().skip(1) == old(self).regions()
                    &&& region_fits(r.base as int, r.total_size as int)
                    &&& chunk_fits(init.chunks[0], size as int, align as int) ==> {
                        &&& ptr == aligned_payload(init.chunks[0], align as int)
                        &&& carved_region(init, r, 0, size as int, align as int)
                    }
                    &&& !chunk_fits(init.chunks[0], size as int, align as int) ==> ptr == 0 && r == init
                }
            }),
    {
        let block_size = self.provider.block_size();
        if block_size == 0 {
            return 0;
        }
        let chunk = required_chunk_size(size + align);
        if chunk > usize::MAX - REGION_OVERHEAD || chunk + REGION_OVERHEAD > usize::MAX - (block_size - 1) {
            return 0;
        }
        let total_needed = REGION_OVERHEAD + chunk;
        let min_blocks = (total_needed + (block_size - 1)) / block_size;
        let blocks = self.provider.allocate_blocks(min_blocks);
        let ghost regions0 = self.regions();
        let ptr = match blocks {
            Some((base, count)) => self.place_region(base, count, block_size, size, align),
            None => 0,
        };
        proof {
            let p = old(self).spec_provider();
            assert(min_blocks == spec_min_blocks(size as int, align as int, block_size as int) as usize);
            assert(p.grants(spec_min_blocks(size as int, align as int, block_size as int) as usize, blocks));
            if let Some((base, count)) = blocks {
                if blocks_fit(base as int, count as int, block_size as int, align as int) {
                    let r = self.regions()[0];
                    let init = fresh_region(base as int, count * block_size, count);
                    assert(self.regions()[0] == self.regions()[0]);
                    if chunk_fits(init.chunks[0], size as int, align as int) {
                        assert(r.base == base && r.total_size == count * block_size && r.block_count == count);
                    } else {
                        assert(r == init);
                    }
                }
            }
        }
        ptr
    }

    /// Puts a region made of the `count` blocks of `block_size` bytes at
    /// `base` in front and serves `size` bytes aligned to `align` from it.
    /// Returns 0, and adds no region, when the blocks cannot hold a region:
    /// their bytes overflow, lie too near the end of the address space or
    /// leave no room for a chunk after the header. The chunks start at the
    /// first 16-aligned address after the header and end at the last
    /// 16-aligned offset from there within the blocks. Returns 0 with the
    /// region added when its chunk cannot serve the allocation.
    pub fn place_region(&mut self, base: usize, count: usize, block_size: usize, size: usize, align: usize) -> (ptr: usize)
        requires
            old(self).wf(),
            align > 0,
            size + align + 64 <= usize::MAX,
            old(self).align_fits(align as int),
        ensures
            final(self).wf(),
            final(self).align_fits(align as int),
            final(self).spec_provider() == old(self).spec_provider(),
            placed(old(self).regions(), final(self).regions(), ptr, base, count, block_size, size as int, align as int),
    {
        let total = match count.checked_mul(block_size) {
            Some(t) => t,
            None => {
                return 0;
            },
        };
        if base > usize::MAX - total || base > usize::MAX - 128 || base + total > usize::MAX - align {
            return 0;
        }
        let usable = region_usable_start(base);
        if usable + MIN_CHUNK_SIZE > base + total {
            return 0;
        }
        let mut region = init_region(base, total, count);
        let ghost init = region@;
        proof {
            region.lemma_view();
            assert(init == fresh_region(base as int, total as int, count));
        }
        let ptr = region_alloc(&mut region, size, align);
        let ghost regions0 = self.regions();
        self.regions.insert(0, region);
        proof {
            region.lemma_view();
            assert(self.regions() =~= seq![region@] + regions0);
            assert(self.regions().skip(1) =~= regions0);
            let fl = init.free_list;
            assert(fl == seq![init.chunks[0].addr]);
            assert(index_at(init.chunks, fl[0]) == 0);
            if chunk_fits(init.chunks[0], size as int, align as int) {
                assert(is_first_fit_free(init.chunks, fl, size as int, align as int, 0));
            } else {
                assert(no_free_fits(init.chunks, fl, size as int, align as int));
                assert(region@ =~= init);
            }
        }
        ptr
    }

    /// Gives back the allocation at `ptr` to the first region that holds it;
    /// does nothing when no region holds it.
    pub fn dealloc(&mut self, ptr: usize)
        requires
            old(self).wf(),
            forall|k: int|
                #[trigger] is_first_holding_region(old(self).regions(), ptr as int, k) ==> is_live(
                    old(self).regions()[k].chunks,
                    ptr,
                ),
        ensures
            final(self).wf(),
            (forall|k: int| 0 <= k < old(self).regions().len() ==> !((#[trigger] old(self).regions()[k]).base <= ptr
                < old(self).regions()[k].base + old(self).regions()[k].total_size)) ==> final(self).regions() == old(self).regions(),
            forall|k: int|
                #[trigger] is_first_holding_region(old(self).regions(), ptr as int, k) ==> {
                    let r = old(self).regions()[k];
                    let i = allocation_index(r.chunks, ptr);
                    let nr = final(self).regions()[k];
                    &&& final(self).regions().len() == old(self).regions().len()
                    &&& forall|j: int| 0 <= j < old(self).regions().len() && j != k ==> #[trigger] final(self).regions()[j] == old(self).regions()[j]
                    &&& nr.base == r.base && nr.total_size == r.total_size && nr.block_count == r.block_count
                    &&& nr.chunks == freed_chunks(r.chunks, i)
                    &&& nr.free_list == freed_list(r.chunks, r.free_list, i)
                    &&& nr.used_bytes == r.used_bytes - r.chunks[i].size
                },
    {
        let ghost regions0 = self.regions();
        let mut k: usize = 0;
        while k < self.regions.len() && !region_contains(&self.regions[k], ptr)
            invariant
                self.wf(),
                self.regions() == regions0,
                k <= regions0.len(),
                forall|j: int| 0 <= j < k ==> !((#[trigger] regions0[j]).base <= ptr < regions0[j].base + regions0[j].total_size),
            decreases regions0.len() - k,
        {
            proof {
                self.regions@[k as int].lemma_view();
            }
            k = k + 1;
        }
        if k == self.regions.len() {
            return;
        }
        let mut region = self.regions.remove(k);
        proof {
            assert(region@ == regions0[k as int]);
            region.lemma_view();
            assert(is_first_holding_region(regions0, ptr as int, k as int));
        }
        region_dealloc(&mut region, ptr);
        self.regions.insert(k, region);
        proof {
            region.lemma_view();
            let kk = k as int;
            assert(self.regions() =~= regions0.update(kk, region@));
            assert forall|q: int| #[trigger] is_first_holding_region(regions0, ptr as int, q) implies q == kk by {
                if q < kk {
                } else if q > kk {
                    assert(!(regions0[kk].base <= ptr < regions0[kk].base + regions0[kk].total_size));
                }
            }
        }
    }
}

/// Carving an allocation out of the chunk of free entry `k` keeps the
/// region sound.
#[verifier::spinoff_prover]
#[verifier::rlimit(40)]
proof fn lemma_carve_wf(base: int, total: int, chunks: Seq<Chunk>, fl: Seq<usize>, used: int, k: int, size: int, align: int)
    requires
        region_wf(base, total, chunks, fl, used),
        0 <= k < fl.len(),
        chunk_fits(chunks[index_at(chunks, fl[k])], size, align),
        size >= 0,
        align > 0,
    ensures
        ({
            let i = index_at(chunks, fl[k]);
            let nc = carve_chunks(chunks, i, size, align);
            &&& 0 <= i < chunks.len()
            &&& chunks[i].addr == fl[k]
            &&& !chunks[i].allocated
            &&& region_wf(base, total, nc, carve_list(chunks, fl, k, size, align), used + nc[i].size)
        }),
{
    lemma_free_entry(base, total, chunks, fl, used, k);
    let i = index_at(chunks, fl[k]);
    lemma_chunk_room(base, total, chunks, fl, used, i);
    let c = chunks[i];
    lemma_fit_facts(c, size, align);
    let p = aligned_payload(c, align) as usize;
    let needed = needed_size(c, size, align);
    if c.size - needed >= MIN_CHUNK_SIZE {
        let ac = Chunk { addr: c.addr, size: needed as usize, allocated: true, payload: p };
        let fc = Chunk { addr: (c.addr + needed) as usize, size: (c.size - needed) as usize, allocated: false, payload: 0 };
        lemma_carve_split_wf(base, total, chunks, fl, used, k, i, ac, fc);
        lemma_split_shape(chunks, i, ac, fc);
    } else {
        let ac = Chunk { addr: c.addr, size: c.size, allocated: true, payload: p };
        lemma_carve_whole_wf(base, total, chunks, fl, used, k, i, ac);
    }
}

/// When no chunk of a sound region is allocated, one free chunk covers
/// everything after the header, it is the only entry of the free list, and
/// no bytes are used.
pub proof fn lemma_all_free_is_whole(base: int, total: int, chunks: Seq<Chunk>, fl: Seq<usize>, used: int)
    requires
        region_wf(base, total, chunks, fl, used),
        forall|i: int| 0 <= i < chunks.len() ==> !(#[trigger] chunks[i]).allocated,
    ensures
        chunks.len() == 1,
        chunks[0].addr == spec_usable_start(base),
        chunk_end(chunks[0]) == spec_region_end(base, total),
        fl == seq![chunks[0].addr],
        used == 0,
{
    lemma_region_wf_facts(base, total, chunks, fl, used);
    if chunks.len() > 1 {
        assert(chunks[0].allocated || chunks[1].allocated);
    }
    assert(chunks.len() == 1);
    assert(allocated_bytes(chunks, 0) == 0);
    assert(fl.contains(chunks[0].addr));
    assert forall|m: int| 0 <= m < fl.len() implies fl[m] == chunks[0].addr by {
        assert(is_free_at(chunks, fl[m]));
    }
    if fl.len() > 1 {
        assert(fl[0] == fl[1]);
    }
    assert(fl =~= seq![chunks[0].addr]);
}

/// Giving back an allocation right after it was made takes off the used
/// bytes exactly what the allocation added: the address it handed out names
/// the chunk it was carved from.
pub proof fn lemma_free_undoes_used(base: int, total: int, chunks: Seq<Chunk>, fl: Seq<usize>, used: int, k: int, size: int, align: int)
    requires
        region_wf(base, total, chunks, fl, used),
        is_first_fit_free(chunks, fl, size, align, k),
        size >= 0,
        align > 0,
    ensures
        ({
            let i = index_at(chunks, fl[k]);
            let nc = carve_chunks(chunks, i, size, align);
            let p = aligned_payload(chunks[i], align) as usize;
            &&& is_live(nc, p)
            &&& allocation_index(nc, p) == i
            &&& (used + nc[i].size) - nc[allocation_index(nc, p)].size == used
        }),
{
    lemma_carve_wf(base, total, chunks, fl, used, k, size, align);
    let i = index_at(chunks, fl[k]);
    let nc = carve_chunks(chunks, i, size, align);
    let p = aligned_payload(chunks[i], align) as usize;
    let nl = carve_list(chunks, fl, k, size, align);
    lemma_region_wf_facts(base, total, nc, nl, used + nc[i].size);
    lemma_region_wf_facts(base, total, chunks, fl, used);
    lemma_fit_facts(chunks[i], size, align);
    lemma_tiles_bounds(chunks, spec_usable_start(base), spec_region_end(base, total), i);
    let c = chunks[i];
    let needed = needed_size(c, size, align);
    if c.size - needed >= MIN_CHUNK_SIZE {
        lemma_split_shape(chunks, i, Chunk { addr: c.addr, size: needed as usize, allocated: true, payload: p }, Chunk { addr: (c.addr + needed) as usize, size: (c.size - needed) as usize, allocated: false, payload: 0 });
    }
    assert(nc[i].allocated && nc[i].payload == p);
    assert(is_live(nc, p));
    let w = allocation_index(nc, p);
    assert(payload_ok(nc[w]) && payload_ok(nc[i]));
    if w < i {
        lemma_tiles_ordered(nc, spec_usable_start(base), spec_region_end(base, total), w, i);
    } else if i < w {
        lemma_tiles_ordered(nc, spec_usable_start(base), spec_region_end(base, total), i, w);
    }
}

} // verus!
