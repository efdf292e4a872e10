use vstd::prelude::*;

use crate::bits::{align_up, lemma_clear_bit, lemma_set_bit, lemma_test_bit, lemma_zero_word, spec_align_up, word_bit, BITS_PER_WORD};

verus! {

/// Chunk size used by `BitmapChunkAllocator::new`.
pub const DEFAULT_CHUNK_SIZE: usize = 65536;

/// Bytes of one bitmap word.
pub const WORD_BYTES: usize = 8;

/// Bytes of the metadata that describes one region.
pub const REGION_BYTES: usize = 24;

/// Alignment of the end of the metadata area.
pub const METADATA_ALIGNMENT: usize = 16;

/// A run of chunks handed out by the allocator: its address, its length in
/// chunks and the size of one chunk.
pub struct Allocation {
    pub ptr: usize,
    pub chunk_count: usize,
    pub chunk_size: usize,
}

/// One memory range as the allocator sees it: where its first usable chunk
/// starts, how many chunks it has and where its bits start in the bitmap.
#[derive(Clone, Copy)]
pub struct Region {
    pub base: usize,
    pub chunk_count: usize,
    pub bitmap_offset: usize,
}

/// Hands out runs of contiguous fixed-size chunks from a set of memory
/// ranges, with one bit per chunk that says whether it is in use.
pub struct BitmapChunkAllocator {
    bitmap: Vec<u64>,
    bitmap_len: usize,
    regions: Vec<Region>,
    region_count: usize,
    total_chunks: usize,
    chunk_size: usize,
}

// ---------------------------------------------------------------------------
// Mathematical model
// ---------------------------------------------------------------------------

/// Whether no chunk in `[start, start + len)` is in use.
pub open spec fn run_free(chunks: Seq<bool>, start: int, len: int) -> bool {
    forall|i: int| start <= i < start + len ==> !#[trigger] chunks[i]
}

/// Whether `[start, start + len)` lies inside `[lo, hi)` and is free.
pub open spec fn is_run(chunks: Seq<bool>, lo: int, hi: int, start: int, len: int) -> bool {
    &&& lo <= start
    &&& start + len <= hi
    &&& run_free(chunks, start, len)
}

/// Whether `start` is the lowest start of a free run of `len` chunks in `[lo, hi)`.
pub open spec fn is_first_fit(chunks: Seq<bool>, lo: int, hi: int, start: int, len: int) -> bool {
    &&& is_run(chunks, lo, hi, start, len)
    &&& forall|t: int| lo <= t < start ==> !#[trigger] is_run(chunks, lo, hi, t, len)
}

/// Whether `[lo, hi)` holds a free run of `len` chunks.
pub open spec fn has_run(chunks: Seq<bool>, lo: int, hi: int, len: int) -> bool {
    exists|s: int| #[trigger] is_run(chunks, lo, hi, s, len)
}

/// Bit range of a region: its first bit.
pub open spec fn region_lo(region: Region) -> int {
    region.bitmap_offset as int
}

/// Bit range of a region: one past its last bit.
pub open spec fn region_hi(region: Region) -> int {
    region.bitmap_offset + region.chunk_count
}

/// `chunks` with every chunk of `[start, start + len)` set to `used`.
pub open spec fn mark_range(chunks: Seq<bool>, start: int, len: int, used: bool) -> Seq<bool> {
    Seq::new(chunks.len(), |i: int| if start <= i < start + len { used } else { chunks[i] })
}

/// Number of chunks in use among the first `n`.
pub open spec fn count_used(chunks: Seq<bool>, n: int) -> nat
    decreases n,
{
    if n <= 0 {
        0
    } else {
        count_used(chunks, n - 1) + if chunks[n - 1] { 1nat } else { 0nat }
    }
}

/// Number of chunks needed to hold `bytes` bytes.
pub open spec fn chunks_needed(bytes: int, chunk_size: int) -> int {
    (bytes + chunk_size - 1) / chunk_size
}

/// Whether `addr` lies in the chunks of `region`.
pub open spec fn region_contains(region: Region, chunk_size: int, addr: int) -> bool {
    region.base <= addr < region.base + region.chunk_count * chunk_size
}

/// The bit of the chunk at `addr` in `region`.
pub open spec fn chunk_bit(region: Region, chunk_size: int, addr: int) -> int {
    region.bitmap_offset + (addr - region.base) / chunk_size
}

/// Number of words of a bitmap for `chunks` chunks.
pub open spec fn bitmap_words(chunks: int) -> int {
    (chunks + 63) / 64
}

/// Bytes of metadata for `region_count` regions and `raw_total_chunks` chunks,
/// rounded up to `METADATA_ALIGNMENT`.
pub open spec fn spec_metadata_size(region_count: int, raw_total_chunks: int) -> int {
    spec_align_up(region_count * 24 + bitmap_words(raw_total_chunks) * 8, 16)
}

/// Sum of `size / chunk_size` over the first `n` ranges.
pub open spec fn raw_total(ranges: Seq<(usize, usize)>, chunk_size: int, n: int) -> int
    decreases n,
{
    if n <= 0 {
        0
    } else {
        raw_total(ranges, chunk_size, n - 1) + (ranges[n - 1].1 as int) / chunk_size
    }
}

/// Chunk count of region `k` built from `ranges` with `meta` bytes of metadata.
pub open spec fn layout_count(ranges: Seq<(usize, usize)>, chunk_size: int, meta: int, k: int) -> int {
    if k == 0 {
        (ranges[0].1 - meta) / chunk_size
    } else {
        (ranges[k].1 as int) / chunk_size
    }
}

/// First usable address of region `k` built from `ranges`.
pub open spec fn layout_base(ranges: Seq<(usize, usize)>, meta: int, k: int) -> int {
    if k == 0 {
        ranges[0].0 + meta
    } else {
        ranges[k].0 as int
    }
}

/// First bit of region `k`: the chunk counts of the regions before it.
pub open spec fn layout_offset(ranges: Seq<(usize, usize)>, chunk_size: int, meta: int, k: int) -> int
    decreases k,
{
    if k <= 0 {
        0
    } else {
        layout_offset(ranges, chunk_size, meta, k - 1) + layout_count(ranges, chunk_size, meta, k - 1)
    }
}

/// Whether `ranges` can be handed to `BitmapChunkAllocator::with_chunk_size`
/// without a failed assertion or an arithmetic overflow.
pub open spec fn ranges_acceptable(chunk_size: int, ranges: Seq<(usize, usize)>) -> bool {
    let raw = raw_total(ranges, chunk_size, ranges.len() as int);
    &&& chunk_size > 0
    &&& ranges.len() > 0
    &&& forall|k: int| 0 <= k < ranges.len() ==> #[trigger] ranges[k].0 + ranges[k].1 <= usize::MAX
    &&& forall|k: int| 0 <= k <= ranges.len() ==> #[trigger] raw_total(ranges, chunk_size, k) <= usize::MAX
    &&& raw + 63 <= usize::MAX
    &&& raw * 2 <= usize::MAX
    &&& ranges.len() * 24 + bitmap_words(raw) * 8 + 15 <= usize::MAX
    &&& spec_metadata_size(ranges.len() as int, raw) + chunk_size <= ranges[0].1
}

/// Whether no two of `ranges` share a byte.
pub open spec fn ranges_disjoint(ranges: Seq<(usize, usize)>) -> bool {
    forall|i: int, j: int|
        0 <= i < ranges.len() && 0 <= j < ranges.len() && i != j ==> ranges_apart(
            #[trigger] ranges[i],
            #[trigger] ranges[j],
        )
}

/// Whether two memory ranges share no byte.
pub open spec fn ranges_apart(a: (usize, usize), b: (usize, usize)) -> bool {
    a.0 + a.1 <= b.0 || b.0 + b.1 <= a.0
}

/// Whether the chunks of two regions share no byte.
pub open spec fn regions_apart(a: Region, b: Region, chunk_size: int) -> bool {
    a.base + a.chunk_count * chunk_size <= b.base || b.base + b.chunk_count * chunk_size <= a.base
}

// ---------------------------------------------------------------------------
// Lemmas
// ---------------------------------------------------------------------------

proof fn lemma_count_used_bound(chunks: Seq<bool>, n: int)
    requires
        0 <= n,
    ensures
        count_used(chunks, n) <= n,
    decreases n,
{
    if n > 0 {
        lemma_count_used_bound(chunks, n - 1);
    }
}

proof fn lemma_count_used_free_run(chunks: Seq<bool>, s: int, e: int)
    requires
        0 <= s <= e,
        run_free(chunks, s, e - s),
    ensures
        count_used(chunks, e) == count_used(chunks, s),
    decreases e - s,
{
    if e > s {
        assert(!chunks[e - 1]);
        lemma_count_used_free_run(chunks, s, e - 1);
    }
}

spec fn clamp(n: int, lo: int, hi: int) -> int {
    if n < lo {
        lo
    } else if n > hi {
        hi
    } else {
        n
    }
}

proof fn lemma_count_used_mark(chunks: Seq<bool>, s: int, e: int, used: bool, n: int)
    requires
        0 <= s <= e <= chunks.len(),
        0 <= n <= chunks.len(),
    ensures
        count_used(mark_range(chunks, s, e - s, used), n) == count_used(chunks, n) - (count_used(
            chunks,
            clamp(n, s, e),
        ) - count_used(chunks, s)) + if used {
            clamp(n, s, e) - s
        } else {
            0
        },
    decreases n,
{
    let m = mark_range(chunks, s, e - s, used);
    if n > 0 {
        lemma_count_used_mark(chunks, s, e, used, n - 1);
        assert(m[n - 1] == if s <= n - 1 < e { used } else { chunks[n - 1] });
    }
}

/// Marking a range changes the count of chunks in use by what the range held
/// before and what it holds after.
proof fn lemma_count_after_mark(chunks: Seq<bool>, s: int, len: int, used: bool)
    requires
        0 <= s,
        0 <= len,
        s + len <= chunks.len(),
    ensures
        count_used(mark_range(chunks, s, len, used), chunks.len() as int) == count_used(
            chunks,
            chunks.len() as int,
        ) - (count_used(chunks, s + len) - count_used(chunks, s)) + if used {
            len
        } else {
            0
        },
{
    lemma_count_used_mark(chunks, s, s + len, used, chunks.len() as int);
}

proof fn lemma_raw_total_nonneg(ranges: Seq<(usize, usize)>, chunk_size: int, n: int)
    requires
        chunk_size > 0,
        0 <= n <= ranges.len(),
    ensures
        raw_total(ranges, chunk_size, n) >= 0,
    decreases n,
{
    if n > 0 {
        lemma_raw_total_nonneg(ranges, chunk_size, n - 1);
        assert((ranges[n - 1].1 as int) / chunk_size >= 0) by (nonlinear_arith)
            requires chunk_size > 0;
    }
}

proof fn lemma_layout_offset_bound(ranges: Seq<(usize, usize)>, chunk_size: int, meta: int, n: int)
    requires
        chunk_size > 0,
        0 <= meta <= ranges[0].1,
        1 <= n <= ranges.len(),
    ensures
        0 <= layout_offset(ranges, chunk_size, meta, n) <= raw_total(ranges, chunk_size, n),
    decreases n,
{
    let c0 = layout_count(ranges, chunk_size, meta, 0);
    assert(0 <= (ranges[0].1 - meta) / chunk_size <= (ranges[0].1 as int) / chunk_size) by (nonlinear_arith)
        requires chunk_size > 0, 0 <= meta <= ranges[0].1;
    if n > 1 {
        lemma_layout_offset_bound(ranges, chunk_size, meta, n - 1);
        assert((ranges[n - 1].1 as int) / chunk_size >= 0) by (nonlinear_arith)
            requires chunk_size > 0;
    } else {
        assert(layout_offset(ranges, chunk_size, meta, 0) == 0);
        assert(raw_total(ranges, chunk_size, 0) == 0);
        assert(layout_offset(ranges, chunk_size, meta, 1) == c0);
        assert(raw_total(ranges, chunk_size, 1) == (ranges[0].1 as int) / chunk_size);
    }
}

/// The chunks of region `k` of a layout lie within range `k`.
proof fn lemma_layout_within(ranges: Seq<(usize, usize)>, chunk_size: int, meta: int, k: int)
    requires
        0 <= k < ranges.len(),
        chunk_size > 0,
        0 <= meta,
        meta + chunk_size <= ranges[0].1,
    ensures
        ranges[k].0 <= layout_base(ranges, meta, k),
        layout_base(ranges, meta, k) + layout_count(ranges, chunk_size, meta, k) * chunk_size
            <= ranges[k].0 + ranges[k].1,
{
    if k == 0 {
        lemma_div_mul_le(ranges[0].1 - meta, chunk_size);
    } else {
        lemma_div_mul_le(ranges[k].1 as int, chunk_size);
    }
}

proof fn lemma_div_mul_le(x: int, d: int)
    requires
        x >= 0,
        d > 0,
    ensures
        (x / d) * d <= x,
        x / d >= 0,
{
    assert((x / d) * d <= x) by (nonlinear_arith)
        requires x >= 0, d > 0;
    assert(x / d >= 0) by (nonlinear_arith)
        requires x >= 0, d > 0;
}

proof fn lemma_mul_lt(a: int, b: int, d: int)
    requires
        0 <= a < b,
        d > 0,
    ensures
        a * d + d <= b * d,
        a * d >= 0,
{
    assert(a * d + d <= b * d) by (nonlinear_arith)
        requires 0 <= a < b, d > 0;
    assert(a * d >= 0) by (nonlinear_arith)
        requires 0 <= a, d > 0;
}

// ---------------------------------------------------------------------------
// Executable code
// ---------------------------------------------------------------------------

/// Bytes of metadata that the allocator keeps at the start of its first range
/// for `region_count` regions and `raw_total_chunks` chunks.
pub fn metadata_size(region_count: usize, raw_total_chunks: usize) -> (size: usize)
    requires
        raw_total_chunks + 63 <= usize::MAX,
        region_count * 24 + bitmap_words(raw_total_chunks as int) * 8 + 15 <= usize::MAX,
    ensures
        size == spec_metadata_size(region_count as int, raw_total_chunks as int),
{
    let words = (raw_total_chunks + (BITS_PER_WORD - 1)) / BITS_PER_WORD;
    let regions_bytes = region_count * REGION_BYTES;
    let bitmap_bytes = words * WORD_BYTES;
    align_up(regions_bytes + bitmap_bytes, METADATA_ALIGNMENT)
}

impl BitmapChunkAllocator {
    /// Whether the chunk states are set in `[0, total_chunks)`.
    pub closed spec fn chunks(&self) -> Seq<bool> {
        Seq::new(
            self.total_chunks as nat,
            |i: int| word_bit(self.bitmap@[i / 64], i % 64),
        )
    }

    /// The regions, in the order in which they were given.
    pub closed spec fn regions_view(&self) -> Seq<Region> {
        self.regions@
    }

    pub closed spec fn spec_chunk_size(&self) -> int {
        self.chunk_size as int
    }

    pub closed spec fn spec_total_chunks(&self) -> int {
        self.total_chunks as int
    }

    /// Number of chunks in use.
    pub open spec fn spec_used(&self) -> nat {
        count_used(self.chunks(), self.spec_total_chunks())
    }

    /// The allocator's invariant: the regions cover the bitmap in order, the
    /// bitmap has a bit for every chunk and no chunk address overflows.
    pub closed spec fn wf(&self) -> bool {
        &&& self.chunk_size > 0
        &&& self.regions@.len() == self.region_count
        &&& self.region_count >= 1
        &&& self.bitmap@.len() == self.bitmap_len
        &&& self.total_chunks <= self.bitmap_len * 64
        &&& self.total_chunks * 2 <= usize::MAX
        &&& self.regions@[0].bitmap_offset == 0
        &&& forall|r: int|
            0 <= r < self.region_count - 1 ==> #[trigger] self.regions@[r + 1].bitmap_offset
                == self.regions@[r].bitmap_offset + self.regions@[r].chunk_count
        &&& self.regions@[self.region_count - 1].bitmap_offset + self.regions@[self.region_count
            - 1].chunk_count == self.total_chunks
        &&& forall|r: int|
            0 <= r < self.region_count ==> #[trigger] self.regions@[r].base
                + self.regions@[r].chunk_count * self.chunk_size <= usize::MAX
    }

    /// Whether no two regions share a chunk: then the first region that
    /// holds an allocation is the one it came from.
    pub open spec fn regions_disjoint(&self) -> bool {
        forall|r1: int, r2: int|
            0 <= r1 < self.regions_view().len() && 0 <= r2 < self.regions_view().len() && r1 != r2 ==> regions_apart(
                #[trigger] self.regions_view()[r1],
                #[trigger] self.regions_view()[r2],
                self.spec_chunk_size(),
            )
    }

    /// In a sound allocator the chunk map has one entry per chunk, the chunk
    /// size is positive, and each region's chunks lie within the map.
    pub proof fn lemma_chunk_map_layout(&self)
        requires
            self.wf(),
        ensures
            self.chunks().len() == self.spec_total_chunks(),
            self.spec_chunk_size() > 0,
            forall|r: int|
                0 <= r < self.regions_view().len() ==> #[trigger] self.regions_view()[r].bitmap_offset
                    + self.regions_view()[r].chunk_count <= self.spec_total_chunks(),
    {
        self.lemma_regions_within();
    }

    proof fn lemma_regions_within(&self)
        requires
            self.wf(),
        ensures
            forall|r: int|
                0 <= r < self.region_count ==> #[trigger] self.regions@[r].bitmap_offset
                    + self.regions@[r].chunk_count <= self.total_chunks,
    {
        assert forall|r: int| 0 <= r < self.region_count implies #[trigger] self.regions@[r].bitmap_offset
            + self.regions@[r].chunk_count <= self.total_chunks by {
            self.lemma_region_end_le(r);
        }
    }

    proof fn lemma_region_end_le(&self, r: int)
        requires
            self.wf(),
            0 <= r < self.region_count,
        ensures
            self.regions@[r].bitmap_offset + self.regions@[r].chunk_count <= self.total_chunks,
        decreases self.region_count - r,
    {
        if r < self.region_count - 1 {
            self.lemma_region_end_le(r + 1);
            assert(self.regions@[r + 1].bitmap_offset == self.regions@[r].bitmap_offset
                + self.regions@[r].chunk_count);
        }
    }

    /// An allocator with chunks of `DEFAULT_CHUNK_SIZE` bytes over `ranges`,
    /// each given as (base address, size in bytes).
    pub fn new(ranges: &[(usize, usize)]) -> (allocator: Self)
        requires
            ranges_acceptable(DEFAULT_CHUNK_SIZE as int, ranges@),
        ensures
            allocator.wf(),
            allocator.chunks().len() == allocator.spec_total_chunks(),
            allocator.spec_chunk_size() == DEFAULT_CHUNK_SIZE,
            allocator.is_fresh_layout(DEFAULT_CHUNK_SIZE as int, ranges@),
            ranges_disjoint(ranges@) ==> allocator.regions_disjoint(),
    {
        Self::with_chunk_size(DEFAULT_CHUNK_SIZE, ranges)
    }

    /// Whether the allocator is what `with_chunk_size(chunk_size, ranges)`
    /// builds: the metadata sits at the start of the first range, each range
    /// becomes a region of whole chunks, and no chunk is in use.
    pub open spec fn is_fresh_layout(&self, chunk_size: int, ranges: Seq<(usize, usize)>) -> bool {
        let meta = spec_metadata_size(
            ranges.len() as int,
            raw_total(ranges, chunk_size, ranges.len() as int),
        );
        &&& self.regions_view().len() == ranges.len()
        &&& forall|k: int|
            0 <= k < ranges.len() ==> {
                &&& (#[trigger] self.regions_view()[k]).base == layout_base(ranges, meta, k)
                &&& self.regions_view()[k].chunk_count == layout_count(ranges, chunk_size, meta, k)
                &&& self.regions_view()[k].bitmap_offset == layout_offset(
                    ranges,
                    chunk_size,
                    meta,
                    k,
                )
            }
        &&& self.spec_total_chunks() == layout_offset(
            ranges,
            chunk_size,
            meta,
            ranges.len() as int,
        )
        &&& forall|i: int| 0 <= i < self.spec_total_chunks() ==> !#[trigger] self.chunks()[i]
    }

    /// An allocator with chunks of `chunk_size` bytes over `ranges`, each
    /// given as (base address, size in bytes). Its metadata is accounted for
    /// at the start of the first range.
    pub fn with_chunk_size(chunk_size: usize, ranges: &[(usize, usize)]) -> (allocator: Self)
        requires
            ranges_acceptable(chunk_size as int, ranges@),
        ensures
            allocator.wf(),
            allocator.chunks().len() == allocator.spec_total_chunks(),
            allocator.spec_chunk_size() == chunk_size,
            allocator.is_fresh_layout(chunk_size as int, ranges@),
            ranges_disjoint(ranges@) ==> allocator.regions_disjoint(),
    {
        let region_count = ranges.len();
        let ghost rs = ranges@;
        let ghost cs = chunk_size as int;

        let mut raw_total_chunks: usize = 0;
        let mut k: usize = 0;
        while k < region_count
            invariant
                ranges_acceptable(cs, rs),
                rs == ranges@,
                region_count == rs.len(),
                cs == chunk_size,
                0 <= k <= region_count,
                raw_total_chunks == raw_total(rs, cs, k as int),
            decreases region_count - k,
        {
            let (_, size) = ranges[k];
            assert(raw_total(rs, cs, k + 1) <= usize::MAX);
            raw_total_chunks = raw_total_chunks + size / chunk_size;
            k = k + 1;
        }
        proof {
            lemma_raw_total_nonneg(rs, cs, rs.len() as int);
        }

        let bitmap_words = (raw_total_chunks + (BITS_PER_WORD - 1)) / BITS_PER_WORD;
        let aligned_metadata = metadata_size(region_count, raw_total_chunks);
        let ghost meta = aligned_metadata as int;

        let (first_base, first_size) = ranges[0];
        let usable_start = first_base + aligned_metadata;
        let usable_size = first_size - aligned_metadata;
        let first_chunk_count = usable_size / chunk_size;

        let bitmap: Vec<u64> = vec![0u64; bitmap_words];

        let mut regions: Vec<Region> = Vec::new();
        regions.push(Region { base: usable_start, chunk_count: first_chunk_count, bitmap_offset: 0 });
        proof {
            lemma_div_mul_le(usable_size as int, cs);
            assert(layout_offset(rs, cs, meta, 0) == 0);
            assert(layout_offset(rs, cs, meta, 1) == first_chunk_count);
        }

        let mut total_chunks = first_chunk_count;
        let mut bitmap_offset = first_chunk_count;
        let mut i: usize = 1;
        while i < region_count
            invariant
                ranges_acceptable(cs, rs),
                rs == ranges@,
                region_count == rs.len(),
                cs == chunk_size,
                meta == aligned_metadata,
                meta == spec_metadata_size(rs.len() as int, raw_total(rs, cs, rs.len() as int)),
                meta + cs <= rs[0].1,
                1 <= i <= region_count,
                regions@.len() == i,
                total_chunks == bitmap_offset,
                bitmap_offset == layout_offset(rs, cs, meta, i as int),
                forall|j: int|
                    0 <= j < i ==> {
                        &&& (#[trigger] regions@[j]).base == layout_base(rs, meta, j)
                        &&& regions@[j].chunk_count == layout_count(rs, cs, meta, j)
                        &&& regions@[j].bitmap_offset == layout_offset(rs, cs, meta, j)
                        &&& regions@[j].base + regions@[j].chunk_count * cs <= usize::MAX
                    },
            decreases region_count - i,
        {
            let (base, size) = ranges[i];
            let chunk_count = size / chunk_size;
            proof {
                lemma_layout_offset_bound(rs, cs, meta, (i + 1) as int);
                lemma_div_mul_le(size as int, cs);
                assert(rs[i as int].0 + rs[i as int].1 <= usize::MAX);
            }
            regions.push(Region { base, chunk_count, bitmap_offset });
            bitmap_offset = bitmap_offset + chunk_count;
            total_chunks = total_chunks + chunk_count;
            i = i + 1;
        }
        proof {
            lemma_layout_offset_bound(rs, cs, meta, rs.len() as int);
            assert(bitmap_words * 64 >= raw_total_chunks);
        }

        let allocator = BitmapChunkAllocator {
            bitmap,
            bitmap_len: bitmap_words,
            regions,
            region_count,
            total_chunks,
            chunk_size,
        };
        proof {
            assert forall|r: int| 0 <= r < region_count - 1 implies #[trigger] allocator.regions@[r
                + 1].bitmap_offset == allocator.regions@[r].bitmap_offset
                + allocator.regions@[r].chunk_count by {
                assert(allocator.regions@[r + 1].bitmap_offset == layout_offset(rs, cs, meta, r + 1));
            }
            assert forall|j: int| 0 <= j < total_chunks implies !#[trigger] allocator.chunks()[j] by {
                assert(allocator.bitmap@[j / 64] == 0u64);
                lemma_zero_word((j % 64) as u64);
            }
            if ranges_disjoint(rs) {
                assert forall|r1: int, r2: int|
                    0 <= r1 < region_count && 0 <= r2 < region_count && r1 != r2 implies regions_apart(
                    #[trigger] allocator.regions@[r1],
                    #[trigger] allocator.regions@[r2],
                    cs,
                ) by {
                    lemma_layout_within(rs, cs, meta, r1);
                    lemma_layout_within(rs, cs, meta, r2);
                    assert(ranges_apart(rs[r1], rs[r2]));
                }
                assert(allocator.regions_disjoint());
            }
        }
        allocator
    }

    /// Whether chunk `bit_index` is in use.
    fn is_bit_set(&self, bit_index: usize) -> (set: bool)
        requires
            self.wf(),
            bit_index < self.total_chunks,
        ensures
            set == self.chunks()[bit_index as int],
    {
        let word = bit_index / BITS_PER_WORD;
        let bit = bit_index % BITS_PER_WORD;
        proof {
            lemma_test_bit(self.bitmap@[word as int], bit as u64);
        }
        self.bitmap[word] & (1u64 << (bit as u64)) != 0
    }

    /// Sets the chunks `[start, start + count)` to `used`.
    fn mark_bits(&mut self, start: usize, count: usize, used: bool)
        requires
            old(self).wf(),
            start + count <= old(self).total_chunks,
        ensures
            final(self).wf(),
            final(self).chunks() == mark_range(old(self).chunks(), start as int, count as int, used),
            final(self).regions@ == old(self).regions@,
            final(self).region_count == old(self).region_count,
            final(self).total_chunks == old(self).total_chunks,
            final(self).chunk_size == old(self).chunk_size,
    {
        let ghost old_chunks = self.chunks();
        let end = start + count;
        let mut i = start;
        while i < end
            invariant
                self.wf(),
                start <= i <= end,
                end == start + count,
                end <= self.total_chunks,
                self.regions@ == old(self).regions@,
                self.region_count == old(self).region_count,
                self.total_chunks == old(self).total_chunks,
                self.chunk_size == old(self).chunk_size,
                old_chunks == old(self).chunks(),
                self.chunks() == mark_range(old_chunks, start as int, i - start, used),
            decreases end - i,
        {
            let word = i / BITS_PER_WORD;
            let bit = i % BITS_PER_WORD;
            let ghost before = self.chunks();
            let old_word = self.bitmap[word];
            let new_word = if used {
                old_word | (1u64 << (bit as u64))
            } else {
                old_word & !(1u64 << (bit as u64))
            };
            self.bitmap.set(word, new_word);
            proof {
                assert forall|j: int| 0 <= j < self.total_chunks implies #[trigger] self.chunks()[j]
                    == (if j == i { used } else { before[j] }) by {
                    if j / 64 == word as int {
                        if used {
                            lemma_set_bit(old_word, bit as u64, (j % 64) as u64);
                        } else {
                            lemma_clear_bit(old_word, bit as u64, (j % 64) as u64);
                        }
                    }
                }
                assert(self.chunks() =~= mark_range(old_chunks, start as int, i + 1 - start, used));
            }
            i = i + 1;
        }
    }

    /// Finds the lowest start of `needed` free chunks among the bits
    /// `[bitmap_offset, bitmap_offset + region_chunks)`.
    fn find_free_run(&self, bitmap_offset: usize, region_chunks: usize, needed: usize) -> (found:
        Option<usize>)
        requires
            self.wf(),
            bitmap_offset + region_chunks <= self.total_chunks,
            needed >= 1,
            needed <= region_chunks,
        ensures
            match found {
                Some(s) => is_first_fit(
                    self.chunks(),
                    bitmap_offset as int,
                    bitmap_offset + region_chunks,
                    s as int,
                    needed as int,
                ),
                None => !has_run(
                    self.chunks(),
                    bitmap_offset as int,
                    bitmap_offset + region_chunks,
                    needed as int,
                ),
            },
    {
        let ghost chunks = self.chunks();
        let ghost lo = bitmap_offset as int;
        let ghost hi = bitmap_offset + region_chunks;
        let mut run_start = bitmap_offset;
        let region_end = bitmap_offset + region_chunks;
        while run_start + needed <= region_end
            invariant
                self.wf(),
                chunks == self.chunks(),
                lo == bitmap_offset,
                hi == region_end,
                region_end == bitmap_offset + region_chunks,
                region_end <= self.total_chunks,
                bitmap_offset <= run_start,
                run_start <= region_end,
                needed >= 1,
                needed <= region_chunks,
                self.total_chunks * 2 <= usize::MAX,
                forall|t: int| lo <= t < run_start ==> !#[trigger] is_run(chunks, lo, hi, t, needed as int),
            decreases region_end + 1 - run_start,
        {
            let mut run_len: usize = 0;
            let mut blocked = false;
            while run_len < needed && !blocked
                invariant
                    self.wf(),
                    chunks == self.chunks(),
                    run_start + needed <= region_end,
                    region_end <= self.total_chunks,
                    run_len <= needed,
                    blocked ==> run_len < needed && chunks[run_start + run_len],
                    forall|j: int| run_start <= j < run_start + run_len ==> !#[trigger] chunks[j],
                decreases needed - run_len + if blocked { 0int } else { 1int },
            {
                let bit_index = run_start + run_len;
                if self.is_bit_set(bit_index) {
                    blocked = true;
                } else {
                    run_len = run_len + 1;
                }
            }
            if !blocked {
                proof {
                    assert(run_len == needed);
                    assert(is_run(chunks, lo, hi, run_start as int, needed as int));
                    assert forall|t: int| lo <= t < run_start implies !#[trigger] is_run(
                        chunks,
                        lo,
                        hi,
                        t,
                        needed as int,
                    ) by {}
                }
                return Some(run_start);
            }
            let bit_index = run_start + run_len;
            proof {
                assert(chunks[bit_index as int]);
                assert forall|t: int| lo <= t < bit_index + 1 implies !#[trigger] is_run(
                    chunks,
                    lo,
                    hi,
                    t,
                    needed as int,
                ) by {
                    if t >= run_start && t + needed <= hi {
                        assert(t <= bit_index < t + needed);
                    }
                }
            }
            run_start = bit_index + 1;
        }
        proof {
            assert forall|s: int| !#[trigger] is_run(chunks, lo, hi, s, needed as int) by {
                if lo <= s && s < run_start {
                } else if s >= run_start {
                }
            }
        }
        None
    }

    /// Hands out the first free run of chunks that holds `bytes` bytes: the
    /// first region, in the order given, that has such a run, and the lowest
    /// run in it. Returns `None` for zero bytes or when no region has one.
    #[verifier::spinoff_prover]
    pub fn allocate(&mut self, bytes: usize) -> (result: Option<Allocation>)
        requires
            old(self).wf(),
            bytes + old(self).spec_chunk_size() - 1 <= usize::MAX,
        ensures
            final(self).wf(),
            final(self).regions_view() == old(self).regions_view(),
            final(self).spec_chunk_size() == old(self).spec_chunk_size(),
            final(self).spec_total_chunks() == old(self).spec_total_chunks(),
            final(self).chunks().len() == final(self).spec_total_chunks(),
            ({
                let needed = chunks_needed(bytes as int, old(self).spec_chunk_size());
                let regions = old(self).regions_view();
                let chunks = old(self).chunks();
                match result {
                    None => {
                        &&& bytes == 0 || forall|r: int|
                            0 <= r < regions.len() ==> !#[trigger] has_run(
                                chunks,
                                region_lo(regions[r]),
                                region_hi(regions[r]),
                                needed,
                            )
                        &&& final(self).chunks() == chunks
                    },
                    Some(a) => {
                        &&& bytes > 0
                        &&& a.chunk_count == needed
                        &&& a.chunk_size == old(self).spec_chunk_size()
                        &&& exists|r: int, s: int|
                            #![trigger is_first_fit(chunks, region_lo(regions[r]), region_hi(regions[r]), s, needed)]
                            {
                                &&& 0 <= r < regions.len()
                                &&& forall|q: int|
                                    0 <= q < r ==> !#[trigger] has_run(
                                        chunks,
                                        region_lo(regions[q]),
                                        region_hi(regions[q]),
                                        needed,
                                    )
                                &&& is_first_fit(
                                    chunks,
                                    region_lo(regions[r]),
                                    region_hi(regions[r]),
                                    s,
                                    needed,
                                )
                                &&& a.ptr == regions[r].base + (s - regions[r].bitmap_offset)
                                    * old(self).spec_chunk_size()
                                &&& final(self).chunks() == mark_range(chunks, s, needed, true)
                            }
                        &&& final(self).spec_used() == old(self).spec_used() + needed
                        &&& a.ptr + a.chunk_count * a.chunk_size <= usize::MAX
                        &&& a.chunk_count * a.chunk_size >= bytes
                        &&& old(self).regions_disjoint() ==> final(self).can_release(a.ptr as int, a.chunk_count as int)
                        &&& final(self).in_one_region(a.ptr as int, a.chunk_count * a.chunk_size)
                    },
                }
            }),
    {
        if bytes == 0 {
            return None;
        }
        let chunk_count = (bytes + (self.chunk_size - 1)) / self.chunk_size;
        let ghost chunks = self.chunks();
        let ghost regions = self.regions@;
        proof {
            self.lemma_regions_within();
            assert(chunk_count >= 1) by (nonlinear_arith)
                requires bytes >= 1, self.chunk_size > 0,
                    chunk_count == (bytes + self.chunk_size - 1) / self.chunk_size as int;
        }
        let mut r: usize = 0;
        while r < self.region_count
            invariant
                self.wf(),
                self.chunks() == chunks,
                self.regions@ == regions,
                self == old(self),
                chunk_count == chunks_needed(bytes as int, self.chunk_size as int),
                chunk_count >= 1,
                bytes > 0,
                0 <= r <= self.region_count,
                forall|r: int|
                    0 <= r < self.region_count ==> #[trigger] self.regions@[r].bitmap_offset
                        + self.regions@[r].chunk_count <= self.total_chunks,
                forall|q: int|
                    0 <= q < r ==> !#[trigger] has_run(
                        chunks,
                        region_lo(regions[q]),
                        region_hi(regions[q]),
                        chunk_count as int,
                    ),
            decreases self.region_count - r,
        {
            let region = self.regions[r];
            let base = region.base;
            let region_chunks = region.chunk_count;
            let bitmap_offset = region.bitmap_offset;
            if region_chunks < chunk_count {
                proof {
                    assert forall|t: int| !#[trigger] is_run(
                        chunks,
                        region_lo(regions[r as int]),
                        region_hi(regions[r as int]),
                        t,
                        chunk_count as int,
                    ) by {}
                }
                r = r + 1;
                continue;
            }
            match self.find_free_run(bitmap_offset, region_chunks, chunk_count) {
                Some(start) => {
                    self.mark_bits(start, chunk_count, true);
                    let chunk_in_region = start - bitmap_offset;
                    proof {
                        assert(chunk_in_region < region_chunks);
                        lemma_mul_lt(chunk_in_region as int, region_chunks as int, self.chunk_size as int);
                        assert(regions[r as int].base + regions[r as int].chunk_count * self.chunk_size <= usize::MAX);
                    }
                    let addr = base + chunk_in_region * self.chunk_size;
                    proof {
                        lemma_count_after_mark(chunks, start as int, chunk_count as int, true);
                        lemma_count_used_free_run(chunks, start as int, start + chunk_count);
                        assert(chunks.len() == self.total_chunks);
                        let ri = r as int;
                        let si = start as int;
                        assert(is_first_fit(
                            chunks,
                            region_lo(regions[ri]),
                            region_hi(regions[ri]),
                            si,
                            chunk_count as int,
                        ));
                        assert(addr == regions[ri].base + (si - regions[ri].bitmap_offset) * self.chunk_size);
                        assert(self.chunks() == mark_range(chunks, si, chunk_count as int, true));
                        assert(self.spec_used() == old(self).spec_used() + chunk_count);
                        assert(forall|q: int|
                            0 <= q < ri ==> !#[trigger] has_run(
                                chunks,
                                region_lo(regions[q]),
                                region_hi(regions[q]),
                                chunk_count as int,
                            ));
                    }
                    let allocation = Allocation { ptr: addr, chunk_count, chunk_size: self.chunk_size };
                    proof {
                        assert(chunk_count == chunks_needed(bytes as int, old(self).spec_chunk_size()));
                        let ri = r as int;
                        let si = start as int;
                        let needed = chunks_needed(bytes as int, old(self).spec_chunk_size());
                        let oregions = old(self).regions_view();
                        let ochunks = old(self).chunks();
                        assert(oregions == regions && ochunks == chunks);
                        assert(is_first_fit(ochunks, region_lo(oregions[ri]), region_hi(oregions[ri]), si, needed));
                        assert(forall|q: int|
                            0 <= q < ri ==> !#[trigger] has_run(
                                ochunks,
                                region_lo(oregions[q]),
                                region_hi(oregions[q]),
                                needed,
                            ));
                        assert(allocation.ptr == oregions[ri].base + (si - oregions[ri].bitmap_offset) * old(self).spec_chunk_size());
                        assert(self.chunks() == mark_range(ochunks, si, needed, true));
                        let cs = self.chunk_size as int;
                        let cir = chunk_in_region as int;
                        let cc = chunk_count as int;
                        let rc = region_chunks as int;
                        assert(cir + cc <= rc);
                        assert((cir + cc) * cs <= rc * cs) by (nonlinear_arith)
                            requires cir + cc <= rc, cs > 0, cir >= 0, cc >= 0;
                        assert(cir * cs + cc * cs == (cir + cc) * cs) by (nonlinear_arith);
                        assert(cc * cs >= bytes) by (nonlinear_arith)
                            requires cs > 0, cc == (bytes + cs - 1) / cs, bytes >= 0;
                        assert((cir * cs) / cs == cir) by (nonlinear_arith)
                            requires cs > 0, cir >= 0;
                        assert(self.regions_view()[ri].base <= addr);
                        assert(self.in_one_region(addr as int, cc * cs));
                        if old(self).regions_disjoint() {
                            assert forall|q: int|
                                0 <= q < regions.len() && self.is_first_holder(q, addr as int) implies chunk_bit(
                                #[trigger] self.regions_view()[q],
                                self.spec_chunk_size(),
                                addr as int,
                            ) + cc <= self.spec_total_chunks() by {
                                if q != ri {
                                    assert(regions_apart(self.regions@[q], self.regions@[ri], cs));
                                    assert(region_contains(self.regions@[ri], cs, addr as int));
                                }
                            }
                        }
                    }
                    return Some(allocation);
                },
                None => {},
            }
            r = r + 1;
        }
        None
    }

    /// Gives back `chunk_count` chunks starting at the chunk that holds
    /// `ptr`, in the first region that holds it. Does nothing when no region
    /// holds `ptr`.
    pub fn deallocate(&mut self, ptr: usize, chunk_count: usize)
        requires
            old(self).wf(),
            forall|r: int|
                0 <= r < old(self).regions_view().len() && old(self).is_first_holder(r, ptr as int)
                    ==> chunk_bit(
                    #[trigger] old(self).regions_view()[r],
                    old(self).spec_chunk_size(),
                    ptr as int,
                ) + chunk_count <= old(self).spec_total_chunks(),
        ensures
            final(self).wf(),
            final(self).regions_view() == old(self).regions_view(),
            final(self).spec_chunk_size() == old(self).spec_chunk_size(),
            final(self).spec_total_chunks() == old(self).spec_total_chunks(),
            final(self).chunks().len() == final(self).spec_total_chunks(),
            ({
                let regions = old(self).regions_view();
                let chunks = old(self).chunks();
                let cs = old(self).spec_chunk_size();
                ||| (forall|r: int|
                    0 <= r < regions.len() ==> !#[trigger] region_contains(regions[r], cs, ptr as int))
                    && final(self).chunks() == chunks
                ||| exists|r: int|
                    {
                        &&& 0 <= r < regions.len()
                        &&& #[trigger] old(self).is_first_holder(r, ptr as int)
                        &&& final(self).chunks() == mark_range(
                            chunks,
                            chunk_bit(regions[r], cs, ptr as int),
                            chunk_count as int,
                            false,
                        )
                        &&& final(self).spec_used() == old(self).spec_used() - (count_used(
                            chunks,
                            chunk_bit(regions[r], cs, ptr as int) + chunk_count,
                        ) - count_used(chunks, chunk_bit(regions[r], cs, ptr as int)))
                    }
            }),
            old(self).released_to(*final(self), ptr as int, chunk_count as int),
    {
        let addr = ptr;
        let ghost chunks = self.chunks();
        let ghost regions = self.regions@;
        let mut r: usize = 0;
        while r < self.region_count
            invariant
                self.wf(),
                self.chunks() == chunks,
                self.regions@ == regions,
                self == old(self),
                old(self).regions_view() == regions,
                old(self).spec_chunk_size() == self.chunk_size,
                addr == ptr,
                0 <= r <= self.region_count,
                forall|q: int|
                    0 <= q < r ==> !#[trigger] region_contains(
                        old(self).regions_view()[q],
                        old(self).spec_chunk_size(),
                        ptr as int,
                    ),
                forall|r: int|
                    0 <= r < old(self).regions_view().len() && old(self).is_first_holder(r, ptr as int)
                        ==> chunk_bit(
                        #[trigger] old(self).regions_view()[r],
                        old(self).spec_chunk_size(),
                        ptr as int,
                    ) + chunk_count <= old(self).spec_total_chunks(),
            decreases self.region_count - r,
        {
            let region = self.regions[r];
            let base = region.base;
            let region_chunks = region.chunk_count;
            let bitmap_offset = region.bitmap_offset;
            proof {
                assert(regions[r as int].base + regions[r as int].chunk_count * self.chunk_size <= usize::MAX);
            }
            let region_end = base + region_chunks * self.chunk_size;
            if addr >= base && addr < region_end {
                let chunk_in_region = (addr - base) / self.chunk_size;
                proof {
                    assert(old(self).regions_view()[r as int] == region);
                    assert(old(self).is_first_holder(r as int, ptr as int));
                    let rr = old(self).regions_view()[r as int];
                    assert(chunk_bit(rr, self.chunk_size as int, ptr as int) + chunk_count <= self.total_chunks);
                    assert((addr - base) as int / self.chunk_size as int >= 0) by (nonlinear_arith)
                        requires addr >= base, self.chunk_size > 0;
                }
                let bit_start = bitmap_offset + chunk_in_region;
                self.mark_bits(bit_start, chunk_count, false);
                proof {
                    lemma_count_after_mark(chunks, bit_start as int, chunk_count as int, false);
                    assert(old(self).is_first_holder(r as int, ptr as int));
                }
                return;
            }
            proof {
                assert(old(self).regions_view()[r as int] == region);
                assert(old(self).spec_chunk_size() == self.chunk_size);
                assert(!region_contains(old(self).regions_view()[r as int], old(self).spec_chunk_size(), ptr as int));
            }
            r = r + 1;
        }
    }

    /// Whether region `r` is the first region that holds `addr`.
    /// Whether `new` is this allocator after `count` chunks from `ptr` were
    /// given back: unchanged when no region holds `ptr`, else the chunks from
    /// `ptr`'s bit in the first region that holds it are free.
    pub open spec fn released_to(&self, new: Self, ptr: int, count: int) -> bool {
        let regions = self.regions_view();
        let cs = self.spec_chunk_size();
        &&& new.regions_view() == regions
        &&& new.spec_chunk_size() == cs
        &&& new.spec_total_chunks() == self.spec_total_chunks()
        &&& {
            ||| (forall|r: int| 0 <= r < regions.len() ==> !#[trigger] region_contains(regions[r], cs, ptr))
                && new.chunks() == self.chunks()
            ||| exists|r: int|
                {
                    &&& 0 <= r < regions.len()
                    &&& #[trigger] self.is_first_holder(r, ptr)
                    &&& new.chunks() == mark_range(self.chunks(), chunk_bit(regions[r], cs, ptr), count, false)
                }
        }
    }

    /// Whether `[ptr, ptr + len)` lies within the chunks of one region.
    pub open spec fn in_one_region(&self, ptr: int, len: int) -> bool {
        exists|r: int|
            0 <= r < self.regions_view().len() && (#[trigger] self.regions_view()[r]).base <= ptr
                && ptr + len <= self.regions_view()[r].base + self.regions_view()[r].chunk_count
                * self.spec_chunk_size()
    }

    /// Whether `count` chunks from `ptr` can be given back: in the first
    /// region that holds `ptr`, they end within the bitmap.
    pub open spec fn can_release(&self, ptr: int, count: int) -> bool {
        forall|r: int|
            0 <= r < self.regions_view().len() && self.is_first_holder(r, ptr) ==> chunk_bit(
                #[trigger] self.regions_view()[r],
                self.spec_chunk_size(),
                ptr,
            ) + count <= self.spec_total_chunks()
    }

    /// What `can_release` and `in_one_region` say depends only on the regions,
    /// the chunk size and the chunk count.
    pub proof fn lemma_layout_facts_stable(&self, other: &Self, ptr: int, count: int, len: int)
        requires
            self.regions_view() == other.regions_view(),
            self.spec_chunk_size() == other.spec_chunk_size(),
            self.spec_total_chunks() == other.spec_total_chunks(),
        ensures
            self.can_release(ptr, count) == other.can_release(ptr, count),
            self.in_one_region(ptr, len) == other.in_one_region(ptr, len),
    {
        assert(forall|r: int| self.is_first_holder(r, ptr) == other.is_first_holder(r, ptr));
    }

    pub open spec fn is_first_holder(&self, r: int, addr: int) -> bool {
        &&& region_contains(self.regions_view()[r], self.spec_chunk_size(), addr)
        &&& forall|q: int|
            0 <= q < r ==> !#[trigger] region_contains(
                self.regions_view()[q],
                self.spec_chunk_size(),
                addr,
            )
    }

    /// Number of chunks in use.
    pub fn used_chunks(&self) -> (count: usize)
        requires
            self.wf(),
        ensures
            count == self.spec_used(),
    {
        let mut count: usize = 0;
        let mut r: usize = 0;
        proof {
            self.lemma_regions_within();
        }
        while r < self.region_count
            invariant
                self.wf(),
                0 <= r <= self.region_count,
                r < self.region_count ==> count == count_used(
                    self.chunks(),
                    self.regions@[r as int].bitmap_offset as int,
                ),
                r == self.region_count ==> count == count_used(self.chunks(), self.total_chunks as int),
                forall|r: int|
                    0 <= r < self.region_count ==> #[trigger] self.regions@[r].bitmap_offset
                        + self.regions@[r].chunk_count <= self.total_chunks,
            decreases self.region_count - r,
        {
            let region = self.regions[r];
            let offset = region.bitmap_offset;
            let chunks = region.chunk_count;
            let mut i = offset;
            while i < offset + chunks
                invariant
                    self.wf(),
                    offset <= i <= offset + chunks,
                    offset + chunks <= self.total_chunks,
                    count == count_used(self.chunks(), i as int),
                decreases offset + chunks - i,
            {
                proof {
                    lemma_count_used_bound(self.chunks(), i as int);
                }
                if self.is_bit_set(i) {
                    count = count + 1;
                }
                i = i + 1;
            }
            proof {
                if r + 1 < self.region_count {
                    assert(self.regions@[r + 1].bitmap_offset == offset + chunks);
                }
            }
            r = r + 1;
        }
        count
    }

    /// Number of chunks not in use.
    pub fn free_chunks(&self) -> (count: usize)
        requires
            self.wf(),
        ensures
            count == self.spec_total_chunks() - self.spec_used(),
    {
        let used = self.used_chunks();
        proof {
            lemma_count_used_bound(self.chunks(), self.total_chunks as int);
        }
        self.total_chunks - used
    }

    /// Number of regions.
    pub fn region_count(&self) -> (count: usize)
        requires
            self.wf(),
        ensures
            count == self.regions_view().len(),
    {
        self.region_count
    }

    /// Size of one chunk in bytes.
    pub fn chunk_size(&self) -> (size: usize)
        ensures
            size == self.spec_chunk_size(),
    {
        self.chunk_size
    }
}

/// Giving back a run of chunks that an allocation claimed while it was
/// free leaves the chunk map as it was before the allocation.
pub proof fn lemma_release_undoes_claim(chunks: Seq<bool>, start: int, len: int)
    requires
        run_free(chunks, start, len),
    ensures
        mark_range(mark_range(chunks, start, len, true), start, len, false) == chunks,
{
    assert(mark_range(mark_range(chunks, start, len, true), start, len, false) =~= chunks);
}

} // verus!
