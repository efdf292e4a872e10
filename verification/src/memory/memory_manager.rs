use vstd::prelude::*;

use crate::memory::free_list_allocator::{
    allocated_as, deallocated_as, is_allocation, region_blocks, regions_acceptable, regions_disjoint, Block,
    FreeListAllocator,
    BLOCK_ALIGN,
};
use crate::memory::MemoryBlocks;

verus! {

/// One line of the memory report: a block's start, its end and its size in KiB.
#[derive(Copy, Clone)]
pub struct RegionReport {
    pub start: usize,
    pub end: usize,
    pub size_kb: usize,
}

/// The memory report: one line per block and the total in MiB.
pub struct ConfigReport {
    pub regions: Vec<RegionReport>,
    pub total_mb: usize,
}

/// The kernel's memory manager: a free-list allocator over the boot memory
/// blocks, with a count of the bytes handed out.
pub struct MemoryManager {
    allocator: Option<FreeListAllocator>,
    used: usize,
    is_setup: bool,
    memory_blocks: Option<MemoryBlocks>,
}

/// The first `count` blocks as `(start, size)` regions.
pub open spec fn block_regions(blocks: MemoryBlocks) -> Seq<(usize, usize)> {
    Seq::new(blocks.count as nat, |i: int| (blocks.blocks[i].start, blocks.blocks[i].size))
}

/// Sum of the sizes of the first `n` blocks.
pub open spec fn total_size(blocks: MemoryBlocks, n: int) -> int
    decreases n,
{
    if n <= 0 {
        0
    } else {
        total_size(blocks, n - 1) + blocks.blocks[n - 1].size
    }
}

/// Whether the boot memory blocks can be handed to `MemoryManager::bootstrap`.
pub open spec fn blocks_acceptable(blocks: MemoryBlocks) -> bool {
    &&& blocks.count <= 32
    &&& regions_acceptable(block_regions(blocks))
}

/// Whether `blocks` can be handed to `MemoryManager::bootstrap`.
pub fn can_bootstrap(blocks: &MemoryBlocks) -> (ok: bool)
    ensures
        ok == blocks_acceptable(*blocks),
{
    if blocks.count > 32 {
        return false;
    }
    let ghost rs = block_regions(*blocks);
    let n = blocks.count;
    let mut i: usize = 0;
    while i < n
        invariant
            n == blocks.count,
            n <= 32,
            rs == block_regions(*blocks),
            i <= n,
            forall|k: int| 0 <= k < i ==> #[trigger] rs[k].0 + rs[k].1 + 8 <= usize::MAX,
            forall|k: int, l: int|
                0 <= k < i && 0 <= l < n && k != l ==> regions_disjoint(#[trigger] rs[k], #[trigger] rs[l]),
        decreases n - i,
    {
        let a = blocks.blocks[i];
        if a.start > usize::MAX - 8 || a.size > usize::MAX - 8 - a.start {
            assert(!(rs[i as int].0 + rs[i as int].1 + 8 <= usize::MAX));
            return false;
        }
        let mut j: usize = 0;
        while j < n
            invariant
                n == blocks.count,
                n <= 32,
                rs == block_regions(*blocks),
                i < n,
                j <= n,
                a == blocks.blocks[i as int],
                a.start + a.size + 8 <= usize::MAX,
                forall|l: int| 0 <= l < j && l != i ==> regions_disjoint(rs[i as int], #[trigger] rs[l]),
            decreases n - j,
        {
            if j != i {
                let b = blocks.blocks[j];
                if !(a.start + a.size <= b.start || (b.start <= usize::MAX - b.size && b.start + b.size <= a.start)) {
                    assert(!regions_disjoint(rs[i as int], rs[j as int]));
                    return false;
                }
            }
            j = j + 1;
        }
        proof {
            assert forall|k: int, l: int|
                0 <= k < i + 1 && 0 <= l < n && k != l implies regions_disjoint(#[trigger] rs[k], #[trigger] rs[l]) by {
                if k == i {
                    assert(regions_disjoint(rs[i as int], rs[l]));
                }
            }
        }
        i = i + 1;
    }
    proof {
        assert forall|k: int, l: int|
            0 <= k < rs.len() && 0 <= l < rs.len() && k != l implies regions_disjoint(#[trigger] rs[k], #[trigger] rs[l]) by {
        }
    }
    true
}

impl MemoryManager {
    /// The allocator, once bootstrapped.
    pub closed spec fn spec_allocator(&self) -> Option<FreeListAllocator> {
        self.allocator
    }

    /// The bytes counted as handed out.
    pub closed spec fn spec_used(&self) -> usize {
        self.used
    }

    /// Whether `setup` ran.
    pub closed spec fn spec_is_setup(&self) -> bool {
        self.is_setup
    }

    /// The boot memory blocks, once bootstrapped.
    pub closed spec fn spec_memory_blocks(&self) -> Option<MemoryBlocks> {
        self.memory_blocks
    }

    /// Whether the allocator, if there is one, is well formed.
    pub open spec fn wf(&self) -> bool {
        self.spec_allocator() is Some ==> self.spec_allocator()->0.wf()
    }

    /// A manager with no memory yet, nothing used and not set up.
    pub fn new() -> (manager: Self)
        ensures
            manager.wf(),
            manager.spec_allocator() is None,
            manager.spec_used() == 0,
            !manager.spec_is_setup(),
            manager.spec_memory_blocks() is None,
    {
        MemoryManager { allocator: None, used: 0, is_setup: false, memory_blocks: None }
    }

    /// Takes the boot memory blocks and builds the allocator over them.
    pub fn bootstrap(&mut self, memory_blocks: &MemoryBlocks)
        requires
            blocks_acceptable(*memory_blocks),
        ensures
            final(self).wf(),
            final(self).spec_memory_blocks() == Some(*memory_blocks),
            final(self).spec_allocator() is Some,
            final(self).spec_allocator()->0.free_list() == region_blocks(
                block_regions(*memory_blocks),
                memory_blocks.count as int,
            ),
            final(self).spec_allocator()->0.allocated() == Seq::<Block>::empty(),
            final(self).spec_used() == old(self).spec_used(),
            final(self).spec_is_setup() == old(self).spec_is_setup(),
    {
        let mut regions: Vec<(usize, usize)> = Vec::new();
        let mut i: usize = 0;
        while i < memory_blocks.count
            invariant
                memory_blocks.count <= 32,
                i <= memory_blocks.count,
                regions@ == block_regions(*memory_blocks).take(i as int),
            decreases memory_blocks.count - i,
        {
            let block = memory_blocks.blocks[i];
            regions.push((block.start, block.size));
            i = i + 1;
        }
        assert(regions@ == block_regions(*memory_blocks));
        self.memory_blocks = Some(*memory_blocks);
        self.allocator = Some(FreeListAllocator::new(regions.as_slice()));
    }

    /// Records that the processor is set up, so that allocations from now on
    /// are made with its interrupts held off.
    pub fn setup(&mut self)
        ensures
            final(self).spec_is_setup(),
            final(self).spec_allocator() == old(self).spec_allocator(),
            final(self).spec_used() == old(self).spec_used(),
            final(self).spec_memory_blocks() == old(self).spec_memory_blocks(),
    {
        self.is_setup = true;
    }

    /// The bytes counted as handed out.
    pub fn used(&self) -> (used: usize)
        ensures
            used == self.spec_used(),
    {
        self.used
    }

    /// Whether an allocation must hold off interrupts: once set up, when
    /// they are enabled.
    pub fn guards_interrupts(&self, interrupts_enabled: bool) -> (guard: bool)
        ensures
            guard == (self.spec_is_setup() && interrupts_enabled),
    {
        self.is_setup && interrupts_enabled
    }

    /// Counts `size` bytes as used and serves them from the allocator: the
    /// allocation's address, or 0 when there is no room.
    pub fn allocate(&mut self, size: usize, align: usize) -> (ptr: usize)
        requires
            old(self).wf(),
            old(self).spec_allocator() is Some,
            size > 0 ==> align <= BLOCK_ALIGN,
            size + 15 <= usize::MAX,
        ensures
            final(self).wf(),
            final(self).spec_used() == vstd::wrapping::usize_specs::wrapping_add(old(self).spec_used(), size),
            counted(old(self).spec_used(), final(self).spec_used(), (true, size)),
            final(self).spec_allocator() is Some,
            final(self).spec_is_setup() == old(self).spec_is_setup(),
            final(self).spec_memory_blocks() == old(self).spec_memory_blocks(),
            ({
                let before = old(self).spec_allocator()->0;
                let after = final(self).spec_allocator()->0;
                allocated_as(before.free_list(), before.allocated(), after.free_list(), after.allocated(), size as int, ptr as int)
            }),
            ptr != 0 ==> ptr % 8 == 0,
    {
        self.used = self.used.wrapping_add(size);
        let mut allocator = self.allocator.take().unwrap();
        let ptr = allocator.allocate(size, align);
        self.allocator = Some(allocator);
        ptr
    }

    /// Gives back the allocation at `ptr` of `size` bytes and counts them
    /// as no longer used.
    pub fn dealloc(&mut self, ptr: usize, size: usize)
        requires
            old(self).wf(),
            old(self).spec_allocator() is Some,
            is_allocation(old(self).spec_allocator()->0.allocated(), ptr as int),
        ensures
            final(self).wf(),
            ({
                let before = old(self).spec_allocator()->0;
                let after = final(self).spec_allocator()->0;
                deallocated_as(before.free_list(), before.allocated(), after.free_list(), after.allocated(), ptr as int)
            }),
            final(self).spec_used() == vstd::wrapping::usize_specs::wrapping_sub(old(self).spec_used(), size),
            counted(old(self).spec_used(), final(self).spec_used(), (false, size)),
            final(self).spec_allocator() is Some,
            final(self).spec_is_setup() == old(self).spec_is_setup(),
            final(self).spec_memory_blocks() == old(self).spec_memory_blocks(),
    {
        let mut allocator = self.allocator.take().unwrap();
        allocator.deallocate(ptr);
        self.allocator = Some(allocator);
        self.used = self.used.wrapping_sub(size);
    }

    /// The figures of the memory report: each boot block's range and size in
    /// KiB, and the total size in MiB.
    pub fn print_config(&self) -> (report: ConfigReport)
        requires
            self.spec_memory_blocks() is Some,
            report_fits(self.spec_memory_blocks()->0),
        ensures
            is_report_of(report, self.spec_memory_blocks()->0),
    {
        let blocks = self.memory_blocks.unwrap();
        memory_report(&blocks)
    }
}

/// Whether the report of `blocks` can be computed: at most 32 blocks, each
/// within the address space, with a total that fits a machine word.
pub open spec fn report_fits(blocks: MemoryBlocks) -> bool {
    &&& blocks.count <= 32
    &&& forall|i: int| 0 <= i < blocks.count ==> #[trigger] blocks.blocks[i].start + blocks.blocks[i].size <= usize::MAX
    &&& total_size(blocks, blocks.count as int) <= usize::MAX
}

/// Whether `report` is the memory report of `blocks`: each block's range and
/// size in KiB, and the total size in MiB.
pub open spec fn is_report_of(report: ConfigReport, blocks: MemoryBlocks) -> bool {
    &&& report.regions@.len() == blocks.count
    &&& forall|i: int|
        0 <= i < blocks.count ==> {
            let b = #[trigger] blocks.blocks[i];
            &&& report.regions@[i].start == b.start
            &&& report.regions@[i].end == b.start + b.size
            &&& report.regions@[i].size_kb == b.size / 1024
        }
    &&& report.total_mb == total_size(blocks, blocks.count as int) / 0x10_0000int
}

/// Whether the memory report of `blocks` can be computed.
pub fn can_report(blocks: &MemoryBlocks) -> (ok: bool)
    ensures
        ok == report_fits(*blocks),
{
    if blocks.count > 32 {
        return false;
    }
    let mut total: usize = 0;
    let mut i: usize = 0;
    while i < blocks.count
        invariant
            blocks.count <= 32,
            i <= blocks.count,
            total == total_size(*blocks, i as int),
            forall|k: int| 0 <= k < i ==> #[trigger] blocks.blocks[k].start + blocks.blocks[k].size <= usize::MAX,
        decreases blocks.count - i,
    {
        let block = blocks.blocks[i];
        if block.start > usize::MAX - block.size {
            return false;
        }
        if total > usize::MAX - block.size {
            proof {
                lemma_total_size_monotone(*blocks, i as int + 1, blocks.count as int);
            }
            return false;
        }
        total = total + block.size;
        i = i + 1;
    }
    true
}

/// The memory report of the boot memory blocks.
pub fn memory_report(blocks: &MemoryBlocks) -> (report: ConfigReport)
    requires
        report_fits(*blocks),
    ensures
        is_report_of(report, *blocks),
{
    let mut regions: Vec<RegionReport> = Vec::new();
    let mut total: usize = 0;
    let mut i: usize = 0;
    while i < blocks.count
        invariant
            report_fits(*blocks),
            i <= blocks.count,
            total == total_size(*blocks, i as int),
            regions@.len() == i,
            forall|k: int|
                0 <= k < i ==> {
                    let b = #[trigger] blocks.blocks[k];
                    &&& regions@[k].start == b.start
                    &&& regions@[k].end == b.start + b.size
                    &&& regions@[k].size_kb == b.size / 1024
                },
        decreases blocks.count - i,
    {
        let block = blocks.blocks[i];
        proof {
            lemma_total_size_monotone(*blocks, i as int + 1, blocks.count as int);
        }
        regions.push(RegionReport { start: block.start, end: block.start + block.size, size_kb: block.size / 1024 });
        total = total + block.size;
        i = i + 1;
    }
    ConfigReport { regions, total_mb: total / (1024 * 1024) }
}

proof fn lemma_total_size_monotone(blocks: MemoryBlocks, i: int, n: int)
    requires
        0 <= i <= n,
    ensures
        total_size(blocks, i) <= total_size(blocks, n),
    decreases n - i,
{
    if i < n {
        lemma_total_size_monotone(blocks, i, n - 1);
    }
}

/// The used count after `changes`, starting from `used`: each change is an
/// allocation (`true`) or a release (`false`) of its bytes, counted as
/// `allocate` and `dealloc` count them, wrapping around.
pub open spec fn usage_after(used: usize, changes: Seq<(bool, usize)>) -> usize
    decreases changes.len(),
{
    if changes.len() == 0 {
        used
    } else {
        let u = usage_after(used, changes.drop_last());
        let (alloc, size) = changes.last();
        if alloc {
            vstd::wrapping::usize_specs::wrapping_add(u, size)
        } else {
            vstd::wrapping::usize_specs::wrapping_sub(u, size)
        }
    }
}

/// The bytes allocated minus the bytes released in `changes`.
pub open spec fn net_bytes(changes: Seq<(bool, usize)>) -> int
    decreases changes.len(),
{
    if changes.len() == 0 {
        0
    } else {
        let (alloc, size) = changes.last();
        net_bytes(changes.drop_last()) + if alloc { size as int } else { -(size as int) }
    }
}

/// The used count is the starting count plus the bytes allocated minus the
/// bytes released, modulo the size of the address space, after any sequence
/// of allocations and releases.
pub proof fn lemma_used_is_net_usage(used: usize, changes: Seq<(bool, usize)>)
    ensures
        usage_after(used, changes) as int == (used + net_bytes(changes)) % (usize::MAX as int + 1),
    decreases changes.len(),
{
    let r = usize::MAX as int + 1;
    if changes.len() == 0 {
        vstd::arithmetic::div_mod::lemma_small_mod(used as nat, r as nat);
    } else {
        let rest = changes.drop_last();
        lemma_used_is_net_usage(used, rest);
        let u = usage_after(used, rest) as int;
        let n = net_bytes(rest);
        let (alloc, size) = changes.last();
        let s = size as int;
        vstd::arithmetic::div_mod::lemma_small_mod(size as nat, r as nat);
        if alloc {
            vstd::arithmetic::div_mod::lemma_add_mod_noop(used + n, s, r);
            if u + s < r {
                vstd::arithmetic::div_mod::lemma_small_mod((u + s) as nat, r as nat);
            } else {
                vstd::arithmetic::div_mod::lemma_mod_sub_multiples_vanish(u + s, r);
                vstd::arithmetic::div_mod::lemma_small_mod((u + s - r) as nat, r as nat);
            }
            assert(used + net_bytes(changes) == used + n + s);
        } else {
            vstd::arithmetic::div_mod::lemma_sub_mod_noop(used + n, s, r);
            vstd::arithmetic::div_mod::lemma_small_mod(u as nat, r as nat);
            if u - s >= 0 {
                vstd::arithmetic::div_mod::lemma_small_mod((u - s) as nat, r as nat);
            } else {
                vstd::arithmetic::div_mod::lemma_mod_add_multiples_vanish(u - s, r);
                vstd::arithmetic::div_mod::lemma_small_mod((u - s + r) as nat, r as nat);
            }
            assert(used + net_bytes(changes) == used + n - s);
        }
    }
}

/// Whether the used count went from `before` to `after` as `allocate`
/// (`true`) or `dealloc` (`false`) of `change.1` bytes counts it.
pub open spec fn counted(before: usize, after: usize, change: (bool, usize)) -> bool {
    after == if change.0 {
        vstd::wrapping::usize_specs::wrapping_add(before, change.1)
    } else {
        vstd::wrapping::usize_specs::wrapping_sub(before, change.1)
    }
}

/// Over any sequence of `allocate` and `dealloc` calls on a manager, its
/// used count is the count it started with plus the bytes allocated minus
/// the bytes given back, modulo the size of the address space.
pub proof fn lemma_used_over_history(managers: Seq<MemoryManager>, changes: Seq<(bool, usize)>)
    requires
        managers.len() == changes.len() + 1,
        forall|i: int|
            0 <= i < changes.len() ==> #[trigger] counted(managers[i].spec_used(), managers[i + 1].spec_used(), changes[i]),
    ensures
        managers.last().spec_used() as int == (managers[0].spec_used() + net_bytes(changes)) % (usize::MAX as int + 1),
{
    lemma_usage_history(managers, changes);
    lemma_used_is_net_usage(managers[0].spec_used(), changes);
}

proof fn lemma_usage_history(managers: Seq<MemoryManager>, changes: Seq<(bool, usize)>)
    requires
        managers.len() == changes.len() + 1,
        forall|i: int|
            0 <= i < changes.len() ==> #[trigger] counted(managers[i].spec_used(), managers[i + 1].spec_used(), changes[i]),
    ensures
        managers.last().spec_used() == usage_after(managers[0].spec_used(), changes),
    decreases changes.len(),
{
    if changes.len() > 0 {
        let n = changes.len() - 1;
        let ms = managers.drop_last();
        let cs = changes.drop_last();
        assert forall|i: int| 0 <= i < cs.len() implies #[trigger] counted(ms[i].spec_used(), ms[i + 1].spec_used(), cs[i]) by {
            assert(counted(managers[i].spec_used(), managers[i + 1].spec_used(), changes[i]));
        }
        lemma_usage_history(ms, cs);
        assert(counted(managers[n].spec_used(), managers[n + 1].spec_used(), changes[n]));
        assert(ms.last() == managers[n]);
    }
}

/// Giving back an allocation of `size` bytes brings the used count back to
/// what it was before the allocation, also when the count wrapped around.
pub proof fn lemma_used_restored(used: usize, size: usize)
    ensures
        vstd::wrapping::usize_specs::wrapping_sub(vstd::wrapping::usize_specs::wrapping_add(used, size), size) == used,
{
}

} // verus!
