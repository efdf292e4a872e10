use std::collections::VecDeque;
use vstd::prelude::*;

verus! {

/// An unsigned integer type that indexes the slots of an arena.
pub trait IndexType: Copy + Sized {
    /// The value as a number.
    spec fn spec_value(&self) -> nat;

    /// The largest value of the type.
    spec fn spec_max() -> nat;

    proof fn lemma_value_bound(x: Self)
        ensures
            x.spec_value() <= Self::spec_max(),
            Self::spec_max() <= usize::MAX,
    ;

    /// The largest value of the type.
    fn max_value() -> (max: usize)
        ensures
            max == Self::spec_max(),
    ;

    /// `v` truncated to the type.
    fn from_usize(v: usize) -> (x: Self)
        ensures
            x.spec_value() == (v as nat) % (Self::spec_max() + 1),
    ;

    /// The value as a `usize`.
    fn as_usize(&self) -> (v: usize)
        ensures
            v == self.spec_value(),
    ;
}

/// An unsigned integer type that counts how often an arena slot was reused.
pub trait GenerationType: Copy + Sized {
    /// The value as a number.
    spec fn spec_value(&self) -> nat;

    /// The largest value of the type.
    spec fn spec_max() -> nat;

    proof fn lemma_value_bound(x: Self)
        ensures
            x.spec_value() <= Self::spec_max(),
    ;

    /// Zero, the generation of a fresh slot.
    fn zero() -> (g: Self)
        ensures
            g.spec_value() == 0,
    ;

    /// Whether two generations are equal.
    fn same(&self, other: &Self) -> (eq: bool)
        ensures
            eq == (self.spec_value() == other.spec_value()),
    ;

    /// The next generation.
    fn incremented(&self) -> (g: Self)
        requires
            self.spec_value() < Self::spec_max(),
        ensures
            g.spec_value() == self.spec_value() + 1,
    ;
}

impl IndexType for u8 {
    open spec fn spec_value(&self) -> nat {
        *self as nat
    }

    open spec fn spec_max() -> nat {
        u8::MAX as nat
    }

    proof fn lemma_value_bound(x: Self) {
    }

    fn max_value() -> (max: usize) {
        u8::MAX as usize
    }

    fn from_usize(v: usize) -> (x: Self) {
        let x = v as u8;
        assert(x == v % 256) by (bit_vector)
            requires x == v as u8;
        x
    }

    fn as_usize(&self) -> (v: usize) {
        *self as usize
    }
}

impl IndexType for u16 {
    open spec fn spec_value(&self) -> nat {
        *self as nat
    }

    open spec fn spec_max() -> nat {
        u16::MAX as nat
    }

    proof fn lemma_value_bound(x: Self) {
    }

    fn max_value() -> (max: usize) {
        u16::MAX as usize
    }

    fn from_usize(v: usize) -> (x: Self) {
        let x = v as u16;
        assert(x == v % 65536) by (bit_vector)
            requires x == v as u16;
        x
    }

    fn as_usize(&self) -> (v: usize) {
        *self as usize
    }
}

impl IndexType for u32 {
    open spec fn spec_value(&self) -> nat {
        *self as nat
    }

    open spec fn spec_max() -> nat {
        u32::MAX as nat
    }

    proof fn lemma_value_bound(x: Self) {
    }

    fn max_value() -> (max: usize) {
        u32::MAX as usize
    }

    fn from_usize(v: usize) -> (x: Self) {
        let x = v as u32;
        assert(x as u64 == (v as u64) % 0x1_0000_0000u64) by (bit_vector)
            requires x == v as u32;
        x
    }

    fn as_usize(&self) -> (v: usize) {
        *self as usize
    }
}

impl IndexType for usize {
    open spec fn spec_value(&self) -> nat {
        *self as nat
    }

    open spec fn spec_max() -> nat {
        usize::MAX as nat
    }

    proof fn lemma_value_bound(x: Self) {
    }

    fn max_value() -> (max: usize) {
        usize::MAX
    }

    fn from_usize(v: usize) -> (x: Self) {
        assert((v as nat) % (usize::MAX as nat + 1) == v) by (nonlinear_arith)
            requires v <= usize::MAX;
        v
    }

    fn as_usize(&self) -> (v: usize) {
        *self
    }
}

impl GenerationType for u8 {
    open spec fn spec_value(&self) -> nat {
        *self as nat
    }

    open spec fn spec_max() -> nat {
        u8::MAX as nat
    }

    proof fn lemma_value_bound(x: Self) {
    }

    fn zero() -> (g: Self) {
        0
    }

    fn same(&self, other: &Self) -> (eq: bool) {
        *self == *other
    }

    fn incremented(&self) -> (g: Self) {
        *self + 1
    }
}

impl GenerationType for u16 {
    open spec fn spec_value(&self) -> nat {
        *self as nat
    }

    open spec fn spec_max() -> nat {
        u16::MAX as nat
    }

    proof fn lemma_value_bound(x: Self) {
    }

    fn zero() -> (g: Self) {
        0
    }

    fn same(&self, other: &Self) -> (eq: bool) {
        *self == *other
    }

    fn incremented(&self) -> (g: Self) {
        *self + 1
    }
}

impl GenerationType for u32 {
    open spec fn spec_value(&self) -> nat {
        *self as nat
    }

    open spec fn spec_max() -> nat {
        u32::MAX as nat
    }

    proof fn lemma_value_bound(x: Self) {
    }

    fn zero() -> (g: Self) {
        0
    }

    fn same(&self, other: &Self) -> (eq: bool) {
        *self == *other
    }

    fn incremented(&self) -> (g: Self) {
        *self + 1
    }
}

impl GenerationType for u64 {
    open spec fn spec_value(&self) -> nat {
        *self as nat
    }

    open spec fn spec_max() -> nat {
        u64::MAX as nat
    }

    proof fn lemma_value_bound(x: Self) {
    }

    fn zero() -> (g: Self) {
        0
    }

    fn same(&self, other: &Self) -> (eq: bool) {
        *self == *other
    }

    fn incremented(&self) -> (g: Self) {
        *self + 1
    }
}

impl GenerationType for usize {
    open spec fn spec_value(&self) -> nat {
        *self as nat
    }

    open spec fn spec_max() -> nat {
        usize::MAX as nat
    }

    proof fn lemma_value_bound(x: Self) {
    }

    fn zero() -> (g: Self) {
        0
    }

    fn same(&self, other: &Self) -> (eq: bool) {
        *self == *other
    }

    fn incremented(&self) -> (g: Self) {
        *self + 1
    }
}

/// `n` empty slots.
pub open spec fn empty_slots<T>(n: nat) -> Seq<Option<T>> {
    Seq::new(n, |i: int| None::<T>)
}

/// `n` generations of zero.
pub open spec fn zero_gens(n: nat) -> Seq<nat> {
    Seq::new(n, |i: int| 0nat)
}

/// The slot numbers `start`, `start + 1`, ... (`n` of them).
pub open spec fn slot_range(start: nat, n: nat) -> Seq<nat> {
    Seq::new(n, |i: int| (start + i) as nat)
}

/// Names one item of an arena: its slot and the generation of the slot when
/// the item was added.
#[derive(Clone, Copy, Debug, PartialEq, Eq)]
pub struct Handle<I: IndexType, G: GenerationType> {
    pub index: I,
    pub generation: G,
}

impl<I: IndexType, G: GenerationType> Handle<I, G> {
    pub fn new(index: I, generation: G) -> (handle: Self)
        ensures
            handle.index == index,
            handle.generation == generation,
    {
        Self { index, generation }
    }
}

/// Whether two handles name the same slot under the same generation.
pub open spec fn same_handle<I: IndexType, G: GenerationType>(a: Handle<I, G>, b: Handle<I, G>) -> bool {
    &&& a.index.spec_value() == b.index.spec_value()
    &&& a.generation.spec_value() == b.generation.spec_value()
}

/// A call that changes an arena: `add` of an item, `remove` of a handle, or
/// a write of a value through what `borrow_mut` of a handle gave.
pub enum ArenaStep<T, I: IndexType, G: GenerationType> {
    Add(T),
    Remove(Handle<I, G>),
    Write(Handle<I, G>, T),
}

/// The item under `h` after `steps`, starting from `x`: the value of the last
/// write through a handle that is `h`, or `x` when there is none.
pub open spec fn written<T, I: IndexType, G: GenerationType>(x: T, steps: Seq<ArenaStep<T, I, G>>, h: Handle<I, G>) -> T
    decreases steps.len(),
{
    if steps.len() == 0 {
        x
    } else {
        match steps.last() {
            ArenaStep::Write(r, v) => if same_handle(r, h) {
                v
            } else {
                written(x, steps.drop_last(), h)
            },
            _ => written(x, steps.drop_last(), h),
        }
    }
}

/// Whether no step of `steps` removes `h`.
pub open spec fn never_removed<T, I: IndexType, G: GenerationType>(steps: Seq<ArenaStep<T, I, G>>, h: Handle<I, G>) -> bool {
    forall|i: int| 0 <= i < steps.len() ==> !(#[trigger] steps[i] matches ArenaStep::Remove(r) && same_handle(r, h))
}

/// Why an arena refused a request.
#[derive(Debug, PartialEq, Eq)]
pub enum Error {
    NotFound,
    OutOfMemory,
}

/// Slots that hold items, each with a generation that goes up whenever its
/// item is removed, so that a handle to a removed item no longer matches.
/// The invariant of an arena with these slots, generations and free slots.
pub closed spec fn arena_wf<T, I: IndexType, G: GenerationType>(items: Seq<Option<T>>, generations: Seq<G>, free_slots: Seq<I>) -> bool {
    &&& items.len() == generations.len()
    &&& items.len() <= I::spec_max()
    &&& items.len() * 2 <= usize::MAX
    &&& forall|k: int| 0 <= k < free_slots.len() ==> (#[trigger] free_slots[k]).spec_value() < items.len()
    &&& forall|k: int, l: int|
        0 <= k < l < free_slots.len() ==> (#[trigger] free_slots[k]).spec_value() != (#[trigger] free_slots[l]).spec_value()
    &&& forall|i: int|
        0 <= i < items.len() ==> (#[trigger] items[i] is None <==> exists|k: int|
            0 <= k < free_slots.len() && (#[trigger] free_slots[k]).spec_value() == i)
}

pub struct GenArena<T, I: IndexType, G: GenerationType> {
    items: Vec<Option<T>>,
    generations: Vec<G>,
    free_slots: VecDeque<I>,
}

impl<T, I: IndexType, G: GenerationType> GenArena<T, I, G> {
    /// What each slot holds.
    pub closed spec fn slots(&self) -> Seq<Option<T>> {
        self.items@
    }

    /// The generation of each slot.
    pub closed spec fn gens(&self) -> Seq<nat> {
        self.generations@.map(|i: int, g: G| g.spec_value())
    }

    /// The free slots, in the order in which `add` takes them.
    pub closed spec fn free(&self) -> Seq<nat> {
        self.free_slots@.map(|i: int, x: I| x.spec_value())
    }

    /// The item that `handle` names, if it names one.
    pub open spec fn lookup(&self, handle: Handle<I, G>) -> Option<T> {
        let i = handle.index.spec_value() as int;
        if 0 <= i < self.slots().len() && self.gens()[i] == handle.generation.spec_value() {
            self.slots()[i]
        } else {
            None
        }
    }

    /// The arena's invariant: one generation per slot, the free slots are
    /// exactly the empty ones and each is listed once, and the slot count
    /// stays within the index type.
    pub closed spec fn wf(&self) -> bool {
        arena_wf(self.items@, self.generations@, self.free_slots@)
    }

    /// Whether `after` is what `step` leaves of `self`, as `add`, `remove`
    /// and `borrow_mut` state it: no generation goes down; an add keeps every
    /// item; a remove of a live handle frees its slot under the next
    /// generation and keeps the other items; a write through a live handle
    /// replaces its item and keeps the others.
    pub open spec fn steps_to(&self, after: &Self, step: ArenaStep<T, I, G>) -> bool {
        &&& self.gens_grow(after)
        &&& match step {
            ArenaStep::Add(_) => forall|h: Handle<I, G>|
                self.lookup(h) is Some ==> #[trigger] after.lookup(h) == self.lookup(h),
            ArenaStep::Remove(r) => {
                &&& after.lookup(r) is None
                &&& self.lookup(r) is Some ==> after.gens()[r.index.spec_value() as int] == r.generation.spec_value() + 1
                &&& forall|h: Handle<I, G>| !same_handle(h, r) ==> #[trigger] after.lookup(h) == self.lookup(h)
            },
            ArenaStep::Write(r, v) => {
                &&& after.lookup(r) == if self.lookup(r) is Some { Some(v) } else { None }
                &&& forall|h: Handle<I, G>| !same_handle(h, r) ==> #[trigger] after.lookup(h) == self.lookup(h)
            },
        }
    }

    /// A handle that is never removed keeps naming its item over any
    /// sequence of adds, removes and writes: the item as added, or as last
    /// written through it.
    pub proof fn lemma_live_handle_history(arenas: Seq<Self>, steps: Seq<ArenaStep<T, I, G>>, h: Handle<I, G>, x: T)
        requires
            arenas.len() == steps.len() + 1,
            arenas[0].lookup(h) == Some(x),
            never_removed(steps, h),
            forall|i: int| 0 <= i < steps.len() ==> #[trigger] arenas[i].steps_to(&arenas[i + 1], steps[i]),
        ensures
            arenas.last().lookup(h) == Some(written(x, steps, h)),
        decreases steps.len(),
    {
        if steps.len() > 0 {
            let n = steps.len() - 1;
            let a = arenas.drop_last();
            let s = steps.drop_last();
            assert forall|i: int| 0 <= i < s.len() implies #[trigger] a[i].steps_to(&a[i + 1], s[i]) by {
                assert(arenas[i].steps_to(&arenas[i + 1], steps[i]));
            }
            assert forall|i: int| 0 <= i < s.len() implies !(#[trigger] s[i] matches ArenaStep::Remove(r) && same_handle(r, h)) by {
                assert(!(steps[i] matches ArenaStep::Remove(r) && same_handle(r, h)));
            }
            Self::lemma_live_handle_history(a, s, h, x);
            assert(a.last() == arenas[n]);
            assert(arenas[n].steps_to(&arenas[n + 1], steps[n]));
            assert(!(steps[n] matches ArenaStep::Remove(r) && same_handle(r, h)));
            match steps[n] {
                ArenaStep::Write(r, v) => {
                    if same_handle(r, h) {
                        assert(arenas[n].lookup(r) == arenas[n].lookup(h));
                        assert(arenas[n + 1].lookup(r) == arenas[n + 1].lookup(h));
                    }
                },
                _ => {},
            }
        }
    }

    /// A removed handle never resolves again over any sequence of adds,
    /// removes and writes, even where an add reuses its slot: once a remove
    /// has moved its slot's generation past it, every later lookup of it
    /// finds nothing.
    pub proof fn lemma_removed_handle_history(arenas: Seq<Self>, steps: Seq<ArenaStep<T, I, G>>, h: Handle<I, G>)
        requires
            arenas.len() == steps.len() + 1,
            (h.index.spec_value() as int) < arenas[0].gens().len(),
            arenas[0].gens()[h.index.spec_value() as int] > h.generation.spec_value(),
            forall|i: int| 0 <= i < steps.len() ==> #[trigger] arenas[i].steps_to(&arenas[i + 1], steps[i]),
        ensures
            forall|k: int| 0 <= k < arenas.len() ==> (#[trigger] arenas[k]).lookup(h) is None,
    {
        assert forall|k: int| 0 <= k < arenas.len() implies (#[trigger] arenas[k]).lookup(h) is None by {
            Self::lemma_gens_grow_history(arenas, steps, k);
            Self::lemma_removed_handle_stays_gone(&arenas[0], &arenas[k], h);
        }
    }

    /// After a remove of a live handle, its slot's generation is past it.
    pub proof fn lemma_remove_makes_stale(before: &Self, after: &Self, h: Handle<I, G>)
        requires
            before.wf(),
            before.lookup(h) is Some,
            before.steps_to(after, ArenaStep::Remove(h)),
        ensures
            (h.index.spec_value() as int) < after.gens().len(),
            after.gens()[h.index.spec_value() as int] > h.generation.spec_value(),
    {
    }

    /// Generations never go down over a sequence of steps.
    proof fn lemma_gens_grow_history(arenas: Seq<Self>, steps: Seq<ArenaStep<T, I, G>>, k: int)
        requires
            arenas.len() == steps.len() + 1,
            0 <= k < arenas.len(),
            forall|i: int| 0 <= i < steps.len() ==> #[trigger] arenas[i].steps_to(&arenas[i + 1], steps[i]),
        ensures
            arenas[0].gens_grow(&arenas[k]),
        decreases k,
    {
        if k > 0 {
            Self::lemma_gens_grow_history(arenas, steps, k - 1);
            let j = k - 1;
            assert(arenas[j].steps_to(&arenas[j + 1], steps[j]));
            assert(arenas[j + 1] == arenas[k]);
            Self::lemma_gens_grow_trans(&arenas[0], &arenas[j], &arenas[k]);
        }
    }

    /// Whether `later` has at least the slots of `self` and no slot's
    /// generation went down: what every change of an arena keeps.
    pub open spec fn gens_grow(&self, later: &Self) -> bool {
        &&& later.gens().len() >= self.gens().len()
        &&& forall|i: int| 0 <= i < self.gens().len() ==> #[trigger] later.gens()[i] >= self.gens()[i]
    }

    /// Generations that never went down stay that way over several changes.
    pub proof fn lemma_gens_grow_trans(a: &Self, b: &Self, c: &Self)
        requires
            a.gens_grow(b),
            b.gens_grow(c),
        ensures
            a.gens_grow(c),
    {
        assert forall|i: int| 0 <= i < a.gens().len() implies #[trigger] c.gens()[i] >= a.gens()[i] by {
            assert(b.gens()[i] >= a.gens()[i]);
        }
    }

    /// A removed handle never resolves again: once the generation of its
    /// slot has moved past the handle's, as `remove` leaves it, no later
    /// state reached by `add`, `remove` and `borrow_mut` finds an item
    /// under it, even where a later `add` reuses the slot.
    pub proof fn lemma_removed_handle_stays_gone(removed: &Self, later: &Self, handle: Handle<I, G>)
        requires
            (handle.index.spec_value() as int) < removed.gens().len(),
            removed.gens()[handle.index.spec_value() as int] > handle.generation.spec_value(),
            removed.gens_grow(later),
        ensures
            later.lookup(handle) is None,
            later.gens()[handle.index.spec_value() as int] > handle.generation.spec_value(),
    {
        assert(later.gens()[handle.index.spec_value() as int] >= removed.gens()[handle.index.spec_value() as int]);
    }

    /// Number of slots after `add` has grown a full arena.
    pub open spec fn grown_len(&self) -> int {
        let len = self.slots().len() as int;
        if self.free().len() > 0 {
            len
        } else if 2 * len < I::spec_max() {
            2 * len
        } else {
            I::spec_max() as int
        }
    }

    /// The slots, also after growing, stay within the index type.
    pub proof fn lemma_slots_bound(&self)
        requires
            self.wf(),
        ensures
            self.slots().len() <= I::spec_max(),
            self.grown_len() <= I::spec_max(),
            self.gens().len() == self.slots().len(),
    {
    }

    /// A free slot holds no item.
    pub proof fn lemma_free_slot_empty(&self, k: int)
        requires
            self.wf(),
            0 <= k < self.free().len(),
        ensures
            self.free()[k] < self.slots().len(),
            self.slots()[self.free()[k] as int] is None,
    {
        let i = self.free_slots@[k].spec_value() as int;
        assert(self.free()[k] == i);
        if self.items@[i] is Some {
            assert(!(exists|m: int| 0 <= m < self.free_slots@.len() && (#[trigger] self.free_slots@[m]).spec_value() == i));
        }
    }

    /// An arena with `initial_capacity` empty slots of generation zero.
    pub fn new(initial_capacity: usize) -> (arena: Self)
        requires
            initial_capacity <= I::spec_max(),
            initial_capacity * 2 <= usize::MAX,
        ensures
            arena.wf(),
            arena.slots() == Seq::new(initial_capacity as nat, |i: int| None::<T>),
            arena.gens() == Seq::new(initial_capacity as nat, |i: int| 0nat),
            arena.free() == Seq::new(initial_capacity as nat, |i: int| i as nat),
    {
        let capacity = I::max_value();
        let mut items: Vec<Option<T>> = Vec::with_capacity(initial_capacity);
        let mut generations: Vec<G> = Vec::with_capacity(initial_capacity);
        let mut free_slots: VecDeque<I> = VecDeque::with_capacity(initial_capacity);
        let mut slot: usize = 0;
        while slot < initial_capacity
            invariant
                slot <= initial_capacity,
                capacity == I::spec_max(),
                initial_capacity <= I::spec_max(),
                items@.len() == slot,
                generations@.len() == slot,
                free_slots@.len() == slot,
                forall|i: int| 0 <= i < slot ==> (#[trigger] items@[i]) is None,
                forall|i: int| 0 <= i < slot ==> (#[trigger] generations@[i]).spec_value() == 0,
                forall|i: int| 0 <= i < slot ==> (#[trigger] free_slots@[i]).spec_value() == i,
            decreases initial_capacity - slot,
        {
            items.push(None);
            generations.push(G::zero());
            let index = I::from_usize(slot);
            assert(index.spec_value() == slot) by {
                assert(slot < I::spec_max() + 1);
                assert((slot as nat) % (I::spec_max() + 1) == slot) by (nonlinear_arith)
                    requires slot < I::spec_max() + 1;
            }
            free_slots.push_back(index);
            slot = slot + 1;
        }
        let arena = Self { items, generations, free_slots };
        proof {
            assert(arena.slots() =~= Seq::new(initial_capacity as nat, |i: int| None::<T>));
            assert(arena.gens() =~= Seq::new(initial_capacity as nat, |i: int| 0nat));
            assert(arena.free() =~= Seq::new(initial_capacity as nat, |i: int| i as nat));
            assert forall|i: int| 0 <= i < arena.items@.len() implies (#[trigger] arena.items@[i]
                is None <==> exists|k: int|
                0 <= k < arena.free_slots@.len() && (#[trigger] arena.free_slots@[k]).spec_value()
                    == i) by {
                assert(arena.free_slots@[i].spec_value() == i);
            }
        }
        arena
    }

    /// Stores `item` in the first free slot, growing a full arena first to
    /// twice its slots (at most the largest index). Fails with `OutOfMemory`
    /// when the arena is full and cannot grow.
    pub fn add(&mut self, item: T) -> (result: Result<Handle<I, G>, Error>)
        requires
            old(self).wf(),
            old(self).free().len() > 0 || old(self).slots().len() > 0,
            old(self).grown_len() * 2 <= usize::MAX,
        ensures
            final(self).wf(),
            old(self).gens_grow(&*final(self)),
            old(self).steps_to(&*final(self), ArenaStep::Add(item)),
            match result {
                Err(e) => {
                    &&& e == Error::OutOfMemory
                    &&& old(self).free().len() == 0
                    &&& old(self).slots().len() >= I::spec_max()
                    &&& final(self).slots() == old(self).slots()
                    &&& final(self).gens() == old(self).gens()
                    &&& final(self).free() == old(self).free()
                },
                Ok(h) => {
                    let len = old(self).slots().len() as int;
                    let n = old(self).grown_len();
                    let idx = if old(self).free().len() > 0 {
                        old(self).free()[0] as int
                    } else {
                        len
                    };
                    &&& old(self).free().len() > 0 || len < I::spec_max()
                    &&& 0 <= idx < n
                    &&& h.index.spec_value() == idx
                    &&& final(self).slots() == (old(self).slots() + empty_slots::<T>(
                        (n - len) as nat,
                    )).update(idx, Some(item))
                    &&& final(self).gens() == old(self).gens() + zero_gens((n - len) as nat)
                    &&& h.generation.spec_value() == final(self).gens()[idx]
                    &&& final(self).free() == (old(self).free() + slot_range(len as nat, (n - len) as nat)).drop_first()
                    &&& final(self).lookup(h) == Some(item)
                    &&& forall|other: Handle<I, G>|
                        old(self).lookup(other) is Some ==> #[trigger] final(self).lookup(other)
                            == old(self).lookup(other)
                },
            },
    {
        let ghost len = self.items@.len() as int;
        if self.free_slots.len() == 0 {
            let increment = self.generations.len();
            if increment >= I::max_value() {
                return Err(Error::OutOfMemory);
            }
            let doubled = increment + increment;
            let max = I::max_value();
            let new_size = if doubled < max { doubled } else { max };
            let ghost n = new_size as int;
            assert(n == self.grown_len());
            let mut i = increment;
            while i < new_size
                invariant
                    increment <= i <= new_size,
                    new_size <= I::spec_max(),
                    new_size * 2 <= usize::MAX,
                    increment == len,
                    n == new_size,
                    self.items@.len() == i,
                    self.generations@.len() == i,
                    self.free_slots@.len() == i - increment,
                    self.items@ == old(self).items@ + empty_slots::<T>((i - len) as nat),
                    self.gens() == old(self).gens() + zero_gens((i - len) as nat),
                    self.free() == old(self).free() + slot_range(len as nat, (i - len) as nat),
                    old(self).free().len() == 0,
                    old(self).items@.len() == len,
                    old(self).gens().len() == len,
                decreases new_size - i,
            {
                let ghost before_gens = self.gens();
                let ghost before_free = self.free();
                self.items.push(None);
                self.generations.push(G::zero());
                let index = I::from_usize(i);
                assert(index.spec_value() == i) by {
                    assert((i as nat) % (I::spec_max() + 1) == i) by (nonlinear_arith)
                        requires i < I::spec_max() + 1;
                }
                self.free_slots.push_back(index);
                proof {
                    assert(self.gens() =~= before_gens.push(0nat));
                    assert(self.free() =~= before_free.push(i as nat));
                    assert(self.items@ =~= old(self).items@ + empty_slots::<T>((i + 1 - len) as nat));
                    assert(self.gens() =~= old(self).gens() + zero_gens((i + 1 - len) as nat));
                    assert(self.free() =~= old(self).free() + slot_range(len as nat, (i + 1 - len) as nat));
                }
                i = i + 1;
            }
            proof {
                assert forall|k: int| 0 <= k < self.free_slots@.len() implies (#[trigger] self.free_slots@[k]).spec_value()
                    < self.items@.len() by {
                    assert(self.free()[k] == self.free_slots@[k].spec_value());
                }
                assert forall|k: int, l: int| 0 <= k < l < self.free_slots@.len() implies (#[trigger] self.free_slots@[k]).spec_value()
                    != (#[trigger] self.free_slots@[l]).spec_value() by {
                    assert(self.free()[k] == self.free_slots@[k].spec_value());
                    assert(self.free()[l] == self.free_slots@[l].spec_value());
                }
                assert forall|j: int| 0 <= j < self.items@.len() implies (#[trigger] self.items@[j] is None <==> exists|k: int|
                    0 <= k < self.free_slots@.len() && (#[trigger] self.free_slots@[k]).spec_value() == j) by {
                    if j >= len {
                        assert(self.free()[j - len] == self.free_slots@[j - len].spec_value());
                    } else {
                        assert(old(self).items@[j] is None <==> exists|k: int|
                            0 <= k < old(self).free_slots@.len() && (#[trigger] old(self).free_slots@[k]).spec_value() == j);
                        if exists|k: int| 0 <= k < self.free_slots@.len() && (#[trigger] self.free_slots@[k]).spec_value() == j {
                            let k = choose|k: int| 0 <= k < self.free_slots@.len() && (#[trigger] self.free_slots@[k]).spec_value() == j;
                            assert(self.free()[k] == self.free_slots@[k].spec_value());
                        }
                    }
                }
            }
        }
        let ghost mid = *self;
        proof {
            assert(mid.free().len() > 0);
        }
        let index = self.free_slots.pop_front().unwrap();
        let slot = index.as_usize();
        proof {
            assert(mid.free()[0] == index.spec_value());
            assert(slot < self.items@.len());
        }
        let generation = self.generations[slot];
        self.items.set(slot, Some(item));
        proof {
            assert(self.free() =~= mid.free().drop_first());
            assert forall|k: int| 0 <= k < self.free_slots@.len() implies (#[trigger] self.free_slots@[k]).spec_value()
                < self.items@.len() by {
                assert(self.free_slots@[k] == mid.free_slots@[k + 1]);
            }
            assert forall|k: int, l: int| 0 <= k < l < self.free_slots@.len() implies (#[trigger] self.free_slots@[k]).spec_value()
                != (#[trigger] self.free_slots@[l]).spec_value() by {
                assert(self.free_slots@[k] == mid.free_slots@[k + 1]);
                assert(self.free_slots@[l] == mid.free_slots@[l + 1]);
            }
            assert forall|j: int| 0 <= j < self.items@.len() implies (#[trigger] self.items@[j] is None <==> exists|k: int|
                0 <= k < self.free_slots@.len() && (#[trigger] self.free_slots@[k]).spec_value() == j) by {
                assert(mid.items@[j] is None <==> exists|k: int|
                    0 <= k < mid.free_slots@.len() && (#[trigger] mid.free_slots@[k]).spec_value() == j);
                if exists|k: int| 0 <= k < self.free_slots@.len() && (#[trigger] self.free_slots@[k]).spec_value() == j {
                    let k = choose|k: int| 0 <= k < self.free_slots@.len() && (#[trigger] self.free_slots@[k]).spec_value() == j;
                    assert(self.free_slots@[k] == mid.free_slots@[k + 1]);
                    assert(mid.free_slots@[0].spec_value() != mid.free_slots@[k + 1].spec_value());
                }
                if j != slot && mid.items@[j] is None {
                    let k = choose|k: int| 0 <= k < mid.free_slots@.len() && (#[trigger] mid.free_slots@[k]).spec_value() == j;
                    assert(k != 0);
                    assert(self.free_slots@[k - 1] == mid.free_slots@[k]);
                }
            }
        }
        Ok(Handle::new(index, generation))
    }

    /// The item that `handle` names; `NotFound` when the slot's generation
    /// is not the handle's.
    pub fn borrow(&self, handle: Handle<I, G>) -> (result: Result<&T, Error>)
        requires
            self.wf(),
            handle.index.spec_value() < self.slots().len(),
            self.gens()[handle.index.spec_value() as int] == handle.generation.spec_value()
                ==> self.slots()[handle.index.spec_value() as int] is Some,
        ensures
            match result {
                Ok(item) => self.lookup(handle) == Some(*item),
                Err(e) => e == Error::NotFound && self.lookup(handle) is None,
            },
    {
        let slot = handle.index.as_usize();
        if self.generations[slot].same(&handle.generation) {
            return Ok(self.items[slot].as_ref().unwrap());
        }
        Err(Error::NotFound)
    }

    /// The item that `handle` names, for writing; `NotFound` when the slot's
    /// generation is not the handle's.
    pub fn borrow_mut(&mut self, handle: Handle<I, G>) -> (result: Result<&mut T, Error>)
        requires
            old(self).wf(),
            handle.index.spec_value() < old(self).slots().len(),
            old(self).gens()[handle.index.spec_value() as int] == handle.generation.spec_value()
                ==> old(self).slots()[handle.index.spec_value() as int] is Some,
        ensures
            final(self).wf(),
            old(self).gens_grow(&*final(self)),
            final(self).gens() == old(self).gens(),
            final(self).free() == old(self).free(),
            final(self).slots().len() == old(self).slots().len(),
            forall|i: int| 0 <= i < old(self).slots().len() ==> (#[trigger] final(self).slots()[i] is Some) == (old(self).slots()[i] is Some),
            old(self).wf() ==> old(self).same_shape(*final(self)),
            match result {
                Ok(item) => {
                    &&& old(self).lookup(handle) == Some(*item)
                    &&& final(self).slots() == old(self).slots().update(
                        handle.index.spec_value() as int,
                        Some(*final(item)),
                    )
                    &&& old(self).steps_to(&*final(self), ArenaStep::Write(handle, *final(item)))
                },
                Err(e) => {
                    &&& e == Error::NotFound
                    &&& old(self).lookup(handle) is None
                    &&& final(self).slots() == old(self).slots()
                    &&& forall|v: T| #[trigger] old(self).steps_to(&*final(self), ArenaStep::Write(handle, v))
                },
            },
    {
        let slot = handle.index.as_usize();
        if self.generations[slot].same(&handle.generation) {
            proof {
                let items = self.items@;
                assert forall|x: T| #[trigger] arena_wf(items.update(slot as int, Some(x)), self.generations@, self.free_slots@) by {
                    let items2 = items.update(slot as int, Some(x));
                    assert forall|i: int|
                        0 <= i < items2.len() implies (#[trigger] items2[i] is None <==> exists|k: int|
                            0 <= k < self.free_slots@.len() && (#[trigger] self.free_slots@[k]).spec_value() == i) by {
                        if i != slot {
                            assert(items2[i] == items[i]);
                        }
                    }
                }
            }
            return Ok(self.items[slot].as_mut().unwrap());
        }
        Err(Error::NotFound)
    }

    /// Whether `other` has the same generations, free slots and occupied
    /// slots as `self`, whatever the items are.
    pub closed spec fn same_shape(&self, other: Self) -> bool {
        &&& other.generations@ == self.generations@
        &&& other.free_slots@ == self.free_slots@
        &&& other.items@.len() == self.items@.len()
        &&& forall|i: int| 0 <= i < self.items@.len() ==> (#[trigger] other.items@[i] is Some) == (self.items@[i] is Some)
    }

    /// Writing through `borrow_mut` keeps the arena's invariant.
    pub proof fn lemma_same_shape_wf(&self, other: Self)
        requires
            self.wf(),
            self.same_shape(other),
        ensures
            other.wf(),
    {
        assert forall|j: int| 0 <= j < other.items@.len() implies (#[trigger] other.items@[j] is None <==> exists|k: int|
            0 <= k < other.free_slots@.len() && (#[trigger] other.free_slots@[k]).spec_value() == j) by {
            assert(self.items@[j] is None <==> exists|k: int|
                0 <= k < self.free_slots@.len() && (#[trigger] self.free_slots@[k]).spec_value() == j);
        }
    }

    /// Number of slots.
    pub fn slot_count(&self) -> (n: usize)
        ensures
            n == self.slots().len(),
    {
        self.items.len()
    }

    /// Number of free slots.
    pub fn free_count(&self) -> (n: usize)
        ensures
            n == self.free().len(),
    {
        self.free_slots.len()
    }

    /// Whether `handle` names an item.
    pub fn contains(&self, handle: Handle<I, G>) -> (found: bool)
        requires
            self.wf(),
        ensures
            found == self.lookup(handle) is Some,
    {
        let slot = handle.index.as_usize();
        if slot < self.items.len() && self.generations[slot].same(&handle.generation) {
            self.items[slot].is_some()
        } else {
            false
        }
    }

    /// Takes out the item that `handle` names and frees its slot under the
    /// next generation; `NotFound` when the slot's generation is not the
    /// handle's.
    pub fn remove(&mut self, handle: Handle<I, G>) -> (result: Result<T, Error>)
        requires
            old(self).wf(),
            handle.index.spec_value() < old(self).slots().len(),
            old(self).gens()[handle.index.spec_value() as int] == handle.generation.spec_value()
                ==> old(self).slots()[handle.index.spec_value() as int] is Some
                && handle.generation.spec_value() < G::spec_max(),
        ensures
            final(self).wf(),
            old(self).gens_grow(&*final(self)),
            old(self).steps_to(&*final(self), ArenaStep::Remove(handle)),
            match result {
                Ok(item) => {
                    let i = handle.index.spec_value() as int;
                    &&& old(self).lookup(handle) == Some(item)
                    &&& final(self).slots() == old(self).slots().update(i, None)
                    &&& final(self).gens() == old(self).gens().update(i, old(self).gens()[i] + 1)
                    &&& final(self).free() == old(self).free().push(i as nat)
                    &&& final(self).lookup(handle) is None
                    &&& forall|other: Handle<I, G>|
                        other.index.spec_value() != i ==> #[trigger] final(self).lookup(other)
                            == old(self).lookup(other)
                },
                Err(e) => {
                    &&& e == Error::NotFound
                    &&& old(self).lookup(handle) is None
                    &&& final(self).slots() == old(self).slots()
                    &&& final(self).gens() == old(self).gens()
                    &&& final(self).free() == old(self).free()
                },
            },
    {
        let slot = handle.index.as_usize();
        if handle.generation.same(&self.generations[slot]) {
            let ghost before = *self;
            let item = self.items[slot].take().unwrap();
            let next = handle.generation.incremented();
            self.generations.set(slot, next);
            self.free_slots.push_back(handle.index);
            proof {
                assert(self.items@ =~= before.items@.update(slot as int, None));
                assert(self.gens() =~= before.gens().update(slot as int, before.gens()[slot as int] + 1));
                assert(self.free() =~= before.free().push(slot as nat));
                assert(before.items@[slot as int] is Some);
                assert forall|k: int| 0 <= k < self.free_slots@.len() implies (#[trigger] self.free_slots@[k]).spec_value()
                    < self.items@.len() by {
                    if k < before.free_slots@.len() {
                        assert(self.free_slots@[k] == before.free_slots@[k]);
                    }
                }
                assert forall|k: int, l: int| 0 <= k < l < self.free_slots@.len() implies (#[trigger] self.free_slots@[k]).spec_value()
                    != (#[trigger] self.free_slots@[l]).spec_value() by {
                    assert(self.free_slots@[k] == before.free_slots@[k]);
                    if l < before.free_slots@.len() {
                        assert(self.free_slots@[l] == before.free_slots@[l]);
                    } else {
                        assert(!(before.items@[slot as int] is None));
                    }
                }
                assert forall|j: int| 0 <= j < self.items@.len() implies (#[trigger] self.items@[j] is None <==> exists|k: int|
                    0 <= k < self.free_slots@.len() && (#[trigger] self.free_slots@[k]).spec_value() == j) by {
                    assert(before.items@[j] is None <==> exists|k: int|
                        0 <= k < before.free_slots@.len() && (#[trigger] before.free_slots@[k]).spec_value() == j);
                    if j == slot {
                        assert(self.free_slots@[before.free_slots@.len() as int].spec_value() == j);
                    } else {
                        if exists|k: int| 0 <= k < self.free_slots@.len() && (#[trigger] self.free_slots@[k]).spec_value() == j {
                            let k = choose|k: int| 0 <= k < self.free_slots@.len() && (#[trigger] self.free_slots@[k]).spec_value() == j;
                            assert(k < before.free_slots@.len());
                            assert(self.free_slots@[k] == before.free_slots@[k]);
                        }
                        if before.items@[j] is None {
                            let k = choose|k: int| 0 <= k < before.free_slots@.len() && (#[trigger] before.free_slots@[k]).spec_value() == j;
                            assert(self.free_slots@[k] == before.free_slots@[k]);
                        }
                    }
                }
            }
            Ok(item)
        } else {
            Err(Error::NotFound)
        }
    }
}

} // verus!
