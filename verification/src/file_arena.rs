use vstd::prelude::*;

use crate::generic_arena::{GenArena, Handle};

verus! {

/// Names an open file: its slot and the generation of the slot when the
/// file was opened.
#[derive(Copy, Clone, Debug, PartialEq, Eq)]
pub struct FileHandle {
    pub index: u8,
    pub generation: u8,
}

/// The number by which a task knows a file.
#[derive(Copy, Clone, Debug, PartialEq, Eq)]
pub struct FileDescriptor(pub u64);

/// Why the arena refused a request.
#[derive(Debug, PartialEq, Eq)]
pub enum Error {
    FileNotFound,
}

/// The open files: for each, the index of its file and its descriptor.
pub struct FileArena {
    files: GenArena<(usize, FileDescriptor), u16, u8>,
}

/// The arena's handle for a file handle.
pub open spec fn as_handle(handle: FileHandle) -> Handle<u16, u8> {
    Handle { index: handle.index as u16, generation: handle.generation }
}

impl FileArena {
    /// The open file that `handle` names, if any.
    pub closed spec fn lookup(&self, handle: FileHandle) -> Option<(usize, FileDescriptor)> {
        self.files.lookup(as_handle(handle))
    }

    /// Number of slots.
    pub closed spec fn slot_count(&self) -> nat {
        self.files.slots().len()
    }

    /// Number of free slots.
    pub closed spec fn free_count(&self) -> nat {
        self.files.free().len()
    }

    /// The entries of the occupied slots.
    pub closed spec fn entries(&self) -> Seq<Option<(usize, FileDescriptor)>> {
        self.files.slots()
    }

    /// Whether `handle` points into the slots and, when its generation is
    /// current, at an open file.
    pub closed spec fn handle_ok(&self, handle: FileHandle) -> bool {
        let i = handle.index as int;
        &&& i < self.files.slots().len()
        &&& self.files.gens()[i] == handle.generation ==> self.files.slots()[i] is Some
    }

    pub closed spec fn wf(&self) -> bool {
        &&& self.files.wf()
        &&& 0 < self.files.slots().len() <= 256
    }

    /// Whether another file can be opened: a slot is free, or the arena can
    /// double without passing 256 slots.
    pub open spec fn has_room(&self) -> bool {
        self.free_count() > 0 || 2 * self.slot_count() <= 256
    }

    /// An open file lies in the slot that its handle names.
    pub proof fn lemma_lookup_entry(&self, handle: FileHandle)
        requires
            self.lookup(handle) is Some,
        ensures
            handle.index < self.slot_count(),
            self.entries()[handle.index as int] == self.lookup(handle),
    {
    }

    /// An arena with `initial_capacity` free slots.
    pub fn new(initial_capacity: usize) -> (arena: Self)
        requires
            0 < initial_capacity <= 256,
        ensures
            arena.wf(),
            arena.slot_count() == initial_capacity,
            arena.free_count() == initial_capacity,
            forall|h: FileHandle| #[trigger] arena.lookup(h) is None,
            forall|i: int| 0 <= i < arena.slot_count() ==> #[trigger] arena.entries()[i] is None,
    {
        let arena = FileArena { files: GenArena::new(initial_capacity) };
        assert forall|h: FileHandle| #[trigger] arena.lookup(h) is None by {
            if (h.index as int) < initial_capacity {
                assert(arena.files.slots()[h.index as int] is None);
            }
        }
        arena
    }

    /// Whether another file can be opened.
    pub fn room_left(&self) -> (room: bool)
        ensures
            room == self.has_room(),
    {
        self.files.free_count() > 0 || self.files.slot_count() <= 128
    }

    /// Opens `file` in the first free slot, doubling the slots when none is
    /// free, and returns its handle.
    pub fn add(&mut self, file: (usize, FileDescriptor)) -> (handle: FileHandle)
        requires
            old(self).wf(),
            old(self).has_room(),
        ensures
            final(self).wf(),
            old(self).lookup(handle) is None,
            final(self).lookup(handle) == Some(file),
            final(self).handle_ok(handle),
            final(self).slot_count() >= old(self).slot_count(),
            forall|h: FileHandle| h != handle ==> #[trigger] final(self).lookup(h) == old(self).lookup(h),
            forall|h: FileHandle| old(self).handle_ok(h) ==> #[trigger] final(self).handle_ok(h),
            forall|i: int|
                0 <= i < final(self).slot_count() ==> #[trigger] final(self).entries()[i] == if i
                    == handle.index {
                    Some(file)
                } else if i < old(self).slot_count() {
                    old(self).entries()[i]
                } else {
                    None
                },
    {
        proof {
            self.files.lemma_slots_bound();
        }
        let ghost old_files = self.files;
        match self.files.add(file) {
            Ok(h) => {
                let handle = FileHandle { index: h.index as u8, generation: h.generation };
                proof {
                    assert(as_handle(handle) == h);
                    let idx = h.index as int;
                    let n = old_files.grown_len();
                    let len = old_files.slots().len() as int;
                    let extra = crate::generic_arena::empty_slots::<(usize, FileDescriptor)>((n - len) as nat);
                    assert(self.files.slots() == (old_files.slots() + extra).update(idx, Some(file)));
                    assert(old_files.lookup(h) is None) by {
                        if idx < len {
                            if old_files.free().len() > 0 {
                                old_files.lemma_free_slot_empty(0);
                            }
                        }
                    }
                    assert forall|x: FileHandle| x != handle implies #[trigger] self.lookup(x) == old(self).lookup(x) by {
                        let xi = x.index as int;
                        if xi == idx {
                            assert(x.generation != handle.generation);
                        } else if xi < len {
                            assert((old_files.slots() + extra)[xi] == old_files.slots()[xi]);
                            assert(self.files.gens()[xi] == old_files.gens()[xi]);
                        } else if xi < n {
                            assert((old_files.slots() + extra)[xi] is None);
                        }
                    }
                    assert forall|x: FileHandle| old(self).handle_ok(x) implies #[trigger] self.handle_ok(x) by {
                        let xi = x.index as int;
                        assert(self.files.gens()[xi] == old_files.gens()[xi]);
                        if xi != idx {
                            assert((old_files.slots() + extra)[xi] == old_files.slots()[xi]);
                        }
                    }
                    assert forall|i: int| 0 <= i < self.slot_count() implies #[trigger] self.entries()[i] == if i
                        == handle.index {
                        Some(file)
                    } else if i < old(self).slot_count() {
                        old(self).entries()[i]
                    } else {
                        None
                    } by {
                        if i != idx {
                            if i < len {
                                assert((old_files.slots() + extra)[i] == old_files.slots()[i]);
                            } else {
                                assert((old_files.slots() + extra)[i] == extra[i - len]);
                            }
                        }
                    }
                }
                handle
            },
            Err(_) => {
                proof {
                    assert(false);
                }
                FileHandle { index: 0, generation: 0 }
            },
        }
    }

    /// The open file that `handle` names; `FileNotFound` when the handle's
    /// generation is not current.
    pub fn borrow(&self, handle: FileHandle) -> (result: Result<&(usize, FileDescriptor), Error>)
        requires
            self.wf(),
            self.handle_ok(handle),
        ensures
            match result {
                Ok(file) => self.lookup(handle) == Some(*file),
                Err(e) => e == Error::FileNotFound && self.lookup(handle) is None,
            },
    {
        match self.files.borrow(Handle { index: handle.index as u16, generation: handle.generation }) {
            Ok(file) => Ok(file),
            Err(_) => Err(Error::FileNotFound),
        }
    }

    /// Closes the file that `handle` names and frees its slot under the next
    /// generation; `FileNotFound` when the handle's generation is not current.
    pub fn remove(&mut self, handle: FileHandle) -> (result: Result<(usize, FileDescriptor), Error>)
        requires
            old(self).wf(),
            old(self).handle_ok(handle),
            old(self).lookup(handle) is Some ==> handle.generation < 255,
        ensures
            final(self).wf(),
            final(self).slot_count() == old(self).slot_count(),
            final(self).lookup(handle) is None,
            final(self).handle_ok(handle),
            forall|h: FileHandle| h != handle ==> #[trigger] final(self).lookup(h) == old(self).lookup(h),
            forall|h: FileHandle|
                old(self).handle_ok(h) && (h.index != handle.index || h.generation == handle.generation)
                    ==> #[trigger] final(self).handle_ok(h),
            forall|i: int|
                0 <= i < final(self).slot_count() ==> #[trigger] final(self).entries()[i] == if i
                    == handle.index && old(self).lookup(handle) is Some {
                    None
                } else {
                    old(self).entries()[i]
                },
            match result {
                Ok(file) => old(self).lookup(handle) == Some(file),
                Err(e) => e == Error::FileNotFound && old(self).lookup(handle) is None,
            },
    {
        let ghost old_files = self.files;
        let h = Handle { index: handle.index as u16, generation: handle.generation };
        assert(as_handle(handle) == h);
        proof {
            old_files.lemma_slots_bound();
        }
        let result = self.files.remove(h);
        proof {
            self.files.lemma_slots_bound();
            let idx = h.index as int;
            if result is Ok {
                assert forall|x: FileHandle| x != handle implies #[trigger] self.lookup(x) == old(self).lookup(x) by {
                    if x.index as int == idx {
                        assert(self.files.slots()[idx] is None);
                        if x.generation == handle.generation {
                            assert(x == handle);
                        }
                    } else {
                        assert(as_handle(x).index != h.index);
                    }
                }
                assert forall|x: FileHandle|
                    old(self).handle_ok(x) && (x.index != handle.index || x.generation == handle.generation)
                        implies #[trigger] self.handle_ok(x) by {
                    let xi = x.index as int;
                    if xi != idx {
                        assert(self.files.gens()[xi] == old_files.gens()[xi]);
                        assert(self.files.slots()[xi] == old_files.slots()[xi]);
                    }
                }
            }
        }
        match result {
            Ok(file) => Ok(file),
            Err(_) => Err(Error::FileNotFound),
        }
    }
}

} // verus!
