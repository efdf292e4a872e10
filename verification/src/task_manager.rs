use vstd::prelude::*;

use crate::generic_arena::{empty_slots, GenArena};
use crate::task::{SharedTask, Task, TaskHandle, TaskState, YieldReason};

verus! {

/// Holds the tasks of the kernel under handles.
pub struct TaskManager {
    tasks: GenArena<SharedTask, u8, u8>,
}

/// Why the task manager refused a request.
#[derive(Debug, PartialEq, Eq)]
pub enum Error {
    TaskCannotBeAdded,
    TaskNotFound,
}

impl TaskManager {
    /// The task that `handle` names, if any.
    pub closed spec fn task_of(&self, handle: TaskHandle) -> Option<Task> {
        match self.tasks.lookup(handle) {
            Some(t) => Some(*t),
            None => None,
        }
    }

    /// Number of task slots.
    pub closed spec fn slot_count(&self) -> nat {
        self.tasks.slots().len()
    }

    /// Whether `handle` points into the slots and, when its generation is
    /// current, at a task.
    pub closed spec fn handle_ok(&self, handle: TaskHandle) -> bool {
        let i = handle.index as int;
        &&& i < self.tasks.slots().len()
        &&& self.tasks.gens()[i] == handle.generation ==> self.tasks.slots()[i] is Some
    }

    /// Whether no task can be added: no slot is free and the slots have
    /// reached the largest `u8` index count, so the manager cannot grow.
    pub closed spec fn is_full(&self) -> bool {
        &&& self.tasks.free().len() == 0
        &&& self.tasks.slots().len() >= u8::MAX as nat
    }

    pub closed spec fn wf(&self) -> bool {
        &&& self.tasks.wf()
        &&& self.tasks.slots().len() > 0
    }

    /// A manager with room for ten tasks before it grows.
    pub fn new() -> (manager: Self)
        ensures
            manager.wf(),
            manager.slot_count() == 10,
            forall|h: TaskHandle| #[trigger] manager.task_of(h) is None,
    {
        let manager = TaskManager { tasks: GenArena::new(10) };
        assert forall|h: TaskHandle| #[trigger] manager.task_of(h) is None by {
            if (h.index as int) < 10 {
                assert(manager.tasks.slots()[h.index as int] is None);
            }
        }
        manager
    }

    /// Stores `task` and returns its handle.
    pub fn add_task(&mut self, task: SharedTask) -> (result: Result<TaskHandle, Error>)
        requires
            old(self).wf(),
        ensures
            final(self).wf(),
            final(self).slot_count() >= old(self).slot_count(),
            forall|h: TaskHandle| old(self).handle_ok(h) ==> #[trigger] final(self).handle_ok(h),
            result is Err <==> old(self).is_full(),
            match result {
                Ok(h) => {
                    &&& final(self).task_of(h) == Some(*task)
                    &&& final(self).handle_ok(h)
                    &&& forall|other: TaskHandle|
                        old(self).task_of(other) is Some ==> #[trigger] final(self).task_of(other)
                            == old(self).task_of(other)
                },
                Err(e) => e == Error::TaskCannotBeAdded && forall|other: TaskHandle|
                    #[trigger] final(self).task_of(other) == old(self).task_of(other),
            },
    {
        proof {
            self.tasks.lemma_slots_bound();
        }

        let ghost added = task;
        match self.tasks.add(task) {
            Ok(handle) => {
                proof {
                    assert(self.tasks.lookup(handle) is Some);
                    assert forall|h: TaskHandle| old(self).handle_ok(h) implies #[trigger] self.handle_ok(h) by {
                        let i = h.index as int;
                        assert(old(self).tasks.gens()[i] == self.tasks.gens()[i]);
                        if i == handle.index as int {
                            assert(self.tasks.slots()[i] is Some);
                        }
                        if self.tasks.gens()[i] == h.generation && i != handle.index as int {
                            let old_slots = old(self).tasks.slots();
                            let n = old(self).tasks.grown_len();
                            let extra = empty_slots::<SharedTask>((n - old_slots.len()) as nat);
                            assert((old_slots + extra)[i] == old_slots[i]);
                            old(self).tasks.lemma_slots_bound();
                            let idx = if old(self).tasks.free().len() > 0 { old(self).tasks.free()[0] as int } else { old_slots.len() as int };
                            assert(handle.index as int == idx);
                            assert(self.tasks.slots() == (old_slots + extra).update(idx, Some(added)));
                            assert((old_slots + extra).update(idx, Some(added))[i] == (old_slots + extra)[i]);
                            assert(self.tasks.slots()[i] == (old_slots + extra)[i]);
                        }
                    }
                }
                Ok(handle)
            },
            Err(_) => Err(Error::TaskCannotBeAdded),
        }
    }

    /// Removes the task that `handle` names, if any.
    pub fn remove_task(&mut self, handle: TaskHandle)
        requires
            old(self).wf(),
            old(self).handle_ok(handle),
            old(self).task_of(handle) is Some ==> handle.generation < 255,
        ensures
            final(self).wf(),
            final(self).slot_count() == old(self).slot_count(),
            final(self).task_of(handle) is None,
            forall|other: TaskHandle|
                other.index != handle.index ==> #[trigger] final(self).task_of(other)
                    == old(self).task_of(other),
    {
        let _ = self.tasks.remove(handle);
    }

    /// The state of the task that `handle` names; `Terminated` when there
    /// is none.
    pub fn get_state(&self, handle: TaskHandle) -> (state: TaskState)
        requires
            self.wf(),
            self.handle_ok(handle),
        ensures
            state == match self.task_of(handle) {
                Some(t) => t.spec_state(),
                None => TaskState::Terminated,
            },
    {
        match self.tasks.borrow(handle) {
            Ok(task) => task.state(),
            Err(_) => TaskState::Terminated,
        }
    }

    /// The stack pointer of the task that `handle` names; 0 when there is none.
    pub fn get_task_stack_pointer(&self, handle: TaskHandle) -> (sp: usize)
        requires
            self.wf(),
            self.handle_ok(handle),
        ensures
            sp == match self.task_of(handle) {
                Some(t) => t.spec_stack_pointer(),
                None => 0,
            },
    {
        match self.tasks.borrow(handle) {
            Ok(task) => task.stack_pointer(),
            Err(_) => 0,
        }
    }

    /// The task that `handle` names; `TaskNotFound` when there is none.
    pub fn borrow_task(&self, handle: TaskHandle) -> (result: Result<&Task, Error>)
        requires
            self.wf(),
            self.handle_ok(handle),
        ensures
            match result {
                Ok(t) => self.task_of(handle) == Some(*t),
                Err(e) => e == Error::TaskNotFound && self.task_of(handle) is None,
            },
    {
        match self.tasks.borrow(handle) {
            Ok(task) => Ok(&**task),
            Err(_) => Err(Error::TaskNotFound),
        }
    }

    /// The task that `handle` names, for writing; `TaskNotFound` when there
    /// is none.
    pub fn borrow_task_mut(&mut self, handle: TaskHandle) -> (result: Result<&mut Task, Error>)
        requires
            old(self).wf(),
            old(self).handle_ok(handle),
        ensures
            final(self).wf(),
            final(self).slot_count() == old(self).slot_count(),
            forall|h: TaskHandle| old(self).handle_ok(h) ==> #[trigger] final(self).handle_ok(h),
            forall|other: TaskHandle|
                other != handle ==> #[trigger] final(self).task_of(other) == old(self).task_of(other),
            match result {
                Ok(t) => {
                    &&& old(self).task_of(handle) == Some(*t)
                    &&& final(self).task_of(handle) == Some(*final(t))
                },
                Err(e) => e == Error::TaskNotFound && old(self).task_of(handle) is None && final(self).task_of(
                    handle,
                ) is None,
            },
    {
        let ghost before = self.tasks;
        match self.tasks.borrow_mut(handle) {
            Ok(task) => Ok(&mut **task),
            Err(_) => Err(Error::TaskNotFound),
        }
    }

    /// Where the stack pointer of the task that `handle` names is kept, for
    /// a context switch to save it; `None` when there is no such task.
    pub fn get_task_stack_pointer_ref(&mut self, handle: TaskHandle) -> (sp: Option<&mut usize>)
        requires
            old(self).wf(),
            old(self).handle_ok(handle),
        ensures
            final(self).wf(),
            final(self).slot_count() == old(self).slot_count(),
            forall|h: TaskHandle| old(self).handle_ok(h) ==> #[trigger] final(self).handle_ok(h),
            forall|other: TaskHandle|
                other != handle ==> #[trigger] final(self).task_of(other) == old(self).task_of(other),
            match sp {
                Some(p) => {
                    &&& old(self).task_of(handle) matches Some(t) && *p == t.spec_stack_pointer()
                    &&& final(self).task_of(handle) matches Some(t2) && t2.spec_stack_pointer() == *final(p)
                        && t2.spec_state() == old(self).task_of(handle)->0.spec_state()
                },
                None => old(self).task_of(handle) is None && final(self).task_of(handle) is None,
            },
    {
        match self.borrow_task_mut(handle) {
            Ok(task) => Some(task.stack_pointer_mut()),
            Err(_) => None,
        }
    }

    /// The reason the task that `handle` names last gave up the processor.
    pub fn get_yield_reason(&self, handle: TaskHandle) -> (reason: Option<YieldReason>)
        requires
            self.wf(),
            self.handle_ok(handle),
        ensures
            reason == match self.task_of(handle) {
                Some(t) => t.spec_yield_reason(),
                None => None,
            },
    {
        match self.tasks.borrow(handle) {
            Ok(task) => task.yield_reason(),
            Err(_) => None,
        }
    }

    /// Whether `after` is `self` with the task of each handle in `woken`
    /// made ready and every other task unchanged.
    pub open spec fn readied(&self, after: &TaskManager, woken: Seq<TaskHandle>) -> bool {
        &&& forall|h: TaskHandle|
            woken.contains(h) ==> match self.task_of(h) {
                Some(t) => (#[trigger] after.task_of(h)) is Some && t.with_state(&after.task_of(h)->0, TaskState::Ready),
                None => after.task_of(h) is None,
            }
        &&& forall|h: TaskHandle| !woken.contains(h) ==> #[trigger] after.task_of(h) == self.task_of(h)
    }

    /// Making one more task ready extends what `readied` says by its handle.
    pub proof fn lemma_readied_step(m0: &TaskManager, m1: &TaskManager, m2: &TaskManager, woken: Seq<TaskHandle>, handle: TaskHandle)
        requires
            m0.readied(m1, woken),
            match m1.task_of(handle) {
                Some(t) => m2.task_of(handle) is Some && t.with_state(&m2.task_of(handle)->0, TaskState::Ready),
                None => m2.task_of(handle) is None,
            },
            forall|other: TaskHandle| other != handle ==> #[trigger] m2.task_of(other) == m1.task_of(other),
        ensures
            m0.readied(m2, woken.push(handle)),
    {
        let w2 = woken.push(handle);
        assert forall|h: TaskHandle| w2.contains(h) implies match m0.task_of(h) {
            Some(t) => (#[trigger] m2.task_of(h)) is Some && t.with_state(&m2.task_of(h)->0, TaskState::Ready),
            None => m2.task_of(h) is None,
        } by {
            if h == handle {
                if woken.contains(h) {
                    assert(m1.task_of(h) == m1.task_of(h));
                } else {
                    assert(m1.task_of(h) == m0.task_of(h));
                }
            } else {
                assert(woken.contains(h)) by {
                    let k = choose|k: int| 0 <= k < w2.len() && w2[k] == h;
                    assert(k < woken.len());
                    assert(woken[k] == h);
                }
                assert(m2.task_of(h) == m1.task_of(h));
            }
        }
        assert forall|h: TaskHandle| !w2.contains(h) implies #[trigger] m2.task_of(h) == m0.task_of(h) by {
            assert(h != handle) by {
                assert(w2[woken.len() as int] == handle);
            }
            assert(!woken.contains(h)) by {
                if woken.contains(h) {
                    let k = choose|k: int| 0 <= k < woken.len() && woken[k] == h;
                    assert(w2[k] == h);
                }
            }
            assert(m2.task_of(h) == m1.task_of(h));
        }
    }

    /// Sets the state of the task that `handle` names, if any.
    pub fn set_state(&mut self, handle: TaskHandle, state: TaskState)
        requires
            old(self).wf(),
            old(self).handle_ok(handle),
        ensures
            final(self).wf(),
            final(self).slot_count() == old(self).slot_count(),
            match old(self).task_of(handle) {
                Some(t) => final(self).task_of(handle) is Some && t.with_state(
                    &final(self).task_of(handle)->0,
                    state,
                ),
                None => final(self).task_of(handle) is None,
            },
            forall|h: TaskHandle| old(self).handle_ok(h) ==> #[trigger] final(self).handle_ok(h),
            forall|other: TaskHandle|
                other != handle ==> #[trigger] final(self).task_of(other) == old(self).task_of(other),
    {
        let ghost before = self.tasks;
        match self.tasks.borrow_mut(handle) {
            Ok(task) => task.set_state(state),
            Err(_) => {},
        }
        proof {
            before.lemma_same_shape_wf(self.tasks);
        }
    }

    /// Records why the task that `handle` names gave up the processor.
    pub fn set_yield_reason(&mut self, handle: TaskHandle, reason: YieldReason)
        requires
            old(self).wf(),
            old(self).handle_ok(handle),
        ensures
            final(self).wf(),
            final(self).slot_count() == old(self).slot_count(),
            match old(self).task_of(handle) {
                Some(t) => final(self).task_of(handle) is Some && final(self).task_of(
                    handle,
                )->0.spec_yield_reason() == Some(reason) && final(self).task_of(handle)->0.spec_state()
                    == t.spec_state(),
                None => final(self).task_of(handle) is None,
            },
            forall|h: TaskHandle| old(self).handle_ok(h) ==> #[trigger] final(self).handle_ok(h),
            forall|other: TaskHandle|
                other != handle ==> #[trigger] final(self).task_of(other) == old(self).task_of(other),
    {
        let ghost before = self.tasks;
        match self.tasks.borrow_mut(handle) {
            Ok(task) => task.set_yield_reason(reason),
            Err(_) => {},
        }
        proof {
            before.lemma_same_shape_wf(self.tasks);
        }
    }
}

} // verus!
