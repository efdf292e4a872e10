use std::collections::VecDeque;
use vstd::prelude::*;

use crate::future::Future;
use crate::messages::HardwareInterrupt;
use crate::task::{TaskHandle, TaskState};
use crate::task_manager::TaskManager;

verus! {

/// The entries of `blocked` whose flag in `completed` is not set, in order.
pub open spec fn still_waiting<T>(blocked: Seq<T>, completed: Seq<bool>) -> Seq<T>
    decreases blocked.len(),
{
    if blocked.len() == 0 {
        Seq::empty()
    } else {
        let rest = still_waiting(blocked.drop_last(), completed.drop_last());
        if completed.last() {
            rest
        } else {
            rest.push(blocked.last())
        }
    }
}

/// The tasks of the entries of `blocked` whose flag in `completed` is set, in order.
pub open spec fn woken_handles<F>(blocked: Seq<(TaskHandle, F)>, completed: Seq<bool>) -> Seq<TaskHandle>
    decreases blocked.len(),
{
    if blocked.len() == 0 {
        Seq::empty()
    } else {
        let rest = woken_handles(blocked.drop_last(), completed.drop_last());
        if completed.last() {
            rest.push(blocked.last().0)
        } else {
            rest
        }
    }
}

proof fn lemma_wake_step<F>(blocked: Seq<(TaskHandle, F)>, completed: Seq<bool>, i: int)
    requires
        0 <= i < blocked.len(),
        blocked.len() == completed.len(),
    ensures
        woken_handles(blocked.take(i + 1), completed.take(i + 1)) == if completed[i] {
            woken_handles(blocked.take(i), completed.take(i)).push(blocked[i].0)
        } else {
            woken_handles(blocked.take(i), completed.take(i))
        },
        still_waiting(blocked.take(i + 1), completed.take(i + 1)) == if completed[i] {
            still_waiting(blocked.take(i), completed.take(i))
        } else {
            still_waiting(blocked.take(i), completed.take(i)).push(blocked[i])
        },
{
    assert(blocked.take(i + 1).drop_last() =~= blocked.take(i));
    assert(completed.take(i + 1).drop_last() =~= completed.take(i));
}

/// The kernel's first scheduler: ready tasks run in the order in which they
/// became ready, the idle task runs when there is none, and blocked tasks
/// hold the futures they wait for.
pub struct MainThread<F: Future> {
    idle_task: Option<TaskHandle>,
    user_tasks: VecDeque<TaskHandle>,
    blocked_tasks: VecDeque<(TaskHandle, F)>,
    hw_interrupt_queue: Vec<HardwareInterrupt>,
}

impl<F: Future> MainThread<F> {
    /// The ready tasks, next first.
    pub closed spec fn ready(&self) -> Seq<TaskHandle> {
        self.user_tasks@
    }

    /// The blocked tasks with their futures, oldest first.
    pub closed spec fn blocked(&self) -> Seq<(TaskHandle, F)> {
        self.blocked_tasks@
    }

    /// The interrupts not handled yet, oldest first.
    pub closed spec fn interrupts(&self) -> Seq<HardwareInterrupt> {
        self.hw_interrupt_queue@
    }

    /// The idle task, once set.
    pub closed spec fn spec_idle_task(&self) -> Option<TaskHandle> {
        self.idle_task
    }

    /// No task, no idle task.
    pub fn new() -> (thread: Self)
        ensures
            thread.ready() == Seq::<TaskHandle>::empty(),
            thread.blocked() == Seq::<(TaskHandle, F)>::empty(),
            thread.interrupts() == Seq::<HardwareInterrupt>::empty(),
            thread.spec_idle_task() is None,
    {
        MainThread {
            idle_task: None,
            user_tasks: VecDeque::new(),
            blocked_tasks: VecDeque::new(),
            hw_interrupt_queue: Vec::new(),
        }
    }

    /// Queues a ready task; other tasks are not queued.
    pub fn push_task(&mut self, manager: &TaskManager, handle: TaskHandle)
        requires
            manager.wf(),
            manager.handle_ok(handle),
        ensures
            final(self).ready() == if manager.task_of(handle) matches Some(t) && t.spec_state()
                == TaskState::Ready {
                old(self).ready().push(handle)
            } else {
                old(self).ready()
            },
            final(self).blocked() == old(self).blocked(),
            final(self).interrupts() == old(self).interrupts(),
            final(self).spec_idle_task() == old(self).spec_idle_task(),
    {
        match manager.get_state(handle) {
            TaskState::Ready => self.user_tasks.push_back(handle),
            _ => {},
        }
    }

    /// Records an interrupt for the loop to handle.
    pub fn push_hardware_interrupt(&mut self, interrupt: HardwareInterrupt)
        ensures
            final(self).ready() == old(self).ready(),
            final(self).blocked() == old(self).blocked(),
            final(self).interrupts() == old(self).interrupts().push(interrupt),
            final(self).spec_idle_task() == old(self).spec_idle_task(),
    {
        self.hw_interrupt_queue.push(interrupt);
    }

    /// Records that `task_handle` waits for `future`.
    pub fn push_blocked(&mut self, task_handle: TaskHandle, future: F)
        ensures
            final(self).ready() == old(self).ready(),
            final(self).blocked() == old(self).blocked().push((task_handle, future)),
            final(self).interrupts() == old(self).interrupts(),
            final(self).spec_idle_task() == old(self).spec_idle_task(),
    {
        self.blocked_tasks.push_back((task_handle, future));
    }

    /// Sets the idle task; fails when one is set already.
    pub fn set_idle_task(&mut self, idle_task_handle: TaskHandle) -> (result: Result<(), ()>)
        ensures
            final(self).ready() == old(self).ready(),
            final(self).blocked() == old(self).blocked(),
            final(self).interrupts() == old(self).interrupts(),
            match result {
                Ok(()) => old(self).spec_idle_task() is None && final(self).spec_idle_task() == Some(
                    idle_task_handle,
                ),
                Err(()) => old(self).spec_idle_task() is Some && final(self).spec_idle_task()
                    == old(self).spec_idle_task(),
            },
    {
        if self.idle_task.is_none() {
            self.idle_task = Some(idle_task_handle);
            Ok(())
        } else {
            Err(())
        }
    }

    /// Drops the interrupts received so far: this scheduler reads no device.
    pub fn process_hardware_interrupts(&mut self)
        ensures
            final(self).interrupts() == Seq::<HardwareInterrupt>::empty(),
            final(self).ready() == old(self).ready(),
            final(self).blocked() == old(self).blocked(),
            final(self).spec_idle_task() == old(self).spec_idle_task(),
    {
        while self.hw_interrupt_queue.len() > 0
            invariant
                self.ready() == old(self).ready(),
                self.blocked() == old(self).blocked(),
                self.spec_idle_task() == old(self).spec_idle_task(),
            decreases self.hw_interrupt_queue@.len(),
        {
            let _ = self.hw_interrupt_queue.remove(0);
        }
    }

    /// Picks the task to run next and marks it running: the first ready
    /// task, else the idle task.
    pub fn select_next_task(&mut self, manager: &mut TaskManager) -> (next: TaskHandle)
        requires
            old(manager).wf(),
            old(self).ready().len() > 0 || old(self).spec_idle_task() is Some,
            forall|k: int| 0 <= k < old(self).ready().len() ==> old(manager).handle_ok(#[trigger] old(self).ready()[k]),
            old(self).spec_idle_task() matches Some(h) ==> old(manager).handle_ok(h),
        ensures
            final(manager).wf(),
            old(self).ready().len() > 0 ==> next == old(self).ready()[0] && final(self).ready()
                == old(self).ready().drop_first(),
            old(self).ready().len() == 0 ==> next == old(self).spec_idle_task()->0 && final(self).ready()
                == old(self).ready(),
            match old(manager).task_of(next) {
                Some(t) => final(manager).task_of(next) is Some && t.with_state(
                    &final(manager).task_of(next)->0,
                    TaskState::Running,
                ),
                None => final(manager).task_of(next) is None,
            },
            forall|other: TaskHandle|
                other != next ==> #[trigger] final(manager).task_of(other) == old(manager).task_of(other),
            final(self).blocked() == old(self).blocked(),
            final(self).interrupts() == old(self).interrupts(),
            final(self).spec_idle_task() == old(self).spec_idle_task(),
    {
        let next = match self.user_tasks.pop_front() {
            Some(handle) => handle,
            None => self.idle_task.unwrap(),
        };
        proof {
            if old(self).ready().len() > 0 {
                assert(old(manager).handle_ok(old(self).ready()[0]));
            }
        }
        manager.set_state(next, TaskState::Running);
        next
    }

    /// Takes back a task that ran: a task still running becomes ready and is
    /// queued again, unless it is the idle task; a task in any other state is
    /// left alone.
    pub fn finish_run(&mut self, manager: &mut TaskManager, returned: TaskHandle)
        requires
            old(manager).wf(),
            old(manager).handle_ok(returned),
        ensures
            final(manager).wf(),
            final(self).blocked() == old(self).blocked(),
            final(self).interrupts() == old(self).interrupts(),
            final(self).spec_idle_task() == old(self).spec_idle_task(),
            ({
                let running = old(manager).task_of(returned) matches Some(t) && t.spec_state() == TaskState::Running;
                &&& running && Some(returned) != old(self).spec_idle_task() ==> final(self).ready()
                    == old(self).ready().push(returned)
                &&& !(running && Some(returned) != old(self).spec_idle_task()) ==> final(self).ready()
                    == old(self).ready()
                &&& running ==> final(manager).task_of(returned) is Some && old(manager).task_of(
                    returned,
                )->0.with_state(&final(manager).task_of(returned)->0, TaskState::Ready)
                &&& !running ==> final(manager).task_of(returned) == old(manager).task_of(returned)
            }),
            forall|other: TaskHandle|
                other != returned ==> #[trigger] final(manager).task_of(other) == old(manager).task_of(other),
    {
        match manager.get_state(returned) {
            TaskState::Running => {
                manager.set_state(returned, TaskState::Ready);
                let is_idle = match self.idle_task {
                    Some(idle) => idle.index == returned.index && idle.generation == returned.generation,
                    None => false,
                };
                if !is_idle {
                    self.user_tasks.push_back(returned);
                }
            },
            _ => {},
        }
    }

    /// Wakes the blocked tasks whose futures completed: `completed[i]` says
    /// whether the future of the `i`-th blocked task completed. Each woken
    /// task becomes ready and is queued, in the order in which it blocked;
    /// the others keep waiting in their order.
    pub fn pool_futures_with(&mut self, manager: &mut TaskManager, completed: &Vec<bool>)
        requires
            old(manager).wf(),
            completed@.len() == old(self).blocked().len(),
            forall|i: int|
                0 <= i < old(self).blocked().len() ==> old(manager).handle_ok((#[trigger] old(self).blocked()[i]).0),
        ensures
            final(manager).wf(),
            final(self).interrupts() == old(self).interrupts(),
            final(self).spec_idle_task() == old(self).spec_idle_task(),
            final(self).blocked() == still_waiting(old(self).blocked(), completed@),
            final(self).ready() == old(self).ready() + woken_handles(old(self).blocked(), completed@),
            old(manager).readied(final(manager), woken_handles(old(self).blocked(), completed@)),
    {
        let ghost blocked = self.blocked_tasks@;
        let ghost ready = self.user_tasks@;
        let count = self.blocked_tasks.len();
        let mut i: usize = 0;
        while i < count
            invariant
                manager.wf(),
                count == blocked.len(),
                completed@.len() == count,
                i <= count,
                self.blocked_tasks@ == blocked.subrange(i as int, count as int) + still_waiting(
                    blocked.take(i as int),
                    completed@.take(i as int),
                ),
                self.user_tasks@ == ready + woken_handles(blocked.take(i as int), completed@.take(i as int)),
                self.interrupts() == old(self).interrupts(),
                self.spec_idle_task() == old(self).spec_idle_task(),
                forall|j: int| 0 <= j < count ==> manager.handle_ok((#[trigger] blocked[j]).0),
                old(manager).readied(manager, woken_handles(blocked.take(i as int), completed@.take(i as int))),
            decreases count - i,
        {
            let entry = self.blocked_tasks.pop_front().unwrap();
            proof {
                assert(entry == blocked[i as int]);
                lemma_wake_step(blocked, completed@, i as int);
            }
            if completed[i] {
                let ghost m1 = *manager;
                manager.set_state(entry.0, TaskState::Ready);
                proof {
                    TaskManager::lemma_readied_step(
                        &*old(manager),
                        &m1,
                        &*manager,
                        woken_handles(blocked.take(i as int), completed@.take(i as int)),
                        entry.0,
                    );
                }
                let ghost w = woken_handles(blocked.take(i as int), completed@.take(i as int));
                self.user_tasks.push_back(entry.0);
                proof {
                    assert(self.user_tasks@ =~= ready + w.push(blocked[i as int].0));
                }
            } else {
                self.blocked_tasks.push_back(entry);
            }
            proof {
                assert(self.blocked_tasks@ =~= blocked.subrange(i + 1, count as int) + still_waiting(
                    blocked.take(i + 1),
                    completed@.take(i + 1),
                ));
            }
            i = i + 1;
        }
        proof {
            assert(blocked.take(count as int) =~= blocked);
            assert(completed@.take(count as int) =~= completed@);
        }
    }

    /// Asks each blocked task's future whether it completed, then wakes the
    /// tasks whose futures did. Which futures completed is their own answer.
    pub fn pool_futures(&mut self, manager: &mut TaskManager)
        requires
            old(manager).wf(),
            forall|i: int|
                0 <= i < old(self).blocked().len() ==> old(manager).handle_ok((#[trigger] old(self).blocked()[i]).0),
        ensures
            final(manager).wf(),
            final(self).interrupts() == old(self).interrupts(),
            final(self).spec_idle_task() == old(self).spec_idle_task(),
            exists|completed: Seq<bool>|
                completed.len() == old(self).blocked().len() && final(self).blocked() == still_waiting(
                    old(self).blocked(),
                    completed,
                ) && final(self).ready() == old(self).ready() + woken_handles(old(self).blocked(), completed)
                    && old(manager).readied(final(manager), woken_handles(old(self).blocked(), completed)),
    {
        let mut completed: Vec<bool> = Vec::new();
        let mut i: usize = 0;
        while i < self.blocked_tasks.len()
            invariant
                i <= self.blocked_tasks@.len(),
                completed@.len() == i,
            decreases self.blocked_tasks@.len() - i,
        {
            let done = self.blocked_tasks[i].1.is_completed();
            completed.push(done);
            i = i + 1;
        }
        self.pool_futures_with(manager, &completed);
    }
}

} // verus!
