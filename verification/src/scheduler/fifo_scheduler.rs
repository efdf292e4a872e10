use std::collections::VecDeque;
use vstd::prelude::*;

use crate::keyboard::{handle_scancode, lemma_typed_chars_step, typed_chars, KeyboardBuffer};
use crate::messages::HardwareInterrupt;
use crate::mlfq_scheduler::{lemma_filter_step, waiting, woken_tasks, TaskFuture};
use crate::task::{FutureHandle, TaskHandle, TaskState};
use crate::task_manager::TaskManager;
use crate::scheduler::Scheduler;

verus! {

/// A first-in, first-out scheduler: ready tasks run in the order in which
/// they became ready, and the idle task runs when there is none.
pub struct FifoScheduler {
    idle_task: Option<TaskHandle>,
    user_tasks: VecDeque<TaskHandle>,
    blocked_tasks: VecDeque<TaskFuture>,
    hw_interrupt_queue: VecDeque<HardwareInterrupt>,
}

/// Whether some entry of `blocked` waits for `future`.
pub open spec fn is_waited_on(blocked: Seq<TaskFuture>, future: FutureHandle) -> bool {
    exists|i: int| 0 <= i < blocked.len() && (#[trigger] blocked[i]).future_handle == future
}

impl FifoScheduler {
    /// The ready tasks, next first.
    pub closed spec fn ready(&self) -> Seq<TaskHandle> {
        self.user_tasks@
    }

    /// The tasks that wait for futures, oldest first.
    pub closed spec fn blocked(&self) -> Seq<TaskFuture> {
        self.blocked_tasks@
    }

    /// The interrupts not handled yet, oldest first.
    pub closed spec fn interrupts(&self) -> Seq<HardwareInterrupt> {
        self.hw_interrupt_queue@
    }

    /// The idle task, once set.
    pub closed spec fn spec_idle_task(&self) -> Option<TaskHandle> {
        self.idle_task
    }

    /// A scheduler with no task and no idle task.
    pub fn new() -> (scheduler: Self)
        ensures
            scheduler.ready() == Seq::<TaskHandle>::empty(),
            scheduler.blocked() == Seq::<TaskFuture>::empty(),
            scheduler.interrupts() == Seq::<HardwareInterrupt>::empty(),
            scheduler.spec_idle_task() is None,
    {
        FifoScheduler {
            idle_task: None,
            user_tasks: VecDeque::new(),
            blocked_tasks: VecDeque::new(),
            hw_interrupt_queue: VecDeque::new(),
        }
    }

    /// Queues a ready task; other tasks are not queued.
    pub fn push_task(&mut self, manager: &TaskManager, handle: TaskHandle)
        requires
            manager.wf(),
            manager.handle_ok(handle),
        ensures
            final(self).ready() == if manager.task_of(handle) matches Some(t) && t.spec_state()
                == TaskState::Ready {
                old(self).ready().push(handle)
            } else {
                old(self).ready()
            },
            final(self).blocked() == old(self).blocked(),
            final(self).interrupts() == old(self).interrupts(),
            final(self).spec_idle_task() == old(self).spec_idle_task(),
    {
        match manager.get_state(handle) {
            TaskState::Ready => self.user_tasks.push_back(handle),
            _ => {},
        }
    }

    /// Records an interrupt for the scheduler loop to handle.
    pub fn push_hardware_interrupt(&mut self, interrupt: HardwareInterrupt)
        ensures
            final(self).ready() == old(self).ready(),
            final(self).blocked() == old(self).blocked(),
            final(self).interrupts() == old(self).interrupts().push(interrupt),
            final(self).spec_idle_task() == old(self).spec_idle_task(),
    {
        self.hw_interrupt_queue.push_back(interrupt);
    }

    /// Records that `task_handle` waits for `future_handle`.
    pub fn push_blocked(&mut self, task_handle: TaskHandle, future_handle: FutureHandle)
        ensures
            final(self).ready() == old(self).ready(),
            final(self).blocked() == old(self).blocked().push(TaskFuture { task_handle, future_handle }),
            final(self).interrupts() == old(self).interrupts(),
            final(self).spec_idle_task() == old(self).spec_idle_task(),
    {
        self.blocked_tasks.push_back(TaskFuture { task_handle, future_handle });
    }

    /// Sets the idle task; fails when one is set already.
    pub fn set_idle_task(&mut self, idle_task_handle: TaskHandle) -> (result: Result<(), ()>)
        ensures
            final(self).ready() == old(self).ready(),
            final(self).blocked() == old(self).blocked(),
            final(self).interrupts() == old(self).interrupts(),
            match result {
                Ok(()) => old(self).spec_idle_task() is None && final(self).spec_idle_task() == Some(
                    idle_task_handle,
                ),
                Err(()) => old(self).spec_idle_task() is Some && final(self).spec_idle_task()
                    == old(self).spec_idle_task(),
            },
    {
        if self.idle_task.is_none() {
            self.idle_task = Some(idle_task_handle);
            Ok(())
        } else {
            Err(())
        }
    }

    /// Turns the keyboard interrupts received so far into characters in
    /// `keyboard`, oldest first.
    pub fn process_hardware_interrupts(&mut self, keyboard: &mut KeyboardBuffer)
        ensures
            final(self).interrupts() == Seq::<HardwareInterrupt>::empty(),
            final(keyboard)@ == old(keyboard)@ + typed_chars(old(self).interrupts()),
            final(self).ready() == old(self).ready(),
            final(self).blocked() == old(self).blocked(),
            final(self).spec_idle_task() == old(self).spec_idle_task(),
    {
        let ghost queued = self.interrupts();
        let ghost mut k: int = 0;
        while self.hw_interrupt_queue.len() > 0
            invariant
                0 <= k <= queued.len(),
                self.interrupts() == queued.skip(k),
                keyboard@ == old(keyboard)@ + typed_chars(queued.take(k)),
                self.ready() == old(self).ready(),
                self.blocked() == old(self).blocked(),
                self.spec_idle_task() == old(self).spec_idle_task(),
            decreases self.hw_interrupt_queue@.len(),
        {
            proof {
                assert(queued.skip(k)[0] == queued[k]);
                lemma_typed_chars_step(queued, k);
            }
            match self.hw_interrupt_queue.pop_front() {
                Some(HardwareInterrupt::Keyboard { scancode }) => handle_scancode(keyboard, scancode),
                None => {},
            }
            proof {
                assert(self.interrupts() =~= queued.skip(k + 1));
                assert(keyboard@ =~= old(keyboard)@ + typed_chars(queued.take(k + 1)));
                k = k + 1;
            }
        }
        proof {
            assert(queued.take(k) =~= queued);
        }
    }

    /// Picks the task to run next and marks it running: the first ready
    /// task, else the idle task.
    pub fn select_next_task(&mut self, manager: &mut TaskManager) -> (next: TaskHandle)
        requires
            old(manager).wf(),
            old(self).ready().len() > 0 || old(self).spec_idle_task() is Some,
            forall|k: int| 0 <= k < old(self).ready().len() ==> old(manager).handle_ok(#[trigger] old(self).ready()[k]),
            old(self).spec_idle_task() matches Some(h) ==> old(manager).handle_ok(h),
        ensures
            final(manager).wf(),
            old(self).ready().len() > 0 ==> next == old(self).ready()[0] && final(self).ready()
                == old(self).ready().drop_first(),
            old(self).ready().len() == 0 ==> next == old(self).spec_idle_task()->0 && final(self).ready()
                == old(self).ready(),
            match old(manager).task_of(next) {
                Some(t) => final(manager).task_of(next) is Some && t.with_state(
                    &final(manager).task_of(next)->0,
                    TaskState::Running,
                ),
                None => final(manager).task_of(next) is None,
            },
            forall|other: TaskHandle|
                other != next ==> #[trigger] final(manager).task_of(other) == old(manager).task_of(other),
            final(self).blocked() == old(self).blocked(),
            final(self).interrupts() == old(self).interrupts(),
            final(self).spec_idle_task() == old(self).spec_idle_task(),
    {
        let next = match self.user_tasks.pop_front() {
            Some(handle) => handle,
            None => self.idle_task.unwrap(),
        };
        proof {
            if old(self).ready().len() > 0 {
                assert(old(manager).handle_ok(old(self).ready()[0]));
            }
        }
        manager.set_state(next, TaskState::Running);
        next
    }

    /// Takes back a task that ran: a task still running becomes ready and is
    /// queued again (the idle task is not queued), a terminated task is
    /// removed, and a created, ready or blocked task is left alone.
    pub fn finish_run(&mut self, manager: &mut TaskManager, returned: TaskHandle)
        requires
            old(manager).wf(),
            old(manager).handle_ok(returned),
            old(manager).task_of(returned) matches Some(t) && t.spec_state() == TaskState::Terminated
                ==> returned.generation < 255,
        ensures
            final(manager).wf(),
            final(self).blocked() == old(self).blocked(),
            final(self).interrupts() == old(self).interrupts(),
            final(self).spec_idle_task() == old(self).spec_idle_task(),
            ({
                let state = match old(manager).task_of(returned) {
                    Some(t) => t.spec_state(),
                    None => TaskState::Terminated,
                };
                &&& state == TaskState::Running && Some(returned) != old(self).spec_idle_task()
                    ==> final(self).ready() == old(self).ready().push(returned)
                &&& !(state == TaskState::Running && Some(returned) != old(self).spec_idle_task())
                    ==> final(self).ready() == old(self).ready()
                &&& state == TaskState::Running ==> final(manager).task_of(returned) is Some
                    && old(manager).task_of(returned)->0.with_state(
                    &final(manager).task_of(returned)->0,
                    TaskState::Ready,
                )
                &&& state == TaskState::Terminated ==> final(manager).task_of(returned) is None
                &&& state != TaskState::Running && state != TaskState::Terminated
                    ==> final(manager).task_of(returned) == old(manager).task_of(returned)
            }),
            forall|other: TaskHandle|
                other.index != returned.index ==> #[trigger] final(manager).task_of(other)
                    == old(manager).task_of(other),
    {
        match manager.get_state(returned) {
            TaskState::Created | TaskState::Ready | TaskState::Blocked => {},
            TaskState::Running => {
                manager.set_state(returned, TaskState::Ready);
                let is_idle = match self.idle_task {
                    Some(idle) => idle.index == returned.index && idle.generation == returned.generation,
                    None => false,
                };
                if !is_idle {
                    self.user_tasks.push_back(returned);
                }
            },
            TaskState::Terminated => {
                manager.remove_task(returned);
            },
        }
    }

    /// The future that a terminated task leaves behind and that should be
    /// dropped: its completion future, unless a blocked task waits for it.
    pub fn cleanup_completion_future(&self, completion_future: Option<FutureHandle>) -> (orphan: Option<FutureHandle>)
        ensures
            orphan == match completion_future {
                Some(f) => if is_waited_on(self.blocked(), f) {
                    None::<FutureHandle>
                } else {
                    Some(f)
                },
                None => None,
            },
    {
        match completion_future {
            Some(future_handle) => {
                let mut i: usize = 0;
                while i < self.blocked_tasks.len()
                    invariant
                        completion_future == Some(future_handle),
                        i <= self.blocked_tasks@.len(),
                        forall|j: int| 0 <= j < i ==> (#[trigger] self.blocked_tasks@[j]).future_handle != future_handle,
                    decreases self.blocked_tasks@.len() - i,
                {
                    let tf = self.blocked_tasks[i];
                    if tf.future_handle.index == future_handle.index && tf.future_handle.generation
                        == future_handle.generation {
                        assert(self.blocked()[i as int].future_handle == future_handle);
                        return None;
                    }
                    i = i + 1;
                }
                assert(!is_waited_on(self.blocked(), future_handle));
                Some(future_handle)
            },
            None => None,
        }
    }

    /// Wakes the blocked tasks whose futures completed: `completed[i]` says
    /// whether the future of the `i`-th blocked task completed. Each woken
    /// task becomes ready and is queued, in the order in which it blocked;
    /// the others keep waiting in their order.
    pub fn pool_futures(&mut self, manager: &mut TaskManager, completed: &Vec<bool>)
        requires
            old(manager).wf(),
            completed@.len() == old(self).blocked().len(),
            forall|i: int|
                0 <= i < old(self).blocked().len() ==> old(manager).handle_ok((#[trigger] old(self).blocked()[i]).task_handle),
        ensures
            final(manager).wf(),
            final(self).interrupts() == old(self).interrupts(),
            final(self).spec_idle_task() == old(self).spec_idle_task(),
            final(self).blocked() == waiting(old(self).blocked(), completed@),
            final(self).ready() == old(self).ready() + woken_tasks(old(self).blocked(), completed@),
            old(manager).readied(final(manager), woken_tasks(old(self).blocked(), completed@)),
    {
        let ghost blocked = self.blocked_tasks@;
        let ghost ready = self.user_tasks@;
        let count = self.blocked_tasks.len();
        let mut i: usize = 0;
        while i < count
            invariant
                manager.wf(),
                count == blocked.len(),
                completed@.len() == count,
                i <= count,
                self.blocked_tasks@ == blocked.subrange(i as int, count as int) + waiting(
                    blocked.take(i as int),
                    completed@.take(i as int),
                ),
                self.user_tasks@ == ready + woken_tasks(blocked.take(i as int), completed@.take(i as int)),
                self.interrupts() == old(self).interrupts(),
                self.spec_idle_task() == old(self).spec_idle_task(),
                forall|j: int| 0 <= j < count ==> manager.handle_ok((#[trigger] blocked[j]).task_handle),
                old(manager).readied(manager, woken_tasks(blocked.take(i as int), completed@.take(i as int))),
            decreases count - i,
        {
            let task_future = self.blocked_tasks.pop_front().unwrap();
            proof {
                assert(task_future == blocked[i as int]);
                lemma_filter_step(blocked, completed@, i as int);
            }
            if completed[i] {
                let ghost m1 = *manager;
                manager.set_state(task_future.task_handle, TaskState::Ready);
                proof {
                    TaskManager::lemma_readied_step(
                        &*old(manager),
                        &m1,
                        &*manager,
                        woken_tasks(blocked.take(i as int), completed@.take(i as int)),
                        task_future.task_handle,
                    );
                }
                self.user_tasks.push_back(task_future.task_handle);
                proof {
                    let w = woken_tasks(blocked.take(i as int), completed@.take(i as int));
                    assert(ready + w.push(task_future.task_handle) =~= (ready + w).push(task_future.task_handle));
                }
            } else {
                self.blocked_tasks.push_back(task_future);
            }
            proof {
                assert(self.blocked_tasks@ =~= blocked.subrange(i + 1, count as int) + waiting(
                    blocked.take(i + 1),
                    completed@.take(i + 1),
                ));
            }
            i = i + 1;
        }
        proof {
            assert(blocked.take(count as int) =~= blocked);
            assert(completed@.take(count as int) =~= completed@);
        }
    }
}

impl Scheduler for FifoScheduler {
    open spec fn sound(&self) -> bool {
        true
    }

    fn push_task(&mut self, manager: &TaskManager, handle: TaskHandle)
        ensures
            final(self).ready() == if manager.task_of(handle) matches Some(t) && t.spec_state()
                == TaskState::Ready {
                old(self).ready().push(handle)
            } else {
                old(self).ready()
            },
            final(self).blocked() == old(self).blocked(),
            final(self).interrupts() == old(self).interrupts(),
            final(self).spec_idle_task() == old(self).spec_idle_task(),
    {
        FifoScheduler::push_task(self, manager, handle)
    }

    fn push_blocked(&mut self, task_handle: TaskHandle, future_handle: FutureHandle)
        ensures
            final(self).ready() == old(self).ready(),
            final(self).blocked() == old(self).blocked().push(TaskFuture { task_handle, future_handle }),
            final(self).interrupts() == old(self).interrupts(),
            final(self).spec_idle_task() == old(self).spec_idle_task(),
    {
        FifoScheduler::push_blocked(self, task_handle, future_handle)
    }

    fn push_hardware_interrupt(&mut self, interrupt: HardwareInterrupt)
        ensures
            final(self).ready() == old(self).ready(),
            final(self).blocked() == old(self).blocked(),
            final(self).interrupts() == old(self).interrupts().push(interrupt),
            final(self).spec_idle_task() == old(self).spec_idle_task(),
    {
        FifoScheduler::push_hardware_interrupt(self, interrupt)
    }

    fn set_idle_task(&mut self, handle: TaskHandle) -> (result: Result<(), ()>)
        ensures
            final(self).ready() == old(self).ready(),
            final(self).blocked() == old(self).blocked(),
            final(self).interrupts() == old(self).interrupts(),
            match result {
                Ok(()) => old(self).spec_idle_task() is None && final(self).spec_idle_task() == Some(handle),
                Err(()) => old(self).spec_idle_task() is Some && final(self).spec_idle_task()
                    == old(self).spec_idle_task(),
            },
    {
        FifoScheduler::set_idle_task(self, handle)
    }

    /// A first-in first-out scheduler always lets the timer preempt.
    fn should_preempt(&mut self) -> (preempt: bool)
        ensures
            preempt,
            *final(self) == *old(self),
    {
        true
    }
}

} // verus!
