use std::collections::VecDeque;
use vstd::prelude::*;

use crate::keyboard::{handle_scancode, lemma_typed_chars_step, typed_chars, KeyboardBuffer};
use crate::messages::HardwareInterrupt;
use crate::task::{FutureHandle, TaskHandle, TaskState, YieldReason};
use crate::task_manager::TaskManager;
use crate::scheduler::Scheduler;

verus! {

/// Number of priority levels; level 0 runs first.
pub const NUM_QUEUES: usize = 3;

/// A task that waits for a future.
#[derive(Clone, Copy)]
pub struct TaskFuture {
    pub task_handle: TaskHandle,
    pub future_handle: FutureHandle,
}

/// A multi-level feedback queue scheduler: a task that used up its time
/// slice moves one level down, one that yielded keeps its level, and one
/// that was woken up starts again at the top.
pub struct MlfqScheduler {
    queues: Vec<VecDeque<TaskHandle>>,
    blocked_tasks: VecDeque<TaskFuture>,
    hw_interrupt_queue: VecDeque<HardwareInterrupt>,
    idle_task: Option<TaskHandle>,
}

/// Level of a task that ran at level `current` and gave up the processor
/// for `yield_reason`.
pub open spec fn spec_next_priority(current: int, yield_reason: Option<YieldReason>) -> int {
    match yield_reason {
        None => 0,
        Some(YieldReason::Voluntary) => current,
        Some(YieldReason::Preempted) => if current + 1 < NUM_QUEUES {
            current + 1
        } else {
            NUM_QUEUES - 1
        },
    }
}

/// Index of the first non-empty queue, or `NUM_QUEUES`.
pub open spec fn first_non_empty(queues: Seq<Seq<TaskHandle>>) -> int {
    if queues[0].len() > 0 {
        0
    } else if queues[1].len() > 0 {
        1
    } else if queues[2].len() > 0 {
        2
    } else {
        3
    }
}

impl MlfqScheduler {
    /// The queue of each level, next task first.
    pub closed spec fn queues_view(&self) -> Seq<Seq<TaskHandle>> {
        self.queues@.map_values(|q: VecDeque<TaskHandle>| q@)
    }

    /// The tasks that wait for futures, oldest first.
    pub closed spec fn blocked(&self) -> Seq<TaskFuture> {
        self.blocked_tasks@
    }

    /// The interrupts not handled yet, oldest first.
    pub closed spec fn interrupts(&self) -> Seq<HardwareInterrupt> {
        self.hw_interrupt_queue@
    }

    pub closed spec fn spec_idle_task(&self) -> Option<TaskHandle> {
        self.idle_task
    }

    pub closed spec fn wf(&self) -> bool {
        self.queues@.len() == NUM_QUEUES
    }

    /// A scheduler with empty queues and no idle task.
    pub fn new() -> (scheduler: Self)
        ensures
            scheduler.wf(),
            scheduler.queues_view() == seq![
                Seq::<TaskHandle>::empty(),
                Seq::<TaskHandle>::empty(),
                Seq::<TaskHandle>::empty(),
            ],
            scheduler.blocked() == Seq::<TaskFuture>::empty(),
            scheduler.interrupts() == Seq::<HardwareInterrupt>::empty(),
            scheduler.spec_idle_task() is None,
    {
        let mut queues: Vec<VecDeque<TaskHandle>> = Vec::new();
        queues.push(VecDeque::new());
        queues.push(VecDeque::new());
        queues.push(VecDeque::new());
        let scheduler = MlfqScheduler {
            queues,
            blocked_tasks: VecDeque::new(),
            hw_interrupt_queue: VecDeque::new(),
            idle_task: None,
        };
        assert(scheduler.queues_view() =~= seq![
            Seq::<TaskHandle>::empty(),
            Seq::<TaskHandle>::empty(),
            Seq::<TaskHandle>::empty(),
        ]);
        scheduler
    }

    /// Appends `handle` to the queue of level `priority`.
    fn enqueue(&mut self, priority: usize, handle: TaskHandle)
        requires
            old(self).wf(),
            priority < NUM_QUEUES,
        ensures
            final(self).wf(),
            final(self).queues_view() == old(self).queues_view().update(
                priority as int,
                old(self).queues_view()[priority as int].push(handle),
            ),
            final(self).blocked() == old(self).blocked(),
            final(self).interrupts() == old(self).interrupts(),
            final(self).spec_idle_task() == old(self).spec_idle_task(),
    {
        self.queues[priority].push_back(handle);
        assert(self.queues_view() =~= old(self).queues_view().update(
            priority as int,
            old(self).queues_view()[priority as int].push(handle),
        ));
    }

    /// Queues a ready task at the top level; other tasks are not queued.
    pub fn push_task(&mut self, manager: &TaskManager, handle: TaskHandle)
        requires
            old(self).wf(),
            manager.wf(),
            manager.handle_ok(handle),
        ensures
            final(self).wf(),
            final(self).queues_view() == if manager.task_of(handle) matches Some(t) && t.spec_state()
                == TaskState::Ready {
                old(self).queues_view().update(0, old(self).queues_view()[0].push(handle))
            } else {
                old(self).queues_view()
            },
            final(self).blocked() == old(self).blocked(),
            final(self).interrupts() == old(self).interrupts(),
            final(self).spec_idle_task() == old(self).spec_idle_task(),
    {
        match manager.get_state(handle) {
            TaskState::Ready => self.enqueue(0, handle),
            _ => {},
        }
    }

    /// Records that `task_handle` waits for `future_handle`.
    pub fn push_blocked(&mut self, task_handle: TaskHandle, future_handle: FutureHandle)
        ensures
            final(self).queues_view() == old(self).queues_view(),
            final(self).blocked() == old(self).blocked().push(TaskFuture { task_handle, future_handle }),
            final(self).interrupts() == old(self).interrupts(),
            final(self).spec_idle_task() == old(self).spec_idle_task(),
            old(self).wf() ==> final(self).wf(),
    {
        self.blocked_tasks.push_back(TaskFuture { task_handle, future_handle });
    }

    /// Records an interrupt for the scheduler loop to handle.
    pub fn push_hardware_interrupt(&mut self, interrupt: HardwareInterrupt)
        ensures
            final(self).queues_view() == old(self).queues_view(),
            final(self).blocked() == old(self).blocked(),
            final(self).interrupts() == old(self).interrupts().push(interrupt),
            final(self).spec_idle_task() == old(self).spec_idle_task(),
            old(self).wf() ==> final(self).wf(),
    {
        self.hw_interrupt_queue.push_back(interrupt);
    }

    /// Sets the idle task; fails when one is set already.
    pub fn set_idle_task(&mut self, handle: TaskHandle) -> (result: Result<(), ()>)
        ensures
            final(self).queues_view() == old(self).queues_view(),
            final(self).blocked() == old(self).blocked(),
            final(self).interrupts() == old(self).interrupts(),
            old(self).wf() ==> final(self).wf(),
            match result {
                Ok(()) => old(self).spec_idle_task() is None && final(self).spec_idle_task() == Some(
                    handle,
                ),
                Err(()) => old(self).spec_idle_task() is Some && final(self).spec_idle_task()
                    == old(self).spec_idle_task(),
            },
    {
        if self.idle_task.is_none() {
            self.idle_task = Some(handle);
            Ok(())
        } else {
            Err(())
        }
    }

    /// Level of a task that ran at level `current` and gave up the
    /// processor for `yield_reason`.
    pub fn next_priority(current: usize, yield_reason: Option<YieldReason>) -> (priority: usize)
        ensures
            priority == spec_next_priority(current as int, yield_reason),
            current < NUM_QUEUES ==> priority < NUM_QUEUES,
    {
        match yield_reason {
            None => 0,
            Some(YieldReason::Voluntary) => current,
            Some(YieldReason::Preempted) => {
                if current < NUM_QUEUES - 1 {
                    current + 1
                } else {
                    NUM_QUEUES - 1
                }
            },
        }
    }

    /// Takes the next task of the highest level that has one, with its level.
    pub fn take_next_handle(&mut self) -> (next: Option<(TaskHandle, usize)>)
        requires
            old(self).wf(),
        ensures
            final(self).wf(),
            final(self).blocked() == old(self).blocked(),
            final(self).interrupts() == old(self).interrupts(),
            final(self).spec_idle_task() == old(self).spec_idle_task(),
            ({
                let qs = old(self).queues_view();
                let p = first_non_empty(qs);
                match next {
                    None => p == NUM_QUEUES && final(self).queues_view() == qs,
                    Some((h, priority)) => {
                        &&& p < NUM_QUEUES
                        &&& priority == p
                        &&& h == qs[p][0]
                        &&& final(self).queues_view() == qs.update(p, qs[p].drop_first())
                    },
                }
            }),
    {
        let mut priority: usize = 0;
        while priority < NUM_QUEUES
            invariant
                self.wf(),
                *self == *old(self),
                priority <= NUM_QUEUES,
                forall|q: int| 0 <= q < priority ==> (#[trigger] self.queues_view()[q]).len() == 0,
            decreases NUM_QUEUES - priority,
        {
            if self.queues[priority].len() > 0 {
                let ghost qs = self.queues_view();
                let handle = self.queues[priority].pop_front().unwrap();
                proof {
                    assert(first_non_empty(qs) == priority);
                    assert(self.queues_view() =~= qs.update(
                        priority as int,
                        qs[priority as int].drop_first(),
                    ));
                }
                return Some((handle, priority));
            }
            assert(self.queues_view()[priority as int].len() == 0);
            priority = priority + 1;
        }
        None
    }

    /// Puts a task that ran at level `priority` back at the level its yield
    /// reason calls for.
    pub fn requeue_after_run(&mut self, manager: &TaskManager, handle: TaskHandle, priority: usize)
        requires
            old(self).wf(),
            manager.wf(),
            manager.handle_ok(handle),
            priority < NUM_QUEUES,
        ensures
            final(self).wf(),
            ({
                let reason = match manager.task_of(handle) {
                    Some(t) => t.spec_yield_reason(),
                    None => None,
                };
                let p = spec_next_priority(priority as int, reason);
                final(self).queues_view() == old(self).queues_view().update(
                    p,
                    old(self).queues_view()[p].push(handle),
                )
            }),
            final(self).blocked() == old(self).blocked(),
            final(self).interrupts() == old(self).interrupts(),
            final(self).spec_idle_task() == old(self).spec_idle_task(),
    {
        let yield_reason = manager.get_yield_reason(handle);
        let new_priority = Self::next_priority(priority, yield_reason);
        self.enqueue(new_priority, handle);
    }

    /// Picks the task to run next and marks it running: the next task of the
    /// highest level that has one, else the idle task at level 0.
    pub fn select_next_task(&mut self, manager: &mut TaskManager) -> (next: (TaskHandle, usize))
        requires
            old(self).wf(),
            old(manager).wf(),
            first_non_empty(old(self).queues_view()) < NUM_QUEUES || old(self).spec_idle_task() is Some,
            forall|q: int, k: int|
                0 <= q < NUM_QUEUES && 0 <= k < old(self).queues_view()[q].len() ==> old(manager).handle_ok(
                    #[trigger] old(self).queues_view()[q][k],
                ),
            old(self).spec_idle_task() matches Some(h) ==> old(manager).handle_ok(h),
        ensures
            final(self).wf(),
            final(manager).wf(),
            ({
                let qs = old(self).queues_view();
                let p = first_non_empty(qs);
                if p < NUM_QUEUES {
                    next == (qs[p][0], p as usize) && final(self).queues_view() == qs.update(
                        p,
                        qs[p].drop_first(),
                    )
                } else {
                    next == (old(self).spec_idle_task()->0, 0usize) && final(self).queues_view()
                        == qs
                }
            }),
            match old(manager).task_of(next.0) {
                Some(t) => final(manager).task_of(next.0) is Some && t.with_state(
                    &final(manager).task_of(next.0)->0,
                    TaskState::Running,
                ),
                None => final(manager).task_of(next.0) is None,
            },
            forall|other: TaskHandle|
                other != next.0 ==> #[trigger] final(manager).task_of(other) == old(manager).task_of(
                    other,
                ),
            final(self).blocked() == old(self).blocked(),
            final(self).interrupts() == old(self).interrupts(),
            final(self).spec_idle_task() == old(self).spec_idle_task(),
    {
        let ghost qs = self.queues_view();
        let (next_handle, priority) = match self.take_next_handle() {
            Some((handle, priority)) => (handle, priority),
            None => (self.idle_task.unwrap(), 0),
        };
        proof {
            let p = first_non_empty(qs);
            if p < NUM_QUEUES {
                assert(old(manager).handle_ok(qs[p][0]));
            }
        }
        manager.set_state(next_handle, TaskState::Running);
        (next_handle, priority)
    }

    /// Takes back a task that ran at level `priority`: a task still running
    /// becomes ready and is queued again (the idle task is not queued), a
    /// terminated task is removed, and a created, ready or blocked task is
    /// left alone.
    pub fn finish_run(&mut self, manager: &mut TaskManager, returned: TaskHandle, priority: usize)
        requires
            old(self).wf(),
            old(manager).wf(),
            old(manager).handle_ok(returned),
            priority < NUM_QUEUES,
            old(manager).task_of(returned) matches Some(t) && t.spec_state() == TaskState::Terminated
                ==> returned.generation < 255,
        ensures
            final(self).wf(),
            final(manager).wf(),
            final(self).blocked() == old(self).blocked(),
            final(self).interrupts() == old(self).interrupts(),
            final(self).spec_idle_task() == old(self).spec_idle_task(),
            ({
                let state = match old(manager).task_of(returned) {
                    Some(t) => t.spec_state(),
                    None => TaskState::Terminated,
                };
                let reason = match old(manager).task_of(returned) {
                    Some(t) => t.spec_yield_reason(),
                    None => None,
                };
                let p = spec_next_priority(priority as int, reason);
                &&& state == TaskState::Running && Some(returned) != old(self).spec_idle_task()
                    ==> final(self).queues_view() == old(self).queues_view().update(
                    p,
                    old(self).queues_view()[p].push(returned),
                )
                &&& !(state == TaskState::Running && Some(returned) != old(self).spec_idle_task())
                    ==> final(self).queues_view() == old(self).queues_view()
                &&& state == TaskState::Running ==> final(manager).task_of(returned) is Some
                    && old(manager).task_of(returned)->0.with_state(
                    &final(manager).task_of(returned)->0,
                    TaskState::Ready,
                )
                &&& state == TaskState::Terminated ==> final(manager).task_of(returned) is None
                &&& state != TaskState::Running && state != TaskState::Terminated
                    ==> final(manager).task_of(returned) == old(manager).task_of(returned)
            }),
            forall|other: TaskHandle|
                other.index != returned.index ==> #[trigger] final(manager).task_of(other)
                    == old(manager).task_of(other),
    {
        let task_state = manager.get_state(returned);
        match task_state {
            TaskState::Created | TaskState::Ready => {},
            TaskState::Running => {
                manager.set_state(returned, TaskState::Ready);
                let is_idle = match self.idle_task {
                    Some(idle) => idle.index == returned.index && idle.generation
                        == returned.generation,
                    None => false,
                };
                if !is_idle {
                    self.requeue_after_run(manager, returned, priority);
                }
            },
            TaskState::Blocked => {},
            TaskState::Terminated => {
                manager.remove_task(returned);
            },
        }
    }

    /// Turns the keyboard interrupts received so far into characters in
    /// `keyboard`, oldest first.
    pub fn process_hardware_interrupts(&mut self, keyboard: &mut KeyboardBuffer)
        ensures
            final(self).interrupts() == Seq::<HardwareInterrupt>::empty(),
            final(keyboard)@ == old(keyboard)@ + typed_chars(old(self).interrupts()),
            final(self).queues_view() == old(self).queues_view(),
            final(self).blocked() == old(self).blocked(),
            final(self).spec_idle_task() == old(self).spec_idle_task(),
            old(self).wf() ==> final(self).wf(),
    {
        let ghost queued = self.interrupts();
        let ghost mut k: int = 0;
        while self.hw_interrupt_queue.len() > 0
            invariant
                0 <= k <= queued.len(),
                self.interrupts() == queued.skip(k),
                keyboard@ == old(keyboard)@ + typed_chars(queued.take(k)),
                self.queues_view() == old(self).queues_view(),
                self.blocked() == old(self).blocked(),
                self.spec_idle_task() == old(self).spec_idle_task(),
                self.queues@.len() == old(self).queues@.len(),
            decreases self.hw_interrupt_queue@.len(),
        {
            proof {
                assert(queued.skip(k)[0] == queued[k]);
                lemma_typed_chars_step(queued, k);
            }
            match self.hw_interrupt_queue.pop_front() {
                Some(HardwareInterrupt::Keyboard { scancode }) => handle_scancode(keyboard, scancode),
                None => {},
            }
            proof {
                assert(self.interrupts() =~= queued.skip(k + 1));
                assert(keyboard@ =~= old(keyboard)@ + typed_chars(queued.take(k + 1)));
                k = k + 1;
            }
        }
        proof {
            assert(queued.take(k) =~= queued);
        }
    }

    /// The futures the blocked tasks wait for, oldest first.
    pub fn blocked_futures(&self) -> (futures: Vec<FutureHandle>)
        ensures
            futures@.len() == self.blocked().len(),
            forall|i: int| 0 <= i < futures@.len() ==> #[trigger] futures@[i] == self.blocked()[i].future_handle,
    {
        let mut futures: Vec<FutureHandle> = Vec::new();
        let mut i: usize = 0;
        while i < self.blocked_tasks.len()
            invariant
                i <= self.blocked_tasks@.len(),
                futures@.len() == i,
                forall|j: int| 0 <= j < i ==> #[trigger] futures@[j] == self.blocked_tasks@[j].future_handle,
            decreases self.blocked_tasks@.len() - i,
        {
            futures.push(self.blocked_tasks[i].future_handle);
            i = i + 1;
        }
        futures
    }

    /// Wakes the blocked tasks whose futures completed: `completed[i]` says
    /// whether the future of the `i`-th blocked task completed. Each woken
    /// task becomes ready and goes to the top level, in the order in which it
    /// blocked; the others keep waiting in their order. Returns the futures
    /// of the woken tasks, for the caller to drop.
    pub fn wake_completed(&mut self, manager: &mut TaskManager, completed: &Vec<bool>) -> (released:
        Vec<FutureHandle>)
        requires
            old(self).wf(),
            old(manager).wf(),
            completed@.len() == old(self).blocked().len(),
            forall|i: int|
                0 <= i < old(self).blocked().len() ==> old(manager).handle_ok(
                    (#[trigger] old(self).blocked()[i]).task_handle,
                ),
        ensures
            final(self).wf(),
            final(manager).wf(),
            final(self).interrupts() == old(self).interrupts(),
            final(self).spec_idle_task() == old(self).spec_idle_task(),
            final(self).blocked() == waiting(old(self).blocked(), completed@),
            released@ == woken_futures(old(self).blocked(), completed@),
            old(manager).readied(final(manager), woken_tasks(old(self).blocked(), completed@)),
            final(self).queues_view() == old(self).queues_view().update(
                0,
                old(self).queues_view()[0] + woken_tasks(old(self).blocked(), completed@),
            ),
    {
        let ghost blocked = self.blocked_tasks@;
        let ghost qs = self.queues_view();
        let count = self.blocked_tasks.len();
        let mut released: Vec<FutureHandle> = Vec::new();
        let mut i: usize = 0;
        while i < count
            invariant
                self.wf(),
                manager.wf(),
                count == blocked.len(),
                qs.len() == NUM_QUEUES,
                completed@.len() == count,
                i <= count,
                self.blocked_tasks@ == blocked.subrange(i as int, count as int) + waiting(
                    blocked.take(i as int),
                    completed@.take(i as int),
                ),
                released@ == woken_futures(blocked.take(i as int), completed@.take(i as int)),
                self.queues_view() == qs.update(
                    0,
                    qs[0] + woken_tasks(blocked.take(i as int), completed@.take(i as int)),
                ),
                self.interrupts() == old(self).interrupts(),
                self.spec_idle_task() == old(self).spec_idle_task(),
                forall|j: int| 0 <= j < count ==> manager.handle_ok((#[trigger] blocked[j]).task_handle),
                old(manager).readied(manager, woken_tasks(blocked.take(i as int), completed@.take(i as int))),
            decreases count - i,
        {
            let task_future = self.blocked_tasks.pop_front().unwrap();
            proof {
                assert(task_future == blocked[i as int]);
                lemma_filter_step(blocked, completed@, i as int);
            }
            if completed[i] {
                let ghost m1 = *manager;
                manager.set_state(task_future.task_handle, TaskState::Ready);
                proof {
                    TaskManager::lemma_readied_step(
                        &*old(manager),
                        &m1,
                        &*manager,
                        woken_tasks(blocked.take(i as int), completed@.take(i as int)),
                        task_future.task_handle,
                    );
                }
                self.enqueue(0, task_future.task_handle);
                released.push(task_future.future_handle);
                proof {
                    let w = woken_tasks(blocked.take(i as int), completed@.take(i as int));
                    assert(qs[0] + w.push(task_future.task_handle) =~= (qs[0] + w).push(task_future.task_handle));
                    assert(self.queues_view() =~= qs.update(0, qs[0] + w.push(task_future.task_handle)));
                }
            } else {
                self.blocked_tasks.push_back(task_future);
            }
            proof {
                assert(self.blocked_tasks@ =~= blocked.subrange(i + 1, count as int) + waiting(
                    blocked.take(i + 1),
                    completed@.take(i + 1),
                ));
            }
            i = i + 1;
        }
        proof {
            assert(blocked.take(count as int) =~= blocked);
            assert(completed@.take(count as int) =~= completed@);
        }
        released
    }

    /// Number of tasks at level `priority`.
    pub fn queue_len(&self, priority: usize) -> (n: usize)
        requires
            self.wf(),
            priority < NUM_QUEUES,
        ensures
            n == self.queues_view()[priority as int].len(),
    {
        self.queues[priority].len()
    }
}

impl Scheduler for MlfqScheduler {
    open spec fn sound(&self) -> bool {
        self.wf()
    }

    fn push_task(&mut self, manager: &TaskManager, handle: TaskHandle)
        ensures
            final(self).queues_view() == if manager.task_of(handle) matches Some(t) && t.spec_state()
                == TaskState::Ready {
                old(self).queues_view().update(0, old(self).queues_view()[0].push(handle))
            } else {
                old(self).queues_view()
            },
            final(self).blocked() == old(self).blocked(),
            final(self).interrupts() == old(self).interrupts(),
            final(self).spec_idle_task() == old(self).spec_idle_task(),
    {
        MlfqScheduler::push_task(self, manager, handle)
    }

    fn push_blocked(&mut self, task_handle: TaskHandle, future_handle: FutureHandle)
        ensures
            final(self).queues_view() == old(self).queues_view(),
            final(self).blocked() == old(self).blocked().push(TaskFuture { task_handle, future_handle }),
            final(self).interrupts() == old(self).interrupts(),
            final(self).spec_idle_task() == old(self).spec_idle_task(),
    {
        MlfqScheduler::push_blocked(self, task_handle, future_handle)
    }

    fn push_hardware_interrupt(&mut self, interrupt: HardwareInterrupt)
        ensures
            final(self).queues_view() == old(self).queues_view(),
            final(self).blocked() == old(self).blocked(),
            final(self).interrupts() == old(self).interrupts().push(interrupt),
            final(self).spec_idle_task() == old(self).spec_idle_task(),
    {
        MlfqScheduler::push_hardware_interrupt(self, interrupt)
    }

    fn set_idle_task(&mut self, handle: TaskHandle) -> (result: Result<(), ()>)
        ensures
            final(self).queues_view() == old(self).queues_view(),
            final(self).blocked() == old(self).blocked(),
            final(self).interrupts() == old(self).interrupts(),
            match result {
                Ok(()) => old(self).spec_idle_task() is None && final(self).spec_idle_task() == Some(handle),
                Err(()) => old(self).spec_idle_task() is Some && final(self).spec_idle_task()
                    == old(self).spec_idle_task(),
            },
    {
        MlfqScheduler::set_idle_task(self, handle)
    }

    /// The multi-level feedback queue lets the timer preempt, and demotes
    /// the preempted task.
    fn should_preempt(&mut self) -> (preempt: bool)
        ensures
            preempt,
            *final(self) == *old(self),
    {
        true
    }
}

/// The tasks of the entries of `blocked` whose flag in `completed` is set, in order.
pub open spec fn woken_tasks(blocked: Seq<TaskFuture>, completed: Seq<bool>) -> Seq<TaskHandle>
    decreases blocked.len(),
{
    if blocked.len() == 0 {
        Seq::empty()
    } else {
        let rest = woken_tasks(blocked.drop_last(), completed.drop_last());
        if completed.last() {
            rest.push(blocked.last().task_handle)
        } else {
            rest
        }
    }
}

/// The futures of the entries of `blocked` whose flag in `completed` is set, in order.
pub open spec fn woken_futures(blocked: Seq<TaskFuture>, completed: Seq<bool>) -> Seq<FutureHandle>
    decreases blocked.len(),
{
    if blocked.len() == 0 {
        Seq::empty()
    } else {
        let rest = woken_futures(blocked.drop_last(), completed.drop_last());
        if completed.last() {
            rest.push(blocked.last().future_handle)
        } else {
            rest
        }
    }
}

/// The entries of `blocked` whose flag in `completed` is set, in order.
pub open spec fn woken(blocked: Seq<TaskFuture>, completed: Seq<bool>) -> Seq<TaskFuture>
    decreases blocked.len(),
{
    if blocked.len() == 0 {
        Seq::empty()
    } else {
        let rest = woken(blocked.drop_last(), completed.drop_last());
        if completed.last() {
            rest.push(blocked.last())
        } else {
            rest
        }
    }
}

/// The entries of `blocked` whose flag in `completed` is clear, in order.
pub open spec fn waiting(blocked: Seq<TaskFuture>, completed: Seq<bool>) -> Seq<TaskFuture>
    decreases blocked.len(),
{
    if blocked.len() == 0 {
        Seq::empty()
    } else {
        let rest = waiting(blocked.drop_last(), completed.drop_last());
        if completed.last() {
            rest
        } else {
            rest.push(blocked.last())
        }
    }
}

pub(crate) proof fn lemma_filter_step(blocked: Seq<TaskFuture>, completed: Seq<bool>, i: int)
    requires
        0 <= i < blocked.len(),
        blocked.len() == completed.len(),
    ensures
        woken_tasks(blocked.take(i + 1), completed.take(i + 1)) == if completed[i] {
            woken_tasks(blocked.take(i), completed.take(i)).push(blocked[i].task_handle)
        } else {
            woken_tasks(blocked.take(i), completed.take(i))
        },
        woken_futures(blocked.take(i + 1), completed.take(i + 1)) == if completed[i] {
            woken_futures(blocked.take(i), completed.take(i)).push(blocked[i].future_handle)
        } else {
            woken_futures(blocked.take(i), completed.take(i))
        },
        woken(blocked.take(i + 1), completed.take(i + 1)) == if completed[i] {
            woken(blocked.take(i), completed.take(i)).push(blocked[i])
        } else {
            woken(blocked.take(i), completed.take(i))
        },
        waiting(blocked.take(i + 1), completed.take(i + 1)) == if completed[i] {
            waiting(blocked.take(i), completed.take(i))
        } else {
            waiting(blocked.take(i), completed.take(i)).push(blocked[i])
        },
{
    assert(blocked.take(i + 1).drop_last() =~= blocked.take(i));
    assert(completed.take(i + 1).drop_last() =~= completed.take(i));
}

} // verus!
