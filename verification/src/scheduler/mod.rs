pub mod fifo_scheduler;
pub mod timer;

use vstd::prelude::*;

use crate::messages::HardwareInterrupt;
use crate::mlfq_scheduler::MlfqScheduler;
use crate::task::{FutureHandle, TaskHandle};
use crate::task_manager::TaskManager;

use self::fifo_scheduler::FifoScheduler;

verus! {

/// What the kernel asks of a scheduler, whichever one it was built with.
pub trait Scheduler {
    /// Whether the scheduler's own bookkeeping is sound.
    spec fn sound(&self) -> bool;

    /// Queues `handle` when its task is ready.
    fn push_task(&mut self, manager: &TaskManager, handle: TaskHandle)
        requires
            old(self).sound(),
            manager.wf(),
            manager.handle_ok(handle),
        ensures
            final(self).sound(),
    ;

    /// Records that `task_handle` waits for `future_handle`.
    fn push_blocked(&mut self, task_handle: TaskHandle, future_handle: FutureHandle)
        requires
            old(self).sound(),
        ensures
            final(self).sound(),
    ;

    /// Records an interrupt for the scheduler loop to handle.
    fn push_hardware_interrupt(&mut self, interrupt: HardwareInterrupt)
        requires
            old(self).sound(),
        ensures
            final(self).sound(),
    ;

    /// Sets the idle task; fails when one is set already.
    fn set_idle_task(&mut self, handle: TaskHandle) -> (result: Result<(), ()>)
        requires
            old(self).sound(),
        ensures
            final(self).sound(),
    ;

    /// Whether the running task may be preempted on a timer interrupt.
    fn should_preempt(&mut self) -> bool;
}

/// How the kernel builds its scheduler at boot.
pub type SchedulerFactory = fn() -> Box<dyn Scheduler>;

/// Builds a multi-level feedback queue scheduler.
pub fn mfq_scheduler() -> Box<dyn Scheduler>
{
    Box::new(MlfqScheduler::new())
}

/// Builds a first-in first-out scheduler.
pub fn fifo_scheduler() -> Box<dyn Scheduler>
{
    Box::new(FifoScheduler::new())
}

} // verus!
