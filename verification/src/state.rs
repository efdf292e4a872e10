use vstd::prelude::*;

use crate::task::{TaskHandle, TaskState};
use crate::task_manager::TaskManager;

verus! {

/// Whether the processor runs kernel code or a user task.
#[derive(Copy, Clone, PartialEq, Eq, Debug, Structural)]
pub enum ExecutionContext {
    Kernel,
    UserTask,
}

/// Which task runs, in which context, and whether it may be preempted. The
/// context switches themselves are the processor's; this records what each
/// side of a switch sets.
pub struct ExecutionState {
    pub scheduler: TaskHandle,
    pub current_task: Option<TaskHandle>,
    pub preemption_enabled: bool,
    pub execution_context: ExecutionContext,
}

impl ExecutionState {
    /// The kernel runs the scheduler task `scheduler`, with no current task
    /// and preemption off.
    pub fn new(scheduler: TaskHandle) -> (state: Self)
        ensures
            state.scheduler == scheduler,
            state.current_task is None,
            !state.preemption_enabled,
            state.execution_context == ExecutionContext::Kernel,
    {
        ExecutionState {
            scheduler,
            current_task: None,
            preemption_enabled: false,
            execution_context: ExecutionContext::Kernel,
        }
    }

    /// Before switching to `task_handle`: it becomes the current task, in
    /// user context, preemptible.
    pub fn enter_task(&mut self, task_handle: TaskHandle)
        ensures
            final(self).current_task == Some(task_handle),
            final(self).execution_context == ExecutionContext::UserTask,
            final(self).preemption_enabled,
            final(self).scheduler == old(self).scheduler,
    {
        self.current_task = Some(task_handle);
        self.execution_context = ExecutionContext::UserTask;
        self.preemption_enabled = true;
    }

    /// After the task gave the processor back: the kernel runs, not
    /// preemptible, and the task that ran is handed back and is no longer
    /// current.
    pub fn leave_task(&mut self) -> (task_handle: TaskHandle)
        requires
            old(self).current_task is Some,
        ensures
            task_handle == old(self).current_task->0,
            final(self).current_task is None,
            final(self).execution_context == ExecutionContext::Kernel,
            !final(self).preemption_enabled,
            final(self).scheduler == old(self).scheduler,
    {
        self.preemption_enabled = false;
        self.execution_context = ExecutionContext::Kernel;
        self.current_task.take().unwrap()
    }

    /// Before a task hands the processor to the scheduler: the kernel runs,
    /// not preemptible; the current task, if any, stays current and is
    /// returned for its context to be saved.
    pub fn enter_scheduler(&mut self) -> (task_handle: Option<TaskHandle>)
        ensures
            task_handle == old(self).current_task,
            final(self).current_task == old(self).current_task,
            final(self).scheduler == old(self).scheduler,
            task_handle is Some ==> final(self).execution_context == ExecutionContext::Kernel
                && !final(self).preemption_enabled,
            task_handle is None ==> final(self).execution_context == old(self).execution_context
                && final(self).preemption_enabled == old(self).preemption_enabled,
    {
        match self.current_task {
            Some(task_handle) => {
                self.preemption_enabled = false;
                self.execution_context = ExecutionContext::Kernel;
                Some(task_handle)
            },
            None => None,
        }
    }

    /// When the task resumes after the scheduler ran: back in user context,
    /// preemptible.
    pub fn resume_task(&mut self)
        ensures
            final(self).execution_context == ExecutionContext::UserTask,
            final(self).preemption_enabled,
            final(self).current_task == old(self).current_task,
            final(self).scheduler == old(self).scheduler,
    {
        self.execution_context = ExecutionContext::UserTask;
        self.preemption_enabled = true;
    }

    /// Marks the current task, if any, blocked.
    pub fn block_current_task(&self, manager: &mut TaskManager)
        requires
            old(manager).wf(),
            self.current_task matches Some(h) ==> old(manager).handle_ok(h),
        ensures
            final(manager).wf(),
            self.current_task matches Some(h) ==> match old(manager).task_of(h) {
                Some(t) => final(manager).task_of(h) is Some && t.with_state(&final(manager).task_of(h)->0, TaskState::Blocked),
                None => final(manager).task_of(h) is None,
            },
            forall|other: TaskHandle|
                Some(other) != self.current_task ==> #[trigger] final(manager).task_of(other) == old(manager).task_of(other),
    {
        if let Some(task_handle) = self.current_task {
            manager.set_state(task_handle, TaskState::Blocked);
        }
    }

    /// The current task; there must be one.
    pub fn current_task(&self) -> (task_handle: TaskHandle)
        requires
            self.current_task is Some,
        ensures
            task_handle == self.current_task->0,
    {
        self.current_task.unwrap()
    }

    /// The context the processor runs in.
    pub fn execution_context(&self) -> (context: ExecutionContext)
        ensures
            context == self.execution_context,
    {
        self.execution_context
    }
}

} // verus!
