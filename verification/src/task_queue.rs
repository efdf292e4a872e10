use vstd::prelude::*;

use crate::task::SharedTask;

verus! {

/// A queue of tasks that a scheduler takes the next task from.
pub trait TaskQueue {
    /// Adds `task`; a queue may refuse it.
    fn offer(&mut self, task: SharedTask) -> Result<(), StateCreatedNotAccepted>;

    /// Takes the next task.
    fn take_next(&mut self) -> Option<SharedTask>;

    /// The tasks in the queue, next first.
    fn list_tasks(&self) -> Vec<EnqueuedTask>;
}

/// Why a queue refused a task.
pub trait TaskEnqueueingError {
}

/// A queue refuses tasks that were never made ready or have terminated.
#[derive(Debug)]
pub struct StateCreatedNotAccepted;

impl TaskEnqueueingError for StateCreatedNotAccepted {
}

/// A task in a queue, as a listing shows it.
#[derive(Debug)]
pub struct EnqueuedTask {
    pub id: u32,
    pub name: &'static str,
}

} // verus!
