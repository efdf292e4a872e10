use vstd::prelude::*;

use crate::task::{SharedTask, Task};
use crate::task_queue::{EnqueuedTask, StateCreatedNotAccepted, TaskQueue};

verus! {

/// Tasks in the order in which they were offered.
pub struct TaskFifoQueue {
    tasks: Vec<SharedTask>,
}

impl TaskFifoQueue {
    /// The tasks, next first.
    pub closed spec fn view(&self) -> Seq<Task> {
        self.tasks@.map_values(|t: SharedTask| *t)
    }

    pub fn new() -> (queue: Self)
        ensures
            queue@ == Seq::<Task>::empty(),
    {
        let queue = TaskFifoQueue { tasks: Vec::with_capacity(5) };
        assert(queue@ =~= Seq::<Task>::empty());
        queue
    }

    /// Appends `task` when it is schedulable; refuses (and drops) it when it
    /// was never made ready or has terminated.
    pub fn offer(&mut self, task: SharedTask) -> (result: Result<(), StateCreatedNotAccepted>)
        ensures
            match result {
                Ok(()) => task.spec_is_schedulable() && final(self)@ == old(self)@.push(*task),
                Err(_) => !task.spec_is_schedulable() && final(self)@ == old(self)@,
            },
    {
        if !task.is_schedulable() {
            return Err(StateCreatedNotAccepted);
        }
        let ghost t = *task;
        self.tasks.push(task);
        assert(self@ =~= old(self)@.push(t));
        Ok(())
    }

    /// Takes the task that was offered first.
    pub fn take_next(&mut self) -> (next: Option<SharedTask>)
        ensures
            match next {
                None => old(self)@.len() == 0 && final(self)@ == old(self)@,
                Some(t) => old(self)@.len() > 0 && *t == old(self)@[0] && final(self)@
                    == old(self)@.drop_first(),
            },
    {
        if self.tasks.len() == 0 {
            None
        } else {
            let t = self.tasks.remove(0);
            assert(self@ =~= old(self)@.drop_first());
            Some(t)
        }
    }

    /// The id and name of each task, next first.
    pub fn list_tasks(&self) -> (list: Vec<EnqueuedTask>)
        ensures
            list@.len() == self@.len(),
            forall|i: int|
                0 <= i < list@.len() ==> (#[trigger] list@[i]).id == self@[i].spec_id()
                    && list@[i].name == self@[i].spec_name(),
    {
        let mut list: Vec<EnqueuedTask> = Vec::new();
        let mut i: usize = 0;
        while i < self.tasks.len()
            invariant
                i <= self.tasks@.len(),
                list@.len() == i,
                forall|j: int|
                    0 <= j < i ==> (#[trigger] list@[j]).id == self@[j].spec_id() && list@[j].name
                        == self@[j].spec_name(),
            decreases self.tasks@.len() - i,
        {
            let task = &self.tasks[i];
            list.push(EnqueuedTask { id: task.id(), name: task.name() });
            i = i + 1;
        }
        list
    }
}

impl TaskQueue for TaskFifoQueue {
    fn offer(&mut self, task: SharedTask) -> (result: Result<(), StateCreatedNotAccepted>)
        ensures
            match result {
                Ok(()) => task.spec_is_schedulable() && final(self)@ == old(self)@.push(*task),
                Err(_) => !task.spec_is_schedulable() && final(self)@ == old(self)@,
            },
    {
        TaskFifoQueue::offer(self, task)
    }

    fn take_next(&mut self) -> (next: Option<SharedTask>)
        ensures
            match next {
                None => old(self)@.len() == 0 && final(self)@ == old(self)@,
                Some(t) => old(self)@.len() > 0 && *t == old(self)@[0] && final(self)@
                    == old(self)@.drop_first(),
            },
    {
        TaskFifoQueue::take_next(self)
    }

    fn list_tasks(&self) -> (list: Vec<EnqueuedTask>)
        ensures
            list@.len() == self@.len(),
            forall|i: int|
                0 <= i < list@.len() ==> (#[trigger] list@[i]).id == self@[i].spec_id()
                    && list@[i].name == self@[i].spec_name(),
    {
        TaskFifoQueue::list_tasks(self)
    }
}

} // verus!
