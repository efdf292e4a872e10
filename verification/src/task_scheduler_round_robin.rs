use vstd::prelude::*;

use crate::task::{SharedTask, Task, TaskState};
use crate::task_fifo_queue::TaskFifoQueue;

verus! {

/// Runs ready tasks in turn, and the idle task when none is ready.
pub struct RoundRobin {
    idle_task: Option<SharedTask>,
    idle_task_pid: u32,
    ready_tasks: TaskFifoQueue,
    blocked_tasks: Vec<SharedTask>,
}

impl RoundRobin {
    pub closed spec fn spec_idle_task(&self) -> Option<Task> {
        match self.idle_task {
            Some(t) => Some(*t),
            None => None,
        }
    }

    pub closed spec fn spec_idle_task_pid(&self) -> u32 {
        self.idle_task_pid
    }

    /// The ready tasks, next first.
    pub closed spec fn ready(&self) -> Seq<Task> {
        self.ready_tasks@
    }

    /// A scheduler whose idle task is `idle_task`, made ready with the stack
    /// pointer `initial_stack_pointer` that the processor prepared for it.
    pub fn new(idle_task: SharedTask, initial_stack_pointer: usize) -> (scheduler: Self)
        ensures
            scheduler.spec_idle_task_pid() == idle_task.spec_id(),
            scheduler.ready() == Seq::<Task>::empty(),
            scheduler.spec_idle_task() is Some,
            ({
                let t = scheduler.spec_idle_task()->0;
                &&& t.spec_id() == idle_task.spec_id()
                &&& t.spec_state() == TaskState::Ready
                &&& t.spec_stack_pointer() == initial_stack_pointer
                &&& t.spec_name() == idle_task.spec_name()
                &&& t.spec_entry_point() == idle_task.spec_entry_point()
                &&& t.spec_entry_param() == idle_task.spec_entry_param()
            }),
    {
        let mut idle_task = idle_task;
        let idle_task_pid = idle_task.id();
        idle_task.set_stack_pointer(initial_stack_pointer);
        idle_task.set_ready();
        RoundRobin {
            idle_task: Some(idle_task),
            idle_task_pid,
            ready_tasks: TaskFifoQueue::new(),
            blocked_tasks: Vec::with_capacity(5),
        }
    }

    /// Queues `task` when it is ready; other tasks are dropped.
    pub fn push_task(&mut self, task: SharedTask)
        ensures
            final(self).spec_idle_task() == old(self).spec_idle_task(),
            final(self).spec_idle_task_pid() == old(self).spec_idle_task_pid(),
            final(self).ready() == if task.spec_state() == TaskState::Ready {
                old(self).ready().push(*task)
            } else {
                old(self).ready()
            },
    {
        match task.state() {
            TaskState::Ready => {
                let _ = self.ready_tasks.offer(task);
            },
            _ => {},
        }
    }

    /// The task to run next, marked running: the first ready task, else the
    /// idle task.
    pub fn take_task_to_run(&mut self) -> (task: SharedTask)
        requires
            old(self).ready().len() > 0 || old(self).spec_idle_task() is Some,
        ensures
            final(self).spec_idle_task_pid() == old(self).spec_idle_task_pid(),
            old(self).ready().len() > 0 ==> {
                &&& old(self).ready()[0].with_state(&*task, TaskState::Running)
                &&& final(self).ready() == old(self).ready().drop_first()
                &&& final(self).spec_idle_task() == old(self).spec_idle_task()
            },
            old(self).ready().len() == 0 ==> {
                &&& old(self).spec_idle_task()->0.with_state(&*task, TaskState::Running)
                &&& final(self).ready() == old(self).ready()
                &&& final(self).spec_idle_task() is None
            },
    {
        let mut task_option = self.ready_tasks.take_next();
        if task_option.is_none() {
            task_option = self.idle_task.take();
        }
        let mut task = task_option.unwrap();
        task.set_running();
        task
    }

    /// Takes back a task that gave up the processor. A task still running
    /// becomes ready and goes to the back of the queue, or back to the idle
    /// slot if it is the idle task; a task in any other state is dropped.
    pub fn return_task(&mut self, task: SharedTask)
        ensures
            final(self).spec_idle_task_pid() == old(self).spec_idle_task_pid(),
            task.spec_state() != TaskState::Running ==> final(self).ready() == old(self).ready()
                && final(self).spec_idle_task() == old(self).spec_idle_task(),
            task.spec_state() == TaskState::Running && task.spec_id() != old(self).spec_idle_task_pid()
                ==> final(self).spec_idle_task() == old(self).spec_idle_task() && final(self).ready().len()
                == old(self).ready().len() + 1 && final(self).ready().drop_last() == old(self).ready()
                && task.with_state(&final(self).ready().last(), TaskState::Ready),
            task.spec_state() == TaskState::Running && task.spec_id() == old(self).spec_idle_task_pid()
                ==> final(self).ready() == old(self).ready() && final(self).spec_idle_task() is Some
                && task.with_state(&final(self).spec_idle_task()->0, TaskState::Ready),
    {
        let mut task = task;
        if task.state() == TaskState::Running {
            task.set_ready();
            if task.id() != self.idle_task_pid {
                let _ = self.ready_tasks.offer(task);
            } else {
                self.idle_task = Some(task);
            }
        }
    }
}

} // verus!
