use vstd::prelude::*;

use crate::generic_arena::Handle;

verus! {

/// Names a task.
pub type TaskHandle = Handle<u8, u8>;

/// Names a future.
pub type FutureHandle = Handle<u32, u32>;

/// Number of machine words of a task's stack.
pub const STACK_WORDS: usize = 2048;

/// Why a task gave the processor back.
#[derive(Clone, Copy, PartialEq, Eq, Debug, Structural)]
pub enum YieldReason {
    Voluntary,
    Preempted,
}

/// Where a task is in its life.
#[derive(Clone, Copy, PartialEq, Eq, Debug, Structural)]
pub enum TaskState {
    Created,
    Ready,
    Running,
    Blocked,
    Terminated,
}

impl TaskState {
    /// The state's name.
    pub fn as_str(&self) -> (name: &'static str)
        ensures
            name@ == match *self {
                TaskState::Created => "Created"@,
                TaskState::Ready => "Ready"@,
                TaskState::Running => "Running"@,
                TaskState::Blocked => "Blocked"@,
                TaskState::Terminated => "Terminated"@,
            },
    {
        match self {
            TaskState::Created => "Created",
            TaskState::Ready => "Ready",
            TaskState::Running => "Running",
            TaskState::Blocked => "Blocked",
            TaskState::Terminated => "Terminated",
        }
    }
}

/// A task: its name, its state, where it starts and its own stack.
#[derive(Debug)]
pub struct Task {
    id: u32,
    name: &'static str,
    state: TaskState,
    yield_reason: Option<YieldReason>,
    stack_pointer: usize,
    entry_point: usize,
    entry_param: usize,
    stack: Vec<usize>,
}

/// A task that the heap holds, as the schedulers pass it around.
pub type SharedTask = Box<Task>;

impl Task {
    pub closed spec fn spec_id(&self) -> u32 {
        self.id
    }

    pub closed spec fn spec_name(&self) -> &'static str {
        self.name
    }

    pub closed spec fn spec_state(&self) -> TaskState {
        self.state
    }

    pub closed spec fn spec_yield_reason(&self) -> Option<YieldReason> {
        self.yield_reason
    }

    pub closed spec fn spec_stack_pointer(&self) -> usize {
        self.stack_pointer
    }

    pub closed spec fn spec_entry_point(&self) -> usize {
        self.entry_point
    }

    pub closed spec fn spec_entry_param(&self) -> usize {
        self.entry_param
    }

    /// A new task in state `Created` that will run `entry_point` with
    /// `entry_param` on `stack`, whose stack pointer starts at `stack_top`,
    /// the address one past the end of `stack`.
    pub fn new(
        id: u32,
        name: &'static str,
        entry_point: usize,
        entry_param: usize,
        stack: Vec<usize>,
        stack_top: usize,
    ) -> (task: SharedTask)
        ensures
            task.spec_id() == id,
            task.spec_name() == name,
            task.spec_state() == TaskState::Created,
            task.spec_yield_reason() is None,
            task.spec_stack_pointer() == stack_top,
            task.spec_entry_point() == entry_point,
            task.spec_entry_param() == entry_param,
    {
        let mut task = Box::new(
            Task {
                id,
                name,
                state: TaskState::Created,
                yield_reason: None,
                stack_pointer: 0,
                entry_point,
                entry_param,
                stack,
            },
        );
        task.set_stack_pointer(stack_top);
        task
    }

    pub fn id(&self) -> (id: u32)
        ensures
            id == self.spec_id(),
    {
        self.id
    }

    pub fn name(&self) -> (name: &'static str)
        ensures
            name == self.spec_name(),
    {
        self.name
    }

    pub fn stack_pointer(&self) -> (sp: usize)
        ensures
            sp == self.spec_stack_pointer(),
    {
        self.stack_pointer
    }

    /// The stack pointer, for the context switch to store into.
    pub fn stack_pointer_mut(&mut self) -> (sp: &mut usize)
        ensures
            *sp == old(self).spec_stack_pointer(),
            final(self).spec_stack_pointer() == *final(sp),
            final(self).spec_id() == old(self).spec_id(),
            final(self).spec_name() == old(self).spec_name(),
            final(self).spec_state() == old(self).spec_state(),
            final(self).spec_yield_reason() == old(self).spec_yield_reason(),
            final(self).spec_entry_point() == old(self).spec_entry_point(),
            final(self).spec_entry_param() == old(self).spec_entry_param(),
    {
        &mut self.stack_pointer
    }

    pub fn set_stack_pointer(&mut self, new_stack_pointer: usize)
        ensures
            final(self).spec_stack_pointer() == new_stack_pointer,
            final(self).spec_id() == old(self).spec_id(),
            final(self).spec_name() == old(self).spec_name(),
            final(self).spec_state() == old(self).spec_state(),
            final(self).spec_yield_reason() == old(self).spec_yield_reason(),
            final(self).spec_entry_point() == old(self).spec_entry_point(),
            final(self).spec_entry_param() == old(self).spec_entry_param(),
    {
        self.stack_pointer = new_stack_pointer;
    }

    pub fn state(&self) -> (state: TaskState)
        ensures
            state == self.spec_state(),
    {
        self.state
    }

    /// Whether `other` is `self` with only its state changed to `state`.
    pub open spec fn with_state(&self, other: &Task, state: TaskState) -> bool {
        &&& other.spec_state() == state
        &&& other.spec_id() == self.spec_id()
        &&& other.spec_name() == self.spec_name()
        &&& other.spec_yield_reason() == self.spec_yield_reason()
        &&& other.spec_stack_pointer() == self.spec_stack_pointer()
        &&& other.spec_entry_point() == self.spec_entry_point()
        &&& other.spec_entry_param() == self.spec_entry_param()
    }

    pub fn set_state(&mut self, new_state: TaskState)
        ensures
            old(self).with_state(final(self), new_state),
    {
        self.state = new_state;
    }

    pub fn set_ready(&mut self)
        ensures
            old(self).with_state(final(self), TaskState::Ready),
    {
        self.state = TaskState::Ready;
    }

    pub fn set_running(&mut self)
        ensures
            old(self).with_state(final(self), TaskState::Running),
    {
        self.state = TaskState::Running;
    }

    pub fn set_terminated(&mut self)
        ensures
            old(self).with_state(final(self), TaskState::Terminated),
    {
        self.state = TaskState::Terminated;
    }

    pub fn set_blocked(&mut self)
        ensures
            old(self).with_state(final(self), TaskState::Blocked),
    {
        self.state = TaskState::Blocked;
    }

    pub fn yield_reason(&self) -> (reason: Option<YieldReason>)
        ensures
            reason == self.spec_yield_reason(),
    {
        self.yield_reason
    }

    pub fn set_yield_reason(&mut self, reason: YieldReason)
        ensures
            final(self).spec_yield_reason() == Some(reason),
            final(self).spec_id() == old(self).spec_id(),
            final(self).spec_name() == old(self).spec_name(),
            final(self).spec_state() == old(self).spec_state(),
            final(self).spec_stack_pointer() == old(self).spec_stack_pointer(),
            final(self).spec_entry_point() == old(self).spec_entry_point(),
            final(self).spec_entry_param() == old(self).spec_entry_param(),
    {
        self.yield_reason = Some(reason);
    }

    /// Whether a scheduler may run the task: it was made ready once and has
    /// not terminated.
    pub open spec fn spec_is_schedulable(&self) -> bool {
        self.spec_state() != TaskState::Created && self.spec_state() != TaskState::Terminated
    }

    pub fn is_schedulable(&self) -> (schedulable: bool)
        ensures
            schedulable == self.spec_is_schedulable(),
    {
        self.state != TaskState::Created && self.state != TaskState::Terminated
    }

    pub fn entry_point(&self) -> (entry_point: usize)
        ensures
            entry_point == self.spec_entry_point(),
    {
        self.entry_point
    }

    pub fn entry_param(&self) -> (entry_param: usize)
        ensures
            entry_param == self.spec_entry_param(),
    {
        self.entry_param
    }
}

/// A task made from a function of the kernel.
#[derive(Copy, Clone, Debug)]
pub struct FunctionTask {}

impl FunctionTask {
    /// The task `name` that runs the function at `job` through `wrapper`,
    /// the routine that starts a task and ends it when the function returns.
    pub fn new(id: u32, name: &'static str, wrapper: usize, job: usize, stack: Vec<usize>, stack_top: usize) -> (task: SharedTask)
        ensures
            task.spec_id() == id,
            task.spec_name() == name,
            task.spec_state() == TaskState::Created,
            task.spec_entry_point() == wrapper,
            task.spec_entry_param() == job,
            task.spec_yield_reason() is None,
            task.spec_stack_pointer() == stack_top,
    {
        Task::new(id, name, wrapper, job, stack, stack_top)
    }
}

/// The idle task: it runs `idle_entry` with the address of the processor
/// it halts.
pub fn idle_task_factory(id: u32, idle_entry: usize, cpu_ref: usize, stack: Vec<usize>, stack_top: usize) -> (task: SharedTask)
    ensures
        task.spec_id() == id,
        task.spec_name()@ == "[K] Idle"@,
        task.spec_state() == TaskState::Created,
        task.spec_entry_point() == idle_entry,
        task.spec_entry_param() == cpu_ref,
        task.spec_yield_reason() is None,
        task.spec_stack_pointer() == stack_top,
{
    Task::new(id, "[K] Idle", idle_entry, cpu_ref, stack, stack_top)
}

/// A task that runs the code at `entrypoint` through `wrapper`.
pub fn new_entrypoint_task(id: u32, wrapper: usize, entrypoint: usize, stack: Vec<usize>, stack_top: usize) -> (task: SharedTask)
    ensures
        task.spec_id() == id,
        task.spec_name()@ == "EPT"@,
        task.spec_state() == TaskState::Created,
        task.spec_entry_point() == wrapper,
        task.spec_entry_param() == entrypoint,
        task.spec_yield_reason() is None,
        task.spec_stack_pointer() == stack_top,
{
    Task::new(id, "EPT", wrapper, entrypoint, stack, stack_top)
}

/// A task that loads and runs the ELF file at `elf_ref` through `wrapper`.
pub fn new_elf_task(id: u32, wrapper: usize, elf_ref: usize, stack: Vec<usize>, stack_top: usize) -> (task: SharedTask)
    ensures
        task.spec_id() == id,
        task.spec_name()@ == "ELF"@,
        task.spec_state() == TaskState::Created,
        task.spec_entry_point() == wrapper,
        task.spec_entry_param() == elf_ref,
        task.spec_yield_reason() is None,
        task.spec_stack_pointer() == stack_top,
{
    Task::new(id, "ELF", wrapper, elf_ref, stack, stack_top)
}

} // verus!
