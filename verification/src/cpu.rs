use vstd::prelude::*;

use crate::task::{Task, TaskState};

verus! {

/// What the kernel needs of a processor.
pub trait Cpu {
    fn setup(&self);

    fn enable_interrupts(&self);

    fn disable_interrupts(&self);

    fn are_interrupts_enabled(&self) -> bool;

    /// The stack pointer that laying out a fresh stack at `stack_pointer`
    /// for `entry_point` and the two parameters leaves; each processor says
    /// what its layout takes.
    spec fn stack_after_setup(&self, stack_pointer: usize, entry_point: usize, param1: usize, param2: usize) -> usize;

    /// Lays out a fresh stack at `stack_pointer` so that switching to it
    /// calls `entry_point` with the two parameters; returns the new stack
    /// pointer.
    fn initialize_stack(&self, stack_pointer: usize, entry_point: usize, param1: usize, param2: usize) -> (new_stack_pointer: usize)
        ensures
            new_stack_pointer == self.stack_after_setup(stack_pointer, entry_point, param1, param2),
    ;

    /// Saves the current context's stack pointer in `stack_pointer_to_store`
    /// and resumes the context whose stack pointer is `stack_pointer_to_load`.
    fn swap_context(&self, stack_pointer_to_store: &mut usize, stack_pointer_to_load: usize);

    fn get_system_time(&self) -> u64;

    fn halt(&self);

    /// Prepares `task` to run: lays out its stack to call its entry point
    /// with its parameter, and makes it ready.
    fn initialize_task(&self, task: &mut Task)
        ensures
            final(task).spec_state() == TaskState::Ready,
            final(task).spec_entry_point() == old(task).spec_entry_point(),
            final(task).spec_entry_param() == old(task).spec_entry_param(),
            final(task).spec_name() == old(task).spec_name(),
            final(task).spec_id() == old(task).spec_id(),
            final(task).spec_yield_reason() == old(task).spec_yield_reason(),
            final(task).spec_stack_pointer() == self.stack_after_setup(
                old(task).spec_stack_pointer(),
                old(task).spec_entry_point(),
                old(task).spec_entry_param(),
                0,
            ),
    {
        let new_stack_pointer = self.initialize_stack(
            task.stack_pointer(),
            task.entry_point(),
            task.entry_param(),
            0,
        );
        task.set_stack_pointer(new_stack_pointer);
        task.set_ready();
    }
}

} // verus!
