use kernel::generic_arena::Handle;
use kernel::scheduler::{fifo_scheduler, mfq_scheduler, Scheduler, SchedulerFactory};
use kernel::task::{FunctionTask, TaskState, STACK_WORDS};
use kernel::task_manager::TaskManager;

fn boot_with(factory: SchedulerFactory) -> Box<dyn Scheduler> {
    factory()
}

#[test]
fn factories_build_schedulers_that_take_tasks_and_an_idle_task() {
    for factory in [mfq_scheduler as SchedulerFactory, fifo_scheduler as SchedulerFactory] {
        let mut manager = TaskManager::new();
        let stack = vec![0usize; STACK_WORDS];
        let top = stack.as_ptr() as usize + STACK_WORDS * 8;
        let handle = manager.add_task(FunctionTask::new(1, "T", 0x1000, 0, stack, top)).unwrap();
        manager.set_state(handle, TaskState::Ready);
        let mut scheduler = boot_with(factory);
        scheduler.push_task(&manager, handle);
        scheduler.push_blocked(handle, Handle::new(0u32, 0u32));
        assert_eq!(scheduler.set_idle_task(handle), Ok(()));
        assert_eq!(scheduler.set_idle_task(handle), Err(()));
        assert!(scheduler.should_preempt());
    }
}
