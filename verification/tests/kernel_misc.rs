use kernel::future::{Future, FutureRegistry, TaskCompletionFuture, TimeFuture};
use kernel::generic_arena::Handle;
use kernel::keyboard::{handle_scancode, Key, KeyboardBuffer, KeyboardFuture};
use kernel::scheduler::fifo_scheduler::FifoScheduler;
use kernel::state::{ExecutionContext, ExecutionState};
use kernel::syscall::{bool_code, decode_future_handle, encode_task_handle, layout_is_valid, SPAWN_FAILED};
use kernel::task::{FunctionTask, TaskHandle, TaskState, STACK_WORDS};
use kernel::task_manager::TaskManager;

fn add_task(manager: &mut TaskManager, id: u32, name: &'static str) -> TaskHandle {
    let stack = vec![0usize; STACK_WORDS];
    let top = stack.as_ptr() as usize + STACK_WORDS * 8;
    manager.add_task(FunctionTask::new(id, name, 0, 0, stack, top)).unwrap()
}

#[test]
fn orphaned_completion_future_is_removed_when_task_terminates() {
    let mut manager = TaskManager::new();
    let scheduler = FifoScheduler::new();
    let task_handle = add_task(&mut manager, 1, "T");
    let future_handle = Handle::new(3u32, 1u32);
    manager.set_state(task_handle, TaskState::Terminated);
    // Nobody waits for the terminated task's completion future: it goes.
    assert_eq!(scheduler.cleanup_completion_future(Some(future_handle)), Some(future_handle));
}

#[test]
fn waited_on_completion_future_is_not_removed_when_task_terminates() {
    let mut manager = TaskManager::new();
    let mut scheduler = FifoScheduler::new();
    let task_handle = add_task(&mut manager, 1, "T");
    let future_handle = Handle::new(3u32, 1u32);
    let waiter = add_task(&mut manager, 2, "Waiter");
    manager.set_state(waiter, TaskState::Ready);
    scheduler.push_blocked(waiter, future_handle);
    manager.set_state(task_handle, TaskState::Terminated);
    assert_eq!(scheduler.cleanup_completion_future(Some(future_handle)), None);
    assert_eq!(scheduler.cleanup_completion_future(None), None);
}

#[test]
fn fifo_scheduler_runs_tasks_in_order_then_idle() {
    let mut manager = TaskManager::new();
    let mut scheduler = FifoScheduler::new();
    let idle = add_task(&mut manager, 1, "Idle");
    let a = add_task(&mut manager, 2, "A");
    let b = add_task(&mut manager, 3, "B");
    manager.set_state(a, TaskState::Ready);
    manager.set_state(b, TaskState::Ready);
    scheduler.set_idle_task(idle).unwrap();
    assert!(scheduler.set_idle_task(a).is_err());
    scheduler.push_task(&manager, a);
    scheduler.push_task(&manager, b);
    assert_eq!(scheduler.select_next_task(&mut manager), a);
    assert_eq!(manager.get_state(a), TaskState::Running);
    assert_eq!(scheduler.select_next_task(&mut manager), b);
    assert_eq!(scheduler.select_next_task(&mut manager), idle);
}

#[test]
fn time_future_completes_after_its_duration() {
    let mut f = TimeFuture::new(50, 1000);
    assert_eq!(f.duration(), 50);
    assert!(!f.is_completed_at(1050));
    assert!(f.is_completed_at(1051));
    f.complete();
    assert!(f.is_completed_at(1));
    assert_eq!(f.duration(), 50);
}

#[test]
fn task_handles_are_encoded_index_high_generation_low() {
    assert_eq!(encode_task_handle(Handle::new(3u8, 7u8)), (3u64 << 32) | 7);
    assert_eq!(encode_task_handle(Handle::new(0u8, 0u8)), 0);
    assert_ne!(encode_task_handle(Handle::new(255u8, 255u8)), SPAWN_FAILED);
}

#[test]
fn future_handles_are_decoded_index_high_generation_low() {
    let h = decode_future_handle((9u64 << 32) | 4);
    assert_eq!((h.index, h.generation), (9, 4));
    let h = decode_future_handle(u64::MAX);
    assert_eq!((h.index, h.generation), (u32::MAX, u32::MAX));
}

#[test]
fn layouts_follow_the_alignment_rules() {
    assert!(layout_is_valid(64, 8));
    assert!(layout_is_valid(0, 1));
    assert!(!layout_is_valid(64, 0));
    assert!(!layout_is_valid(64, 12));
    assert!(layout_is_valid(isize::MAX as usize - 7, 8));
    assert!(!layout_is_valid(isize::MAX as usize - 6, 8));
    assert_eq!(bool_code(true), 1);
    assert_eq!(bool_code(false), 0);
}

#[test]
fn execution_state_follows_a_task_switch() {
    let sched = Handle::new(0u8, 0u8);
    let task = Handle::new(1u8, 0u8);
    let mut state = ExecutionState::new(sched);
    assert_eq!(state.execution_context(), ExecutionContext::Kernel);
    assert!(!state.preemption_enabled);
    state.enter_task(task);
    assert_eq!(state.current_task(), task);
    assert_eq!(state.execution_context(), ExecutionContext::UserTask);
    assert!(state.preemption_enabled);
    assert_eq!(state.enter_scheduler(), Some(task));
    assert_eq!(state.execution_context(), ExecutionContext::Kernel);
    state.resume_task();
    assert!(state.preemption_enabled);
    assert_eq!(state.leave_task(), task);
    assert!(state.current_task.is_none());
    assert_eq!(state.enter_scheduler(), None);
}

#[test]
fn blocking_marks_current_task_blocked() {
    let mut manager = TaskManager::new();
    let t = add_task(&mut manager, 1, "T");
    let mut state = ExecutionState::new(Handle::new(9u8, 0u8));
    state.enter_task(t);
    state.block_current_task(&mut manager);
    assert_eq!(manager.get_state(t), TaskState::Blocked);
}

#[test]
fn scancodes_become_characters() {
    let mut buffer = KeyboardBuffer::new();
    let future = KeyboardFuture::new();
    assert!(!future.is_completed(&buffer));
    handle_scancode(&mut buffer, 0x1E);
    handle_scancode(&mut buffer, 0x9E);
    handle_scancode(&mut buffer, 0x01);
    handle_scancode(&mut buffer, 0x10);
    assert!(future.is_completed(&buffer));
    assert_eq!(buffer.pop_key(), Some('a'));
    assert_eq!(buffer.pop_key(), Some('q'));
    assert_eq!(buffer.pop_key(), None);
}

#[test]
fn unknown_scancodes_are_reported_without_release_bit() {
    assert!(matches!(Key::from_scancode_set1(0x1E), Ok(Key::A)));
    assert!(matches!(Key::from_scancode_set1(0x9E), Ok(Key::A)));
    assert!(matches!(Key::from_scancode_set1(0xFF), Err(0x7F)));
}

#[test]
fn init_and_access_services() {
    let mut manager = TaskManager::new();
    let mut registry: FutureRegistry<Completion> = FutureRegistry::new();
    let handle = add_task(&mut manager, 0, "test");
    assert_eq!(manager.get_state(handle), TaskState::Created);
    let fh = registry.register(Completion(TaskCompletionFuture::new(handle)));
    assert!(fh.is_some());
}

struct Completion(TaskCompletionFuture);

impl Future for Completion {
    fn is_completed(&self) -> bool {
        false
    }
    fn complete(&mut self) {}
}
