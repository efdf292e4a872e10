use kernel::future::Future;
use kernel::main_thread::MainThread;
use kernel::messages::HardwareInterrupt;
use kernel::task::{FunctionTask, TaskHandle, TaskState, STACK_WORDS};
use kernel::task_manager::TaskManager;

struct Ready(bool);

impl Future for Ready {
    fn is_completed(&self) -> bool {
        self.0
    }
    fn complete(&mut self) {
        self.0 = true;
    }
}

fn add_ready(manager: &mut TaskManager, id: u32) -> TaskHandle {
    let stack = vec![0usize; STACK_WORDS];
    let top = stack.as_ptr() as usize + STACK_WORDS * 8;
    let h = manager.add_task(FunctionTask::new(id, "T", 0, 0, stack, top)).unwrap();
    manager.set_state(h, TaskState::Ready);
    h
}

#[test]
fn main_thread_runs_ready_tasks_in_turn_then_idle() {
    let mut manager = TaskManager::new();
    let mut thread: MainThread<Ready> = MainThread::new();
    let idle = add_ready(&mut manager, 1);
    let a = add_ready(&mut manager, 2);
    let b = add_ready(&mut manager, 3);
    thread.set_idle_task(idle).unwrap();
    assert!(thread.set_idle_task(a).is_err());
    thread.push_task(&manager, a);
    thread.push_task(&manager, b);

    let next = thread.select_next_task(&mut manager);
    assert_eq!(next, a);
    assert_eq!(manager.get_state(a), TaskState::Running);
    thread.finish_run(&mut manager, next);
    assert_eq!(manager.get_state(a), TaskState::Ready);

    assert_eq!(thread.select_next_task(&mut manager), b);
    manager.set_state(b, TaskState::Terminated);
    thread.finish_run(&mut manager, b);
    assert_eq!(manager.get_state(b), TaskState::Terminated);

    assert_eq!(thread.select_next_task(&mut manager), a);
    thread.finish_run(&mut manager, a);
    assert_eq!(thread.select_next_task(&mut manager), a);
    manager.set_state(a, TaskState::Blocked);
    thread.finish_run(&mut manager, a);
    let idle_next = thread.select_next_task(&mut manager);
    assert_eq!(idle_next, idle);
    thread.finish_run(&mut manager, idle_next);
    assert_eq!(thread.select_next_task(&mut manager), idle);
}

#[test]
fn main_thread_wakes_tasks_whose_futures_completed() {
    let mut manager = TaskManager::new();
    let mut thread: MainThread<Ready> = MainThread::new();
    let a = add_ready(&mut manager, 1);
    let b = add_ready(&mut manager, 2);
    manager.set_state(a, TaskState::Blocked);
    manager.set_state(b, TaskState::Blocked);
    thread.push_blocked(a, Ready(false));
    thread.push_blocked(b, Ready(true));
    thread.pool_futures(&mut manager);
    assert_eq!(manager.get_state(b), TaskState::Ready);
    assert_eq!(manager.get_state(a), TaskState::Blocked);
    assert_eq!(thread.select_next_task(&mut manager), b);
    thread.pool_futures_with(&mut manager, &vec![true]);
    assert_eq!(thread.select_next_task(&mut manager), a);
}

#[test]
fn main_thread_drops_interrupts() {
    let mut thread: MainThread<Ready> = MainThread::new();
    thread.push_hardware_interrupt(HardwareInterrupt::Keyboard { scancode: 0x1E });
    thread.process_hardware_interrupts();
    let mut manager = TaskManager::new();
    let idle = add_ready(&mut manager, 9);
    thread.set_idle_task(idle).unwrap();
    assert_eq!(thread.select_next_task(&mut manager), idle);
}
