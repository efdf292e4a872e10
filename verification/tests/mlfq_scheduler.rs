use kernel::keyboard::KeyboardBuffer;
use kernel::messages::HardwareInterrupt;
use kernel::generic_arena::Handle;
use kernel::mlfq_scheduler::MlfqScheduler;
use kernel::task::{FunctionTask, TaskHandle, TaskState, YieldReason, STACK_WORDS};
use kernel::task_manager::TaskManager;

fn create_ready_task(manager: &mut TaskManager, id: u32, name: &'static str) -> TaskHandle {
    let stack = vec![0usize; STACK_WORDS];
    let top = stack.as_ptr() as usize + STACK_WORDS * 8;
    let task = FunctionTask::new(id, name, 0x1000, 0, stack, top);
    let handle = manager.add_task(task).unwrap();
    manager.set_state(handle, TaskState::Ready);
    handle
}

#[test]
fn next_priority_with_no_yield_reason_returns_queue_0() {
    assert_eq!(MlfqScheduler::next_priority(1, None), 0);
    assert_eq!(MlfqScheduler::next_priority(2, None), 0);
}

#[test]
fn next_priority_with_voluntary_keeps_current_priority() {
    assert_eq!(MlfqScheduler::next_priority(0, Some(YieldReason::Voluntary)), 0);
    assert_eq!(MlfqScheduler::next_priority(1, Some(YieldReason::Voluntary)), 1);
    assert_eq!(MlfqScheduler::next_priority(2, Some(YieldReason::Voluntary)), 2);
}

#[test]
fn next_priority_with_preempted_demotes_one_level() {
    assert_eq!(MlfqScheduler::next_priority(0, Some(YieldReason::Preempted)), 1);
    assert_eq!(MlfqScheduler::next_priority(1, Some(YieldReason::Preempted)), 2);
}

#[test]
fn next_priority_with_preempted_at_lowest_stays_at_lowest() {
    assert_eq!(MlfqScheduler::next_priority(2, Some(YieldReason::Preempted)), 2);
}

#[test]
fn push_task_places_task_in_queue_0() {
    let mut manager = TaskManager::new();
    let mut scheduler = MlfqScheduler::new();
    let h = create_ready_task(&mut manager, 1, "T");
    scheduler.push_task(&manager, h);
    assert_eq!(scheduler.queue_len(0), 1);
    assert_eq!(scheduler.queue_len(1), 0);
    assert_eq!(scheduler.queue_len(2), 0);
}

#[test]
fn take_next_handle_returns_from_highest_non_empty_queue() {
    let mut manager = TaskManager::new();
    let mut scheduler = MlfqScheduler::new();
    let h_high = create_ready_task(&mut manager, 1, "High");
    let h_low = create_ready_task(&mut manager, 2, "Low");

    scheduler.push_task(&manager, h_high);
    let (taken, priority) = scheduler.take_next_handle().unwrap();
    manager.set_yield_reason(taken, YieldReason::Preempted);
    scheduler.requeue_after_run(&manager, taken, priority);

    scheduler.push_task(&manager, h_low);

    let (next, next_priority) = scheduler.take_next_handle().unwrap();
    assert_eq!(next, h_low);
    assert_eq!(next_priority, 0);
}

#[test]
fn requeue_after_voluntary_yield_keeps_same_priority() {
    let mut manager = TaskManager::new();
    let mut scheduler = MlfqScheduler::new();
    let h = create_ready_task(&mut manager, 1, "T");
    scheduler.push_task(&manager, h);
    let (taken, priority) = scheduler.take_next_handle().unwrap();
    manager.set_yield_reason(taken, YieldReason::Voluntary);
    scheduler.requeue_after_run(&manager, taken, priority);
    assert_eq!(scheduler.queue_len(0), 1);
    assert_eq!(scheduler.queue_len(1), 0);
}

#[test]
fn requeue_after_preemption_demotes_to_next_level() {
    let mut manager = TaskManager::new();
    let mut scheduler = MlfqScheduler::new();
    let h = create_ready_task(&mut manager, 1, "T");
    scheduler.push_task(&manager, h);
    let (taken, priority) = scheduler.take_next_handle().unwrap();
    manager.set_yield_reason(taken, YieldReason::Preempted);
    scheduler.requeue_after_run(&manager, taken, priority);
    assert_eq!(scheduler.queue_len(0), 0);
    assert_eq!(scheduler.queue_len(1), 1);
    assert_eq!(scheduler.queue_len(2), 0);
}

#[test]
fn requeue_at_lowest_priority_stays_at_lowest_when_preempted() {
    let mut manager = TaskManager::new();
    let mut scheduler = MlfqScheduler::new();
    let h = create_ready_task(&mut manager, 1, "T");
    scheduler.push_task(&manager, h);

    let (taken, p) = scheduler.take_next_handle().unwrap();
    manager.set_yield_reason(taken, YieldReason::Preempted);
    scheduler.requeue_after_run(&manager, taken, p);

    let (taken, p) = scheduler.take_next_handle().unwrap();
    manager.set_yield_reason(taken, YieldReason::Preempted);
    scheduler.requeue_after_run(&manager, taken, p);

    let (taken, p) = scheduler.take_next_handle().unwrap();
    assert_eq!(p, 2);
    manager.set_yield_reason(taken, YieldReason::Preempted);
    scheduler.requeue_after_run(&manager, taken, p);

    assert_eq!(scheduler.queue_len(2), 1);
    assert_eq!(scheduler.queue_len(0), 0);
    assert_eq!(scheduler.queue_len(1), 0);
}

#[test]
fn poll_futures_places_unblocked_task_in_queue_0() {
    let mut manager = TaskManager::new();
    let mut scheduler = MlfqScheduler::new();
    let _waited_on = create_ready_task(&mut manager, 1, "WaitedOn");
    let waiting_task = create_ready_task(&mut manager, 2, "Waiting");
    let future_handle = Handle::new(0u32, 0u32);
    scheduler.push_blocked(waiting_task, future_handle);

    // The future that the task waits for has completed.
    let released = scheduler.wake_completed(&mut manager, &vec![true]);

    assert_eq!(released, vec![future_handle]);
    assert_eq!(scheduler.queue_len(0), 1);
    assert_eq!(scheduler.queue_len(1), 0);
    assert_eq!(scheduler.queue_len(2), 0);
    assert_eq!(manager.get_state(waiting_task), TaskState::Ready);
}

#[test]
fn take_next_returns_none_when_all_queues_empty() {
    let mut scheduler = MlfqScheduler::new();
    assert!(scheduler.take_next_handle().is_none());
}

#[test]
fn incomplete_futures_keep_their_tasks_blocked_in_order() {
    let mut manager = TaskManager::new();
    let mut scheduler = MlfqScheduler::new();
    let a = create_ready_task(&mut manager, 1, "A");
    let b = create_ready_task(&mut manager, 2, "B");
    let c = create_ready_task(&mut manager, 3, "C");
    scheduler.push_blocked(a, Handle::new(10, 0));
    scheduler.push_blocked(b, Handle::new(11, 0));
    scheduler.push_blocked(c, Handle::new(12, 0));
    let released = scheduler.wake_completed(&mut manager, &vec![false, true, false]);
    assert_eq!(released, vec![Handle::new(11, 0)]);
    assert_eq!(scheduler.blocked_futures(), vec![Handle::new(10, 0), Handle::new(12, 0)]);
    assert_eq!(scheduler.take_next_handle(), Some((b, 0)));
}

#[test]
fn select_next_task_prefers_queued_task_and_marks_it_running() {
    let mut manager = TaskManager::new();
    let mut scheduler = MlfqScheduler::new();
    let idle = create_ready_task(&mut manager, 1, "Idle");
    let t = create_ready_task(&mut manager, 2, "T");
    scheduler.set_idle_task(idle).unwrap();
    scheduler.push_task(&manager, t);
    let (next, p) = scheduler.select_next_task(&mut manager);
    assert_eq!((next, p), (t, 0));
    assert_eq!(manager.get_state(t), TaskState::Running);
    let (next, p) = scheduler.select_next_task(&mut manager);
    assert_eq!((next, p), (idle, 0));
}

#[test]
fn keyboard_interrupts_become_typed_characters_in_order() {
    let mut scheduler = MlfqScheduler::new();
    let mut keyboard = KeyboardBuffer::new();
    // 'a' pressed, 'a' released, 'b' pressed.
    scheduler.push_hardware_interrupt(HardwareInterrupt::Keyboard { scancode: 0x1E });
    scheduler.push_hardware_interrupt(HardwareInterrupt::Keyboard { scancode: 0x9E });
    scheduler.push_hardware_interrupt(HardwareInterrupt::Keyboard { scancode: 0x30 });
    scheduler.process_hardware_interrupts(&mut keyboard);
    assert_eq!(keyboard.pop_key(), Some('a'));
    assert_eq!(keyboard.pop_key(), Some('b'));
    assert_eq!(keyboard.pop_key(), None);
}

#[test]
fn task_manager_refuses_a_task_only_when_full() {
    let mut manager = TaskManager::new();
    for id in 0..255u32 {
        let stack = vec![0usize; 16];
        let task = FunctionTask::new(id, "T", 0x1000, 0, stack, 0);
        assert!(manager.add_task(task).is_ok());
    }
    let task = FunctionTask::new(255, "T", 0x1000, 0, vec![0usize; 16], 0);
    assert!(manager.add_task(task).is_err());
}
