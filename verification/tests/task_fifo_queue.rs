use kernel::task::{FunctionTask, SharedTask, TaskState, STACK_WORDS};
use kernel::task_fifo_queue::TaskFifoQueue;

fn dummy_job() {}

fn make_task(id: u32, name: &'static str) -> SharedTask {
    let stack = vec![0usize; STACK_WORDS];
    let top = stack.as_ptr() as usize + STACK_WORDS * core::mem::size_of::<usize>();
    FunctionTask::new(id, name, 0, dummy_job as usize, stack, top)
}

#[test]
fn should_return_none_when_no_tasks_are_available() {
    let mut scheduler = TaskFifoQueue::new();
    let next_task = scheduler.take_next();
    assert!(next_task.is_none());
}

#[test]
fn should_return_task_when_its_the_only_one_ever_offered() {
    let mut task = make_task(1, "Any task");
    let task_id = task.id();
    task.set_ready();
    let mut scheduler = TaskFifoQueue::new();
    let result = scheduler.offer(task);
    assert!(result.is_ok());
    let next_task = scheduler.take_next().unwrap();
    assert_eq!(next_task.id(), task_id);
}

#[test]
fn should_round_robin_tasks_when_more_than_one_available() {
    let mut scheduler = TaskFifoQueue::new();
    let mut task1 = make_task(1, "T1");
    let task1_id = task1.id();
    task1.set_ready();
    let mut task2 = make_task(2, "T2");
    let task2_id = task2.id();
    task2.set_ready();
    let _ = scheduler.offer(task1);
    let _ = scheduler.offer(task2);

    let t1a = scheduler.take_next().unwrap();
    assert_eq!(t1a.id(), task1_id);
    let _ = scheduler.offer(t1a);
    let t2a = scheduler.take_next().unwrap();
    assert_eq!(t2a.id(), task2_id);
    let _ = scheduler.offer(t2a);
    let t1b = scheduler.take_next().unwrap();
    assert_eq!(t1b.id(), task1_id);
    let _ = scheduler.offer(t1b);
    let t2b = scheduler.take_next().unwrap();
    assert_eq!(t2b.id(), task2_id);
}

#[test]
fn should_preserve_task_state_when_task_is_changed() {
    let mut scheduler = TaskFifoQueue::new();
    let mut task1 = make_task(1, "T1");
    task1.set_ready();
    let _ = scheduler.offer(task1);

    let mut task1 = scheduler.take_next().unwrap();
    assert_eq!(task1.state(), TaskState::Ready);
    task1.set_running();
    let t1_id = task1.id();
    let _ = scheduler.offer(task1);
    let task1_b = scheduler.take_next().unwrap();
    assert_eq!(task1_b.id(), t1_id);
    assert_eq!(task1_b.state(), TaskState::Running);
}

#[test]
fn should_result_scheduling_error_when_task_state_is_created() {
    let mut scheduler = TaskFifoQueue::new();
    let task1 = make_task(1, "T1");
    let task_state = task1.state();
    let result = scheduler.offer(task1);
    assert_eq!(task_state, TaskState::Created);
    assert_eq!(result.is_err(), true);
}

#[test]
fn should_result_scheduling_error_when_task_state_is_terminated() {
    let mut scheduler = TaskFifoQueue::new();
    let mut task1 = make_task(1, "T1");
    task1.set_terminated();
    let task_state = task1.state();
    let result = scheduler.offer(task1);
    assert_eq!(task_state, TaskState::Terminated);
    assert_eq!(result.is_err(), true);
}

#[test]
fn list_tasks_reports_ids_and_names_in_order() {
    let mut scheduler = TaskFifoQueue::new();
    for (id, name) in [(3u32, "A"), (5, "B"), (9, "C")] {
        let mut t = make_task(id, name);
        t.set_ready();
        scheduler.offer(t).unwrap();
    }
    let list = scheduler.list_tasks();
    assert_eq!(list.len(), 3);
    assert_eq!((list[0].id, list[0].name), (3, "A"));
    assert_eq!((list[1].id, list[1].name), (5, "B"));
    assert_eq!((list[2].id, list[2].name), (9, "C"));
}

#[test]
fn blocked_tasks_are_accepted() {
    let mut scheduler = TaskFifoQueue::new();
    let mut t = make_task(4, "Blk");
    t.set_blocked();
    assert!(scheduler.offer(t).is_ok());
    assert_eq!(scheduler.take_next().unwrap().state(), TaskState::Blocked);
}

#[test]
fn task_state_names() {
    assert_eq!(TaskState::Created.as_str(), "Created");
    assert_eq!(TaskState::Ready.as_str(), "Ready");
    assert_eq!(TaskState::Running.as_str(), "Running");
    assert_eq!(TaskState::Blocked.as_str(), "Blocked");
    assert_eq!(TaskState::Terminated.as_str(), "Terminated");
}

#[test]
fn new_task_starts_at_stack_top() {
    let stack = vec![0usize; 16];
    let top = stack.as_ptr() as usize + 16 * 8;
    let t = FunctionTask::new(8, "T", 0x1000, 0x2000, stack, top);
    assert_eq!(t.stack_pointer(), top);
    assert_eq!(t.entry_point(), 0x1000);
    assert_eq!(t.entry_param(), 0x2000);
    assert_eq!(t.state(), TaskState::Created);
    assert!(t.yield_reason().is_none());
}
