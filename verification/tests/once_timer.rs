use kernel::generic_arena::Handle;
use kernel::once::Once;
use kernel::scheduler::timer::Timer;
use kernel::task::FutureHandle;

fn handle(index: u32) -> FutureHandle {
    Handle::new(index, 0)
}

#[test]
fn new_returns_none() {
    let once: Once<i32> = Once::new();
    assert!(once.get().is_none());
}

#[test]
fn call_once_then_get() {
    let mut once = Once::new();
    once.call_once(|| 42);
    assert_eq!(once.get(), Some(&42));
}

#[test]
fn works_with_non_copy_types() {
    let mut once = Once::new();
    once.call_once(|| vec![1, 2, 3]);
    let v: &Vec<i32> = once.get().unwrap();
    assert_eq!(v, &vec![1, 2, 3]);
}

#[test]
fn get_returns_stable_reference() {
    let mut once = Once::new();
    once.call_once(|| 99);
    let r1 = once.get().unwrap();
    let r2 = once.get().unwrap();
    assert!(core::ptr::eq(r1, r2));
}

#[test]
fn pop_expired_returns_none_when_empty() {
    let mut timer = Timer::new();
    assert!(timer.pop_expired(100).is_none());
}

#[test]
fn pop_expired_returns_none_when_no_entries_are_due() {
    let mut timer = Timer::new();
    timer.add_sleep(0, 50, handle(1));
    assert!(timer.pop_expired(49).is_none());
}

#[test]
fn pop_expired_returns_handle_exactly_at_deadline() {
    let mut timer = Timer::new();
    timer.add_sleep(0, 50, handle(1));
    let expired = timer.pop_expired(50);
    assert_eq!(expired, Some(vec![handle(1)]));
}

#[test]
fn pop_expired_returns_handle_past_deadline() {
    let mut timer = Timer::new();
    timer.add_sleep(0, 10, handle(1));
    let expired = timer.pop_expired(100);
    assert_eq!(expired, Some(vec![handle(1)]));
}

#[test]
fn pop_expired_removes_returned_handles_from_timer() {
    let mut timer = Timer::new();
    timer.add_sleep(0, 10, handle(1));
    timer.pop_expired(100);
    assert!(timer.pop_expired(100).is_none());
}

#[test]
fn pop_expired_preserves_future_handles() {
    let mut timer = Timer::new();
    timer.add_sleep(0, 10, handle(1));
    timer.add_sleep(0, 100, handle(2));
    timer.pop_expired(50);
    let still_pending = timer.pop_expired(200);
    assert_eq!(still_pending, Some(vec![handle(2)]));
}

#[test]
fn pop_expired_flattens_multiple_handles_at_same_deadline() {
    let mut timer = Timer::new();
    timer.add_sleep(0, 10, handle(1));
    timer.add_sleep(0, 10, handle(2));
    let mut expired = timer.pop_expired(10).unwrap();
    expired.sort_by_key(|h| h.index);
    assert_eq!(expired, vec![handle(1), handle(2)]);
}

#[test]
fn pop_expired_flattens_handles_across_multiple_deadlines() {
    let mut timer = Timer::new();
    timer.add_sleep(0, 10, handle(1));
    timer.add_sleep(0, 20, handle(2));
    let mut expired = timer.pop_expired(20).unwrap();
    expired.sort_by_key(|h| h.index);
    assert_eq!(expired, vec![handle(1), handle(2)]);
}

#[test]
fn add_sleep_uses_now_as_base_for_deadline() {
    let mut timer = Timer::new();
    timer.add_sleep(1000, 50, handle(1));
    assert!(timer.pop_expired(1049).is_none());
    assert_eq!(timer.pop_expired(1050), Some(vec![handle(1)]));
}

#[test]
fn pop_expired_returns_earliest_deadline_first() {
    let mut timer = Timer::new();
    timer.add_sleep(0, 30, handle(3));
    timer.add_sleep(0, 10, handle(1));
    timer.add_sleep(0, 20, handle(2));
    timer.add_sleep(0, 10, handle(4));
    assert_eq!(timer.pop_expired(25), Some(vec![handle(1), handle(4), handle(2)]));
    assert_eq!(timer.pop_expired(30), Some(vec![handle(3)]));
}
