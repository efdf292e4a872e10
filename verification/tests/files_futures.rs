use kernel::file_arena::{FileArena, FileDescriptor, FileHandle};
use kernel::file_manager::{FileError, FileManager};
use kernel::future::{Future, FutureRegistry, TaskCompletionFuture, TimeFuture};
use kernel::generic_arena::{Error, Handle};
use kernel::task::{FunctionTask, TaskState, STACK_WORDS};
use kernel::task_manager::TaskManager;

struct MockFuture;

impl Future for MockFuture {
    fn is_completed(&self) -> bool {
        false
    }
    fn complete(&mut self) {}
}

struct CompletedMock;

impl Future for CompletedMock {
    fn is_completed(&self) -> bool {
        true
    }
    fn complete(&mut self) {}
}

struct Flag {
    done: bool,
}

impl Future for Flag {
    fn is_completed(&self) -> bool {
        self.done
    }
    fn complete(&mut self) {
        self.done = true;
    }
}

#[test]
fn test_subscribe_and_complete() {
    let mut registry = FutureRegistry::new();
    let fh = registry.register(MockFuture).unwrap();
    let th = Handle::new(1u8, 1u8);
    registry.subscribe(fh, th);
    let waiter = registry.complete(fh);
    assert_eq!(waiter, Some(th));
    assert!(registry.is_completed(fh));
}

#[test]
fn test_already_completed_registration() {
    let mut registry = FutureRegistry::new();
    let fh = registry.register(CompletedMock).unwrap();
    assert!(registry.is_completed(fh));
}

#[test]
fn registry_tells_the_future_and_forgets_the_subscriber() {
    let mut registry = FutureRegistry::new();
    let fh = registry.register(Flag { done: false }).unwrap();
    assert_eq!(registry.get(fh), Some(false));
    assert!(!registry.is_subscribed(fh));
    registry.subscribe(fh, Handle::new(2u8, 0u8));
    registry.subscribe(fh, Handle::new(3u8, 0u8));
    assert!(registry.is_subscribed(fh));
    assert_eq!(registry.complete(fh), Some(Handle::new(3u8, 0u8)));
    assert!(!registry.is_subscribed(fh));
    assert_eq!(registry.get(fh), Some(true));
    assert_eq!(registry.complete(fh), None);
}

#[test]
fn consumed_future_is_gone_and_its_handle_stale() {
    let mut registry = FutureRegistry::new();
    let fh = registry.register(Flag { done: false }).unwrap();
    registry.subscribe(fh, Handle::new(1u8, 0u8));
    registry.complete(fh);
    let f = registry.consume(fh).unwrap();
    assert!(f.done);
    assert!(!registry.is_completed(fh));
    assert_eq!(registry.get(fh), None);
    assert!(matches!(registry.consume(fh), Err(Error::NotFound)));
    let again = registry.register(Flag { done: false }).unwrap();
    assert_ne!(again, fh);
    assert_eq!(registry.get(fh), None);
}

#[test]
fn replace_swaps_the_future_under_the_same_handle() {
    let mut registry = FutureRegistry::new();
    let fh = registry.register(Flag { done: false }).unwrap();
    assert_eq!(registry.replace(fh, Flag { done: true }).ok(), Some(fh));
    assert_eq!(registry.get(fh), Some(true));
    let stale = Handle::new(fh.index, fh.generation + 1);
    assert!(matches!(registry.replace(stale, Flag { done: false }), Err(Error::NotFound)));
}

#[test]
fn registry_holds_at_most_its_capacity() {
    let mut registry = FutureRegistry::new();
    for _ in 0..1024 {
        assert!(registry.register(MockFuture).is_some());
    }
    assert!(registry.register(MockFuture).is_none());
}

#[test]
fn register_with_records_given_completion() {
    let mut registry = FutureRegistry::new();
    let a = registry.register_with(MockFuture, true).unwrap();
    let b = registry.register_with(MockFuture, false).unwrap();
    assert!(registry.is_completed(a));
    assert!(!registry.is_completed(b));
}

#[test]
fn task_completion_future_follows_task_state() {
    let mut manager = TaskManager::new();
    let stack = vec![0usize; STACK_WORDS];
    let top = stack.as_ptr() as usize + STACK_WORDS * 8;
    let t = manager.add_task(FunctionTask::new(1, "T", 0, 0, stack, top)).unwrap();
    let future = TaskCompletionFuture::new(t);
    assert!(!future.is_completed_in(&manager));
    manager.set_state(t, TaskState::Terminated);
    assert!(future.is_completed_in(&manager));
    let time = TimeFuture::new(5, 10);
    assert!(!time.is_completed_at(15));
}

#[test]
fn arena_reuses_slots_under_new_generation() {
    let mut arena = FileArena::new(2);
    let a = arena.add((0, FileDescriptor(0)));
    let b = arena.add((1, FileDescriptor(1)));
    assert_eq!((a.index, a.generation), (0, 0));
    assert_eq!((b.index, b.generation), (1, 0));
    assert_eq!(arena.borrow(a).ok(), Some(&(0, FileDescriptor(0))));
    assert_eq!(arena.remove(a).ok(), Some((0, FileDescriptor(0))));
    assert!(arena.borrow(a).is_err());
    let c = arena.add((2, FileDescriptor(2)));
    // The freed slot is reused under the next generation.
    assert_eq!((c.index, c.generation), (0, 1));
    // With no slot free, the arena doubles.
    let d = arena.add((3, FileDescriptor(3)));
    assert_eq!((d.index, d.generation), (2, 0));
    let e = arena.add((4, FileDescriptor(4)));
    assert_eq!((e.index, e.generation), (3, 0));
    assert!(arena.room_left());
}

#[test]
fn files_are_written_and_read_back() {
    let mut manager = FileManager::new();
    let w = manager.open("/log").unwrap();
    assert_eq!(manager.write(w, b"hello "), Ok(6));
    assert_eq!(manager.write(w, b"world"), Ok(5));
    let r = manager.open("/log").unwrap();
    assert_ne!(r, w);
    let mut buf = [0u8; 4];
    assert_eq!(manager.read(r, &mut buf), Ok(4));
    assert_eq!(&buf, b"hell");
    let mut rest = [9u8; 16];
    assert_eq!(manager.read(r, &mut rest), Ok(7));
    assert_eq!(&rest[..7], b"o world");
    assert_eq!(rest[7], 9);
    assert_eq!(manager.read(r, &mut rest), Ok(0));
}

#[test]
fn closed_handles_are_invalid() {
    let mut manager = FileManager::new();
    let h = manager.open("/a").unwrap();
    assert_eq!(manager.close(h), Ok(()));
    assert_eq!(manager.close(h), Err(FileError::InvalidDescriptor));
    let mut buf = [0u8; 1];
    assert_eq!(manager.read(h, &mut buf), Err(FileError::InvalidDescriptor));
    assert_eq!(manager.write(h, b"x"), Err(FileError::InvalidDescriptor));
}

#[test]
fn each_path_is_its_own_file() {
    let mut manager = FileManager::new();
    let a = manager.open("/a").unwrap();
    let b = manager.open("/b").unwrap();
    manager.write(a, b"AAA").unwrap();
    let mut buf = [0u8; 3];
    assert_eq!(manager.read(b, &mut buf), Ok(0));
    let a2 = manager.open("/a").unwrap();
    assert_eq!(manager.read(a2, &mut buf), Ok(3));
    assert_eq!(&buf, b"AAA");
    let _ = FileHandle { index: 0, generation: 0 };
}

#[test]
fn removed_handle_stays_gone_after_slot_reuse() {
    let mut arena = FileArena::new(2);
    let a = arena.add((0, FileDescriptor(0)));
    let _b = arena.add((1, FileDescriptor(1)));
    assert!(arena.remove(a).is_ok());
    let c = arena.add((7, FileDescriptor(7)));
    assert_eq!(c.index, a.index);
    assert!(arena.borrow(a).is_err());
    assert!(arena.remove(a).is_err());
    assert_eq!(arena.borrow(c).ok(), Some(&(7, FileDescriptor(7))));
}

#[test]
fn arena_accepts_two_hundred_fifty_six_slots() {
    let mut arena = FileArena::new(256);
    let mut last = None;
    for i in 0..256u64 {
        assert!(arena.room_left());
        last = Some(arena.add((i as usize, FileDescriptor(i))));
    }
    let h = last.unwrap();
    assert_eq!(h.index, 255);
    assert_eq!(arena.borrow(h).ok(), Some(&(255, FileDescriptor(255))));
    assert!(!arena.room_left());
}
