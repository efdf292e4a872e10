use kernel::chunk_tracker::ChunkTracker;
use kernel::circular_queue::CircularQueue;
use kernel::growing_circular_queue::GrowingQueue;
use std::sync::atomic::{AtomicUsize, Ordering};
use std::sync::Arc;

#[derive(Debug)]
struct DropCounter {
    counter: Arc<AtomicUsize>,
}

impl Drop for DropCounter {
    fn drop(&mut self) {
        self.counter.fetch_add(1, Ordering::SeqCst);
    }
}

#[test]
fn new_tracker_has_zero_owned_chunks() {
    let tracker = ChunkTracker::new(4096);
    assert_eq!(tracker.owned_count(), 0);
}

#[test]
fn circular_queue_test_new() {
    let queue: CircularQueue<u32, 4> = CircularQueue::new();
    assert_eq!(queue.len(), 0);
    assert_eq!(queue.capacity(), 4);
    assert!(queue.is_empty());
    assert!(!queue.is_full());
}

#[test]
fn circular_queue_test_push_pop() {
    let mut queue: CircularQueue<u32, 3> = CircularQueue::new();
    assert!(queue.push(1).is_ok());
    assert!(queue.push(2).is_ok());
    assert!(queue.push(3).is_ok());
    assert_eq!(queue.len(), 3);
    assert!(queue.is_full());
    assert_eq!(queue.pop(), Some(1));
    assert_eq!(queue.pop(), Some(2));
    assert_eq!(queue.pop(), Some(3));
    assert_eq!(queue.pop(), None);
    assert!(queue.is_empty());
}

#[test]
fn test_push_when_full() {
    let mut queue: CircularQueue<u32, 2> = CircularQueue::new();
    queue.push(1).unwrap();
    queue.push(2).unwrap();
    assert!(queue.is_full());
    assert_eq!(queue.push(3), Err(3));
    assert_eq!(queue.len(), 2);
}

#[test]
fn test_wraparound() {
    let mut queue: CircularQueue<u32, 3> = CircularQueue::new();
    queue.push(1).unwrap();
    queue.push(2).unwrap();
    queue.push(3).unwrap();
    assert_eq!(queue.pop(), Some(1));
    assert_eq!(queue.pop(), Some(2));
    queue.push(4).unwrap();
    queue.push(5).unwrap();
    assert_eq!(queue.pop(), Some(3));
    assert_eq!(queue.pop(), Some(4));
    assert_eq!(queue.pop(), Some(5));
    assert_eq!(queue.pop(), None);
}

#[test]
fn circular_queue_test_peek() {
    let mut queue: CircularQueue<u32, 3> = CircularQueue::new();
    assert_eq!(queue.peek(), None);
    queue.push(1).unwrap();
    queue.push(2).unwrap();
    assert_eq!(queue.peek(), Some(&1));
    assert_eq!(queue.len(), 2);
    assert_eq!(queue.pop(), Some(1));
    assert_eq!(queue.peek(), Some(&2));
}

#[test]
fn circular_queue_test_peek_mut() {
    let mut queue: CircularQueue<u32, 3> = CircularQueue::new();
    queue.push(1).unwrap();
    if let Some(val) = queue.peek_mut() {
        *val = 42;
    }
    assert_eq!(queue.pop(), Some(42));
}

#[test]
fn circular_queue_test_clear() {
    let mut queue: CircularQueue<u32, 3> = CircularQueue::new();
    queue.push(1).unwrap();
    queue.push(2).unwrap();
    queue.push(3).unwrap();
    assert_eq!(queue.len(), 3);
    queue.clear();
    assert_eq!(queue.len(), 0);
    assert!(queue.is_empty());
}

#[test]
fn circular_queue_test_drop_elements() {
    let drop_count = Arc::new(AtomicUsize::new(0));
    {
        let mut queue: CircularQueue<DropCounter, 3> = CircularQueue::new();
        queue.push(DropCounter { counter: drop_count.clone() }).unwrap();
        queue.push(DropCounter { counter: drop_count.clone() }).unwrap();
        assert_eq!(drop_count.load(Ordering::SeqCst), 0);
        queue.pop();
        assert_eq!(drop_count.load(Ordering::SeqCst), 1);
    }
    assert_eq!(drop_count.load(Ordering::SeqCst), 2);
}

#[test]
fn circular_queue_test_with_string() {
    let mut queue: CircularQueue<String, 3> = CircularQueue::new();
    queue.push("hello".to_string()).unwrap();
    queue.push("world".to_string()).unwrap();
    assert_eq!(queue.pop(), Some("hello".to_string()));
    assert_eq!(queue.peek(), Some(&"world".to_string()));
}

#[test]
fn circular_queue_push_after_clear_reuses_slots() {
    let mut queue: CircularQueue<u32, 2> = CircularQueue::new();
    queue.push(7).unwrap();
    queue.push(8).unwrap();
    queue.clear();
    assert!(queue.push(9).is_ok());
    assert!(queue.push(10).is_ok());
    assert_eq!(queue.push(11), Err(11));
    assert_eq!(queue.pop(), Some(9));
}

#[test]
fn growing_circular_queue_test_new() {
    let queue: GrowingQueue<u32> = GrowingQueue::new(4, None);
    assert_eq!(queue.len(), 0);
    assert_eq!(queue.capacity(), 4);
    assert!(queue.is_empty());
}

#[test]
fn growing_circular_queue_test_push_pop() {
    let mut queue: GrowingQueue<u32> = GrowingQueue::new(3, None);
    assert!(queue.push(1).is_ok());
    assert!(queue.push(2).is_ok());
    assert!(queue.push(3).is_ok());
    assert_eq!(queue.len(), 3);
    assert_eq!(queue.pop(), Some(1));
    assert_eq!(queue.pop(), Some(2));
    assert_eq!(queue.pop(), Some(3));
    assert_eq!(queue.pop(), None);
    assert!(queue.is_empty());
}

#[test]
fn test_automatic_growth() {
    let mut queue: GrowingQueue<u32> = GrowingQueue::new(2, None);
    assert_eq!(queue.capacity(), 2);
    queue.push(1).unwrap();
    queue.push(2).unwrap();
    assert_eq!(queue.capacity(), 2);
    queue.push(3).unwrap();
    assert_eq!(queue.capacity(), 4);
    assert_eq!(queue.len(), 3);
    assert_eq!(queue.pop(), Some(1));
    assert_eq!(queue.pop(), Some(2));
    assert_eq!(queue.pop(), Some(3));
}

#[test]
fn test_growth_preserves_order() {
    let mut queue: GrowingQueue<u32> = GrowingQueue::new(2, None);
    queue.push(1).unwrap();
    queue.push(2).unwrap();
    queue.pop();
    queue.push(3).unwrap();
    queue.push(4).unwrap();
    assert_eq!(queue.capacity(), 4);
    assert_eq!(queue.pop(), Some(2));
    assert_eq!(queue.pop(), Some(3));
    assert_eq!(queue.pop(), Some(4));
}

#[test]
fn test_max_capacity_limit() {
    let mut queue: GrowingQueue<u32> = GrowingQueue::new(2, Some(2));
    queue.push(1).unwrap();
    queue.push(2).unwrap();
    assert_eq!(queue.push(3), Err(3));
    assert_eq!(queue.len(), 2);
    assert_eq!(queue.capacity(), 2);
}

#[test]
fn test_growth_stops_at_max() {
    let mut queue: GrowingQueue<u32> = GrowingQueue::new(2, Some(3));
    queue.push(1).unwrap();
    queue.push(2).unwrap();
    queue.push(3).unwrap();
    assert_eq!(queue.capacity(), 3);
    assert_eq!(queue.push(4), Err(4));
}

#[test]
fn test_multiple_growths() {
    let mut queue: GrowingQueue<u32> = GrowingQueue::new(2, None);
    for i in 0..10 {
        queue.push(i).unwrap();
    }
    assert_eq!(queue.capacity(), 16);
    assert_eq!(queue.len(), 10);
    for i in 0..10 {
        assert_eq!(queue.pop(), Some(i));
    }
}

#[test]
fn growing_circular_queue_test_peek() {
    let mut queue: GrowingQueue<u32> = GrowingQueue::new(3, None);
    assert_eq!(queue.peek(), None);
    queue.push(1).unwrap();
    queue.push(2).unwrap();
    assert_eq!(queue.peek(), Some(&1));
    assert_eq!(queue.len(), 2);
    assert_eq!(queue.pop(), Some(1));
    assert_eq!(queue.peek(), Some(&2));
}

#[test]
fn growing_circular_queue_test_peek_mut() {
    let mut queue: GrowingQueue<u32> = GrowingQueue::new(3, None);
    queue.push(1).unwrap();
    if let Some(val) = queue.peek_mut() {
        *val = 42;
    }
    assert_eq!(queue.pop(), Some(42));
}

#[test]
fn growing_circular_queue_test_clear() {
    let mut queue: GrowingQueue<u32> = GrowingQueue::new(3, None);
    queue.push(1).unwrap();
    queue.push(2).unwrap();
    queue.push(3).unwrap();
    assert_eq!(queue.len(), 3);
    queue.clear();
    assert_eq!(queue.len(), 0);
    assert!(queue.is_empty());
}

#[test]
fn growing_circular_queue_test_with_string() {
    let mut queue: GrowingQueue<String> = GrowingQueue::new(2, None);
    queue.push("hello".to_string()).unwrap();
    queue.push("world".to_string()).unwrap();
    queue.push("test".to_string()).unwrap();
    assert_eq!(queue.capacity(), 4);
    assert_eq!(queue.pop(), Some("hello".to_string()));
    assert_eq!(queue.peek(), Some(&"world".to_string()));
}

#[test]
fn growing_circular_queue_test_drop_elements() {
    let drop_count = Arc::new(AtomicUsize::new(0));
    {
        let mut queue: GrowingQueue<DropCounter> = GrowingQueue::new(2, None);
        queue.push(DropCounter { counter: drop_count.clone() }).unwrap();
        queue.push(DropCounter { counter: drop_count.clone() }).unwrap();
        assert_eq!(drop_count.load(Ordering::SeqCst), 0);
        queue.pop();
        assert_eq!(drop_count.load(Ordering::SeqCst), 1);
    }
    assert_eq!(drop_count.load(Ordering::SeqCst), 2);
}

#[test]
fn growing_queue_growth_is_capped_by_maximum() {
    let mut queue: GrowingQueue<u32> = GrowingQueue::new(3, Some(5));
    for i in 0..4 {
        queue.push(i).unwrap();
    }
    assert_eq!(queue.capacity(), 5);
    queue.push(4).unwrap();
    assert_eq!(queue.push(5), Err(5));
    assert!(!queue.can_grow());
}
