use kernel::messaging::{InputEvent, InputEventSubscriber, InputEvents};

struct Counter {
    seen: usize,
}

impl InputEventSubscriber for Counter {
    fn handles(before: Self, _event: InputEvent, after: Self) -> bool {
        after.seen == before.seen + 1
    }

    fn receive(&mut self, _event: InputEvent) {
        self.seen += 1;
    }
}

#[test]
fn publish_without_subscribers_does_nothing() {
    let mut events: InputEvents<Counter> = InputEvents::new();
    events.subscribe(Counter { seen: 0 });
    events.publish(InputEvent::Keyboard);
}

#[test]
fn subscriber_receives_directly() {
    let mut counter = Counter { seen: 0 };
    counter.receive(InputEvent::Keyboard);
    assert_eq!(counter.seen, 1);
    assert!(Counter::handles(Counter { seen: 0 }, InputEvent::Keyboard, counter));
}
