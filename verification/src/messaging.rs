use vstd::prelude::*;

verus! {

/// An input event that subscribers receive.
#[derive(Copy, Clone, PartialEq, Eq, Structural)]
pub enum InputEvent {
    Keyboard,
}

/// Something that receives input events.
pub trait InputEventSubscriber: Sized {
    /// Whether a subscriber in state `before` that receives `event` may be
    /// left in state `after`; each kind of subscriber says what it does.
    spec fn handles(before: Self, event: InputEvent, after: Self) -> bool;

    fn receive(&mut self, event: InputEvent)
        ensures
            Self::handles(*old(self), event, *final(self)),
    ;
}

/// The subscribers of input events.
pub struct InputEvents<S: InputEventSubscriber> {
    subscribers: Vec<S>,
}

impl<S: InputEventSubscriber> InputEvents<S> {
    /// Number of subscribers.
    pub closed spec fn subscriber_count(&self) -> nat {
        self.subscribers@.len()
    }

    /// The subscribers, in the order in which they came.
    pub closed spec fn subscribers(&self) -> Seq<S> {
        self.subscribers@
    }

    /// No subscribers yet.
    pub fn new() -> (events: Self)
        ensures
            events.subscriber_count() == 0,
    {
        InputEvents { subscribers: Vec::new() }
    }

    /// Hands `message` to every subscriber, in the order in which they came.
    pub fn publish(&mut self, message: InputEvent)
        ensures
            final(self).subscriber_count() == old(self).subscriber_count(),
            final(self).subscribers().len() == old(self).subscribers().len(),
            forall|i: int|
                0 <= i < old(self).subscribers().len() ==> S::handles(
                    old(self).subscribers()[i],
                    message,
                    #[trigger] final(self).subscribers()[i],
                ),
    {
        let n = self.subscribers.len();
        let mut i: usize = 0;
        while i < n
            invariant
                self.subscribers@.len() == n,
                n == old(self).subscribers@.len(),
                i <= n,
                forall|j: int| 0 <= j < i ==> S::handles(old(self).subscribers@[j], message, #[trigger] self.subscribers@[j]),
                forall|j: int| i <= j < n ==> #[trigger] self.subscribers@[j] == old(self).subscribers@[j],
            decreases n - i,
        {
            let mut subscriber = self.subscribers.remove(i);
            let ghost before = subscriber;
            subscriber.receive(message);
            let ghost after = subscriber;
            let ghost rest = self.subscribers@;
            self.subscribers.insert(i, subscriber);
            proof {
                assert(S::handles(before, message, after));
                assert forall|j: int| 0 <= j < i + 1 implies S::handles(old(self).subscribers@[j], message, #[trigger] self.subscribers@[j]) by {
                    if j < i {
                        assert(self.subscribers@[j] == rest[j]);
                    } else {
                        assert(self.subscribers@[j] == after);
                    }
                }
                assert forall|j: int| i + 1 <= j < n implies #[trigger] self.subscribers@[j] == old(self).subscribers@[j] by {
                    assert(self.subscribers@[j] == rest[j - 1]);
                }
            }
            i = i + 1;
        }
    }

    /// Takes a subscriber; it is dropped, and receives nothing.
    pub fn subscribe(&mut self, subscriber: S)
        ensures
            final(self).subscriber_count() == old(self).subscriber_count(),
    {
    }
}

} // verus!
