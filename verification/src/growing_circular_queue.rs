use vstd::prelude::*;

use crate::ring::Ring;

verus! {

/// A first-in first-out queue that doubles its capacity when it is full,
/// up to a maximum capacity.
pub struct GrowingQueue<T> {
    ring: Ring<T>,
    max_capacity: usize,
}

/// A call that changes a queue: a push that succeeded or not, or a pop that
/// returned an item or not.
pub enum QueueStep {
    Push(bool),
    Pop(bool),
}

/// Items pushed minus items popped over `steps`.
pub open spec fn net_pushes(steps: Seq<QueueStep>) -> int
    decreases steps.len(),
{
    if steps.len() == 0 {
        0
    } else {
        net_pushes(steps.drop_last()) + match steps.last() {
            QueueStep::Push(true) => 1int,
            QueueStep::Pop(true) => -1int,
            _ => 0int,
        }
    }
}

/// Capacity of a full queue of capacity `cap` after it grew.
pub open spec fn grown_capacity(cap: int, max_capacity: int) -> int {
    if cap + cap < max_capacity {
        cap + cap
    } else {
        max_capacity
    }
}

impl<T> GrowingQueue<T> {
    /// The items, oldest first.
    pub closed spec fn view(&self) -> Seq<T> {
        self.ring.view()
    }

    /// Number of slots.
    pub closed spec fn spec_capacity(&self) -> nat {
        self.ring.cap()
    }

    /// Largest capacity the queue may grow to.
    pub closed spec fn spec_max_capacity(&self) -> nat {
        self.max_capacity as nat
    }

    pub closed spec fn wf(&self) -> bool {
        &&& self.ring.wf()
        &&& self.ring.cap() <= self.max_capacity
    }

    /// An empty queue with `initial_capacity` slots that grows up to
    /// `max_capacity` slots, or without limit when that is `None`.
    pub fn new(initial_capacity: usize, max_capacity: Option<usize>) -> (queue: Self)
        requires
            initial_capacity > 0,
            max_capacity matches Some(max) ==> initial_capacity <= max,
        ensures
            queue.wf(),
            queue@ == Seq::<T>::empty(),
            queue.spec_capacity() == initial_capacity,
            queue.spec_max_capacity() == match max_capacity {
                Some(max) => max,
                None => usize::MAX,
            },
    {
        let max = if max_capacity.is_some() {
            max_capacity.unwrap()
        } else {
            usize::MAX
        };
        GrowingQueue { ring: Ring::with_capacity(initial_capacity), max_capacity: max }
    }

    /// Doubles the capacity, up to the maximum capacity.
    fn grow(&mut self) -> (result: Result<(), ()>)
        requires
            old(self).wf(),
            old(self).spec_capacity() + old(self).spec_capacity() <= usize::MAX,
        ensures
            final(self).wf(),
            result is Ok,
            final(self)@ == old(self)@,
            final(self).spec_max_capacity() == old(self).spec_max_capacity(),
            final(self).spec_capacity() == grown_capacity(
                old(self).spec_capacity() as int,
                old(self).spec_max_capacity() as int,
            ),
    {
        let old_capacity = self.ring.capacity();
        let doubled = old_capacity + old_capacity;
        let new_capacity = if doubled < self.max_capacity {
            doubled
        } else {
            self.max_capacity
        };
        if new_capacity != old_capacity {
            self.ring.resize(new_capacity);
        }
        Ok(())
    }

    /// Appends `value`, growing a full queue first; hands `value` back when
    /// the queue is full and cannot grow.
    pub fn push(&mut self, value: T) -> (result: Result<(), T>)
        requires
            old(self).wf(),
            old(self)@.len() == old(self).spec_capacity() ==> old(self).spec_capacity()
                + old(self).spec_capacity() <= usize::MAX,
        ensures
            final(self).wf(),
            final(self).spec_max_capacity() == old(self).spec_max_capacity(),
            final(self).spec_capacity() >= old(self).spec_capacity(),
            old(self).steps_to(&*final(self), QueueStep::Push(result is Ok)),
            ({
                let cap = old(self).spec_capacity() as int;
                let full = old(self)@.len() == cap;
                let new_cap = if full {
                    grown_capacity(cap, old(self).spec_max_capacity() as int)
                } else {
                    cap
                };
                &&& final(self).spec_capacity() == new_cap
                &&& match result {
                    Ok(()) => old(self)@.len() < new_cap && final(self)@ == old(self)@.push(value),
                    Err(v) => full && new_cap == cap && v == value && final(self)@ == old(self)@,
                }
            }),
    {
        if self.is_full() {
            if self.grow().is_err() {
                return Err(value);
            }
        }
        if self.is_full() {
            return Err(value);
        }
        self.ring.push(value);
        Ok(())
    }

    /// Removes and returns the oldest item.
    pub fn pop(&mut self) -> (value: Option<T>)
        requires
            old(self).wf(),
        ensures
            final(self).wf(),
            final(self).spec_capacity() == old(self).spec_capacity(),
            final(self).spec_max_capacity() == old(self).spec_max_capacity(),
            old(self).steps_to(&*final(self), QueueStep::Pop(value is Some)),
            match value {
                None => old(self)@.len() == 0 && final(self)@ == old(self)@,
                Some(v) => old(self)@.len() > 0 && v == old(self)@[0] && final(self)@
                    == old(self)@.drop_first(),
            },
    {
        self.ring.pop()
    }

    /// The oldest item.
    pub fn peek(&self) -> (value: Option<&T>)
        requires
            self.wf(),
        ensures
            match value {
                None => self@.len() == 0,
                Some(v) => self@.len() > 0 && *v == self@[0],
            },
    {
        self.ring.peek()
    }

    /// The oldest item, for writing.
    pub fn peek_mut(&mut self) -> (value: Option<&mut T>)
        requires
            old(self).wf(),
        ensures
            match value {
                None => old(self)@.len() == 0 && *final(self) == *old(self),
                Some(v) => {
                    &&& old(self)@.len() > 0
                    &&& *v == old(self)@[0]
                    &&& old(self).is_front_written(*final(self), *final(v))
                },
            },
    {
        self.ring.peek_mut()
    }

    /// In every sound state the queue holds at most its capacity, and its
    /// capacity lies between 1 and its maximum capacity.
    pub proof fn lemma_len_within_capacity(&self)
        requires
            self.wf(),
        ensures
            self@.len() <= self.spec_capacity(),
            0 < self.spec_capacity() <= self.spec_max_capacity(),
    {
        self.ring.lemma_len_within_cap();
    }

    /// Whether `after` is what `step` leaves of `self`, as `push` and `pop`
    /// state it: sound, no smaller, and one item longer or shorter when the
    /// call succeeded, unchanged in length when it did not.
    pub open spec fn steps_to(&self, after: &Self, step: QueueStep) -> bool {
        &&& after.wf()
        &&& after.spec_capacity() >= self.spec_capacity()
        &&& after.spec_max_capacity() == self.spec_max_capacity()
        &&& match step {
            QueueStep::Push(ok) => after@.len() == self@.len() + if ok { 1int } else { 0int },
            QueueStep::Pop(some) => after@.len() == self@.len() - if some { 1int } else { 0int },
        }
    }

    /// Over any sequence of pushes and pops from an empty queue, the length
    /// is the items pushed minus the items popped, it stays within the
    /// capacity, and the capacity never shrinks.
    pub proof fn lemma_len_over_history(queues: Seq<Self>, steps: Seq<QueueStep>)
        requires
            queues.len() == steps.len() + 1,
            queues[0].wf(),
            queues[0]@.len() == 0,
            forall|i: int| 0 <= i < steps.len() ==> #[trigger] queues[i].steps_to(&queues[i + 1], steps[i]),
        ensures
            queues.last()@.len() == net_pushes(steps),
            queues.last()@.len() <= queues.last().spec_capacity(),
            queues.last().spec_capacity() >= queues[0].spec_capacity(),
        decreases steps.len(),
    {
        if steps.len() > 0 {
            let n = steps.len() - 1;
            let qs = queues.drop_last();
            assert forall|i: int| 0 <= i < n implies #[trigger] qs[i].steps_to(&qs[i + 1], steps.drop_last()[i]) by {
                assert(queues[i].steps_to(&queues[i + 1], steps[i]));
            }
            Self::lemma_len_over_history(qs, steps.drop_last());
            assert(queues[n].steps_to(&queues[n + 1], steps[n]));
            assert(qs.last() == queues[n]);
        }
        queues.last().lemma_len_within_capacity();
    }

    /// Whether `other` is `self` with its oldest item replaced by `value`.
    pub closed spec fn is_front_written(&self, other: Self, value: T) -> bool {
        &&& self.ring.is_front_written(other.ring, value)
        &&& other.max_capacity == self.max_capacity
    }

    /// Writing the oldest item through `peek_mut` changes only that item.
    pub proof fn lemma_front_written(&self, other: Self, value: T)
        requires
            self.wf(),
            self@.len() > 0,
            self.is_front_written(other, value),
        ensures
            other.wf(),
            other@ == self@.update(0, value),
            other.spec_capacity() == self.spec_capacity(),
    {
        self.ring.lemma_front_written(other.ring, value);
    }

    pub fn is_empty(&self) -> (empty: bool)
        requires
            self.wf(),
        ensures
            empty == (self@.len() == 0),
    {
        self.ring.len() == 0
    }

    fn is_full(&self) -> (full: bool)
        requires
            self.wf(),
        ensures
            full == (self@.len() == self.spec_capacity()),
            self@.len() <= self.spec_capacity(),
    {
        self.ring.len() == self.ring.capacity()
    }

    pub fn len(&self) -> (n: usize)
        requires
            self.wf(),
        ensures
            n == self@.len(),
    {
        self.ring.len()
    }

    pub fn capacity(&self) -> (n: usize)
        requires
            self.wf(),
        ensures
            n == self.spec_capacity(),
    {
        self.ring.capacity()
    }

    /// Removes every item.
    pub fn clear(&mut self)
        requires
            old(self).wf(),
        ensures
            final(self).wf(),
            final(self)@ == Seq::<T>::empty(),
            final(self).spec_capacity() == old(self).spec_capacity(),
            final(self).spec_max_capacity() == old(self).spec_max_capacity(),
    {
        while self.pop().is_some()
            invariant
                self.wf(),
                self.spec_capacity() == old(self).spec_capacity(),
                self.spec_max_capacity() == old(self).spec_max_capacity(),
            decreases self@.len(),
        {
        }
    }

    /// Whether the queue may still grow.
    pub fn can_grow(&self) -> (grows: bool)
        requires
            self.wf(),
        ensures
            grows == (self.spec_capacity() < self.spec_max_capacity()),
    {
        self.capacity() < self.max_capacity
    }
}

} // verus!
