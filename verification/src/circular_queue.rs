use vstd::prelude::*;

use crate::ring::Ring;

verus! {

/// A first-in first-out queue of at most `N` items.
pub struct CircularQueue<T, const N: usize> {
    ring: Ring<T>,
}

impl<T, const N: usize> CircularQueue<T, N> {
    /// The items, oldest first.
    pub closed spec fn view(&self) -> Seq<T> {
        self.ring.view()
    }

    pub closed spec fn wf(&self) -> bool {
        &&& self.ring.wf()
        &&& self.ring.cap() == N
    }

    /// An empty queue. `N` must not be zero.
    pub fn new() -> (queue: Self)
        requires
            N > 0,
        ensures
            queue.wf(),
            queue@ == Seq::<T>::empty(),
    {
        CircularQueue { ring: Ring::with_capacity(N) }
    }

    /// Appends `value`; hands it back when the queue is full.
    pub fn push(&mut self, value: T) -> (result: Result<(), T>)
        requires
            old(self).wf(),
        ensures
            final(self).wf(),
            match result {
                Ok(()) => old(self)@.len() < N && final(self)@ == old(self)@.push(value),
                Err(v) => old(self)@.len() == N && v == value && final(self)@ == old(self)@,
            },
    {
        if self.is_full() {
            return Err(value);
        }
        self.ring.push(value);
        Ok(())
    }

    /// Removes and returns the oldest item.
    pub fn pop(&mut self) -> (value: Option<T>)
        requires
            old(self).wf(),
        ensures
            final(self).wf(),
            match value {
                None => old(self)@.len() == 0 && final(self)@ == old(self)@,
                Some(v) => old(self)@.len() > 0 && v == old(self)@[0] && final(self)@
                    == old(self)@.drop_first(),
            },
    {
        self.ring.pop()
    }

    /// The oldest item.
    pub fn peek(&self) -> (value: Option<&T>)
        requires
            self.wf(),
        ensures
            match value {
                None => self@.len() == 0,
                Some(v) => self@.len() > 0 && *v == self@[0],
            },
    {
        self.ring.peek()
    }

    /// The oldest item, for writing.
    pub fn peek_mut(&mut self) -> (value: Option<&mut T>)
        requires
            old(self).wf(),
        ensures
            match value {
                None => old(self)@.len() == 0 && *final(self) == *old(self),
                Some(v) => {
                    &&& old(self)@.len() > 0
                    &&& *v == old(self)@[0]
                    &&& old(self).is_front_written(*final(self), *final(v))
                },
            },
    {
        self.ring.peek_mut()
    }

    /// Whether `other` is `self` with its oldest item replaced by `value`.
    pub closed spec fn is_front_written(&self, other: Self, value: T) -> bool {
        self.ring.is_front_written(other.ring, value)
    }

    /// Writing the oldest item through `peek_mut` changes only that item.
    pub proof fn lemma_front_written(&self, other: Self, value: T)
        requires
            self.wf(),
            self@.len() > 0,
            self.is_front_written(other, value),
        ensures
            other.wf(),
            other@ == self@.update(0, value),
    {
        self.ring.lemma_front_written(other.ring, value);
    }

    pub fn is_empty(&self) -> (empty: bool)
        requires
            self.wf(),
        ensures
            empty == (self@.len() == 0),
    {
        self.ring.len() == 0
    }

    pub fn is_full(&self) -> (full: bool)
        requires
            self.wf(),
        ensures
            full == (self@.len() == N),
            self@.len() <= N,
    {
        self.ring.len() == N
    }

    pub fn len(&self) -> (n: usize)
        requires
            self.wf(),
        ensures
            n == self@.len(),
    {
        self.ring.len()
    }

    pub fn capacity(&self) -> (n: usize)
        ensures
            n == N,
    {
        N
    }

    /// Removes every item.
    pub fn clear(&mut self)
        requires
            old(self).wf(),
        ensures
            final(self).wf(),
            final(self)@ == Seq::<T>::empty(),
    {
        while self.pop().is_some()
            invariant
                self.wf(),
            decreases self@.len(),
        {
        }
    }
}

} // verus!
