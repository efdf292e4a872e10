use vstd::prelude::*;

verus! {

/// Position `offset` places after `head` in a ring of `cap` slots.
pub open spec fn ring_index(head: int, offset: int, cap: int) -> int {
    if head + offset < cap {
        head + offset
    } else {
        head + offset - cap
    }
}

/// A first-in first-out ring of slots: the items sit in the slots from
/// `head` on, wrapping at the end of the buffer.
pub struct Ring<T> {
    buffer: Vec<Option<T>>,
    head: usize,
    tail: usize,
    count: usize,
}

impl<T> Ring<T> {
    /// The items, oldest first.
    pub closed spec fn view(&self) -> Seq<T> {
        Seq::new(
            self.count as nat,
            |i: int| self.buffer@[ring_index(self.head as int, i, self.buffer@.len() as int)]->0,
        )
    }

    /// Number of slots.
    pub closed spec fn cap(&self) -> nat {
        self.buffer@.len()
    }

    pub closed spec fn wf(&self) -> bool {
        let cap = self.buffer@.len() as int;
        &&& cap > 0
        &&& self.head < cap
        &&& self.count <= cap
        &&& self.tail == ring_index(self.head as int, self.count as int, cap) || (self.count == cap
            && self.tail == self.head)
        &&& self.tail < cap
        &&& forall|i: int|
            0 <= i < self.count ==> (#[trigger] self.buffer@[ring_index(
                self.head as int,
                i,
                cap,
            )]) is Some
    }

    /// An empty ring of `cap` slots.
    pub fn with_capacity(cap: usize) -> (ring: Self)
        requires
            cap > 0,
        ensures
            ring.wf(),
            ring.view() == Seq::<T>::empty(),
            ring.cap() == cap,
    {
        let mut buffer: Vec<Option<T>> = Vec::new();
        let mut i: usize = 0;
        while i < cap
            invariant
                i <= cap,
                buffer@.len() == i,
            decreases cap - i,
        {
            buffer.push(None);
            i = i + 1;
        }
        let ring = Ring { buffer, head: 0, tail: 0, count: 0 };
        assert(ring.view() =~= Seq::<T>::empty());
        ring
    }

    pub fn len(&self) -> (n: usize)
        requires
            self.wf(),
        ensures
            n == self.view().len(),
            n <= self.cap(),
    {
        self.count
    }

    pub fn capacity(&self) -> (n: usize)
        requires
            self.wf(),
        ensures
            n == self.cap(),
    {
        self.buffer.len()
    }

    /// Appends `value` after the newest item.
    pub fn push(&mut self, value: T)
        requires
            old(self).wf(),
            old(self).view().len() < old(self).cap(),
        ensures
            final(self).wf(),
            final(self).view() == old(self).view().push(value),
            final(self).cap() == old(self).cap(),
    {
        let ghost before = self.view();
        let ghost cap = self.buffer@.len() as int;
        let tail = self.tail;
        let slots = self.buffer.len();
        self.buffer.set(tail, Some(value));
        self.tail = if tail + 1 >= slots {
            0
        } else {
            tail + 1
        };
        self.count = self.count + 1;
        proof {
            assert forall|i: int| 0 <= i < self.count implies (#[trigger] self.buffer@[ring_index(
                self.head as int,
                i,
                cap,
            )]) is Some by {
                if i < self.count - 1 {
                    assert(ring_index(self.head as int, i, cap) != tail);
                }
            }
            assert(self.view() =~= before.push(value)) by {
                assert forall|i: int| 0 <= i < self.count - 1 implies self.view()[i] == before[i] by {
                    assert(ring_index(self.head as int, i, cap) != tail);
                }
            }
        }
    }

    /// Removes and returns the oldest item.
    pub fn pop(&mut self) -> (value: Option<T>)
        requires
            old(self).wf(),
        ensures
            final(self).wf(),
            final(self).cap() == old(self).cap(),
            match value {
                None => old(self).view().len() == 0 && final(self).view() == old(self).view(),
                Some(v) => {
                    &&& old(self).view().len() > 0
                    &&& v == old(self).view()[0]
                    &&& final(self).view() == old(self).view().drop_first()
                },
            },
    {
        if self.count == 0 {
            return None;
        }
        let ghost before = self.view();
        let ghost cap = self.buffer@.len() as int;
        let ghost old_head = self.head as int;
        let head = self.head;
        let slots = self.buffer.len();
        assert(self.buffer@[ring_index(old_head, 0, cap)] is Some);
        let value = self.buffer[head].take();
        self.head = if head + 1 >= slots {
            0
        } else {
            head + 1
        };
        self.count = self.count - 1;
        proof {
            assert forall|i: int| 0 <= i < self.count implies (#[trigger] self.buffer@[ring_index(
                self.head as int,
                i,
                cap,
            )]) is Some by {
                assert(ring_index(self.head as int, i, cap) == ring_index(old_head, i + 1, cap));
                assert(self.buffer@[ring_index(old_head, i + 1, cap)] is Some);
            }
            assert(self.view() =~= before.drop_first()) by {
                assert forall|i: int| 0 <= i < self.count implies self.view()[i] == before[i + 1] by {
                    assert(ring_index(self.head as int, i, cap) == ring_index(old_head, i + 1, cap));
                }
            }
        }
        value
    }

    /// The oldest item.
    pub fn peek(&self) -> (value: Option<&T>)
        requires
            self.wf(),
        ensures
            match value {
                None => self.view().len() == 0,
                Some(v) => self.view().len() > 0 && *v == self.view()[0],
            },
    {
        if self.count == 0 {
            return None;
        }
        assert(self.buffer@[ring_index(self.head as int, 0, self.buffer@.len() as int)] is Some);
        self.buffer[self.head].as_ref()
    }

    /// The oldest item, for writing.
    pub fn peek_mut(&mut self) -> (value: Option<&mut T>)
        requires
            old(self).wf(),
        ensures
            match value {
                None => old(self).view().len() == 0 && *final(self) == *old(self),
                Some(v) => {
                    &&& old(self).view().len() > 0
                    &&& *v == old(self).view()[0]
                    &&& old(self).is_front_written(*final(self), *final(v))
                },
            },
    {
        if self.count == 0 {
            return None;
        }
        assert(self.buffer@[ring_index(self.head as int, 0, self.buffer@.len() as int)] is Some);
        let head = self.head;
        self.buffer[head].as_mut()
    }

    /// Whether `other` is `self` with its oldest item replaced by `value`.
    pub closed spec fn is_front_written(&self, other: Self, value: T) -> bool {
        &&& other.head == self.head
        &&& other.tail == self.tail
        &&& other.count == self.count
        &&& other.buffer@ == self.buffer@.update(self.head as int, Some(value))
    }

    /// Writing the oldest item keeps the invariant and changes only that item.
    /// A sound ring holds at most its capacity, which is positive.
    pub proof fn lemma_len_within_cap(&self)
        requires
            self.wf(),
        ensures
            self.view().len() <= self.cap(),
            self.cap() > 0,
    {
    }

    pub proof fn lemma_front_written(&self, other: Self, value: T)
        requires
            self.wf(),
            self.view().len() > 0,
            self.is_front_written(other, value),
        ensures
            other.wf(),
            other.cap() == self.cap(),
            other.view() == self.view().update(0, value),
    {
        let cap = self.buffer@.len() as int;
        assert forall|i: int| 0 <= i < other.count implies (#[trigger] other.buffer@[ring_index(
            other.head as int,
            i,
            cap,
        )]) is Some by {
            assert(self.buffer@[ring_index(self.head as int, i, cap)] is Some);
        }
        assert(other.view() =~= self.view().update(0, value)) by {
            assert forall|i: int| 0 <= i < other.count implies other.view()[i] == self.view().update(0, value)[i] by {
                if i > 0 {
                    assert(ring_index(self.head as int, i, cap) != self.head);
                }
            }
        }
    }

    /// Moves the items, oldest first, to the start of a buffer of `new_cap`
    /// slots.
    pub fn resize(&mut self, new_cap: usize)
        requires
            old(self).wf(),
            new_cap > old(self).cap(),
        ensures
            final(self).wf(),
            final(self).view() == old(self).view(),
            final(self).cap() == new_cap,
    {
        let ghost before = self.view();
        let ghost cap = self.buffer@.len() as int;
        let ghost head = self.head as int;
        let old_capacity = self.buffer.len();
        let mut new_buffer: Vec<Option<T>> = Vec::new();
        let mut i: usize = 0;
        while i < new_cap
            invariant
                i <= new_cap,
                new_buffer@.len() == i,
                forall|j: int| 0 <= j < i ==> (#[trigger] new_buffer@[j]) is None,
            decreases new_cap - i,
        {
            new_buffer.push(None);
            i = i + 1;
        }
        let mut src_idx = self.head;
        let mut dst_idx: usize = 0;
        while dst_idx < self.count
            invariant
                self.buffer@.len() == cap,
                cap > 0,
                cap == old_capacity,
                self.head == head,
                self.count == before.len(),
                new_buffer@.len() == new_cap,
                new_cap > cap,
                self.count <= cap,
                head < cap,
                dst_idx <= self.count,
                src_idx < cap,
                src_idx == ring_index(head, dst_idx as int, cap) || dst_idx == cap,
                dst_idx < self.count ==> src_idx == ring_index(head, dst_idx as int, cap),
                forall|j: int| 0 <= j < dst_idx ==> (#[trigger] new_buffer@[j]) == Some(before[j]),
                forall|j: int|
                    dst_idx <= j < self.count ==> (#[trigger] self.buffer@[ring_index(head, j, cap)])
                        == Some(before[j]),
            decreases self.count - dst_idx,
        {
            let ghost src_before = self.buffer@;
            let value = self.buffer[src_idx].take();
            new_buffer.set(dst_idx, value);
            proof {
                assert forall|j: int| dst_idx < j < self.count implies (#[trigger] self.buffer@[ring_index(head, j, cap)])
                    == Some(before[j]) by {
                    assert(ring_index(head, j, cap) != src_idx);
                    assert(src_before[ring_index(head, j, cap)] == Some(before[j]));
                }
            }
            src_idx = src_idx + 1;
            if src_idx >= old_capacity {
                src_idx = 0;
            }
            dst_idx = dst_idx + 1;
        }
        self.buffer = new_buffer;
        self.head = 0;
        self.tail = self.count;
        proof {
            assert(self.view() =~= before);
        }
    }
}

} // verus!
