use vstd::prelude::*;

use crate::generic_arena::{Error, GenArena};
use crate::task::{FutureHandle, TaskHandle, TaskState};
use crate::task_manager::TaskManager;

verus! {

/// Something a task can wait for.
pub trait Future {
    /// Whether the awaited thing happened.
    fn is_completed(&self) -> bool;

    /// Marks the future as done.
    fn complete(&mut self);
}

/// A future that completes once a number of milliseconds has passed.
pub struct TimeFuture {
    duration_ms: u64,
    completion_timestamp: u64,
}

impl TimeFuture {
    /// How long the future lasts, in milliseconds.
    pub closed spec fn spec_duration(&self) -> u64 {
        self.duration_ms
    }

    /// The system time after which the future is complete.
    pub closed spec fn spec_completion_timestamp(&self) -> u64 {
        self.completion_timestamp
    }

    /// A future that completes `ms` milliseconds after the system time `now`.
    pub fn new(ms: u64, now: u64) -> (future: TimeFuture)
        requires
            now + ms <= u64::MAX,
        ensures
            future.spec_duration() == ms,
            future.spec_completion_timestamp() == now + ms,
    {
        TimeFuture { duration_ms: ms, completion_timestamp: now + ms }
    }

    /// How long the future lasts, in milliseconds.
    pub fn duration(&self) -> (ms: u64)
        ensures
            ms == self.spec_duration(),
    {
        self.duration_ms
    }

    /// Whether the future is complete at system time `now`: once `now` is
    /// past its completion time.
    pub fn is_completed_at(&self, now: u64) -> (done: bool)
        ensures
            done == (now > self.spec_completion_timestamp()),
    {
        now > self.completion_timestamp
    }

    /// Completes the future at once: its completion time becomes 0.
    pub fn complete(&mut self)
        ensures
            final(self).spec_completion_timestamp() == 0,
            final(self).spec_duration() == old(self).spec_duration(),
    {
        self.completion_timestamp = 0;
    }
}

/// A future that completes when a task has terminated.
#[derive(Copy, Clone)]
pub struct TaskCompletionFuture {
    pub task_handle: TaskHandle,
}

impl TaskCompletionFuture {
    /// The future of the termination of `task_handle`.
    pub fn new(task_handle: TaskHandle) -> (future: Self)
        ensures
            future.task_handle == task_handle,
    {
        TaskCompletionFuture { task_handle }
    }

    /// Whether the task has terminated, as `manager` sees it: a task that
    /// the manager no longer holds counts as terminated.
    pub fn is_completed_in(&self, manager: &TaskManager) -> (done: bool)
        requires
            manager.wf(),
            manager.handle_ok(self.task_handle),
        ensures
            done == match manager.task_of(self.task_handle) {
                Some(t) => t.spec_state() == TaskState::Terminated,
                None => true,
            },
    {
        manager.get_state(self.task_handle) == TaskState::Terminated
    }
}

/// Number of futures that a registry holds at most.
pub const FUTURE_CAPACITY: usize = 1024;

/// The task subscribed to future `h` in `subs`: the last entry for `h`.
pub open spec fn subscriber_in(subs: Seq<(FutureHandle, TaskHandle)>, h: FutureHandle) -> Option<TaskHandle>
    decreases subs.len(),
{
    if subs.len() == 0 {
        None
    } else if subs.last().0 == h {
        Some(subs.last().1)
    } else {
        subscriber_in(subs.drop_last(), h)
    }
}

/// `subs` without the entries for future `h`.
pub open spec fn without_key(subs: Seq<(FutureHandle, TaskHandle)>, h: FutureHandle) -> Seq<(FutureHandle, TaskHandle)>
    decreases subs.len(),
{
    if subs.len() == 0 {
        subs
    } else if subs.last().0 == h {
        without_key(subs.drop_last(), h)
    } else {
        without_key(subs.drop_last(), h).push(subs.last())
    }
}

/// Dropping the entries of `h` drops its subscriber and keeps the others.
proof fn lemma_without_key(subs: Seq<(FutureHandle, TaskHandle)>, h: FutureHandle, x: FutureHandle)
    ensures
        subscriber_in(without_key(subs, h), x) == if x == h {
            None
        } else {
            subscriber_in(subs, x)
        },
    decreases subs.len(),
{
    if subs.len() > 0 {
        lemma_without_key(subs.drop_last(), h, x);
        let w = without_key(subs.drop_last(), h);
        assert(w.push(subs.last()).drop_last() =~= w);
    }
}

/// Whether `h` occurs in `done`.
pub open spec fn done_in(done: Seq<FutureHandle>, h: FutureHandle) -> bool
    decreases done.len(),
{
    done.len() > 0 && (done.last() == h || done_in(done.drop_last(), h))
}

/// `done` without the occurrences of `h`.
pub open spec fn without_handle(done: Seq<FutureHandle>, h: FutureHandle) -> Seq<FutureHandle>
    decreases done.len(),
{
    if done.len() == 0 {
        done
    } else if done.last() == h {
        without_handle(done.drop_last(), h)
    } else {
        without_handle(done.drop_last(), h).push(done.last())
    }
}

/// Dropping the occurrences of `h` drops `h` and keeps the others.
proof fn lemma_without_handle(done: Seq<FutureHandle>, h: FutureHandle, x: FutureHandle)
    ensures
        done_in(without_handle(done, h), x) == (done_in(done, x) && x != h),
    decreases done.len(),
{
    if done.len() > 0 {
        lemma_without_handle(done.drop_last(), h, x);
        let w = without_handle(done.drop_last(), h);
        assert(w.push(done.last()).drop_last() =~= w);
    }
}

/// The futures that tasks wait for, which of them completed, and which task
/// each completed future wakes.
pub struct FutureRegistry<F: Future> {
    arena: GenArena<F, u32, u32>,
    subscriptions: Vec<(FutureHandle, TaskHandle)>,
    completed: Vec<FutureHandle>,
}

impl<F: Future> FutureRegistry<F> {
    /// The future that `h` names, if any.
    pub closed spec fn lookup(&self, h: FutureHandle) -> Option<F> {
        self.arena.lookup(h)
    }

    /// The task subscribed to future `h`, if any.
    pub closed spec fn subscriber(&self, h: FutureHandle) -> Option<TaskHandle> {
        subscriber_in(self.subscriptions@, h)
    }

    /// Whether future `h` is recorded as completed.
    pub closed spec fn is_done(&self, h: FutureHandle) -> bool {
        done_in(self.completed@, h)
    }

    /// Whether the registry has no room for another future.
    pub closed spec fn is_full(&self) -> bool {
        self.arena.free().len() == 0
    }

    pub closed spec fn wf(&self) -> bool {
        &&& self.arena.wf()
        &&& self.arena.slots().len() <= FUTURE_CAPACITY
    }

    /// A registry with room for `FUTURE_CAPACITY` futures and none yet.
    pub fn new() -> (registry: Self)
        ensures
            registry.wf(),
            !registry.is_full(),
            forall|h: FutureHandle|
                #![trigger registry.lookup(h)]
                #![trigger registry.subscriber(h)]
                #![trigger registry.is_done(h)]
                registry.lookup(h) is None && registry.subscriber(h) is None && !registry.is_done(h),
    {
        let registry = FutureRegistry {
            arena: GenArena::new(FUTURE_CAPACITY),
            subscriptions: Vec::new(),
            completed: Vec::new(),
        };
        assert forall|h: FutureHandle|
            #![trigger registry.lookup(h)]
            #![trigger registry.subscriber(h)]
            #![trigger registry.is_done(h)]
            registry.lookup(h) is None && registry.subscriber(h) is None && !registry.is_done(h) by {
            if (h.index as int) < FUTURE_CAPACITY {
                assert(registry.arena.slots()[h.index as int] is None);
            }
        }
        assert(registry.arena.free().len() == FUTURE_CAPACITY);
        registry
    }

    /// Records future `h` as completed.
    fn mark_completed(&mut self, h: FutureHandle)
        ensures
            final(self).arena == old(self).arena,
            final(self).subscriptions == old(self).subscriptions,
            forall|x: FutureHandle| #[trigger] final(self).is_done(x) == (old(self).is_done(x) || x == h),
            forall|x: FutureHandle| #[trigger] final(self).subscriber(x) == old(self).subscriber(x),
            forall|x: FutureHandle| #[trigger] final(self).lookup(x) == old(self).lookup(x),
    {
        if self.is_completed(h) {
            return;
        }
        let ghost before = self.completed@;
        self.completed.push(h);
        assert(self.completed@.drop_last() =~= before);
    }

    /// Forgets that future `h` completed.
    fn unmark_completed(&mut self, h: FutureHandle)
        ensures
            final(self).arena == old(self).arena,
            final(self).subscriptions == old(self).subscriptions,
            forall|x: FutureHandle| #[trigger] final(self).is_done(x) == (old(self).is_done(x) && x != h),
            forall|x: FutureHandle| #[trigger] final(self).subscriber(x) == old(self).subscriber(x),
            forall|x: FutureHandle| #[trigger] final(self).lookup(x) == old(self).lookup(x),
    {
        let mut kept: Vec<FutureHandle> = Vec::new();
        let mut i: usize = 0;
        while i < self.completed.len()
            invariant
                i <= self.completed@.len(),
                kept@ == without_handle(self.completed@.take(i as int), h),
            decreases self.completed@.len() - i,
        {
            let c = self.completed[i];
            let ghost next = self.completed@.take(i + 1);
            assert(next.drop_last() == self.completed@.take(i as int));
            assert(next.last() == c);
            if !(c.index == h.index && c.generation == h.generation) {
                kept.push(c);
            }
            i = i + 1;
        }
        assert(self.completed@.take(self.completed@.len() as int) == self.completed@);
        let ghost old_done = self.completed@;
        self.completed = kept;
        proof {
            assert forall|x: FutureHandle| #[trigger] self.is_done(x) == (old(self).is_done(x) && x != h) by {
                lemma_without_handle(old_done, h, x);
            }
        }
    }

    /// Drops the subscription to future `h` and returns the task that was
    /// subscribed to it.
    fn take_subscription(&mut self, h: FutureHandle) -> (task: Option<TaskHandle>)
        ensures
            final(self).arena == old(self).arena,
            final(self).completed == old(self).completed,
            task == old(self).subscriber(h),
            forall|x: FutureHandle|
                #[trigger] final(self).subscriber(x) == if x == h {
                    None
                } else {
                    old(self).subscriber(x)
                },
            forall|x: FutureHandle| #[trigger] final(self).is_done(x) == old(self).is_done(x),
            forall|x: FutureHandle| #[trigger] final(self).lookup(x) == old(self).lookup(x),
    {
        let task = self.find_subscriber(h);
        let mut kept: Vec<(FutureHandle, TaskHandle)> = Vec::new();
        let mut i: usize = 0;
        while i < self.subscriptions.len()
            invariant
                i <= self.subscriptions@.len(),
                kept@ == without_key(self.subscriptions@.take(i as int), h),
            decreases self.subscriptions@.len() - i,
        {
            let e = self.subscriptions[i];
            let ghost next = self.subscriptions@.take(i + 1);
            assert(next.drop_last() == self.subscriptions@.take(i as int));
            assert(next.last() == e);
            if !(e.0.index == h.index && e.0.generation == h.generation) {
                kept.push(e);
            }
            i = i + 1;
        }
        assert(self.subscriptions@.take(self.subscriptions@.len() as int) == self.subscriptions@);
        let ghost old_subs = self.subscriptions@;
        self.subscriptions = kept;
        proof {
            assert forall|x: FutureHandle|
                #[trigger] self.subscriber(x) == if x == h {
                    None
                } else {
                    old(self).subscriber(x)
                } by {
                lemma_without_key(old_subs, h, x);
            }
        }
        task
    }

    /// The task subscribed to future `h`, if any.
    fn find_subscriber(&self, h: FutureHandle) -> (task: Option<TaskHandle>)
        ensures
            task == self.subscriber(h),
    {
        let mut i: usize = self.subscriptions.len();
        assert(self.subscriptions@.take(i as int) =~= self.subscriptions@);
        while i > 0
            invariant
                i <= self.subscriptions@.len(),
                subscriber_in(self.subscriptions@.take(i as int), h) == self.subscriber(h),
            decreases i,
        {
            let e = self.subscriptions[i - 1];
            let ghost prefix = self.subscriptions@.take(i as int);
            assert(prefix.last() == e);
            assert(prefix.drop_last() == self.subscriptions@.take(i - 1));
            if e.0.index == h.index && e.0.generation == h.generation {
                return Some(e.1);
            }
            i = i - 1;
        }
        None
    }

    /// Stores `future`, recorded as completed when `already_completed`:
    /// its handle, or `None` when the registry is full.
    pub fn register_with(&mut self, future: F, already_completed: bool) -> (result: Option<FutureHandle>)
        requires
            old(self).wf(),
        ensures
            final(self).wf(),
            result is None <==> old(self).is_full(),
            forall|x: FutureHandle| #[trigger] final(self).subscriber(x) == old(self).subscriber(x),
            match result {
                None => {
                    &&& forall|x: FutureHandle| #[trigger] final(self).lookup(x) == old(self).lookup(x)
                    &&& forall|x: FutureHandle| #[trigger] final(self).is_done(x) == old(self).is_done(x)
                },
                Some(h) => {
                    &&& old(self).lookup(h) is None
                    &&& final(self).lookup(h) == Some(future)
                    &&& forall|x: FutureHandle| x != h ==> #[trigger] final(self).lookup(x) == old(self).lookup(x)
                    &&& forall|x: FutureHandle|
                        #[trigger] final(self).is_done(x) == (old(self).is_done(x) || (already_completed && x == h))
                },
            },
    {
        if self.arena.free_count() == 0 {
            return None;
        }
        proof {
            self.arena.lemma_slots_bound();
        }
        let ghost old_arena = self.arena;
        let ghost kept = future;
        let handle = match self.arena.add(future) {
            Ok(h) => h,
            Err(_) => {
                return None;
            },
        };
        proof {
            let idx = handle.index as int;
            assert(old_arena.free().len() > 0);
            assert(self.arena.slots() == old_arena.slots().update(idx, Some(kept))) by {
                assert(old_arena.grown_len() == old_arena.slots().len());
                assert(old_arena.slots() + crate::generic_arena::empty_slots::<F>(0) =~= old_arena.slots());
            }
            assert(self.arena.gens() =~= old_arena.gens()) by {
                assert(old_arena.gens() + crate::generic_arena::zero_gens(0) =~= old_arena.gens());
            }
            assert(old_arena.lookup(handle) is None) by {
                old_arena.lemma_free_slot_empty(0);
            }
            assert forall|x: FutureHandle| x != handle implies #[trigger] self.arena.lookup(x) == old_arena.lookup(x) by {
                if x.index as int == idx {
                    assert(x.generation != handle.generation);
                }
            }
        }
        if already_completed {
            self.mark_completed(handle);
        }
        Some(handle)
    }

    /// Stores `future`, recorded as completed when it already is: its
    /// handle, or `None` when the registry is full. Whether it counts as
    /// completed is what the future answers.
    pub fn register(&mut self, future: F) -> (result: Option<FutureHandle>)
        requires
            old(self).wf(),
        ensures
            final(self).wf(),
            result is None <==> old(self).is_full(),
            forall|x: FutureHandle| #[trigger] final(self).subscriber(x) == old(self).subscriber(x),
            match result {
                None => {
                    &&& forall|x: FutureHandle| #[trigger] final(self).lookup(x) == old(self).lookup(x)
                    &&& forall|x: FutureHandle| #[trigger] final(self).is_done(x) == old(self).is_done(x)
                },
                Some(h) => {
                    &&& old(self).lookup(h) is None
                    &&& final(self).lookup(h) == Some(future)
                    &&& forall|x: FutureHandle| x != h ==> #[trigger] final(self).lookup(x) == old(self).lookup(x)
                    &&& forall|x: FutureHandle| x != h ==> #[trigger] final(self).is_done(x) == old(self).is_done(x)
                },
            },
    {
        let already_completed = future.is_completed();
        self.register_with(future, already_completed)
    }

    /// Asks the future that `h` names whether it completed; `None` when no
    /// future has that handle.
    pub fn get(&self, h: FutureHandle) -> (result: Option<bool>)
        requires
            self.wf(),
        ensures
            result is Some <==> self.lookup(h) is Some,
    {
        if !self.arena.contains(h) {
            return None;
        }
        match self.arena.borrow(h) {
            Ok(future) => Some(future.is_completed()),
            Err(_) => None,
        }
    }

    /// Takes out the future that `h` names and forgets its subscription and
    /// its completion; `NotFound` when no future has that handle.
    pub fn consume(&mut self, h: FutureHandle) -> (result: Result<F, Error>)
        requires
            old(self).wf(),
            old(self).lookup(h) is Some ==> h.generation < u32::MAX,
        ensures
            final(self).wf(),
            final(self).lookup(h) is None,
            forall|x: FutureHandle| x != h ==> #[trigger] final(self).lookup(x) == old(self).lookup(x),
            forall|x: FutureHandle|
                #[trigger] final(self).subscriber(x) == if x == h {
                    None
                } else {
                    old(self).subscriber(x)
                },
            forall|x: FutureHandle| #[trigger] final(self).is_done(x) == (old(self).is_done(x) && x != h),
            match result {
                Ok(f) => old(self).lookup(h) == Some(f) && !final(self).is_full(),
                Err(e) => e == Error::NotFound && old(self).lookup(h) is None && final(self).is_full() == old(
                    self,
                ).is_full(),
            },
    {
        let _ = self.take_subscription(h);
        self.unmark_completed(h);
        let ghost mid = *self;
        assert(forall|x: FutureHandle| #[trigger] mid.is_done(x) == (old(self).is_done(x) && x != h));
        assert(forall|x: FutureHandle|
            #[trigger] mid.subscriber(x) == if x == h {
                None
            } else {
                old(self).subscriber(x)
            });
        if !self.arena.contains(h) {
            return Err(Error::NotFound);
        }
        proof {
            self.arena.lemma_slots_bound();
        }
        let ghost old_arena = self.arena;
        let result = self.arena.remove(h);
        proof {
            let idx = h.index as int;
            assert forall|x: FutureHandle| x != h implies #[trigger] self.arena.lookup(x) == old_arena.lookup(x) by {
                if x.index as int == idx {
                    assert(self.arena.slots()[idx] is None);
                    if x.generation == h.generation {
                        assert(x == h);
                    }
                }
            }
            assert forall|x: FutureHandle| #[trigger] self.is_done(x) == (old(self).is_done(x) && x != h) by {
                assert(mid.is_done(x) == (old(self).is_done(x) && x != h));
            }
            assert forall|x: FutureHandle|
                #[trigger] self.subscriber(x) == if x == h {
                    None
                } else {
                    old(self).subscriber(x)
                } by {
                assert(mid.subscriber(x) == if x == h {
                    None
                } else {
                    old(self).subscriber(x)
                });
            }
        }
        result
    }

    /// Puts `future` in the place of the future that `h` names and returns
    /// `h`; `NotFound` when no future has that handle.
    pub fn replace(&mut self, h: FutureHandle, future: F) -> (result: Result<FutureHandle, Error>)
        requires
            old(self).wf(),
        ensures
            final(self).wf(),
            final(self).is_full() == old(self).is_full(),
            forall|x: FutureHandle| #[trigger] final(self).subscriber(x) == old(self).subscriber(x),
            forall|x: FutureHandle| #[trigger] final(self).is_done(x) == old(self).is_done(x),
            forall|x: FutureHandle| x != h ==> #[trigger] final(self).lookup(x) == old(self).lookup(x),
            match result {
                Ok(r) => r == h && old(self).lookup(h) is Some && final(self).lookup(h) == Some(future),
                Err(e) => e == Error::NotFound && old(self).lookup(h) is None && final(self).lookup(h) is None,
            },
    {
        if !self.arena.contains(h) {
            return Err(Error::NotFound);
        }
        let ghost old_arena = self.arena;
        let ghost kept = future;
        match self.arena.borrow_mut(h) {
            Ok(slot) => {
                *slot = future;
            },
            Err(_) => {
                return Err(Error::NotFound);
            },
        }
        proof {
            old_arena.lemma_same_shape_wf(self.arena);
            let idx = h.index as int;
            assert(self.arena.slots() == old_arena.slots().update(idx, Some(kept)));
            assert forall|x: FutureHandle| x != h implies #[trigger] self.arena.lookup(x) == old_arena.lookup(x) by {
                if x.index as int == idx {
                    assert(x.generation != h.generation);
                }
            }
        }
        Ok(h)
    }

    /// Subscribes `task_handle` to future `future_handle`, in the place of
    /// the task subscribed to it before.
    pub fn subscribe(&mut self, future_handle: FutureHandle, task_handle: TaskHandle)
        requires
            old(self).wf(),
        ensures
            final(self).wf(),
            final(self).is_full() == old(self).is_full(),
            forall|x: FutureHandle| #[trigger] final(self).lookup(x) == old(self).lookup(x),
            forall|x: FutureHandle| #[trigger] final(self).is_done(x) == old(self).is_done(x),
            forall|x: FutureHandle|
                #[trigger] final(self).subscriber(x) == if x == future_handle {
                    Some(task_handle)
                } else {
                    old(self).subscriber(x)
                },
    {
        let _ = self.take_subscription(future_handle);
        let ghost mid = *self;
        self.subscriptions.push((future_handle, task_handle));
        proof {
            assert(self.subscriptions@.drop_last() =~= mid.subscriptions@);
            assert forall|x: FutureHandle|
                #[trigger] self.subscriber(x) == if x == future_handle {
                    Some(task_handle)
                } else {
                    old(self).subscriber(x)
                } by {
                assert(mid.subscriber(x) == if x == future_handle {
                    None
                } else {
                    old(self).subscriber(x)
                });
            }
            assert forall|x: FutureHandle| #[trigger] self.is_done(x) == old(self).is_done(x) by {
                assert(mid.is_done(x) == old(self).is_done(x));
            }
            assert forall|x: FutureHandle| #[trigger] self.lookup(x) == old(self).lookup(x) by {
                assert(mid.lookup(x) == old(self).lookup(x));
            }
        }
    }

    /// Completes future `h`: the future itself is told, the completion is
    /// recorded and the subscription dropped. Returns the task that was
    /// subscribed, for the caller to wake.
    pub fn complete(&mut self, h: FutureHandle) -> (task: Option<TaskHandle>)
        requires
            old(self).wf(),
        ensures
            final(self).wf(),
            final(self).is_full() == old(self).is_full(),
            task == old(self).subscriber(h),
            (final(self).lookup(h) is Some) == (old(self).lookup(h) is Some),
            forall|x: FutureHandle| x != h ==> #[trigger] final(self).lookup(x) == old(self).lookup(x),
            forall|x: FutureHandle|
                #[trigger] final(self).subscriber(x) == if x == h {
                    None
                } else {
                    old(self).subscriber(x)
                },
            forall|x: FutureHandle| #[trigger] final(self).is_done(x) == (old(self).is_done(x) || x == h),
    {
        if self.arena.contains(h) {
            let ghost old_arena = self.arena;
            match self.arena.borrow_mut(h) {
                Ok(future) => {
                    future.complete();
                },
                Err(_) => {},
            }
            proof {
                old_arena.lemma_same_shape_wf(self.arena);
                let idx = h.index as int;
                assert forall|x: FutureHandle| x != h implies #[trigger] self.arena.lookup(x) == old_arena.lookup(x) by {
                    if x.index as int == idx {
                        assert(x.generation != h.generation);
                    }
                }
            }
        }
        self.mark_completed(h);
        self.take_subscription(h)
    }

    /// Whether future `h` is recorded as completed.
    pub fn is_completed(&self, h: FutureHandle) -> (done: bool)
        ensures
            done == self.is_done(h),
    {
        let mut i: usize = self.completed.len();
        assert(self.completed@.take(i as int) =~= self.completed@);
        while i > 0
            invariant
                i <= self.completed@.len(),
                done_in(self.completed@.take(i as int), h) == self.is_done(h),
            decreases i,
        {
            let c = self.completed[i - 1];
            let ghost prefix = self.completed@.take(i as int);
            assert(prefix.last() == c);
            assert(prefix.drop_last() == self.completed@.take(i - 1));
            if c.index == h.index && c.generation == h.generation {
                return true;
            }
            i = i - 1;
        }
        false
    }

    /// Whether a task is subscribed to future `h`.
    pub fn is_subscribed(&self, h: FutureHandle) -> (subscribed: bool)
        ensures
            subscribed == self.subscriber(h) is Some,
    {
        self.find_subscriber(h).is_some()
    }
}

} // verus!
