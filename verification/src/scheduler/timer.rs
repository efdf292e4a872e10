use std::collections::BTreeMap;
use vstd::prelude::*;
use vstd::std_specs::btree::spec_keys_iter;
use vstd::std_specs::cmp::OrdSpec;
use vstd::std_specs::iter::IteratorSpec;

use crate::task::FutureHandle;

verus! {

broadcast use {vstd::std_specs::btree::group_btree_axioms, vstd::laws_cmp::group_laws_cmp};

/// The sleeping futures under their deadlines; futures with the same
/// deadline keep the order in which they were added.
pub struct Timer {
    next: BTreeMap<u64, Vec<FutureHandle>>,
}

/// The futures that sleep until `deadline`, in the order they were added.
pub open spec fn queued_at(sleeping: Map<u64, Seq<FutureHandle>>, deadline: u64) -> Seq<FutureHandle> {
    if sleeping.contains_key(deadline) {
        sleeping[deadline]
    } else {
        Seq::empty()
    }
}

/// The futures under `deadlines`, deadline by deadline.
pub open spec fn handles_under(sleeping: Map<u64, Seq<FutureHandle>>, deadlines: Seq<u64>) -> Seq<FutureHandle>
    decreases deadlines.len(),
{
    if deadlines.len() == 0 {
        Seq::empty()
    } else {
        handles_under(sleeping, deadlines.drop_last()) + sleeping[deadlines.last()]
    }
}

/// Whether `deadlines` are the deadlines of `sleeping` that are due at
/// `now`, earliest first.
pub open spec fn due_in_order(sleeping: Map<u64, Seq<FutureHandle>>, now: u64, deadlines: Seq<u64>) -> bool {
    &&& forall|i: int, j: int| 0 <= i < j < deadlines.len() ==> deadlines[i] < deadlines[j]
    &&& forall|i: int| 0 <= i < deadlines.len() ==> sleeping.contains_key(#[trigger] deadlines[i]) && deadlines[i] <= now
    &&& forall|d: u64| sleeping.contains_key(d) && d <= now ==> #[trigger] deadlines.contains(d)
}

/// The deadlines of `sleeping` that are not due at `now`, with their futures.
pub open spec fn not_due(sleeping: Map<u64, Seq<FutureHandle>>, now: u64) -> Map<u64, Seq<FutureHandle>> {
    sleeping.restrict(Set::new(|d: u64| d > now))
}

/// The entries of `s` that are at most `bound`, in order.
pub open spec fn at_most(s: Seq<u64>, bound: u64) -> Seq<u64>
    decreases s.len(),
{
    if s.len() == 0 {
        Seq::empty()
    } else if s.last() <= bound {
        at_most(s.drop_last(), bound).push(s.last())
    } else {
        at_most(s.drop_last(), bound)
    }
}

/// The keys of a map iterate in increasing order and cover its domain.
proof fn lemma_keys_increasing(m: &BTreeMap<u64, Vec<FutureHandle>>)
    ensures
        spec_keys_iter(m).remaining().unref().to_set() == m@.dom(),
        forall|i: int, j: int|
            0 <= i < j < spec_keys_iter(m).remaining().len() ==> spec_keys_iter(m).remaining().unref()[i]
                < spec_keys_iter(m).remaining().unref()[j],
{
    let rs = spec_keys_iter(m).remaining();
    let ks = rs.unref();
    assert(vstd::laws_cmp::obeys_cmp::<u64>());
    assert(vstd::laws_cmp::obeys_cmp::<&u64>());
    assert(vstd::std_specs::btree::increasing_seq(rs));
    assert forall|i: int, j: int| 0 <= i < j < rs.len() implies ks[i] < ks[j] by {
        assert(OrdSpec::cmp_spec(&rs[i], &rs[j]) is Less);
        assert(OrdSpec::cmp_spec(rs[i], rs[j]) is Less);
        assert(ks[i] == *rs[i]);
        assert(ks[j] == *rs[j]);
    }
}

/// Of an increasing sequence, the entries at most `bound` are increasing,
/// come from it, and include each of its entries at most `bound`.
proof fn lemma_at_most(s: Seq<u64>, bound: u64)
    requires
        forall|i: int, j: int| 0 <= i < j < s.len() ==> s[i] < s[j],
    ensures
        forall|i: int, j: int| 0 <= i < j < at_most(s, bound).len() ==> at_most(s, bound)[i] < at_most(s, bound)[j],
        forall|i: int| 0 <= i < at_most(s, bound).len() ==> s.contains(#[trigger] at_most(s, bound)[i]) && at_most(s, bound)[i] <= bound,
        forall|x: u64| s.contains(x) && x <= bound ==> #[trigger] at_most(s, bound).contains(x),
        forall|i: int| 0 <= i < at_most(s, bound).len() && s.len() > 0 ==> #[trigger] at_most(s, bound)[i] <= s.last(),
    decreases s.len(),
{
    if s.len() > 0 {
        let t = s.drop_last();
        lemma_at_most(t, bound);
        let a = at_most(t, bound);
        assert forall|i: int| 0 <= i < a.len() implies s.contains(#[trigger] a[i]) && a[i] < s.last() by {
            let k = choose|k: int| 0 <= k < t.len() && t[k] == a[i];
            assert(s[k] == a[i]);
        }
        assert forall|x: u64| s.contains(x) && x <= bound implies #[trigger] at_most(s, bound).contains(x) by {
            let k = choose|k: int| 0 <= k < s.len() && s[k] == x;
            if k < s.len() - 1 {
                assert(t[k] == x);
                assert(t.contains(x));
                assert(at_most(t, bound).contains(x));
                let m = choose|m: int| 0 <= m < a.len() && a[m] == x;
                if s.last() <= bound {
                    assert(at_most(s, bound) == a.push(s.last()));
                    assert(at_most(s, bound)[m] == x);
                } else {
                    assert(at_most(s, bound) == a);
                }
            } else {
                assert(at_most(s, bound).last() == x);
            }
        }
    }
}

impl Timer {
    /// The sleeping futures under their deadlines.
    pub closed spec fn sleeping(&self) -> Map<u64, Seq<FutureHandle>> {
        self.next@.map_values(|v: Vec<FutureHandle>| v@)
    }

    /// A timer with no sleeping future.
    pub fn new() -> (timer: Self)
        ensures
            timer.sleeping() == Map::<u64, Seq<FutureHandle>>::empty(),
    {
        let timer = Timer { next: BTreeMap::new() };
        assert(timer.sleeping() =~= Map::<u64, Seq<FutureHandle>>::empty());
        timer
    }

    /// Puts `future_handle` to sleep for `sleep_ms` milliseconds from `now`:
    /// after the futures already due at the same time.
    pub fn add_sleep(&mut self, now: u64, sleep_ms: u64, future_handle: FutureHandle)
        requires
            now + sleep_ms <= u64::MAX,
        ensures
            final(self).sleeping() == old(self).sleeping().insert(
                (now + sleep_ms) as u64,
                queued_at(old(self).sleeping(), (now + sleep_ms) as u64).push(future_handle),
            ),
    {
        let deadline = now + sleep_ms;
        let mut list = match self.next.remove(&deadline) {
            Some(v) => v,
            None => Vec::new(),
        };
        list.push(future_handle);
        self.next.insert(deadline, list);
        assert(self.sleeping() =~= old(self).sleeping().insert(
            deadline,
            queued_at(old(self).sleeping(), deadline).push(future_handle),
        ));
    }

    /// Takes the futures due at `now`, earliest deadline first; `None` when
    /// none is due.
    pub fn pop_expired(&mut self, now: u64) -> (expired: Option<Vec<FutureHandle>>)
        ensures
            final(self).sleeping() == not_due(old(self).sleeping(), now),
            exists|deadlines: Seq<u64>|
                #[trigger] due_in_order(old(self).sleeping(), now, deadlines) && match expired {
                    None => handles_under(old(self).sleeping(), deadlines).len() == 0,
                    Some(v) => v@ == handles_under(old(self).sleeping(), deadlines) && v@.len() > 0,
                },
    {
        let ghost m = self.sleeping();
        let ghost ks: Seq<u64> = spec_keys_iter(&self.next).remaining().unref();
        proof {
            lemma_keys_increasing(&self.next);
        }
        let mut due: Vec<u64> = Vec::new();
        for k in it: self.next.keys()
            invariant
                it.seq().unref() == ks,
                due@ == at_most(ks.take(it.index() as int), now),
        {
            proof {
                assert(ks.take(it.index() + 1).drop_last() =~= ks.take(it.index() as int));
            }
            if *k <= now {
                due.push(*k);
            }
        }
        proof {
            assert(ks.take(ks.len() as int) =~= ks);
            lemma_at_most(ks, now);
            assert forall|d: u64| m.contains_key(d) && d <= now implies #[trigger] due@.contains(d) by {
                assert(ks.to_set().contains(d));
            }
            assert forall|i: int| 0 <= i < due@.len() implies m.contains_key(#[trigger] due@[i]) && due@[i] <= now by {
                assert(ks.contains(due@[i]));
                assert(ks.to_set().contains(due@[i]));
            }
            assert(due_in_order(m, now, due@));
        }
        let mut handles: Vec<FutureHandle> = Vec::new();
        let mut i: usize = 0;
        while i < due.len()
            invariant
                due_in_order(m, now, due@),
                i <= due@.len(),
                self.sleeping() == m.remove_keys(due@.take(i as int).to_set()),
                handles@ == handles_under(m, due@.take(i as int)),
            decreases due@.len() - i,
        {
            let deadline = due[i];
            proof {
                assert(!due@.take(i as int).contains(deadline)) by {
                    if due@.take(i as int).contains(deadline) {
                        let j = choose|j: int| 0 <= j < i && due@.take(i as int)[j] == deadline;
                        assert(due@[j] < due@[i as int]);
                    }
                }
                assert(m.contains_key(deadline));
                assert(self.sleeping().contains_key(deadline));
                assert(self.sleeping()[deadline] == m[deadline]);
                assert(self.next@.contains_key(deadline));
                assert(self.next@[deadline]@ == m[deadline]);
            }
            let ghost before = self.next@;
            let removed = self.next.remove(&deadline);
            let mut list = match removed {
                Some(v) => v,
                None => Vec::new(),
            };
            proof {
                assert(removed is Some);
                assert(list == before[deadline]);
                assert(list@ == m[deadline]);
                assert(due@.take(i + 1).drop_last() =~= due@.take(i as int));
                assert(due@.take(i + 1) =~= due@.take(i as int).push(deadline));
                due@.take(i as int).lemma_push_to_set_commute(deadline);
                assert(due@.take(i + 1).to_set() == due@.take(i as int).to_set().insert(deadline));
            }
            handles.append(&mut list);
            proof {
                assert(self.next@ == before.remove(deadline));
                let prev = before.map_values(|v: Vec<FutureHandle>| v@);
                assert(prev == m.remove_keys(due@.take(i as int).to_set()));
                assert(self.sleeping() =~= prev.remove(deadline));
                assert(self.sleeping() =~= m.remove_keys(due@.take(i + 1).to_set()));
            }
            i = i + 1;
        }
        proof {
            assert(due@.take(due@.len() as int) =~= due@);
            assert forall|d: u64| #![auto] due@.to_set().contains(d) <==> (m.contains_key(d) && d <= now) by {
                if due@.to_set().contains(d) {
                    let j = choose|j: int| 0 <= j < due@.len() && due@[j] == d;
                    assert(m.contains_key(due@[j]));
                }
            }
            assert(self.sleeping() =~= not_due(m, now));
        }
        if handles.len() == 0 {
            None
        } else {
            Some(handles)
        }
    }
}

} // verus!
