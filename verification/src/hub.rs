//! The broadcast hub: a single-publisher, multi-subscriber notification
//! primitive with a bounded backlog per subscriber.
//!
//! Publishing never blocks: when a subscriber's backlog is full its oldest
//! undelivered value is dropped, so a slow subscriber misses intermediate
//! values but always finds the latest published value at the back of its
//! queue (latest-value-wins).
use vstd::prelude::*;

verus! {

/// A multi-subscriber hub over copyable payload snapshots.
pub struct BroadcastHub<T> {
    /// Bound on each subscriber's undelivered backlog; at least one.
    pub capacity: usize,
    /// One pending-value queue per subscriber, oldest first.
    pub queues: Vec<Vec<T>>,
}

/// The backlog of every subscriber.
pub open spec fn backlog<T>(queues: Seq<Vec<T>>) -> Seq<Seq<T>> {
    queues.map_values(|q: Vec<T>| q@)
}

pub proof fn lemma_backlog_index<T>(queues: Seq<Vec<T>>)
    ensures
        backlog(queues).len() == queues.len(),
        forall|i: int| 0 <= i < queues.len() ==> #[trigger] backlog(queues)[i] == queues[i]@,
{
}

/// What one publish does to one subscriber queue: the value is appended,
/// and the oldest pending value is dropped if the backlog is full.
pub open spec fn pushed<T>(q: Seq<T>, v: T, capacity: int) -> Seq<T> {
    if q.len() < capacity {
        q.push(v)
    } else {
        q.drop_first().push(v)
    }
}

impl<T: Copy> BroadcastHub<T> {
    /// Every queue respects the backlog bound.
    pub open spec fn wf(&self) -> bool {
        &&& self.capacity >= 1
        &&& forall|i: int|
            0 <= i < self.queues@.len() ==> (#[trigger] self.queues@[i])@.len()
                <= self.capacity
    }

    /// A hub with the given backlog bound and no subscribers.
    pub fn new(capacity: usize) -> (r: BroadcastHub<T>)
        requires
            capacity >= 1,
        ensures
            r.wf(),
            r.capacity == capacity,
            backlog(r.queues@) == Seq::<Seq<T>>::empty(),
    {
        let r = BroadcastHub { capacity, queues: Vec::new() };
        proof {
            assert(backlog(r.queues@) =~= Seq::<Seq<T>>::empty());
        }
        r
    }

    /// Register a new receiver; its identifier indexes its queue.
    pub fn subscribe(&mut self) -> (id: usize)
        requires
            old(self).wf(),
        ensures
            final(self).wf(),
            final(self).capacity == old(self).capacity,
            id == old(self).queues@.len(),
            backlog(final(self).queues@) == backlog(old(self).queues@).push(Seq::<T>::empty()),
    {
        let id = self.queues.len();
        let q: Vec<T> = Vec::new();
        self.queues.push(q);
        proof {
            lemma_backlog_index(old(self).queues@);
            lemma_backlog_index(self.queues@);
            assert(backlog(self.queues@) =~= backlog(old(self).queues@).push(Seq::<T>::empty()));
        }
        id
    }

    /// Deliver `v` to every subscriber, dropping the oldest pending value
    /// of any subscriber whose backlog is full.
    pub fn publish(&mut self, v: T)
        requires
            old(self).wf(),
        ensures
            final(self).wf(),
            final(self).capacity == old(self).capacity,
            backlog(final(self).queues@).len() == backlog(old(self).queues@).len(),
            forall|i: int|
                0 <= i < old(self).queues@.len() ==> #[trigger] backlog(final(self).queues@)[i]
                    == pushed(backlog(old(self).queues@)[i], v, old(self).capacity as int),
    {
        let ghost orig = backlog(old(self).queues@);
        let cap = self.capacity;
        let n = self.queues.len();
        let mut i: usize = 0;
        while i < n
            invariant
                i <= n,
                n == self.queues@.len(),
                cap == self.capacity >= 1,
                orig == backlog(old(self).queues@),
                orig.len() == n,
                forall|j: int|
                    0 <= j < n ==> (#[trigger] self.queues@[j])@.len() <= cap,
                forall|j: int|
                    0 <= j < i ==> #[trigger] backlog(self.queues@)[j] == pushed(
                        orig[j],
                        v,
                        cap as int,
                    ),
                forall|j: int| i <= j < n ==> #[trigger] backlog(self.queues@)[j] == orig[j],
            decreases n - i,
        {
            let ghost qs_before = self.queues@;
            let mut q = self.queues.remove(i);
            let ghost q_before = q@;
            proof {
                lemma_backlog_index(qs_before);
                assert(backlog(qs_before)[i as int] == orig[i as int]);
            }
            if q.len() >= cap {
                q.remove(0);
            }
            q.push(v);
            proof {
                assert(q@ =~= pushed(orig[i as int], v, cap as int));
            }
            let ghost qq = q;
            self.queues.insert(i, q);
            proof {
                lemma_backlog_index(self.queues@);
                lemma_backlog_index(qs_before);
                assert(self.queues@ =~= qs_before.update(i as int, qq));
                assert forall|j: int| 0 <= j <= i implies #[trigger] backlog(self.queues@)[j]
                    == pushed(orig[j], v, cap as int) by {
                    assert(backlog(self.queues@)[j] == self.queues@[j]@);
                    if j < i {
                        assert(self.queues@[j] == qs_before[j]);
                        assert(backlog(qs_before)[j] == qs_before[j]@);
                    } else {
                        assert(self.queues@[j] == qq);
                    }
                }
                assert forall|j: int| i + 1 <= j < n implies #[trigger] backlog(self.queues@)[j]
                    == orig[j] by {
                    assert(self.queues@[j] == qs_before[j]);
                    assert(backlog(qs_before)[j] == qs_before[j]@);
                }
                assert forall|j: int|
                    0 <= j < n implies (#[trigger] self.queues@[j])@.len() <= cap by {
                    if j != i {
                        assert(self.queues@[j] == qs_before[j]);
                    }
                }
            }
            i += 1;
        }
        proof {
            lemma_backlog_index(self.queues@);
            lemma_backlog_index(old(self).queues@);
        }
    }

    /// Take the oldest pending value of one subscriber, if any.
    pub fn recv(&mut self, id: usize) -> (r: Option<T>)
        requires
            old(self).wf(),
            id < old(self).queues@.len(),
        ensures
            final(self).wf(),
            final(self).capacity == old(self).capacity,
            backlog(final(self).queues@).len() == backlog(old(self).queues@).len(),
            forall|i: int|
                0 <= i < old(self).queues@.len() && i != id ==> #[trigger] backlog(
                    final(self).queues@,
                )[i] == backlog(old(self).queues@)[i],
            ({
                let q = backlog(old(self).queues@)[id as int];
                match r {
                    Option::Some(x) => q.len() > 0 && x == q[0] && backlog(
                        final(self).queues@,
                    )[id as int] == q.drop_first(),
                    Option::None => q.len() == 0 && backlog(final(self).queues@)[id as int]
                        == q,
                }
            }),
    {
        let ghost qs_before = self.queues@;
        let mut q = self.queues.remove(id);
        proof {
            lemma_backlog_index(qs_before);
        }
        let r: Option<T> = if q.len() > 0 {
            let x = q.remove(0);
            Option::Some(x)
        } else {
            Option::None
        };
        self.queues.insert(id, q);
        proof {
            lemma_backlog_index(self.queues@);
            lemma_backlog_index(qs_before);
            assert(forall|j: int|
                0 <= j < qs_before.len() && j != id ==> self.queues@[j] == qs_before[j]);
            assert(backlog(self.queues@)[id as int] == self.queues@[id as int]@);
        }
        r
    }
}

/// Latest-value-wins: immediately after a publish, every subscriber's
/// backlog is non-empty and ends with the published value.
pub proof fn lemma_publish_latest<T>(q: Seq<T>, v: T, capacity: int)
    requires
        capacity >= 1,
    ensures
        pushed(q, v, capacity).len() > 0,
        pushed(q, v, capacity).last() == v,
{
}

} // verus!
