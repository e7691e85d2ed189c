//! The change broadcaster: a single-producer, multi-consumer fan-out
//! for change notifications.
//!
//! Each subscriber owns a bounded queue.  Publishing appends the event
//! to every subscriber's queue, dropping that subscriber's oldest
//! pending event when its queue is full — and nothing else: a slow or
//! never-reading subscriber loses its own backlog, never anyone else's
//! delivery, and publishing is total, so it can never block on a
//! consumer.  Disconnected subscribers are dropped explicitly and only
//! affect their own slot.

use crate::ServerMessage;
use std::collections::VecDeque;
use vstd::prelude::*;

verus! {

/// One subscriber's slot: its handle and its pending events, oldest
/// first.
pub struct Subscription {
    id: u64,
    queue: VecDeque<ServerMessage>,
}

/// The model of one subscriber: its handle and its pending events.
pub ghost struct SubView {
    pub id: u64,
    pub queue: Seq<ServerMessage>,
}

impl View for Subscription {
    type V = SubView;

    closed spec fn view(&self) -> SubView {
        SubView { id: self.id, queue: self.queue@ }
    }
}

/// A bounded queue after an event is offered to it: the event is
/// appended, at the cost of the oldest pending one when the queue is
/// full.
pub open spec fn push_bounded(q: Seq<ServerMessage>, cap: int, ev: ServerMessage) -> Seq<
    ServerMessage,
> {
    if q.len() >= cap {
        q.drop_first().push(ev)
    } else {
        q.push(ev)
    }
}

/// All subscribers after an event is published: each slot takes the
/// event into its own queue, independently of every other slot.
pub open spec fn publish_all(s: Seq<SubView>, cap: int, ev: ServerMessage) -> Seq<SubView> {
    Seq::new(s.len(), |i: int| SubView { id: s[i].id, queue: push_bounded(s[i].queue, cap, ev) })
}

/// There is a subscriber with this handle.
pub open spec fn has_sub(s: Seq<SubView>, id: u64) -> bool {
    exists|i: int| 0 <= i < s.len() && s[i].id == id
}

/// The slot index of the subscriber with this handle.
pub open spec fn sub_at(s: Seq<SubView>, id: u64) -> int {
    choose|i: int| 0 <= i < s.len() && s[i].id == id
}

/// The publish/subscribe fan-out: one logical publisher, any number of
/// independent subscribers, each buffered by a bounded queue.
pub struct Broadcaster {
    capacity: usize,
    next_id: u64,
    subs: Vec<Subscription>,
}

impl View for Broadcaster {
    type V = Seq<SubView>;

    closed spec fn view(&self) -> Seq<SubView> {
        self.subs@.map_values(|x: Subscription| x@)
    }
}

impl Broadcaster {
    /// Handles are unique, unexhausted handles stay fresh, and no queue
    /// outgrows the bound.
    pub closed spec fn wf(self) -> bool {
        &&& self.capacity >= 1
        &&& forall|i: int, j: int|
            0 <= i < j < self.subs@.len() ==> (#[trigger] self.subs@[i])@.id != (
            #[trigger] self.subs@[j])@.id
        &&& forall|i: int| 0 <= i < self.subs@.len() ==> (#[trigger] self.subs@[i])@.id < self.next_id
        &&& forall|i: int|
            0 <= i < self.subs@.len() ==> (#[trigger] self.subs@[i])@.queue.len() <= self.capacity
    }

    /// The bound on each subscriber's queue.
    pub closed spec fn spec_capacity(self) -> int {
        self.capacity as int
    }

    /// The next handle to be issued.
    pub closed spec fn spec_next_id(self) -> u64 {
        self.next_id
    }

    /// Creates a broadcaster whose subscribers each buffer at most
    /// `capacity` pending events.
    pub fn new(capacity: usize) -> (b: Self)
        requires
            capacity >= 1,
        ensures
            b.wf(),
            b@ =~= Seq::<SubView>::empty(),
            b.spec_capacity() == capacity,
            b.spec_next_id() == 0,
    {
        Broadcaster { capacity, next_id: 0, subs: Vec::new() }
    }

    /// The next handle to be issued; handles are a `u64` counter, so a
    /// caller can check it is not exhausted.
    pub fn next_id(&self) -> (r: u64)
        ensures
            r == self.spec_next_id(),
    {
        self.next_id
    }

    /// How many subscribers are connected.
    pub fn subscriber_count(&self) -> (r: usize)
        ensures
            r == self@.len(),
    {
        self.subs.len()
    }

    /// Registers a new subscriber with an empty queue and returns its
    /// fresh handle.
    pub fn subscribe(&mut self) -> (id: u64)
        requires
            old(self).wf(),
            old(self).spec_next_id() < u64::MAX,
        ensures
            final(self).wf(),
            id == old(self).spec_next_id(),
            final(self)@ =~= old(self)@.push(SubView { id, queue: Seq::empty() }),
            final(self).spec_capacity() == old(self).spec_capacity(),
            final(self).spec_next_id() == old(self).spec_next_id() + 1,
    {
        let id = self.next_id;
        self.next_id = self.next_id + 1;
        self.subs.push(Subscription { id, queue: VecDeque::new() });
        id
    }

    /// Publishes one event to every subscriber.  Each queue takes the
    /// event, dropping its own oldest pending one when full; no
    /// subscriber's backlog delays or affects delivery to any other,
    /// and the publisher never waits.
    pub fn publish(&mut self, ev: ServerMessage)
        requires
            old(self).wf(),
        ensures
            final(self).wf(),
            final(self)@ =~= publish_all(old(self)@, old(self).spec_capacity(), ev),
            final(self).spec_capacity() == old(self).spec_capacity(),
            final(self).spec_next_id() == old(self).spec_next_id(),
    {
        let n = self.subs.len();
        let mut i: usize = 0;
        while i < n
            invariant
                0 <= i <= n,
                n == self.subs@.len(),
                self.capacity == old(self).spec_capacity(),
                self.next_id == old(self).spec_next_id(),
                self.capacity >= 1,
                forall|j: int|
                    i <= j < n ==> (#[trigger] self.subs@[j])@ == old(self)@[j],
                forall|j: int|
                    0 <= j < i ==> (#[trigger] self.subs@[j])@ == (SubView {
                        id: old(self)@[j].id,
                        queue: push_bounded(old(self)@[j].queue, self.capacity as int, ev),
                    }),
                forall|j: int|
                    0 <= j < n ==> (#[trigger] self.subs@[j])@.queue.len() <= self.capacity,
            decreases n - i,
        {
            if self.subs[i].queue.len() >= self.capacity {
                self.subs[i].queue.pop_front();
            }
            self.subs[i].queue.push_back(ev);
            i = i + 1;
        }
        proof {
            assert forall|a: int, b: int|
                0 <= a < b < self.subs@.len() implies (#[trigger] self.subs@[a])@.id != (
                #[trigger] self.subs@[b])@.id by {
                assert(self.subs@[a]@.id == old(self)@[a].id);
                assert(self.subs@[b]@.id == old(self)@[b].id);
            }
        }
    }

    /// The slot index of the subscriber with this handle, if connected.
    fn find_sub(&self, id: u64) -> (r: Option<usize>)
        requires
            self.wf(),
        ensures
            match r {
                Some(i) => {
                    &&& i < self@.len()
                    &&& self@[i as int].id == id
                    &&& has_sub(self@, id)
                    &&& sub_at(self@, id) == i as int
                },
                None => !has_sub(self@, id),
            },
    {
        let n = self.subs.len();
        let mut i: usize = 0;
        while i < n
            invariant
                self.wf(),
                0 <= i <= n,
                n == self.subs@.len(),
                forall|j: int| 0 <= j < i ==> (#[trigger] self.subs@[j])@.id != id,
            decreases n - i,
        {
            if self.subs[i].id == id {
                proof {
                    assert(self@[i as int] == self.subs@[i as int]@);
                    assert(has_sub(self@, id));
                    let w = sub_at(self@, id);
                    assert(0 <= w < self@.len() && self@[w].id == id);
                    if w != i as int {
                        assert(self@[w] == self.subs@[w]@);
                        assert(self.subs@[w]@.id == self.subs@[i as int]@.id);
                        assert(false);
                    }
                }
                return Some(i);
            }
            i = i + 1;
        }
        None
    }

    /// Takes the oldest pending event for this subscriber, if it is
    /// connected and has one.  An unknown handle and an empty queue
    /// both yield nothing and change nothing.
    pub fn try_recv(&mut self, id: u64) -> (r: Option<ServerMessage>)
        requires
            old(self).wf(),
        ensures
            final(self).wf(),
            final(self).spec_capacity() == old(self).spec_capacity(),
            final(self).spec_next_id() == old(self).spec_next_id(),
            !has_sub(old(self)@, id) ==> r is None && final(self)@ == old(self)@,
            has_sub(old(self)@, id) ==> {
                let i = sub_at(old(self)@, id);
                if old(self)@[i].queue.len() == 0 {
                    r is None && final(self)@ == old(self)@
                } else {
                    &&& r == Some(old(self)@[i].queue.first())
                    &&& final(self)@ =~= old(self)@.update(
                        i,
                        SubView { id, queue: old(self)@[i].queue.drop_first() },
                    )
                }
            },
    {
        match self.find_sub(id) {
            None => {
                proof {
                    assert(final(self)@ =~= old(self)@);
                }
                None
            },
            Some(i) => {
                let r = self.subs[i].queue.pop_front();
                proof {
                    if old(self)@[i as int].queue.len() == 0 {
                        assert(final(self)@ =~= old(self)@);
                    } else {
                        assert(old(self)@[i as int].queue.drop_first() =~= old(
                            self,
                        )@[i as int].queue.subrange(1, old(self)@[i as int].queue.len() as int));
                    }
                }
                r
            },
        }
    }

    /// Drops a subscriber's slot.  Only that slot is affected; an
    /// unknown handle changes nothing.
    pub fn unsubscribe(&mut self, id: u64)
        requires
            old(self).wf(),
        ensures
            final(self).wf(),
            final(self).spec_capacity() == old(self).spec_capacity(),
            final(self).spec_next_id() == old(self).spec_next_id(),
            !has_sub(old(self)@, id) ==> final(self)@ == old(self)@,
            has_sub(old(self)@, id) ==> final(self)@ =~= old(self)@.remove(sub_at(old(self)@, id)),
    {
        match self.find_sub(id) {
            None => {
                proof {
                    assert(final(self)@ =~= old(self)@);
                }
            },
            Some(i) => {
                self.subs.remove(i);
                proof {
                    old(self)@.remove_ensures(i as int);
                    assert(final(self)@ =~= old(self)@.remove(i as int));
                }
            },
        }
    }
}

/// Law: delivery to a subscriber depends only on that subscriber's own
/// queue.  Whatever any other subscriber's backlog looks like — full,
/// empty, or never read — publication delivers the same way to slot
/// `j`.
pub proof fn lemma_publish_no_interference(
    s1: Seq<SubView>,
    s2: Seq<SubView>,
    cap: int,
    ev: ServerMessage,
    j: int,
)
    requires
        0 <= j < s1.len(),
        0 <= j < s2.len(),
        s1[j] == s2[j],
    ensures
        publish_all(s1, cap, ev)[j] == publish_all(s2, cap, ev)[j],
{
}

/// Law: publication reaches every subscriber.  After a publish, every
/// slot's queue ends with the published event.
pub proof fn lemma_publish_delivers(s: Seq<SubView>, cap: int, ev: ServerMessage, j: int)
    requires
        0 <= j < s.len(),
        cap >= 1,
    ensures
        publish_all(s, cap, ev)[j].queue.len() >= 1,
        publish_all(s, cap, ev)[j].queue.last() == ev,
        publish_all(s, cap, ev)[j].id == s[j].id,
{
}

} // verus!
