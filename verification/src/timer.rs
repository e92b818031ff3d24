//! Monotonic tick-driven delay queue.
//!
//! A `Timer` keeps a queue of `(deadline, event)` pairs ordered by absolute
//! deadline, ties resolved by insertion order, together with a
//! monotonically-increasing tick counter. `pop` hands out the events whose
//! deadline has passed, earliest first.

use vstd::prelude::*;

use crate::thread_pool::Tid;

verus! {

/// Payload of a timer entry: wake the named thread when the deadline passes.
#[derive(Clone, Copy, Debug, PartialEq, Eq, Structural)]
pub enum Event {
    Wakeup(Tid),
}

/// Deadlines never decrease along the queue.
pub open spec fn deadlines_sorted(s: Seq<(usize, Event)>) -> bool {
    forall|i: int, j: int| 0 <= i < j < s.len() ==> (#[trigger] s[i]).0 <= (#[trigger] s[j]).0
}

/// Where `start` places a new entry: after every entry whose deadline is not
/// later, before the rest, so equal deadlines keep insertion order.
pub open spec fn insert_by_deadline(
    s: Seq<(usize, Event)>,
    deadline: usize,
    event: Event,
) -> Seq<(usize, Event)>
    decreases s.len(),
{
    if s.len() == 0 {
        seq![(deadline, event)]
    } else if s[0].0 <= deadline {
        seq![s[0]] + insert_by_deadline(s.drop_first(), deadline, event)
    } else {
        seq![(deadline, event)] + s
    }
}

/// Where `stop` leaves the queue: the first entry carrying `event` is gone,
/// everything else keeps its place.
pub open spec fn remove_first_event(s: Seq<(usize, Event)>, event: Event) -> Seq<(usize, Event)>
    decreases s.len(),
{
    if s.len() == 0 {
        s
    } else if s[0].1 == event {
        s.drop_first()
    } else {
        seq![s[0]] + remove_first_event(s.drop_first(), event)
    }
}

/// Min-deadline event queue driven by an external tick source.
pub struct Timer {
    now: usize,
    events: Vec<(usize, Event)>,
}

impl Timer {
    /// Current value of the monotonic clock.
    pub closed spec fn time(self) -> usize {
        self.now
    }

    /// The pending entries, ordered by deadline, ties in insertion order.
    pub closed spec fn entries(self) -> Seq<(usize, Event)> {
        self.events@
    }

    /// The queue is ordered by deadline.
    pub closed spec fn wf(self) -> bool {
        deadlines_sorted(self.events@)
    }

    /// An empty queue at tick zero.
    pub fn new() -> (t: Timer)
        ensures
            t.wf(),
            t.time() == 0,
            t.entries() == Seq::<(usize, Event)>::empty(),
    {
        Timer { now: 0, events: Vec::new() }
    }

    /// Advance the clock by one tick.
    pub fn tick(&mut self)
        requires
            old(self).wf(),
            old(self).time() < usize::MAX,
        ensures
            final(self).wf(),
            final(self).time() == old(self).time() + 1,
            final(self).entries() == old(self).entries(),
    {
        self.now = self.now + 1;
    }

    /// Schedule `event` to become due `delta` ticks from now.
    pub fn start(&mut self, delta: usize, event: Event)
        requires
            old(self).wf(),
            0 < delta,
            old(self).time() + delta <= usize::MAX,
        ensures
            final(self).wf(),
            final(self).time() == old(self).time(),
            final(self).entries() == insert_by_deadline(
                old(self).entries(),
                (old(self).time() + delta) as usize,
                event,
            ),
    {
        let deadline = self.now + delta;
        let mut idx: usize = 0;
        while idx < self.events.len() && self.events[idx].0 <= deadline
            invariant
                idx <= self.events@.len(),
                forall|k: int| 0 <= k < idx ==> (#[trigger] self.events@[k]).0 <= deadline,
            decreases self.events@.len() - idx,
        {
            idx = idx + 1;
        }
        proof {
            lemma_insert_by_deadline_at(self.events@, deadline, event, idx as int);
            lemma_insert_by_deadline_sorted(self.events@, deadline, event);
        }
        self.events.insert(idx, (deadline, event));
    }

    /// Remove the first pending entry carrying `event`, if any.
    pub fn stop(&mut self, event: Event)
        requires
            old(self).wf(),
        ensures
            final(self).wf(),
            final(self).time() == old(self).time(),
            final(self).entries() == remove_first_event(old(self).entries(), event),
    {
        let mut idx: usize = 0;
        while idx < self.events.len() && self.events[idx].1 != event
            invariant
                idx <= self.events@.len(),
                forall|k: int| 0 <= k < idx ==> (#[trigger] self.events@[k]).1 != event,
            decreases self.events@.len() - idx,
        {
            idx = idx + 1;
        }
        proof {
            lemma_remove_first_event_at(self.events@, event, idx as int);
            lemma_remove_first_event_sorted(self.events@, event);
        }
        if idx < self.events.len() {
            self.events.remove(idx);
        }
    }

    /// Hand out the event with the smallest deadline if it is due; repeated
    /// calls drain every due event.
    pub fn pop(&mut self) -> (r: Option<Event>)
        requires
            old(self).wf(),
        ensures
            final(self).wf(),
            final(self).time() == old(self).time(),
            if old(self).entries().len() > 0 && old(self).entries()[0].0 <= old(self).time() {
                r == Some(old(self).entries()[0].1) && final(self).entries() == old(
                    self,
                ).entries().drop_first()
            } else {
                r == None::<Event> && final(self).entries() == old(self).entries()
            },
    {
        if self.events.len() > 0 && self.events[0].0 <= self.now {
            let (_, event) = self.events.remove(0);
            Some(event)
        } else {
            None
        }
    }
}

/// If everything before `i` is due no later than `deadline` and everything
/// from `i` on is due strictly later, insertion lands exactly at `i`.
proof fn lemma_insert_by_deadline_at(s: Seq<(usize, Event)>, deadline: usize, event: Event, i: int)
    requires
        deadlines_sorted(s),
        0 <= i <= s.len(),
        forall|k: int| 0 <= k < i ==> (#[trigger] s[k]).0 <= deadline,
        i < s.len() ==> s[i].0 > deadline,
    ensures
        insert_by_deadline(s, deadline, event) == s.insert(i, (deadline, event)),
    decreases s.len(),
{
    if s.len() == 0 {
        assert(insert_by_deadline(s, deadline, event) =~= s.insert(0, (deadline, event)));
    } else if s[0].0 <= deadline {
        assert(i >= 1) by {
            if i == 0 {
                assert(s[0].0 > deadline);
            }
        }
        lemma_insert_by_deadline_at(s.drop_first(), deadline, event, i - 1);
        assert(insert_by_deadline(s, deadline, event) =~= s.insert(i, (deadline, event)));
    } else {
        assert(i == 0);
        assert(insert_by_deadline(s, deadline, event) =~= s.insert(0, (deadline, event)));
    }
}

/// Insertion keeps the queue ordered by deadline.
proof fn lemma_insert_by_deadline_sorted(s: Seq<(usize, Event)>, deadline: usize, event: Event)
    requires
        deadlines_sorted(s),
    ensures
        deadlines_sorted(insert_by_deadline(s, deadline, event)),
    decreases s.len(),
{
    if s.len() == 0 {
    } else if s[0].0 <= deadline {
        lemma_insert_by_deadline_sorted(s.drop_first(), deadline, event);
        let t = insert_by_deadline(s.drop_first(), deadline, event);
        assert forall|j: int| 0 <= j < t.len() implies s[0].0 <= (#[trigger] t[j]).0 by {
            lemma_insert_by_deadline_members(s.drop_first(), deadline, event, j);
        }
    }
}

/// Every entry of the inserted queue is either the new pair or an entry of
/// the old queue.
pub proof fn lemma_insert_by_deadline_members(
    s: Seq<(usize, Event)>,
    deadline: usize,
    event: Event,
    j: int,
)
    requires
        0 <= j < insert_by_deadline(s, deadline, event).len(),
    ensures
        insert_by_deadline(s, deadline, event)[j] == (deadline, event) || exists|k: int|
            0 <= k < s.len() && insert_by_deadline(s, deadline, event)[j] == s[k],
    decreases s.len(),
{
    if s.len() == 0 {
    } else if s[0].0 <= deadline {
        if j == 0 {
            assert(insert_by_deadline(s, deadline, event)[0] == s[0]);
        } else {
            lemma_insert_by_deadline_members(s.drop_first(), deadline, event, j - 1);
            if insert_by_deadline(s.drop_first(), deadline, event)[j - 1] != (deadline, event) {
                let k = choose|k: int|
                    0 <= k < s.drop_first().len() && insert_by_deadline(
                        s.drop_first(),
                        deadline,
                        event,
                    )[j - 1] == s.drop_first()[k];
                assert(insert_by_deadline(s, deadline, event)[j] == s[k + 1]);
            }
        }
    }
}

/// If everything before `i` carries another event and `i` (when in range)
/// carries `event`, removal strikes exactly index `i`.
proof fn lemma_remove_first_event_at(s: Seq<(usize, Event)>, event: Event, i: int)
    requires
        0 <= i <= s.len(),
        forall|k: int| 0 <= k < i ==> (#[trigger] s[k]).1 != event,
        i < s.len() ==> s[i].1 == event,
    ensures
        remove_first_event(s, event) == if i < s.len() {
            s.remove(i)
        } else {
            s
        },
    decreases s.len(),
{
    if s.len() == 0 {
    } else if s[0].1 == event {
        assert(i == 0);
        assert(s.drop_first() =~= s.remove(0));
    } else {
        assert(i >= 1);
        lemma_remove_first_event_at(s.drop_first(), event, i - 1);
        if i < s.len() {
            assert(remove_first_event(s, event) =~= s.remove(i));
        } else {
            assert(remove_first_event(s, event) =~= s);
        }
    }
}

/// Removal keeps the queue ordered by deadline.
proof fn lemma_remove_first_event_sorted(s: Seq<(usize, Event)>, event: Event)
    requires
        deadlines_sorted(s),
    ensures
        deadlines_sorted(remove_first_event(s, event)),
    decreases s.len(),
{
    if s.len() == 0 {
    } else if s[0].1 == event {
    } else {
        lemma_remove_first_event_sorted(s.drop_first(), event);
        let t = remove_first_event(s.drop_first(), event);
        assert forall|j: int| 0 <= j < t.len() implies s[0].0 <= (#[trigger] t[j]).0 by {
            lemma_remove_first_event_member(s.drop_first(), event, j);
        }
    }
}

/// Every entry left by a removal is an entry of the old queue.
pub proof fn lemma_remove_first_event_member(s: Seq<(usize, Event)>, event: Event, j: int)
    requires
        0 <= j < remove_first_event(s, event).len(),
    ensures
        exists|k: int| 0 <= k < s.len() && remove_first_event(s, event)[j] == s[k],
    decreases s.len(),
{
    if s.len() == 0 {
    } else if s[0].1 == event {
        assert(remove_first_event(s, event)[j] == s[j + 1]);
    } else {
        if j == 0 {
            assert(remove_first_event(s, event)[0] == s[0]);
        } else {
            lemma_remove_first_event_member(s.drop_first(), event, j - 1);
            let k = choose|k: int|
                0 <= k < s.drop_first().len() && remove_first_event(s.drop_first(), event)[j - 1]
                    == s.drop_first()[k];
            assert(remove_first_event(s, event)[j] == s[k + 1]);
        }
    }
}

} // verus!
