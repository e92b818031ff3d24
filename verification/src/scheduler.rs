//! Runnable-queue policies.
//!
//! `Scheduler` is the interface the thread pool drives: it owns only thread
//! identifiers, never thread state. The queue of runnable identifiers is
//! modelled as a sequence in insertion order; which member `pop` selects is
//! the policy's affair, fixed by its `next_choice` function.
//!
//! `StrideScheduler` is the concrete stride round-robin policy: every thread
//! carries a pass that grows by a stride inversely proportional to its
//! priority, `pop` selects the queued thread with the smallest pass (ties in
//! insertion order), and each selected thread is granted a fresh time slice
//! that `tick` counts down.

use vstd::prelude::*;

use crate::thread_pool::Tid;

verus! {

/// A runnable-queue policy.
///
/// `queue` is the sequence of runnable identifiers in insertion order; the
/// pool guarantees it never pushes an identifier that is already queued, so
/// the queue stays free of duplicates. Beside the queue, every policy keeps
/// the interface's accounting: a priority per thread (changed only by
/// `set_priority`), a time slice per thread (granted afresh from `quantum`
/// by `pop`, counted down by `tick`, and touched by nothing else), and the
/// fixed quantum itself.
pub trait Scheduler: Sized {
    /// Runnable identifiers in insertion order.
    spec fn queue(&self) -> Seq<Tid>;

    /// Internal consistency of the policy's bookkeeping.
    spec fn wf(&self) -> bool;

    /// The identifier `pop` would select in the current state.
    spec fn next_choice(&self, cpu_id: usize) -> Option<Tid>;

    /// The scheduling weight of `tid`; higher means more frequent selection.
    spec fn priority_of(&self, tid: Tid) -> u8;

    /// Ticks left of `tid`'s current time slice.
    spec fn slice_of(&self, tid: Tid) -> usize;

    /// Ticks granted to a thread each time it is selected.
    spec fn quantum(&self) -> usize;

    /// The queue never holds an identifier twice.
    proof fn wf_no_duplicates(&self)
        requires
            self.wf(),
        ensures
            self.queue().no_duplicates(),
    ;

    /// `pop` selects from the queue, and comes back empty only on an empty
    /// queue.
    proof fn next_choice_in_queue(&self, cpu_id: usize)
        requires
            self.wf(),
        ensures
            match self.next_choice(cpu_id) {
                Option::None => self.queue().len() == 0,
                Option::Some(t) => self.queue().contains(t),
            },
    ;

    /// Mark `tid` runnable; the caller never pushes an identifier that is
    /// already queued.
    fn push(&mut self, tid: Tid)
        requires
            old(self).wf(),
            !old(self).queue().contains(tid),
            tid < usize::MAX,
        ensures
            final(self).wf(),
            final(self).queue() == old(self).queue().push(tid),
            final(self).quantum() == old(self).quantum(),
            forall|u: Tid| #[trigger] final(self).priority_of(u) == old(self).priority_of(u),
            forall|u: Tid| #[trigger] final(self).slice_of(u) == old(self).slice_of(u),
    ;

    /// Remove and return the next identifier to run on this CPU, or `None`
    /// if nothing is runnable. The selected thread is granted a fresh time
    /// slice.
    fn pop(&mut self, cpu_id: usize) -> (r: Option<Tid>)
        requires
            old(self).wf(),
        ensures
            final(self).wf(),
            r == old(self).next_choice(cpu_id),
            final(self).quantum() == old(self).quantum(),
            forall|u: Tid| #[trigger] final(self).priority_of(u) == old(self).priority_of(u),
            match r {
                Option::None => {
                    &&& final(self).queue() == old(self).queue()
                    &&& forall|u: Tid| #[trigger] final(self).slice_of(u) == old(self).slice_of(u)
                },
                Option::Some(t) => {
                    &&& final(self).queue() == old(self).queue().remove_value(t)
                    &&& final(self).slice_of(t) == old(self).quantum()
                    &&& forall|u: Tid|
                        u != t ==> #[trigger] final(self).slice_of(u) == old(self).slice_of(u)
                },
            },
    ;

    /// Count one tick against the running `tid`'s time slice: it shrinks by
    /// one (never below zero), and the result reports whether it is now
    /// exhausted.
    fn tick(&mut self, tid: Tid) -> (expired: bool)
        requires
            old(self).wf(),
            tid < usize::MAX,
        ensures
            final(self).wf(),
            final(self).queue() == old(self).queue(),
            final(self).quantum() == old(self).quantum(),
            forall|u: Tid| #[trigger] final(self).priority_of(u) == old(self).priority_of(u),
            expired == (old(self).slice_of(tid) <= 1),
            final(self).slice_of(tid) == (if old(self).slice_of(tid) > 0 {
                (old(self).slice_of(tid) - 1) as usize
            } else {
                0
            }),
            forall|u: Tid|
                u != tid ==> #[trigger] final(self).slice_of(u) == old(self).slice_of(u),
    ;

    /// Set `tid`'s weight to `priority`; no other thread's weight and no
    /// time slice changes.
    fn set_priority(&mut self, tid: Tid, priority: u8)
        requires
            old(self).wf(),
            tid < usize::MAX,
        ensures
            final(self).wf(),
            final(self).queue() == old(self).queue(),
            final(self).quantum() == old(self).quantum(),
            final(self).priority_of(tid) == priority,
            forall|u: Tid|
                u != tid ==> #[trigger] final(self).priority_of(u) == old(self).priority_of(u),
            forall|u: Tid| #[trigger] final(self).slice_of(u) == old(self).slice_of(u),
    ;

    /// Remove a still-queued identifier that is being forced to a non-ready
    /// state; its accounting stays.
    fn remove(&mut self, tid: Tid)
        requires
            old(self).wf(),
            old(self).queue().contains(tid),
        ensures
            final(self).wf(),
            final(self).queue() == old(self).queue().remove_value(tid),
            final(self).quantum() == old(self).quantum(),
            forall|u: Tid| #[trigger] final(self).priority_of(u) == old(self).priority_of(u),
            forall|u: Tid| #[trigger] final(self).slice_of(u) == old(self).slice_of(u),
    ;
}

/// Strides are carved out of this common numerator: a thread of priority `p`
/// advances by `BIG_STRIDE / (p + 1)` each time it is selected.
pub const BIG_STRIDE: u64 = 0x7FFF_FFFF;

/// The stride of a thread of priority `priority`.
pub open spec fn stride_of(priority: u8) -> u64 {
    (BIG_STRIDE as int / (priority as int + 1)) as u64
}

/// Per-thread stride bookkeeping.
#[derive(Clone, Copy)]
struct StrideInfo {
    priority: u8,
    pass: u64,
    rest_slice: usize,
}

/// Stride round-robin policy: weighted fair selection with per-tick time
/// slices.
pub struct StrideScheduler {
    max_time_slice: usize,
    infos: Vec<StrideInfo>,
    queue: Vec<Tid>,
}

impl StrideScheduler {
    /// Accumulated pass of `tid`: the smaller, the sooner it is selected.
    pub closed spec fn pass_of(self, tid: Tid) -> u64 {
        if tid < self.infos@.len() {
            self.infos@[tid as int].pass
        } else {
            0
        }
    }

    /// Index in `queue[from..]` of the first entry with minimal pass.
    closed spec fn choice_from(self, from: int) -> int
        decreases self.queue@.len() - from,
    {
        if from >= self.queue@.len() - 1 {
            from
        } else {
            let rest = self.choice_from(from + 1);
            if self.pass_of(self.queue@[from]) <= self.pass_of(self.queue@[rest]) {
                from
            } else {
                rest
            }
        }
    }

    proof fn lemma_choice_from(self, from: int)
        requires
            0 <= from < self.queue@.len(),
        ensures
            from <= self.choice_from(from) < self.queue@.len(),
            forall|k: int|
                from <= k < self.queue@.len() ==> self.pass_of(
                    self.queue@[self.choice_from(from)],
                ) <= self.pass_of(#[trigger] self.queue@[k]),
            forall|k: int|
                from <= k < self.choice_from(from) ==> self.pass_of(#[trigger] self.queue@[k])
                    > self.pass_of(self.queue@[self.choice_from(from)]),
        decreases self.queue@.len() - from,
    {
        if from < self.queue@.len() - 1 {
            self.lemma_choice_from(from + 1);
        }
    }

    /// The stride selection law: `pop` picks the queued thread with the
    /// smallest pass, and among equal passes the one queued first.
    pub proof fn lemma_next_choice_minimal(self, cpu_id: usize)
        requires
            self.wf(),
        ensures
            match self.next_choice(cpu_id) {
                Option::None => self.queue().len() == 0,
                Option::Some(t) => exists|i: int|
                    {
                        &&& 0 <= i < self.queue().len()
                        &&& self.queue()[i] == t
                        &&& (forall|k: int|
                            0 <= k < self.queue().len() ==> self.pass_of(t) <= self.pass_of(
                                #[trigger] self.queue()[k],
                            ))
                        &&& (forall|k: int|
                            0 <= k < i ==> self.pass_of(#[trigger] self.queue()[k]) > self.pass_of(
                                t,
                            ))
                    },
            },
    {
        if self.queue@.len() > 0 {
            self.lemma_choice_from(0);
            let i = self.choice_from(0);
            assert({
                &&& 0 <= i < self.queue().len()
                &&& self.queue()[i] == self.next_choice(cpu_id).unwrap()
                &&& (forall|k: int|
                    0 <= k < self.queue().len() ==> self.pass_of(self.queue()[i]) <= self.pass_of(
                        #[trigger] self.queue()[k],
                    ))
                &&& (forall|k: int|
                    0 <= k < i ==> self.pass_of(#[trigger] self.queue()[k]) > self.pass_of(
                        self.queue()[i],
                    ))
            });
        }
    }

    /// A policy with an empty queue and the given time-slice quantum.
    pub fn new(max_time_slice: usize) -> (s: StrideScheduler)
        ensures
            s.wf(),
            s.queue() == Seq::<Tid>::empty(),
            s.quantum() == max_time_slice,
            forall|t: Tid| #[trigger] s.priority_of(t) == 0,
            forall|t: Tid| #[trigger] s.pass_of(t) == 0,
            forall|t: Tid| #[trigger] s.slice_of(t) == 0,
    {
        StrideScheduler { max_time_slice, infos: Vec::new(), queue: Vec::new() }
    }

    /// Grow the bookkeeping table until it covers `tid`; observable state is
    /// untouched because fresh entries equal the defaults.
    fn expand(&mut self, tid: Tid)
        requires
            tid < usize::MAX,
        ensures
            tid < final(self).infos@.len(),
            old(self).infos@.len() <= final(self).infos@.len(),
            final(self).queue() == old(self).queue(),
            final(self).quantum() == old(self).quantum(),
            forall|t: Tid| #[trigger] final(self).priority_of(t) == old(self).priority_of(t),
            forall|t: Tid| #[trigger] final(self).pass_of(t) == old(self).pass_of(t),
            forall|t: Tid| #[trigger] final(self).slice_of(t) == old(self).slice_of(t),
            forall|t: Tid|
                t < old(self).infos@.len() ==> final(self).infos@[t as int] == old(
                    self,
                ).infos@[t as int],
    {
        while self.infos.len() <= tid
            invariant
                tid < usize::MAX,
                old(self).infos@.len() <= self.infos@.len(),
                self.queue@ == old(self).queue@,
                self.max_time_slice == old(self).max_time_slice,
                forall|j: int|
                    0 <= j < self.infos@.len() ==> #[trigger] self.infos@[j] == if j < old(
                        self,
                    ).infos@.len() {
                        old(self).infos@[j]
                    } else {
                        (StrideInfo { priority: 0, pass: 0, rest_slice: 0 })
                    },
            decreases tid + 1 - self.infos@.len(),
        {
            self.infos.push(StrideInfo { priority: 0, pass: 0, rest_slice: 0 });
        }
    }

    /// Mark `tid` runnable. Its accounting is untouched: a thread that
    /// slept keeps its pass, so it does not monopolize the CPU on return.
    pub fn push(&mut self, tid: Tid)
        requires
            old(self).wf(),
            !old(self).queue().contains(tid),
            tid < usize::MAX,
        ensures
            final(self).wf(),
            final(self).queue() == old(self).queue().push(tid),
            accounting_unchanged(*old(self), *final(self)),
    {
        self.expand(tid);
        let ghost mid = *self;
        self.queue.push(tid);
        proof {
            assert forall|u: Tid| #[trigger] self.pass_of(u) == old(self).pass_of(u) by {
                assert(mid.pass_of(u) == old(self).pass_of(u));
            }
            assert forall|u: Tid| #[trigger] self.priority_of(u) == old(self).priority_of(u) by {
                assert(mid.priority_of(u) == old(self).priority_of(u));
            }
            assert forall|u: Tid| #[trigger] self.slice_of(u) == old(self).slice_of(u) by {
                assert(mid.slice_of(u) == old(self).slice_of(u));
            }
        }
    }

    /// Select the queued thread with the smallest pass (ties in insertion
    /// order), advance its pass by its stride, and grant it a fresh time
    /// slice.
    pub fn pop(&mut self, cpu_id: usize) -> (r: Option<Tid>)
        requires
            old(self).wf(),
        ensures
            final(self).wf(),
            r == old(self).next_choice(cpu_id),
            match r {
                Option::None => {
                    &&& final(self).queue() == old(self).queue()
                    &&& accounting_unchanged(*old(self), *final(self))
                },
                Option::Some(t) => {
                    &&& final(self).queue() == old(self).queue().remove_value(t)
                    &&& accounting_unchanged_except(*old(self), *final(self), t)
                    &&& final(self).priority_of(t) == old(self).priority_of(t)
                    &&& final(self).pass_of(t) == old(self).pass_of(t).saturating_add(
                        stride_of(old(self).priority_of(t)),
                    )
                    &&& final(self).slice_of(t) == old(self).quantum()
                },
            },
    {
        proof {
            if self.queue@.len() > 0 {
                self.lemma_choice_from(0);
            }
        }
        if self.queue.len() == 0 {
            return None;
        }
        let ghost c = self.choice_from(0);
        let mut best: usize = 0;
        let mut k: usize = 1;
        while k < self.queue.len()
            invariant
                self.wf(),
                0 < self.queue@.len(),
                best < k <= self.queue@.len(),
                forall|j: int|
                    0 <= j < k ==> self.pass_of(self.queue@[best as int]) <= self.pass_of(
                        #[trigger] self.queue@[j],
                    ),
                forall|j: int|
                    0 <= j < best ==> self.pass_of(#[trigger] self.queue@[j]) > self.pass_of(
                        self.queue@[best as int],
                    ),
            decreases self.queue@.len() - k,
        {
            let t = self.queue[k];
            let b = self.queue[best];
            if self.infos[t].pass < self.infos[b].pass {
                best = k;
            }
            k = k + 1;
        }
        proof {
            let q = self.queue@;
            if (best as int) < c {
                assert(self.pass_of(q[best as int]) > self.pass_of(q[c]));
                assert(self.pass_of(q[best as int]) <= self.pass_of(q[c]));
            }
            if c < best as int {
                assert(self.pass_of(q[c]) > self.pass_of(q[best as int]));
                assert(self.pass_of(q[c]) <= self.pass_of(q[best as int]));
            }
            assert(best as int == c);
        }
        let tid = self.queue.remove(best);
        let info = self.infos[tid];
        let stride = BIG_STRIDE / (info.priority as u64 + 1);
        self.infos[tid] = StrideInfo {
            priority: info.priority,
            pass: info.pass.saturating_add(stride),
            rest_slice: self.max_time_slice,
        };
        proof {
            old(self).queue@.index_of_first_ensures(tid);
            assert(self.queue@ =~= old(self).queue@.remove_value(tid));
            assert(stride == stride_of(old(self).priority_of(tid)));
        }
        Some(tid)
    }

    /// Count one tick against `tid`'s time slice: it shrinks by one (never
    /// below zero), and the result reports whether it is now exhausted.
    pub fn tick(&mut self, tid: Tid) -> (expired: bool)
        requires
            old(self).wf(),
            tid < usize::MAX,
        ensures
            final(self).wf(),
            final(self).queue() == old(self).queue(),
            expired == (old(self).slice_of(tid) <= 1),
            accounting_unchanged_except(*old(self), *final(self), tid),
            final(self).pass_of(tid) == old(self).pass_of(tid),
            final(self).priority_of(tid) == old(self).priority_of(tid),
            final(self).slice_of(tid) == (if old(self).slice_of(tid) > 0 {
                (old(self).slice_of(tid) - 1) as usize
            } else {
                0
            }),
    {
        self.expand(tid);
        let ghost mid = *self;
        proof {
            assert(self.slice_of(tid) == old(self).slice_of(tid));
        }
        let info = self.infos[tid];
        let rest = if info.rest_slice > 0 {
            info.rest_slice - 1
        } else {
            0
        };
        self.infos[tid] = StrideInfo { priority: info.priority, pass: info.pass, rest_slice: rest };
        proof {
            assert forall|u: Tid| u != tid implies #[trigger] self.pass_of(u) == old(
                self,
            ).pass_of(u) by {
                assert(mid.pass_of(u) == old(self).pass_of(u));
            }
            assert forall|u: Tid| u != tid implies #[trigger] self.priority_of(u) == old(
                self,
            ).priority_of(u) by {
                assert(mid.priority_of(u) == old(self).priority_of(u));
            }
            assert forall|u: Tid| u != tid implies #[trigger] self.slice_of(u) == old(
                self,
            ).slice_of(u) by {
                assert(mid.slice_of(u) == old(self).slice_of(u));
            }
            assert(mid.pass_of(tid) == old(self).pass_of(tid));
            assert(mid.priority_of(tid) == old(self).priority_of(tid));
        }
        rest == 0
    }

    /// Set `tid`'s priority; its pass and remaining slice are untouched, so
    /// the new weight takes effect from the next selection on.
    pub fn set_priority(&mut self, tid: Tid, priority: u8)
        requires
            old(self).wf(),
            tid < usize::MAX,
        ensures
            final(self).wf(),
            final(self).queue() == old(self).queue(),
            accounting_unchanged_except(*old(self), *final(self), tid),
            final(self).priority_of(tid) == priority,
            final(self).pass_of(tid) == old(self).pass_of(tid),
            final(self).slice_of(tid) == old(self).slice_of(tid),
    {
        self.expand(tid);
        let ghost mid = *self;
        let info = self.infos[tid];
        self.infos[tid] = StrideInfo { priority, pass: info.pass, rest_slice: info.rest_slice };
        proof {
            assert forall|u: Tid| u != tid implies #[trigger] self.pass_of(u) == old(
                self,
            ).pass_of(u) by {
                assert(mid.pass_of(u) == old(self).pass_of(u));
            }
            assert forall|u: Tid| u != tid implies #[trigger] self.priority_of(u) == old(
                self,
            ).priority_of(u) by {
                assert(mid.priority_of(u) == old(self).priority_of(u));
            }
            assert forall|u: Tid| u != tid implies #[trigger] self.slice_of(u) == old(
                self,
            ).slice_of(u) by {
                assert(mid.slice_of(u) == old(self).slice_of(u));
            }
            assert(mid.pass_of(tid) == old(self).pass_of(tid));
            assert(mid.slice_of(tid) == old(self).slice_of(tid));
        }
    }

    /// Take a still-queued thread out of the running; its accounting stays.
    pub fn remove(&mut self, tid: Tid)
        requires
            old(self).wf(),
            old(self).queue().contains(tid),
        ensures
            final(self).wf(),
            final(self).queue() == old(self).queue().remove_value(tid),
            accounting_unchanged(*old(self), *final(self)),
    {
        let mut idx: usize = 0;
        while idx < self.queue.len() && self.queue[idx] != tid
            invariant
                idx <= self.queue@.len(),
                forall|j: int| 0 <= j < idx ==> #[trigger] self.queue@[j] != tid,
            decreases self.queue@.len() - idx,
        {
            idx = idx + 1;
        }
        proof {
            old(self).queue@.index_of_first_ensures(tid);
        }
        if idx < self.queue.len() {
            self.queue.remove(idx);
        }
    }
}

/// The per-thread accounting (quantum, passes, priorities, slices) of
/// `post` agrees with `pre` everywhere.
pub open spec fn accounting_unchanged(pre: StrideScheduler, post: StrideScheduler) -> bool {
    &&& post.quantum() == pre.quantum()
    &&& forall|u: Tid| #[trigger] post.pass_of(u) == pre.pass_of(u)
    &&& forall|u: Tid| #[trigger] post.priority_of(u) == pre.priority_of(u)
    &&& forall|u: Tid| #[trigger] post.slice_of(u) == pre.slice_of(u)
}

/// The per-thread accounting of `post` agrees with `pre` everywhere but at
/// `t`.
pub open spec fn accounting_unchanged_except(
    pre: StrideScheduler,
    post: StrideScheduler,
    t: Tid,
) -> bool {
    &&& post.quantum() == pre.quantum()
    &&& forall|u: Tid| u != t ==> #[trigger] post.pass_of(u) == pre.pass_of(u)
    &&& forall|u: Tid| u != t ==> #[trigger] post.priority_of(u) == pre.priority_of(u)
    &&& forall|u: Tid| u != t ==> #[trigger] post.slice_of(u) == pre.slice_of(u)
}

impl Scheduler for StrideScheduler {
    closed spec fn queue(&self) -> Seq<Tid> {
        self.queue@
    }

    closed spec fn wf(&self) -> bool {
        &&& self.queue@.no_duplicates()
        &&& forall|i: int|
            0 <= i < self.queue@.len() ==> (#[trigger] self.queue@[i]) < self.infos@.len()
    }

    /// The first queued thread with minimal pass.
    closed spec fn next_choice(&self, cpu_id: usize) -> Option<Tid> {
        if self.queue().len() == 0 {
            None
        } else {
            Some(self.queue()[self.choice_from(0)])
        }
    }

    /// Priority of `tid`; threads the scheduler has not seen have priority 0.
    closed spec fn priority_of(&self, tid: Tid) -> u8 {
        if tid < self.infos@.len() {
            self.infos@[tid as int].priority
        } else {
            0
        }
    }

    /// Remaining time slice of `tid`.
    closed spec fn slice_of(&self, tid: Tid) -> usize {
        if tid < self.infos@.len() {
            self.infos@[tid as int].rest_slice
        } else {
            0
        }
    }

    closed spec fn quantum(&self) -> usize {
        self.max_time_slice
    }

    proof fn wf_no_duplicates(&self) {
    }

    proof fn next_choice_in_queue(&self, cpu_id: usize) {
        if self.queue@.len() > 0 {
            self.lemma_choice_from(0);
        }
    }

    fn push(&mut self, tid: Tid) {
        StrideScheduler::push(self, tid);
    }

    fn pop(&mut self, cpu_id: usize) -> (r: Option<Tid>) {
        let r = StrideScheduler::pop(self, cpu_id);
        proof {
            if r is Some {
                let t = r.unwrap();
                assert(self.priority_of(t) == old(self).priority_of(t));
            }
        }
        r
    }

    fn tick(&mut self, tid: Tid) -> (expired: bool) {
        StrideScheduler::tick(self, tid)
    }

    fn set_priority(&mut self, tid: Tid, priority: u8) {
        StrideScheduler::set_priority(self, tid, priority);
    }

    fn remove(&mut self, tid: Tid) {
        StrideScheduler::remove(self, tid);
    }
}

} // verus!
