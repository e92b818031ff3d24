//! The thread table and its lifecycle state machine.
//!
//! A `ThreadPool` owns a fixed table of thread slots, one scheduler and one
//! timer. Every lifecycle transition — spawn, run, stop, sleep, wakeup,
//! wait, exit, detach, removal — goes through it, and its contracts state
//! exactly how each operation moves the affected slot, the runnable queue
//! and the delay queue.
//!
//! The load-bearing invariants:
//! - a thread is in the scheduler's queue exactly when its status is
//!   `Ready`;
//! - a slot's saved context is absent exactly while the thread is `Running`
//!   or `Exited`;
//! - a transition requested while the thread is `Running` is staged in
//!   `status_after_stop` and committed when the thread next leaves the CPU.

use vstd::prelude::*;

use crate::context::Context;
use crate::scheduler::Scheduler;
use crate::timer::{
    insert_by_deadline, lemma_insert_by_deadline_members, lemma_remove_first_event_member,
    remove_first_event, Event, Timer,
};

verus! {

/// Thread identifier: a dense index into the thread table, stable for the
/// lifetime of the thread and reused only after its slot is released.
pub type Tid = usize;

/// Exit code recorded when a thread exits.
pub type ExitCode = usize;

/// Size in bytes of each kernel stack; stacks are aligned to their own size.
pub const STACK_SIZE: usize = 0x4000;

/// The kernel stack of a thread, described by the address of its lowest byte.
///
/// The memory itself is carved out by the embedding kernel's allocator; this
/// type records where it lies and owns that region for the thread's lifetime.
pub struct Stack {
    bottom: usize,
}

impl Stack {
    /// Lowest address of the stack region.
    pub closed spec fn base(self) -> usize {
        self.bottom
    }

    #[verifier::type_invariant]
    spec fn inv(self) -> bool {
        self.bottom + STACK_SIZE <= usize::MAX && self.bottom % STACK_SIZE == 0
    }

    /// Take ownership of the `STACK_SIZE`-byte region starting at `bottom`,
    /// which must be aligned to the stack size.
    pub fn new(bottom: usize) -> (s: Stack)
        requires
            bottom + STACK_SIZE <= usize::MAX,
            bottom % STACK_SIZE == 0,
        ensures
            s.base() == bottom,
    {
        Stack { bottom }
    }

    /// Address one past the highest byte: the initial stack pointer of a
    /// fresh thread.
    pub fn top(&self) -> (t: usize)
        ensures
            t == self.base() + STACK_SIZE,
    {
        proof {
            use_type_invariant(&*self);
        }
        self.bottom + STACK_SIZE
    }
}

/// A vector of `size` default-initialized elements.
pub fn new_vec_default<T: Default>(size: usize) -> (v: Vec<T>)
    ensures
        v@.len() == size,
        forall|i: int| 0 <= i < size ==> call_ensures(T::default, (), #[trigger] v@[i]),
{
    let mut v: Vec<T> = Vec::new();
    while v.len() < size
        invariant
            v@.len() <= size,
            forall|i: int| 0 <= i < v@.len() ==> call_ensures(T::default, (), #[trigger] v@[i]),
        decreases size - v@.len(),
    {
        v.push(T::default());
    }
    v
}

/// Lifecycle state of a thread.
#[derive(Clone, Copy, Debug, PartialEq, Eq, Structural)]
pub enum Status {
    /// Runnable: queued in the scheduler, waiting for a CPU.
    Ready,
    /// Executing on the named CPU.
    Running(usize),
    /// Off the runnable queue until woken (by the timer or explicitly).
    Sleeping,
    /// Finished with the given exit code; the context is dropped, and the
    /// slot is kept only until the code is consumed (a zombie) unless the
    /// thread was detached.
    Exited(ExitCode),
}

/// One live thread: its lifecycle state and the resources it owns.
struct Thread {
    /// Current status.
    status: Status,
    /// The status to commit the instant the thread next leaves the CPU;
    /// meaningful only while `Running`, otherwise `Ready`.
    status_after_stop: Status,
    /// Thread to wake when this one exits.
    waiter: Option<Tid>,
    /// Whether the slot is released immediately on exit instead of being
    /// kept as a zombie.
    detached: bool,
    /// Saved CPU state; absent exactly while `Running` or `Exited`.
    context: Option<Context>,
    /// The thread's kernel stack.
    stack: Stack,
}

/// The thread table: a fixed-capacity vector of optional thread slots, one
/// scheduler and one timer.
pub struct ThreadPool<S: Scheduler> {
    threads: Vec<Option<Thread>>,
    scheduler: S,
    timer: Timer,
}

impl<S: Scheduler> ThreadPool<S> {
    /// Number of slots in the table.
    pub closed spec fn capacity(self) -> int {
        self.threads@.len() as int
    }

    /// Whether slot `t` holds a live (or zombie) thread.
    pub closed spec fn slot_used(self, t: int) -> bool {
        0 <= t < self.threads@.len() && self.threads@[t] is Some
    }

    /// Status of the thread in slot `t`.
    pub closed spec fn status_of(self, t: int) -> Status {
        self.threads@[t].unwrap().status
    }

    /// Deferred status of the thread in slot `t`.
    pub closed spec fn after_stop_of(self, t: int) -> Status {
        self.threads@[t].unwrap().status_after_stop
    }

    /// Waiter registered on the thread in slot `t`.
    pub closed spec fn waiter_of(self, t: int) -> Option<Tid> {
        self.threads@[t].unwrap().waiter
    }

    /// Whether the thread in slot `t` is detached.
    pub closed spec fn detached_of(self, t: int) -> bool {
        self.threads@[t].unwrap().detached
    }

    /// Saved context of the thread in slot `t`.
    pub closed spec fn context_of(self, t: int) -> Option<Context> {
        self.threads@[t].unwrap().context
    }

    /// Base address of the stack owned by the thread in slot `t`.
    pub closed spec fn stack_base_of(self, t: int) -> usize {
        self.threads@[t].unwrap().stack.base()
    }

    /// The scheduler's runnable queue, in insertion order.
    pub closed spec fn ready_queue(self) -> Seq<Tid> {
        self.scheduler.queue()
    }

    /// The identifier the scheduler would select next for this CPU.
    pub closed spec fn next_ready(self, cpu_id: usize) -> Option<Tid> {
        self.scheduler.next_choice(cpu_id)
    }

    /// The scheduling weight of `t`, as the scheduler records it.
    pub closed spec fn priority_of(self, t: Tid) -> u8 {
        self.scheduler.priority_of(t)
    }

    /// Ticks left of `t`'s current time slice.
    pub closed spec fn slice_of(self, t: Tid) -> usize {
        self.scheduler.slice_of(t)
    }

    /// Ticks granted to a thread each time it is selected to run.
    pub closed spec fn quantum(self) -> usize {
        self.scheduler.quantum()
    }

    /// Whether one more tick exhausts `t`'s time slice.
    pub open spec fn slice_expired(self, t: Tid) -> bool {
        self.slice_of(t) <= 1
    }

    /// Current tick of the pool's timer.
    pub closed spec fn timer_time(self) -> usize {
        self.timer.time()
    }

    /// Pending timer entries, ordered by deadline.
    pub closed spec fn timer_entries(self) -> Seq<(usize, Event)> {
        self.timer.entries()
    }

    /// Some slot is free, so a spawn can be placed.
    pub open spec fn has_free_slot(self) -> bool {
        exists|t: int| 0 <= t < self.capacity() && !self.slot_used(t)
    }

    /// The saved-context rule for slot `t`: the context is out exactly while
    /// the thread runs, and dropped once it has exited.
    pub open spec fn context_ok(self, t: int) -> bool {
        self.slot_used(t) ==> (self.context_of(t) is None <==> (self.status_of(t) is Running
            || self.status_of(t) is Exited))
    }

    /// All invariants except the saved-context rule, which the exit path
    /// re-establishes after writing a context back.
    spec fn wf_core(self) -> bool {
        &&& self.threads@.len() <= usize::MAX
        &&& self.scheduler.wf()
        &&& self.timer.wf()
        &&& forall|i: int|
            0 <= i < self.ready_queue().len() ==> {
                let t = (#[trigger] self.ready_queue()[i]) as int;
                &&& t < self.capacity()
                &&& self.slot_used(t)
                &&& self.status_of(t) is Ready
            }
        &&& forall|t: int|
            #![trigger self.status_of(t)]
            0 <= t < self.capacity() && self.slot_used(t) && self.status_of(t) is Ready
                ==> self.ready_queue().contains(t as usize)
        &&& forall|t: int|
            #![trigger self.slot_used(t)]
            0 <= t < self.capacity() && self.slot_used(t) ==> {
                &&& (!(self.status_of(t) is Running) ==> self.after_stop_of(t) == Status::Ready)
                &&& !(self.after_stop_of(t) is Running)
                &&& (self.waiter_of(t) matches Some(w) ==> w < self.capacity())
            }
        &&& self.timer_events_ok()
    }

    /// Every pending timer event targets a slot of the table.
    spec fn timer_events_ok(self) -> bool {
        forall|j: int|
            0 <= j < self.timer_entries().len() ==> event_tid(
                (#[trigger] self.timer_entries()[j]).1,
            ) < self.capacity()
    }

    /// The pool's invariant: every public operation preserves it.
    pub closed spec fn wf(self) -> bool {
        &&& self.wf_core()
        &&& forall|t: int| 0 <= t < self.capacity() ==> #[trigger] self.context_ok(t)
    }

    /// A pool of `max_thread_num` empty slots around the given scheduler.
    pub fn new(scheduler: S, max_thread_num: usize) -> (pool: ThreadPool<S>)
        requires
            scheduler.wf(),
            scheduler.queue().len() == 0,
        ensures
            pool.wf(),
            pool.capacity() == max_thread_num,
            forall|t: int| 0 <= t < pool.capacity() ==> !(#[trigger] pool.slot_used(t)),
            max_thread_num > 0 ==> pool.has_free_slot(),
            pool.ready_queue() == scheduler.queue(),
            pool.timer_time() == 0,
            pool.timer_entries().len() == 0,
            forall|cpu: usize| #[trigger] pool.next_ready(cpu) == scheduler.next_choice(cpu),
            forall|u: Tid| #[trigger] pool.priority_of(u) == scheduler.priority_of(u),
            forall|u: Tid| #[trigger] pool.slice_of(u) == scheduler.slice_of(u),
            pool.quantum() == scheduler.quantum(),
    {
        let threads: Vec<Option<Thread>> = new_vec_default(max_thread_num);
        proof {
            assert(forall|t: int|
                0 <= t < threads@.len() ==> #[trigger] threads@[t] is None) by {
                assert forall|t: int| 0 <= t < threads@.len() implies #[trigger] threads@[t]
                    is None by {
                    assert(call_ensures(Option::<Thread>::default, (), threads@[t]));
                }
            }
        }
        let pool = ThreadPool { threads, scheduler, timer: Timer::new() };
        proof {
            if max_thread_num > 0 {
                assert(!pool.slot_used(0));
            }
        }
        pool
    }

    /// Lowest-index free slot.
    fn alloc_tid(&self) -> (tid: Tid)
        requires
            self.wf(),
            self.has_free_slot(),
        ensures
            0 <= tid < self.capacity(),
            !self.slot_used(tid as int),
            forall|j: int| 0 <= j < tid ==> self.slot_used(j),
    {
        let mut i: usize = 0;
        while i < self.threads.len()
            invariant
                self.has_free_slot(),
                self.capacity() == self.threads@.len(),
                i <= self.threads@.len(),
                forall|j: int| 0 <= j < i ==> self.slot_used(j),
            decreases self.threads@.len() - i,
        {
            if self.threads[i].is_none() {
                return i;
            }
            proof {
                assert(self.slot_used(i as int));
            }
            i = i + 1;
        }
        proof {
            let t = choose|t: int| 0 <= t < self.capacity() && !self.slot_used(t);
            assert(self.slot_used(t));
            assert(false);
        }
        0
    }

    /// Create a thread in the lowest free slot: `Ready`, undetached, with a
    /// fresh context that resumes at `entry(arg0)` on the stack whose lowest
    /// byte is `stack_bottom`. The new identifier joins the runnable queue.
    pub fn spawn(&mut self, entry: usize, arg0: usize, stack_bottom: usize) -> (tid: Tid)
        requires
            old(self).wf(),
            old(self).has_free_slot(),
            stack_bottom + STACK_SIZE <= usize::MAX,
            stack_bottom % STACK_SIZE == 0,
        ensures
            final(self).wf(),
            0 <= tid < old(self).capacity(),
            !old(self).slot_used(tid as int),
            forall|j: int| 0 <= j < tid ==> old(self).slot_used(j),
            final(self).slot_used(tid as int),
            final(self).status_of(tid as int) == Status::Ready,
            final(self).after_stop_of(tid as int) == Status::Ready,
            final(self).waiter_of(tid as int) == Option::<Tid>::None,
            !final(self).detached_of(tid as int),
            final(self).context_of(tid as int) == Some(
                Context { entry, arg0, stack_top: (stack_bottom + STACK_SIZE) as usize },
            ),
            final(self).stack_base_of(tid as int) == stack_bottom,
            final(self).ready_queue() == old(self).ready_queue().push(tid),
            final(self).capacity() == old(self).capacity(),
            forall|u: int| 0 <= u < old(self).capacity() && u != tid ==> slot_unchanged(
                *old(self),
                *final(self),
                u,
            ),
            final(self).timer_time() == old(self).timer_time(),
            final(self).timer_entries() == old(self).timer_entries(),
            accounting_unchanged(*old(self), *final(self)),
    {
        let tid = self.alloc_tid();
        let cap = self.threads.len();
        proof {
            assert(tid < cap);
        }
        let stack = Stack::new(stack_bottom);
        let context = Context::new(entry, arg0, stack.top());
        self.threads[tid] = Some(
            Thread {
                status: Status::Ready,
                status_after_stop: Status::Ready,
                waiter: None,
                detached: false,
                context: Some(context),
                stack,
            },
        );
        proof {
            if old(self).ready_queue().contains(tid) {
                let i = choose|i: int|
                    0 <= i < old(self).ready_queue().len() && old(self).ready_queue()[i] == tid;
                assert(old(self).slot_used(tid as int));
            }
        }
        self.scheduler.push(tid);
        proof {
            let q = self.ready_queue();
            assert forall|i: int| 0 <= i < q.len() implies {
                let t = (#[trigger] q[i]) as int;
                &&& t < self.capacity()
                &&& self.slot_used(t)
                &&& self.status_of(t) is Ready
            } by {
                if i < q.len() - 1 {
                    assert(q[i] == old(self).ready_queue()[i]);
                    assert(old(self).slot_used(q[i] as int));
                } else {
                    assert(q[i] == tid);
                }
            }
            assert forall|t: int|
                0 <= t < self.capacity() && self.slot_used(t) && #[trigger] self.status_of(t)
                    is Ready implies q.contains(t as usize) by {
                if t == tid {
                    assert(q[q.len() - 1] == tid);
                } else {
                    assert(old(self).slot_used(t) && old(self).status_of(t) is Ready);
                    let i = choose|i: int|
                        0 <= i < old(self).ready_queue().len() && old(self).ready_queue()[i] == (
                        t as usize);
                    assert(q[i] == t as usize);
                }
            }
            assert forall|t: int| 0 <= t < self.capacity() && #[trigger] self.slot_used(t) implies {
                &&& (!(self.status_of(t) is Running) ==> self.after_stop_of(t) == Status::Ready)
                &&& !(self.after_stop_of(t) is Running)
                &&& (self.waiter_of(t) matches Some(w) ==> w < self.capacity())
            } by {
                if t != tid {
                    assert(old(self).slot_used(t));
                }
            }
            assert forall|t: int| 0 <= t < self.capacity() implies #[trigger] self.context_ok(
                t,
            ) by {
                if t != tid && self.slot_used(t) {
                    assert(old(self).slot_used(t));
                    assert(old(self).context_ok(t));
                }
            }
            assert forall|j: int| 0 <= j < self.timer_entries().len() implies event_tid(
                (#[trigger] self.timer_entries()[j]).1,
            ) < self.capacity() by {
                assert(self.timer_entries()[j] == old(self).timer_entries()[j]);
            }
        }
        tid
    }
    /// Wake `tid` if it is sleeping: back to `Ready` and onto the runnable
    /// queue. On a missing slot or any other status this is a no-op, which
    /// makes redundant wakeups harmless.
    pub fn wakeup(&mut self, tid: Tid)
        requires
            old(self).wf(),
            tid < old(self).capacity(),
        ensures
            final(self).wf(),
            final(self).capacity() == old(self).capacity(),
            accounting_unchanged(*old(self), *final(self)),
            if old(self).slot_used(tid as int) && old(self).status_of(tid as int) is Sleeping {
                &&& final(self).slot_used(tid as int)
                &&& final(self).status_of(tid as int) == Status::Ready
                &&& final(self).after_stop_of(tid as int) == old(self).after_stop_of(tid as int)
                &&& final(self).waiter_of(tid as int) == old(self).waiter_of(tid as int)
                &&& final(self).detached_of(tid as int) == old(self).detached_of(tid as int)
                &&& final(self).context_of(tid as int) == old(self).context_of(tid as int)
                &&& final(self).stack_base_of(tid as int) == old(self).stack_base_of(tid as int)
                &&& final(self).ready_queue() == old(self).ready_queue().push(tid)
                &&& forall|u: int|
                    0 <= u < old(self).capacity() && u != tid ==> slot_unchanged(
                        *old(self),
                        *final(self),
                        u,
                    )
                &&& final(self).timer_time() == old(self).timer_time()
                &&& final(self).timer_entries() == old(self).timer_entries()
            } else {
                *final(self) == *old(self)
            },
    {
        let wake: bool = match &self.threads[tid] {
            Some(th) => matches!(th.status, Status::Sleeping),
            None => false,
        };
        if wake {
            let slot = self.threads[tid].take();
            match slot {
                Some(th) => {
                    self.threads[tid] = Some(
                        Thread {
                            status: Status::Ready,
                            status_after_stop: th.status_after_stop,
                            waiter: th.waiter,
                            detached: th.detached,
                            context: th.context,
                            stack: th.stack,
                        },
                    );
                },
                None => {
                    proof {
                        assert(false);
                    }
                },
            }
            proof {
                assert(old(self).slot_used(tid as int));
                if old(self).ready_queue().contains(tid) {
                    let i = choose|i: int|
                        0 <= i < old(self).ready_queue().len() && old(self).ready_queue()[i]
                            == tid;
                    assert(old(self).status_of(tid as int) is Ready);
                }
            }
            self.scheduler.push(tid);
            proof {
                assert(old(self).context_ok(tid as int));
                self.lemma_wf_one_slot_queue_push(*old(self), tid);
            }
        }
    }

    /// Re-establish the invariant after exactly slot `tid` changed and `tid`
    /// itself was appended to the runnable queue as `Ready`.
    proof fn lemma_wf_one_slot_queue_push(&self, pre: Self, tid: Tid)
        requires
            pre.wf(),
            (tid as int) < pre.capacity(),
            self.capacity() == pre.capacity(),
            self.scheduler.wf(),
            self.timer == pre.timer,
            self.ready_queue() == pre.ready_queue().push(tid),
            forall|u: int|
                0 <= u < pre.capacity() && u != tid ==> slot_unchanged(pre, *self, u),
            self.slot_used(tid as int),
            self.status_of(tid as int) is Ready,
            self.after_stop_of(tid as int) == Status::Ready,
            !(self.context_of(tid as int) is None),
            self.waiter_of(tid as int) matches Some(w) ==> w < pre.capacity(),
        ensures
            self.wf(),
    {
        let q = self.ready_queue();
        assert forall|i: int| 0 <= i < q.len() implies {
            let t = (#[trigger] q[i]) as int;
            &&& t < self.capacity()
            &&& self.slot_used(t)
            &&& self.status_of(t) is Ready
        } by {
            if i < q.len() - 1 {
                assert(q[i] == pre.ready_queue()[i]);
                let t = q[i] as int;
                assert(pre.slot_used(t) && pre.status_of(t) is Ready);
                if t != tid {
                    assert(slot_unchanged(pre, *self, t));
                }
            } else {
                assert(q[i] == tid);
            }
        }
        assert forall|t: int|
            0 <= t < self.capacity() && self.slot_used(t) && #[trigger] self.status_of(t)
                is Ready implies q.contains(t as usize) by {
            if t == tid {
                assert(q[q.len() - 1] == tid);
            } else {
                assert(slot_unchanged(pre, *self, t));
                assert(pre.slot_used(t) && pre.status_of(t) is Ready);
                let i = choose|i: int|
                    0 <= i < pre.ready_queue().len() && pre.ready_queue()[i] == (t as usize);
                assert(q[i] == t as usize);
            }
        }
        assert forall|t: int| 0 <= t < self.capacity() && #[trigger] self.slot_used(t) implies {
            &&& (!(self.status_of(t) is Running) ==> self.after_stop_of(t) == Status::Ready)
            &&& !(self.after_stop_of(t) is Running)
            &&& (self.waiter_of(t) matches Some(w) ==> w < self.capacity())
        } by {
            if t != tid {
                assert(slot_unchanged(pre, *self, t));
                assert(pre.slot_used(t));
            }
        }
        assert forall|t: int| 0 <= t < self.capacity() implies #[trigger] self.context_ok(t) by {
            if t != tid && self.slot_used(t) {
                assert(slot_unchanged(pre, *self, t));
                assert(pre.slot_used(t));
                assert(pre.context_ok(t));
            }
        }
        assert forall|j: int| 0 <= j < self.timer_entries().len() implies event_tid(
            (#[trigger] self.timer_entries()[j]).1,
        ) < self.capacity() by {
            assert(self.timer_entries()[j] == pre.timer_entries()[j]);
        }
    }

    /// `timer_events_ok` carries over when the entries and the capacity do.
    proof fn lemma_timer_events_unchanged(&self, pre: Self)
        requires
            pre.timer_events_ok(),
            self.timer_entries() == pre.timer_entries(),
            self.capacity() == pre.capacity(),
        ensures
            self.timer_events_ok(),
    {
        assert forall|j: int| 0 <= j < self.timer_entries().len() implies event_tid(
            (#[trigger] self.timer_entries()[j]).1,
        ) < self.capacity() by {
            assert(self.timer_entries()[j] == pre.timer_entries()[j]);
        }
    }

    /// Re-establish the invariant after exactly slot `tid` changed (or was
    /// freed), given membership-level agreement between the old and new
    /// runnable queues.
    proof fn lemma_wf_one_slot(&self, pre: Self, tid: Tid)
        requires
            pre.wf_except_context(tid as int),
            (tid as int) < pre.capacity(),
            self.capacity() == pre.capacity(),
            self.scheduler.wf(),
            self.timer.wf(),
            self.timer_events_ok(),
            forall|u: int|
                0 <= u < pre.capacity() && u != tid ==> slot_unchanged(pre, *self, u),
            self.slot_used(tid as int) ==> {
                &&& (!(self.status_of(tid as int) is Running) ==> self.after_stop_of(tid as int)
                    == Status::Ready)
                &&& !(self.after_stop_of(tid as int) is Running)
                &&& (self.waiter_of(tid as int) matches Some(w) ==> w < pre.capacity())
            },
            self.context_ok(tid as int),
            forall|u: Tid|
                u != tid ==> (self.ready_queue().contains(u) <==> pre.ready_queue().contains(u)),
            self.ready_queue().contains(tid) <==> (self.slot_used(tid as int) && self.status_of(
                tid as int,
            ) is Ready),
            forall|i: int|
                0 <= i < self.ready_queue().len() ==> ((#[trigger] self.ready_queue()[i]) as int)
                    < pre.capacity(),
        ensures
            self.wf(),
    {
        self.lemma_wf_one_slot_except(pre, tid);
        assert forall|t: int| 0 <= t < self.capacity() implies #[trigger] self.context_ok(t) by {
            if t != tid && self.slot_used(t) {
                assert(slot_unchanged(pre, *self, t));
                assert(pre.slot_used(t));
                assert(pre.context_ok(t));
            }
        }
    }

    /// As `lemma_wf_one_slot`, but without any claim about slot `tid`'s
    /// saved context: used on the way into the exit handler.
    proof fn lemma_wf_one_slot_except(&self, pre: Self, tid: Tid)
        requires
            pre.wf_except_context(tid as int),
            (tid as int) < pre.capacity(),
            self.capacity() == pre.capacity(),
            self.scheduler.wf(),
            self.timer.wf(),
            self.timer_events_ok(),
            forall|u: int|
                0 <= u < pre.capacity() && u != tid ==> slot_unchanged(pre, *self, u),
            self.slot_used(tid as int) ==> {
                &&& (!(self.status_of(tid as int) is Running) ==> self.after_stop_of(tid as int)
                    == Status::Ready)
                &&& !(self.after_stop_of(tid as int) is Running)
                &&& (self.waiter_of(tid as int) matches Some(w) ==> w < pre.capacity())
            },
            forall|u: Tid|
                u != tid ==> (self.ready_queue().contains(u) <==> pre.ready_queue().contains(u)),
            self.ready_queue().contains(tid) <==> (self.slot_used(tid as int) && self.status_of(
                tid as int,
            ) is Ready),
            forall|i: int|
                0 <= i < self.ready_queue().len() ==> ((#[trigger] self.ready_queue()[i]) as int)
                    < pre.capacity(),
        ensures
            self.wf_except_context(tid as int),
    {
        let q = self.ready_queue();
        assert forall|i: int| 0 <= i < q.len() implies {
            let t = (#[trigger] q[i]) as int;
            &&& t < self.capacity()
            &&& self.slot_used(t)
            &&& self.status_of(t) is Ready
        } by {
            let u = q[i];
            assert(q.contains(u));
            if u == tid {
            } else {
                assert(pre.ready_queue().contains(u));
                let k = choose|k: int|
                    0 <= k < pre.ready_queue().len() && pre.ready_queue()[k] == u;
                assert(pre.slot_used(u as int) && pre.status_of(u as int) is Ready);
                assert(slot_unchanged(pre, *self, u as int));
            }
        }
        assert forall|t: int|
            0 <= t < self.capacity() && self.slot_used(t) && #[trigger] self.status_of(t)
                is Ready implies q.contains(t as usize) by {
            if t == tid {
            } else {
                assert(slot_unchanged(pre, *self, t));
                assert(pre.slot_used(t) && pre.status_of(t) is Ready);
                assert(pre.ready_queue().contains(t as usize));
            }
        }
        assert forall|t: int| 0 <= t < self.capacity() && #[trigger] self.slot_used(t) implies {
            &&& (!(self.status_of(t) is Running) ==> self.after_stop_of(t) == Status::Ready)
            &&& !(self.after_stop_of(t) is Running)
            &&& (self.waiter_of(t) matches Some(w) ==> w < self.capacity())
        } by {
            if t != tid {
                assert(slot_unchanged(pre, *self, t));
                assert(pre.slot_used(t));
            }
        }
        assert forall|t: int| 0 <= t < self.capacity() && t != tid implies #[trigger] self
            .context_ok(t) by {
            if self.slot_used(t) {
                assert(slot_unchanged(pre, *self, t));
                assert(pre.slot_used(t));
                assert(pre.context_ok(t));
            }
        }
    }

    /// Hand the executor a thread for this CPU: the scheduler's choice is
    /// marked `Running(cpu_id)` and its saved context moves out to the
    /// caller. `None` exactly when nothing is runnable.
    pub fn run(&mut self, cpu_id: usize) -> (r: Option<(Tid, Context)>)
        requires
            old(self).wf(),
        ensures
            final(self).wf(),
            final(self).capacity() == old(self).capacity(),
            final(self).timer_time() == old(self).timer_time(),
            final(self).timer_entries() == old(self).timer_entries(),
            r is None <==> old(self).next_ready(cpu_id) is None,
            match r {
                Option::None => {
                    &&& old(self).ready_queue().len() == 0
                    &&& final(self).ready_queue() == old(self).ready_queue()
                    &&& accounting_unchanged(*old(self), *final(self))
                    &&& forall|u: int|
                        0 <= u < old(self).capacity() ==> slot_unchanged(
                            *old(self),
                            *final(self),
                            u,
                        )
                    &&& forall|t: int|
                        0 <= t < old(self).capacity() && old(self).slot_used(t) ==> !(old(
                            self,
                        ).status_of(t) is Ready)
                },
                Option::Some((tid, ctx)) => {
                    &&& old(self).next_ready(cpu_id) == Some(tid)
                    &&& (tid as int) < old(self).capacity()
                    &&& old(self).slot_used(tid as int)
                    &&& old(self).status_of(tid as int) is Ready
                    &&& Some(ctx) == old(self).context_of(tid as int)
                    &&& final(self).slot_used(tid as int)
                    &&& final(self).status_of(tid as int) == Status::Running(cpu_id)
                    &&& final(self).context_of(tid as int) is None
                    &&& final(self).after_stop_of(tid as int) == old(self).after_stop_of(
                        tid as int,
                    )
                    &&& final(self).waiter_of(tid as int) == old(self).waiter_of(tid as int)
                    &&& final(self).detached_of(tid as int) == old(self).detached_of(tid as int)
                    &&& final(self).stack_base_of(tid as int) == old(self).stack_base_of(
                        tid as int,
                    )
                    &&& final(self).ready_queue() == old(self).ready_queue().remove_value(tid)
                    &&& accounting_unchanged_except_slice(*old(self), *final(self), tid)
                    &&& final(self).slice_of(tid) == old(self).quantum()
                    &&& forall|u: int|
                        0 <= u < old(self).capacity() && u != tid ==> slot_unchanged(
                            *old(self),
                            *final(self),
                            u,
                        )
                },
            },
    {
        proof {
            old(self).scheduler.next_choice_in_queue(cpu_id);
            old(self).scheduler.wf_no_duplicates();
        }
        let picked = self.scheduler.pop(cpu_id);
        match picked {
            None => {
                proof {
                    assert forall|t: int|
                        0 <= t < old(self).capacity() && old(self).slot_used(t) implies !(old(
                        self,
                    ).status_of(t) is Ready) by {
                        if old(self).status_of(t) is Ready {
                            assert(old(self).ready_queue().contains(t as usize));
                        }
                    }
                    self.lemma_wf_same_state(*old(self));
                }
                None
            },
            Some(tid) => {
                proof {
                    let i = choose|i: int|
                        0 <= i < old(self).ready_queue().len() && old(self).ready_queue()[i]
                            == tid;
                    assert(old(self).slot_used(tid as int));
                    assert(old(self).context_ok(tid as int));
                    lemma_remove_value_membership(old(self).ready_queue(), tid);
                }
                let slot = self.threads[tid].take();
                let ctx: Context;
                match slot {
                    Some(th) => {
                        ctx = th.context.unwrap();
                        self.threads[tid] = Some(
                            Thread {
                                status: Status::Running(cpu_id),
                                status_after_stop: th.status_after_stop,
                                waiter: th.waiter,
                                detached: th.detached,
                                context: None,
                                stack: th.stack,
                            },
                        );
                    },
                    None => {
                        proof {
                            assert(false);
                        }
                        ctx = Context::uninit();
                    },
                }
                proof {
                    assert forall|i: int| 0 <= i < self.ready_queue().len() implies ((
                    #[trigger] self.ready_queue()[i]) as int) < old(self).capacity() by {
                        assert(old(self).ready_queue().contains(self.ready_queue()[i]));
                        let k = choose|k: int|
                            0 <= k < old(self).ready_queue().len() && old(self).ready_queue()[k]
                                == self.ready_queue()[i];
                    }
                    self.lemma_timer_events_unchanged(*old(self));
                    self.lemma_wf_one_slot(*old(self), tid);
                }
                Some((tid, ctx))
            },
        }
    }

    /// Mark `tid` detached: its slot is released the moment it exits instead
    /// of lingering as a zombie. A thread is detached at most once.
    pub fn detach(&mut self, tid: Tid)
        requires
            old(self).wf(),
            (tid as int) < old(self).capacity(),
            old(self).slot_used(tid as int),
            !old(self).detached_of(tid as int),
        ensures
            final(self).wf(),
            final(self).capacity() == old(self).capacity(),
            accounting_unchanged(*old(self), *final(self)),
            final(self).slot_used(tid as int),
            final(self).detached_of(tid as int),
            final(self).status_of(tid as int) == old(self).status_of(tid as int),
            final(self).after_stop_of(tid as int) == old(self).after_stop_of(tid as int),
            final(self).waiter_of(tid as int) == old(self).waiter_of(tid as int),
            final(self).context_of(tid as int) == old(self).context_of(tid as int),
            final(self).stack_base_of(tid as int) == old(self).stack_base_of(tid as int),
            final(self).ready_queue() == old(self).ready_queue(),
            final(self).timer_time() == old(self).timer_time(),
            final(self).timer_entries() == old(self).timer_entries(),
            forall|u: int|
                0 <= u < old(self).capacity() && u != tid ==> slot_unchanged(
                    *old(self),
                    *final(self),
                    u,
                ),
    {
        let slot = self.threads[tid].take();
        match slot {
            Some(th) => {
                self.threads[tid] = Some(
                    Thread {
                        status: th.status,
                        status_after_stop: th.status_after_stop,
                        waiter: th.waiter,
                        detached: true,
                        context: th.context,
                        stack: th.stack,
                    },
                );
            },
            None => {
                proof {
                    assert(false);
                }
            },
        }
        proof {
            assert(old(self).slot_used(tid as int));
            assert(old(self).context_ok(tid as int));
            self.lemma_timer_events_unchanged(*old(self));
            self.lemma_queue_same_membership(*old(self), tid);
            self.lemma_wf_one_slot(*old(self), tid);
        }
    }

    /// Consume an exited thread: if `tid` is a zombie, free its slot and
    /// return the exit code. On a live thread, or on a slot that is already
    /// empty (the code was consumed before, or a detached exit released
    /// it), report `None` and change nothing.
    pub fn try_remove(&mut self, tid: Tid) -> (r: Option<ExitCode>)
        requires
            old(self).wf(),
            (tid as int) < old(self).capacity(),
        ensures
            final(self).wf(),
            final(self).capacity() == old(self).capacity(),
            accounting_unchanged(*old(self), *final(self)),
            if old(self).slot_used(tid as int) {
                match old(self).status_of(tid as int) {
                    Status::Exited(code) => {
                        &&& r == Some(code)
                        &&& !final(self).slot_used(tid as int)
                        &&& final(self).ready_queue() == old(self).ready_queue()
                        &&& final(self).timer_time() == old(self).timer_time()
                        &&& final(self).timer_entries() == old(self).timer_entries()
                        &&& forall|u: int|
                            0 <= u < old(self).capacity() && u != tid ==> slot_unchanged(
                                *old(self),
                                *final(self),
                                u,
                            )
                    },
                    _ => {
                        &&& r == None::<ExitCode>
                        &&& *final(self) == *old(self)
                    },
                }
            } else {
                &&& r == None::<ExitCode>
                &&& *final(self) == *old(self)
            },
    {
        let code: Option<ExitCode> = match &self.threads[tid] {
            Some(th) => match th.status {
                Status::Exited(c) => Some(c),
                _ => None,
            },
            None => None,
        };
        match code {
            Some(c) => {
                self.threads[tid] = None;
                proof {
                    assert(old(self).slot_used(tid as int));
                    self.lemma_timer_events_unchanged(*old(self));
                    self.lemma_queue_same_membership(*old(self), tid);
                    self.lemma_wf_one_slot(*old(self), tid);
                }
                Some(c)
            },
            None => None,
        }
    }

    /// Withdraw a sleep that was requested while `tid` was running but has
    /// not been committed yet: a deferred `Sleeping` becomes `Ready` again.
    pub fn cancel_sleeping(&mut self, tid: Tid)
        requires
            old(self).wf(),
            (tid as int) < old(self).capacity(),
        ensures
            final(self).wf(),
            final(self).capacity() == old(self).capacity(),
            accounting_unchanged(*old(self), *final(self)),
            if old(self).slot_used(tid as int) && old(self).after_stop_of(tid as int)
                is Sleeping {
                &&& final(self).slot_used(tid as int)
                &&& final(self).after_stop_of(tid as int) == Status::Ready
                &&& final(self).status_of(tid as int) == old(self).status_of(tid as int)
                &&& final(self).waiter_of(tid as int) == old(self).waiter_of(tid as int)
                &&& final(self).detached_of(tid as int) == old(self).detached_of(tid as int)
                &&& final(self).context_of(tid as int) == old(self).context_of(tid as int)
                &&& final(self).stack_base_of(tid as int) == old(self).stack_base_of(tid as int)
                &&& final(self).ready_queue() == old(self).ready_queue()
                &&& final(self).timer_time() == old(self).timer_time()
                &&& final(self).timer_entries() == old(self).timer_entries()
                &&& forall|u: int|
                    0 <= u < old(self).capacity() && u != tid ==> slot_unchanged(
                        *old(self),
                        *final(self),
                        u,
                    )
            } else {
                *final(self) == *old(self)
            },
    {
        let pending: bool = match &self.threads[tid] {
            Some(th) => matches!(th.status_after_stop, Status::Sleeping),
            None => false,
        };
        if pending {
            let slot = self.threads[tid].take();
            match slot {
                Some(th) => {
                    self.threads[tid] = Some(
                        Thread {
                            status: th.status,
                            status_after_stop: Status::Ready,
                            waiter: th.waiter,
                            detached: th.detached,
                            context: th.context,
                            stack: th.stack,
                        },
                    );
                },
                None => {
                    proof {
                        assert(false);
                    }
                },
            }
            proof {
                assert(old(self).slot_used(tid as int));
                assert(old(self).context_ok(tid as int));
                self.lemma_timer_events_unchanged(*old(self));
                self.lemma_queue_same_membership(*old(self), tid);
                self.lemma_wf_one_slot(*old(self), tid);
            }
        }
    }

    /// All invariants hold except possibly the saved-context rule at `t`:
    /// the exit path calls this between writing a context back and dropping
    /// it.
    spec fn wf_except_context(self, t: int) -> bool {
        &&& self.wf_core()
        &&& forall|u: int| 0 <= u < self.capacity() && u != t ==> #[trigger] self.context_ok(u)
    }

    /// Finalize an exited thread: wake its waiter (if any is still
    /// sleeping), drop its context, and release the slot if it was detached.
    fn exit_handler(&mut self, tid: Tid)
        requires
            old(self).wf_except_context(tid as int),
            (tid as int) < old(self).capacity(),
            old(self).slot_used(tid as int),
            old(self).status_of(tid as int) is Exited,
        ensures
            final(self).wf(),
            final(self).capacity() == old(self).capacity(),
            timer_unchanged(*old(self), *final(self)),
            accounting_unchanged(*old(self), *final(self)),
            exit_outcome(
                *old(self),
                *final(self),
                tid,
                old(self).status_of(tid as int),
                old(self).ready_queue(),
            ),
    {
        let slot = self.threads[tid].take();
        let waiter: Option<Tid>;
        let detached: bool;
        match slot {
            Some(th) => {
                waiter = th.waiter;
                detached = th.detached;
                self.threads[tid] = Some(
                    Thread {
                        status: th.status,
                        status_after_stop: th.status_after_stop,
                        waiter: th.waiter,
                        detached: th.detached,
                        context: None,
                        stack: th.stack,
                    },
                );
            },
            None => {
                proof {
                    assert(false);
                }
                waiter = None;
                detached = false;
            },
        }
        proof {
            assert(old(self).slot_used(tid as int));
            if old(self).ready_queue().contains(tid) {
                let i = choose|i: int|
                    0 <= i < old(self).ready_queue().len() && old(self).ready_queue()[i] == tid;
                assert(old(self).status_of(tid as int) is Ready);
            }
            self.lemma_timer_events_unchanged(*old(self));
            self.lemma_queue_same_membership(*old(self), tid);
            self.lemma_wf_one_slot(*old(self), tid);
        }
        let ghost mid = *self;
        match waiter {
            Some(wt) => {
                proof {
                    assert(old(self).slot_used(tid as int));
                }
                self.wakeup(wt);
            },
            None => {},
        }
        proof {
            assert(slot_unchanged(mid, *self, tid as int)) by {
                if waiter is Some {
                    let wt = waiter.unwrap();
                    if mid.slot_used(wt as int) && mid.status_of(wt as int) is Sleeping {
                        assert((wt as int) != tid as int);
                    }
                }
            }
        }
        let ghost mid2 = *self;
        if detached {
            self.threads[tid] = None;
            proof {
                assert(mid2.slot_used(tid as int) && mid2.status_of(tid as int) is Exited);
                if mid2.ready_queue().contains(tid) {
                    let i = choose|i: int|
                        0 <= i < mid2.ready_queue().len() && mid2.ready_queue()[i] == tid;
                    assert(mid2.status_of(tid as int) is Ready);
                }
                self.lemma_timer_events_unchanged(mid2);
                self.lemma_queue_same_membership(mid2, tid);
                self.lemma_wf_one_slot(mid2, tid);
            }
        }
        proof {
            let t = tid as int;
            let pre = *old(self);
            let woke = exit_wakes(pre, t);
            assert forall|u: Tid| #[trigger] self.priority_of(u) == old(self).priority_of(u) by {
                assert(mid2.priority_of(u) == mid.priority_of(u));
            }
            assert forall|u: Tid| #[trigger] self.slice_of(u) == old(self).slice_of(u) by {
                assert(mid2.slice_of(u) == mid.slice_of(u));
            }
            assert(mid2.quantum() == mid.quantum());
            if woke {
                let w = pre.waiter_of(t).unwrap();
                assert(mid.slot_used(w as int) && mid.status_of(w as int) is Sleeping) by {
                    assert(slot_unchanged(pre, mid, w as int));
                }
            }
            assert forall|u: int|
                0 <= u < pre.capacity() && u != t && u != (if woke {
                    pre.waiter_of(t).unwrap() as int
                } else {
                    t
                }) implies slot_unchanged(pre, *self, u) by {
                assert(slot_unchanged(pre, mid, u));
                assert(slot_unchanged(mid, mid2, u));
                assert(slot_unchanged(mid2, *self, u));
            }
            if !woke && waiter is Some {
                let w = waiter.unwrap();
                assert(!(mid.slot_used(w as int) && mid.status_of(w as int) is Sleeping)) by {
                    if (w as int) != t {
                        assert(slot_unchanged(pre, mid, w as int));
                    }
                }
            }
        }
    }

    /// The invariant carries over to a state with the same table, queue and
    /// timer (the scheduler's internal bookkeeping may differ).
    proof fn lemma_wf_same_state(&self, pre: Self)
        requires
            pre.wf(),
            self.scheduler.wf(),
            self.ready_queue() == pre.ready_queue(),
            self.timer == pre.timer,
            self.threads@ == pre.threads@,
        ensures
            self.wf(),
    {
        let q = self.ready_queue();
        assert forall|i: int| 0 <= i < q.len() implies {
            let t = (#[trigger] q[i]) as int;
            &&& t < self.capacity()
            &&& self.slot_used(t)
            &&& self.status_of(t) is Ready
        } by {
            assert(pre.ready_queue()[i] == q[i]);
            assert(pre.slot_used(q[i] as int));
        }
        assert forall|t: int|
            0 <= t < self.capacity() && self.slot_used(t) && #[trigger] self.status_of(t)
                is Ready implies q.contains(t as usize) by {
            assert(pre.slot_used(t) && pre.status_of(t) is Ready);
        }
        assert forall|t: int| 0 <= t < self.capacity() && #[trigger] self.slot_used(t) implies {
            &&& (!(self.status_of(t) is Running) ==> self.after_stop_of(t) == Status::Ready)
            &&& !(self.after_stop_of(t) is Running)
            &&& (self.waiter_of(t) matches Some(w) ==> w < self.capacity())
        } by {
            assert(pre.slot_used(t));
        }
        assert forall|t: int| 0 <= t < self.capacity() implies #[trigger] self.context_ok(t) by {
            assert(pre.context_ok(t));
        }
        self.lemma_timer_events_unchanged(pre);
    }

    /// The status engine: apply one transition request to `tid` following
    /// the table of `set_status_effect`. Requests that would change an
    /// already-exited thread are a logic bug and are excluded outright.
    fn set_status(&mut self, tid: Tid, status: Status)
        requires
            old(self).wf(),
            (tid as int) < old(self).capacity(),
            !(status is Running),
            old(self).slot_used(tid as int) ==> !(old(self).status_of(tid as int) is Exited),
        ensures
            final(self).wf(),
            final(self).capacity() == old(self).capacity(),
            accounting_unchanged(*old(self), *final(self)),
            set_status_effect(*old(self), *final(self), tid, status),
    {
        let cur: Status;
        match &self.threads[tid] {
            None => {
                return ;
            },
            Some(th) => {
                cur = th.status;
            },
        }
        proof {
            assert(old(self).slot_used(tid as int));
            assert(old(self).context_ok(tid as int));
        }
        match (cur, status) {
            (Status::Ready, Status::Ready) => {
                return ;
            },
            (Status::Ready, _) => {
                proof {
                    assert(old(self).ready_queue().contains(tid));
                    old(self).scheduler.wf_no_duplicates();
                    lemma_remove_value_membership(old(self).ready_queue(), tid);
                }
                self.scheduler.remove(tid);
            },
            (Status::Sleeping, Status::Exited(_)) => {
                self.timer.stop(Event::Wakeup(tid));
            },
            (Status::Running(_), Status::Ready) => {},
            (Status::Sleeping, Status::Ready) => {
                proof {
                    if old(self).ready_queue().contains(tid) {
                        let i = choose|i: int|
                            0 <= i < old(self).ready_queue().len() && old(self).ready_queue()[i]
                                == tid;
                        assert(old(self).status_of(tid as int) is Ready);
                    }
                }
                self.scheduler.push(tid);
            },
            _ => {},
        }
        let ghost mid = *self;
        let slot = self.threads[tid].take();
        match slot {
            Some(th) => {
                if matches!(cur, Status::Running(_)) {
                    self.threads[tid] = Some(
                        Thread {
                            status: th.status,
                            status_after_stop: status,
                            waiter: th.waiter,
                            detached: th.detached,
                            context: th.context,
                            stack: th.stack,
                        },
                    );
                } else {
                    self.threads[tid] = Some(
                        Thread {
                            status,
                            status_after_stop: th.status_after_stop,
                            waiter: th.waiter,
                            detached: th.detached,
                            context: th.context,
                            stack: th.stack,
                        },
                    );
                }
            },
            None => {
                proof {
                    assert(false);
                }
            },
        }
        let ghost mid2 = *self;
        proof {
            assert forall|j: int| 0 <= j < self.timer_entries().len() implies event_tid(
                (#[trigger] self.timer_entries()[j]).1,
            ) < self.capacity() by {
                if cur is Sleeping && status is Exited {
                    lemma_remove_first_event_member(
                        old(self).timer_entries(),
                        Event::Wakeup(tid),
                        j,
                    );
                    let k = choose|k: int|
                        0 <= k < old(self).timer_entries().len() && remove_first_event(
                            old(self).timer_entries(),
                            Event::Wakeup(tid),
                        )[j] == old(self).timer_entries()[k];
                    assert(event_tid(old(self).timer_entries()[k].1) < old(self).capacity());
                } else {
                    assert(self.timer_entries()[j] == old(self).timer_entries()[j]);
                }
            }
        }
        if !matches!(cur, Status::Running(_)) && matches!(status, Status::Exited(_)) {
            proof {
                if cur is Ready {
                    assert forall|i: int|
                        0 <= i < self.ready_queue().len() implies ((
                    #[trigger] self.ready_queue()[i]) as int) < old(self).capacity() by {
                        assert(old(self).ready_queue().contains(self.ready_queue()[i]));
                        let k = choose|k: int|
                            0 <= k < old(self).ready_queue().len() && old(self).ready_queue()[k]
                                == self.ready_queue()[i];
                    }
                } else {
                    self.lemma_queue_same_membership(*old(self), tid);
                }
                self.lemma_wf_one_slot_except(*old(self), tid);
            }
            let ghost pre_handler = *self;
            self.exit_handler(tid);
            proof {
                let t = tid as int;
                assert(exit_wakes(pre_handler, t) == exit_wakes(*old(self), t)) by {
                    match old(self).waiter_of(t) {
                        Some(w) => {
                            if (w as int) != t {
                                assert(pre_handler.slot_used(w as int) == old(self).slot_used(
                                    w as int,
                                ));
                            }
                        },
                        None => {},
                    }
                }
                let ex = if exit_wakes(*old(self), t) {
                    old(self).waiter_of(t).unwrap() as int
                } else {
                    t
                };
                assert forall|u: int|
                    0 <= u < old(self).capacity() && u != t && u != ex implies slot_unchanged(
                    *old(self),
                    *self,
                    u,
                ) by {
                    assert(slot_unchanged(*old(self), pre_handler, u));
                    assert(slot_unchanged(pre_handler, *self, u));
                }
            }
        } else {
            proof {
                if cur is Running {
                    self.lemma_queue_same_membership(*old(self), tid);
                    self.lemma_wf_one_slot(*old(self), tid);
                } else if cur is Ready {
                    // requested status is Sleeping here
                    assert forall|i: int|
                        0 <= i < self.ready_queue().len() implies ((
                    #[trigger] self.ready_queue()[i]) as int) < old(self).capacity() by {
                        assert(old(self).ready_queue().contains(self.ready_queue()[i]));
                        let k = choose|k: int|
                            0 <= k < old(self).ready_queue().len() && old(self).ready_queue()[k]
                                == self.ready_queue()[i];
                    }
                    self.lemma_wf_one_slot(*old(self), tid);
                } else if status is Ready {
                    // sleeping thread woken
                    self.lemma_wf_one_slot_queue_push(*old(self), tid);
                } else {
                    // sleeping to sleeping: nothing observable moved
                    assert(self.threads@ =~= old(self).threads@);
                    self.lemma_wf_same_state(*old(self));
                }
            }
        }
    }

    /// Give the context of a thread that left the CPU back and commit its
    /// deferred transition: back to the runnable queue, to sleep, or through
    /// the exit handler.
    pub fn stop(&mut self, tid: Tid, context: Context)
        requires
            old(self).wf(),
            (tid as int) < old(self).capacity(),
            old(self).slot_used(tid as int),
            old(self).status_of(tid as int) is Running,
        ensures
            final(self).wf(),
            final(self).capacity() == old(self).capacity(),
            accounting_unchanged(*old(self), *final(self)),
            ({
                let t = tid as int;
                match old(self).after_stop_of(t) {
                    Status::Ready => {
                        &&& timer_unchanged(*old(self), *final(self))
                        &&& final(self).ready_queue() == old(self).ready_queue().push(tid)
                        &&& final(self).slot_used(t)
                        &&& final(self).status_of(t) == Status::Ready
                        &&& final(self).after_stop_of(t) == Status::Ready
                        &&& final(self).context_of(t) == Some(context)
                        &&& final(self).waiter_of(t) == old(self).waiter_of(t)
                        &&& final(self).detached_of(t) == old(self).detached_of(t)
                        &&& final(self).stack_base_of(t) == old(self).stack_base_of(t)
                        &&& slots_unchanged_except(*old(self), *final(self), t)
                    },
                    Status::Sleeping => {
                        &&& queue_timer_unchanged(*old(self), *final(self))
                        &&& final(self).slot_used(t)
                        &&& final(self).status_of(t) == Status::Sleeping
                        &&& final(self).after_stop_of(t) == Status::Ready
                        &&& final(self).context_of(t) == Some(context)
                        &&& final(self).waiter_of(t) == old(self).waiter_of(t)
                        &&& final(self).detached_of(t) == old(self).detached_of(t)
                        &&& final(self).stack_base_of(t) == old(self).stack_base_of(t)
                        &&& slots_unchanged_except(*old(self), *final(self), t)
                    },
                    Status::Exited(_) => {
                        &&& timer_unchanged(*old(self), *final(self))
                        &&& exit_outcome(
                            *old(self),
                            *final(self),
                            tid,
                            old(self).after_stop_of(t),
                            old(self).ready_queue(),
                        )
                    },
                    Status::Running(_) => true,
                }
            }),
    {
        proof {
            assert(old(self).slot_used(tid as int));
            assert(old(self).context_ok(tid as int));
            if old(self).ready_queue().contains(tid) {
                let i = choose|i: int|
                    0 <= i < old(self).ready_queue().len() && old(self).ready_queue()[i] == tid;
                assert(old(self).status_of(tid as int) is Ready);
            }
        }
        let slot = self.threads[tid].take();
        let sas: Status;
        match slot {
            Some(th) => {
                sas = th.status_after_stop;
                self.threads[tid] = Some(
                    Thread {
                        status: th.status_after_stop,
                        status_after_stop: Status::Ready,
                        waiter: th.waiter,
                        detached: th.detached,
                        context: Some(context),
                        stack: th.stack,
                    },
                );
            },
            None => {
                proof {
                    assert(false);
                }
                sas = Status::Ready;
            },
        }
        proof {
            self.lemma_timer_events_unchanged(*old(self));
        }
        match sas {
            Status::Ready => {
                self.scheduler.push(tid);
                proof {
                    self.lemma_wf_one_slot_queue_push(*old(self), tid);
                }
            },
            Status::Sleeping => {
                proof {
                    self.lemma_queue_same_membership(*old(self), tid);
                    self.lemma_wf_one_slot(*old(self), tid);
                }
            },
            Status::Exited(_) => {
                proof {
                    self.lemma_queue_same_membership(*old(self), tid);
                    self.lemma_wf_one_slot_except(*old(self), tid);
                }
                let ghost pre_handler = *self;
                self.exit_handler(tid);
                proof {
                    let t = tid as int;
                    assert(exit_wakes(pre_handler, t) == exit_wakes(*old(self), t)) by {
                        match old(self).waiter_of(t) {
                            Some(w) => {
                                if (w as int) != t {
                                    assert(pre_handler.slot_used(w as int) == old(self).slot_used(
                                        w as int,
                                    ));
                                }
                            },
                            None => {},
                        }
                    }
                    let ex = if exit_wakes(*old(self), t) {
                        old(self).waiter_of(t).unwrap() as int
                    } else {
                        t
                    };
                    assert forall|u: int|
                        0 <= u < old(self).capacity() && u != t && u != ex implies slot_unchanged(
                        *old(self),
                        *self,
                        u,
                    ) by {
                        assert(slot_unchanged(*old(self), pre_handler, u));
                        assert(slot_unchanged(pre_handler, *self, u));
                    }
                }
            },
            Status::Running(_) => {
                proof {
                    assert(false);
                }
            },
        }
    }

    /// Request that `tid` exit with the given code. A running thread's exit
    /// is deferred until it leaves the CPU; otherwise the exit handler runs
    /// at once.
    pub fn exit(&mut self, tid: Tid, code: ExitCode)
        requires
            old(self).wf(),
            (tid as int) < old(self).capacity(),
            old(self).slot_used(tid as int) ==> !(old(self).status_of(tid as int) is Exited),
        ensures
            final(self).wf(),
            accounting_unchanged(*old(self), *final(self)),
            set_status_effect(*old(self), *final(self), tid, Status::Exited(code)),
    {
        self.set_status(tid, Status::Exited(code));
    }

    /// Put `tid` to sleep for `time` ticks; `time == 0` means sleep until
    /// explicitly woken, recording no timer entry.
    pub fn sleep(&mut self, tid: Tid, time: usize)
        requires
            old(self).wf(),
            (tid as int) < old(self).capacity(),
            old(self).slot_used(tid as int) ==> !(old(self).status_of(tid as int) is Exited),
            time != 0 ==> old(self).timer_time() + time <= usize::MAX,
        ensures
            final(self).wf(),
            final(self).capacity() == old(self).capacity(),
            accounting_unchanged(*old(self), *final(self)),
            sleep_applied(*old(self), *final(self), tid),
            old(self).slot_used(tid as int) ==> final(self).waiter_of(tid as int) == old(
                self,
            ).waiter_of(tid as int),
            slots_unchanged_except(*old(self), *final(self), tid as int),
            final(self).timer_time() == old(self).timer_time(),
            final(self).timer_entries() == if time == 0 {
                old(self).timer_entries()
            } else {
                insert_by_deadline(
                    old(self).timer_entries(),
                    (old(self).timer_time() + time) as usize,
                    Event::Wakeup(tid),
                )
            },
    {
        self.set_status(tid, Status::Sleeping);
        let ghost mid = *self;
        proof {
            if !old(self).slot_used(tid as int) || old(self).status_of(tid as int) is Sleeping {
                assert(slot_unchanged(*old(self), mid, tid as int));
            }
            assert(sleep_applied(*old(self), mid, tid));
        }
        if time != 0 {
            self.timer.start(time, Event::Wakeup(tid));
            proof {
                assert forall|j: int| 0 <= j < self.timer_entries().len() implies event_tid(
                    (#[trigger] self.timer_entries()[j]).1,
                ) < self.capacity() by {
                    lemma_insert_by_deadline_members(
                        mid.timer_entries(),
                        (mid.timer_time() + time) as usize,
                        Event::Wakeup(tid),
                        j,
                    );
                    if self.timer_entries()[j] != ((mid.timer_time() + time) as usize, Event::Wakeup(
                        tid,
                    )) {
                        let k = choose|k: int|
                            0 <= k < mid.timer_entries().len() && insert_by_deadline(
                                mid.timer_entries(),
                                (mid.timer_time() + time) as usize,
                                Event::Wakeup(tid),
                            )[j] == mid.timer_entries()[k];
                        assert(event_tid(mid.timer_entries()[k].1) < mid.capacity());
                    }
                }
                self.lemma_wf_timer_change(mid);
                assert forall|u: int|
                    0 <= u < old(self).capacity() && u != tid implies slot_unchanged(
                    *old(self),
                    *self,
                    u,
                ) by {
                    assert(slot_unchanged(*old(self), mid, u));
                }
                assert forall|u: Tid| #[trigger] self.priority_of(u) == old(
                    self,
                ).priority_of(u) by {
                    assert(mid.priority_of(u) == old(self).priority_of(u));
                }
                assert forall|u: Tid| #[trigger] self.slice_of(u) == old(self).slice_of(u) by {
                    assert(mid.slice_of(u) == old(self).slice_of(u));
                }
            }
        }
    }

    /// Let `tid` wait for `target`'s exit: `tid` goes to sleep and is
    /// registered as `target`'s waiter, to be woken by the exit handler. The
    /// caller checks first that `target` has not already exited, and a
    /// waiter is registered at most once.
    pub fn wait(&mut self, tid: Tid, target: Tid)
        requires
            old(self).wf(),
            (tid as int) < old(self).capacity(),
            (target as int) < old(self).capacity(),
            old(self).slot_used(target as int),
            !(old(self).status_of(target as int) is Exited),
            old(self).waiter_of(target as int) is None,
            old(self).slot_used(tid as int) ==> !(old(self).status_of(tid as int) is Exited),
        ensures
            final(self).wf(),
            final(self).capacity() == old(self).capacity(),
            timer_unchanged(*old(self), *final(self)),
            accounting_unchanged(*old(self), *final(self)),
            sleep_applied(*old(self), *final(self), tid),
            final(self).slot_used(target as int),
            final(self).waiter_of(target as int) == Some(tid),
            slots_unchanged_except2(*old(self), *final(self), tid as int, target as int),
            tid != target ==> {
                &&& final(self).status_of(target as int) == old(self).status_of(target as int)
                &&& final(self).after_stop_of(target as int) == old(self).after_stop_of(
                    target as int,
                )
                &&& final(self).detached_of(target as int) == old(self).detached_of(target as int)
                &&& final(self).context_of(target as int) == old(self).context_of(target as int)
                &&& final(self).stack_base_of(target as int) == old(self).stack_base_of(
                    target as int,
                )
                &&& (old(self).slot_used(tid as int) ==> final(self).waiter_of(tid as int) == old(
                    self,
                ).waiter_of(tid as int))
            },
    {
        self.set_status(tid, Status::Sleeping);
        let ghost mid = *self;
        proof {
            assert(sleep_applied(*old(self), mid, tid)) by {
                if !old(self).slot_used(tid as int) || old(self).status_of(tid as int)
                    is Sleeping {
                    assert(slot_unchanged(*old(self), mid, tid as int));
                }
            }
            assert(mid.slot_used(target as int)) by {
                if tid != target {
                    assert(slot_unchanged(*old(self), mid, target as int));
                }
            }
        }
        let slot = self.threads[target].take();
        match slot {
            Some(th) => {
                self.threads[target] = Some(
                    Thread {
                        status: th.status,
                        status_after_stop: th.status_after_stop,
                        waiter: Some(tid),
                        detached: th.detached,
                        context: th.context,
                        stack: th.stack,
                    },
                );
            },
            None => {
                proof {
                    if tid != target {
                        assert(slot_unchanged(*old(self), mid, target as int));
                    }
                    assert(false);
                }
            },
        }
        proof {
            assert(mid.slot_used(target as int)) by {
                if tid != target {
                    assert(slot_unchanged(*old(self), mid, target as int));
                }
            }
            assert(mid.context_ok(target as int));
            self.lemma_timer_events_unchanged(mid);
            self.lemma_queue_same_membership(mid, target);
            self.lemma_wf_one_slot(mid, target);
            if tid != target {
                assert(slot_unchanged(*old(self), mid, target as int));
                if old(self).slot_used(tid as int) && old(self).status_of(tid as int)
                    is Sleeping {
                    assert(slot_unchanged(*old(self), mid, tid as int));
                }
            }
            assert(sleep_applied(*old(self), *self, tid)) by {
                if !old(self).slot_used(tid as int) || old(self).status_of(tid as int)
                    is Sleeping {
                    assert(slot_unchanged(*old(self), mid, tid as int));
                }
            }
            assert forall|u: int|
                0 <= u < old(self).capacity() && u != tid && u != target implies slot_unchanged(
                *old(self),
                *self,
                u,
            ) by {
                assert(slot_unchanged(*old(self), mid, u));
                assert(slot_unchanged(mid, *self, u));
            }
            assert forall|u: Tid| #[trigger] self.priority_of(u) == old(
                self,
            ).priority_of(u) by {
                assert(mid.priority_of(u) == old(self).priority_of(u));
            }
            assert forall|u: Tid| #[trigger] self.slice_of(u) == old(self).slice_of(u) by {
                assert(mid.slice_of(u) == old(self).slice_of(u));
            }
        }
    }

    /// One timer tick, delivered from the interrupt handler of `cpu_id`.
    /// CPU 0 drives the timer: the clock advances and every wakeup that has
    /// come due is delivered, in deadline order. Then the running thread's
    /// time slice (if any) is counted down; the result says whether that
    /// thread should yield.
    ///
    /// A due wakeup must not target a zombie: exits purge their own pending
    /// wakeups, and a consumed slot is empty, but a thread that was woken
    /// early and then exited leaves a stale entry behind, which the caller
    /// must not let come due against the kept slot.
    pub fn tick(&mut self, cpu_id: usize, tid: Option<Tid>) -> (reschedule: bool)
        requires
            old(self).wf(),
            tid matches Some(t) ==> (t as int) < old(self).capacity(),
            cpu_id == 0 ==> old(self).timer_time() < usize::MAX,
            cpu_id == 0 ==> forall|j: int|
                0 <= j < old(self).timer_entries().len() && (#[trigger] old(
                    self,
                ).timer_entries()[j]).0 <= old(self).timer_time() + 1 ==> !(old(self).slot_used(
                    event_tid(old(self).timer_entries()[j].1) as int,
                ) && old(self).status_of(event_tid(old(self).timer_entries()[j].1) as int)
                    is Exited),
        ensures
            final(self).wf(),
            final(self).capacity() == old(self).capacity(),
            reschedule == (tid matches Some(t) && old(self).slice_expired(t)),
            final(self).quantum() == old(self).quantum(),
            forall|u: Tid| #[trigger] final(self).priority_of(u) == old(self).priority_of(u),
            tid is None ==> forall|u: Tid|
                #[trigger] final(self).slice_of(u) == old(self).slice_of(u),
            tid matches Some(t) ==> {
                &&& final(self).slice_of(t) == (if old(self).slice_of(t) > 0 {
                    (old(self).slice_of(t) - 1) as usize
                } else {
                    0
                })
                &&& forall|u: Tid|
                    u != t ==> #[trigger] final(self).slice_of(u) == old(self).slice_of(u)
            },
            cpu_id != 0 ==> queue_timer_unchanged(*old(self), *final(self))
                && slots_unchanged_except2(*old(self), *final(self), -1, -1),
            cpu_id == 0 ==> ({
                let all = old(self).timer_entries();
                let now1 = (old(self).timer_time() + 1) as usize;
                let due = all.take(due_count(all, now1));
                &&& final(self).timer_time() == now1
                &&& final(self).timer_entries() == all.skip(due_count(all, now1))
                &&& final(self).ready_queue() == old(self).ready_queue() + woken_tids(
                    *old(self),
                    due,
                )
                &&& wakeups_applied(*old(self), *final(self), due)
            }),
    {
        if cpu_id == 0 {
            self.timer.tick();
            proof {
                self.lemma_timer_events_unchanged(*old(self));
                self.lemma_wf_timer_change(*old(self));
            }
            let ghost base = *self;
            let ghost all = base.timer_entries();
            let ghost now1 = base.timer_time();
            let ghost due_total = due_count(all, now1);
            let ghost mut k: int = 0;
            proof {
                lemma_due_count(all, now1);
                assert(all.take(0) =~= Seq::<(usize, Event)>::empty());
                assert(self.ready_queue() =~= base.ready_queue() + woken_tids(base, all.take(0)));
                assert(all.skip(0) =~= all);
                assert forall|j: int|
                    0 <= j < all.len() && (#[trigger] all[j]).0 <= now1 implies !(base.slot_used(
                    event_tid(all[j].1) as int,
                ) && base.status_of(event_tid(all[j].1) as int) is Exited) by {
                    assert(all[j] == old(self).timer_entries()[j]);
                }
            }
            loop
                invariant
                    self.wf(),
                    0 <= k <= due_total,
                    due_total == due_count(all, now1),
                    due_total <= all.len(),
                    forall|j: int| 0 <= j < due_total ==> (#[trigger] all[j]).0 <= now1,
                    due_total < all.len() ==> all[due_total].0 > now1,
                    forall|j: int|
                        0 <= j < all.len() ==> event_tid((#[trigger] all[j]).1) < base.capacity(),
                    forall|j: int|
                        0 <= j < all.len() && (#[trigger] all[j]).0 <= now1 ==> !(base.slot_used(
                            event_tid(all[j].1) as int,
                        ) && base.status_of(event_tid(all[j].1) as int) is Exited),
                    self.capacity() == base.capacity(),
                    self.timer_time() == now1,
                    self.timer_entries() == all.skip(k),
                    self.ready_queue() == base.ready_queue() + woken_tids(base, all.take(k)),
                    wakeups_applied(base, *self, all.take(k)),
                    self.quantum() == base.quantum(),
                    forall|u: Tid| #[trigger] self.priority_of(u) == base.priority_of(u),
                    forall|u: Tid| #[trigger] self.slice_of(u) == base.slice_of(u),
                ensures
                    self.wf(),
                    self.capacity() == base.capacity(),
                    self.timer_time() == now1,
                    self.timer_entries() == all.skip(due_total),
                    self.ready_queue() == base.ready_queue() + woken_tids(
                        base,
                        all.take(due_total),
                    ),
                    wakeups_applied(base, *self, all.take(due_total)),
                    self.quantum() == base.quantum(),
                    forall|u: Tid| #[trigger] self.priority_of(u) == base.priority_of(u),
                    forall|u: Tid| #[trigger] self.slice_of(u) == base.slice_of(u),
                decreases all.len() - k,
            {
                let ghost s_k = *self;
                let e = self.timer.pop();
                match e {
                    None => {
                        proof {
                            if k < due_total {
                                assert(s_k.timer_entries()[0] == all[k]);
                                assert(all[k].0 <= now1);
                            }
                            assert(k == due_total);
                            self.lemma_timer_events_unchanged(s_k);
                            self.lemma_wf_timer_change(s_k);
                            lemma_wakeups_applied_same(base, s_k, *self, all.take(k));
                            assert forall|u: Tid| #[trigger] self.priority_of(u)
                                == base.priority_of(u) by {
                                assert(s_k.priority_of(u) == base.priority_of(u));
                            }
                            assert forall|u: Tid| #[trigger] self.slice_of(u) == base.slice_of(
                                u,
                            ) by {
                                assert(s_k.slice_of(u) == base.slice_of(u));
                            }
                        }
                        break ;
                    },
                    Some(ev) => {
                        proof {
                            assert(s_k.timer_entries()[0] == all[k]);
                            assert(all[k].0 <= now1);
                            if k == due_total {
                                assert(all[due_total].0 > now1);
                            }
                            assert(k < due_total);
                        }
                        let t = match ev {
                            Event::Wakeup(wt) => wt,
                        };
                        let ghost pre_set = *self;
                        proof {
                            assert(ev == all[k].1);
                            assert((t as int) < base.capacity());
                            assert(s_k.slot_used(t as int) == base.slot_used(t as int));
                            assert(!(base.slot_used(t as int) && base.status_of(t as int)
                                is Exited));
                            assert forall|j: int|
                                0 <= j < self.timer_entries().len() implies event_tid(
                                (#[trigger] self.timer_entries()[j]).1,
                            ) < self.capacity() by {
                                assert(self.timer_entries()[j] == all[k + 1 + j]);
                            }
                            self.lemma_wf_timer_change(s_k);
                        }
                        self.set_status(t, Status::Ready);
                        proof {
                            let due_k = all.take(k);
                            let due_k1 = all.take(k + 1);
                            assert(due_k1 =~= due_k.push(all[k]));
                            lemma_wake_step(base, due_k, all[k]);
                            lemma_woken_tids(base, due_k);
                            let w_k = woken_tids(base, due_k);
                            let w_k1 = woken_tids(base, due_k1);
                            assert(self.timer_entries() =~= all.skip(k + 1)) by {
                                assert(pre_set.timer_entries() =~= all.skip(k).drop_first());
                            }
                            let tt = t as int;
                            if base.slot_used(tt) && base.status_of(tt) is Sleeping && !targeted(
                                due_k,
                                tt,
                            ) {
                                // first due wakeup for a sleeper: it joins the queue
                                assert(pre_set.status_of(tt) is Sleeping);
                                assert(!w_k.contains(t));
                                assert(w_k1 == w_k.push(t));
                                assert(self.ready_queue() =~= base.ready_queue() + w_k1) by {
                                    assert(self.ready_queue() == pre_set.ready_queue().push(t));
                                }
                            } else {
                                // the target is already awake, running, or the slot is gone
                                assert(w_k1 == w_k);
                                if base.slot_used(tt) {
                                    if base.status_of(tt) is Sleeping {
                                        assert(w_k.contains(t));
                                        assert(pre_set.status_of(tt) is Ready);
                                    }
                                }
                                assert(self.ready_queue() == pre_set.ready_queue());
                                assert(self.ready_queue() == base.ready_queue() + w_k1);
                            }
                            assert forall|u: int| #![trigger self.slot_used(u)]
                                0 <= u < base.capacity() implies {
                                &&& self.slot_used(u) == base.slot_used(u)
                                &&& (base.slot_used(u) ==> {
                                    &&& self.waiter_of(u) == base.waiter_of(u)
                                    &&& self.detached_of(u) == base.detached_of(u)
                                    &&& self.context_of(u) == base.context_of(u)
                                    &&& self.stack_base_of(u) == base.stack_base_of(u)
                                    &&& self.status_of(u) == (if targeted(due_k1, u)
                                        && base.status_of(u) is Sleeping {
                                        Status::Ready
                                    } else {
                                        base.status_of(u)
                                    })
                                    &&& self.after_stop_of(u) == (if targeted(due_k1, u)
                                        && base.status_of(u) is Running {
                                        Status::Ready
                                    } else {
                                        base.after_stop_of(u)
                                    })
                                })
                            } by {
                                assert(s_k.slot_used(u) == base.slot_used(u));
                                assert(pre_set.slot_used(u) == s_k.slot_used(u));
                                assert(targeted(due_k1, u) == targeted(due_k.push(all[k]), u));
                                if u != tt {
                                    assert(slot_unchanged(pre_set, *self, u));
                                } else {
                                    assert(targeted(due_k.push(all[k]), u));
                                    if base.slot_used(tt) {
                                        if base.status_of(tt) is Sleeping {
                                            if targeted(due_k, tt) {
                                                assert(slot_unchanged(pre_set, *self, tt));
                                            }
                                        } else if !(base.status_of(tt) is Running) {
                                            assert(slot_unchanged(pre_set, *self, tt));
                                        }
                                    } else {
                                        assert(slot_unchanged(pre_set, *self, tt));
                                    }
                                }
                            }
                            assert forall|u: Tid| #[trigger] self.priority_of(u)
                                == base.priority_of(u) by {
                                assert(self.priority_of(u) == pre_set.priority_of(u));
                                assert(pre_set.priority_of(u) == s_k.priority_of(u));
                            }
                            assert forall|u: Tid| #[trigger] self.slice_of(u) == base.slice_of(
                                u,
                            ) by {
                                assert(self.slice_of(u) == pre_set.slice_of(u));
                                assert(pre_set.slice_of(u) == s_k.slice_of(u));
                            }
                            k = k + 1;
                        }
                    },
                }
            }
            proof {
                let pre = *old(self);
                assert forall|t: int| #[trigger] base.slot_used(t) == pre.slot_used(t) by {}
                assert forall|t: int|
                    base.slot_used(t) implies #[trigger] base.status_of(t) == pre.status_of(
                    t,
                ) by {}
                lemma_woken_tids_congruent(base, pre, all.take(due_total));
                assert forall|u: int| #![trigger self.slot_used(u)]
                    0 <= u < pre.capacity() implies {
                    &&& self.slot_used(u) == pre.slot_used(u)
                    &&& (pre.slot_used(u) ==> {
                        &&& self.waiter_of(u) == pre.waiter_of(u)
                        &&& self.detached_of(u) == pre.detached_of(u)
                        &&& self.context_of(u) == pre.context_of(u)
                        &&& self.stack_base_of(u) == pre.stack_base_of(u)
                        &&& self.status_of(u) == (if targeted(all.take(due_total), u)
                            && pre.status_of(u) is Sleeping {
                            Status::Ready
                        } else {
                            pre.status_of(u)
                        })
                        &&& self.after_stop_of(u) == (if targeted(all.take(due_total), u)
                            && pre.status_of(u) is Running {
                            Status::Ready
                        } else {
                            pre.after_stop_of(u)
                        })
                    })
                } by {
                    assert(base.slot_used(u) == pre.slot_used(u));
                    assert(self.slot_used(u) == base.slot_used(u));
                    if pre.slot_used(u) {
                        assert(base.status_of(u) == pre.status_of(u));
                        assert(base.after_stop_of(u) == pre.after_stop_of(u));
                        assert(base.waiter_of(u) == pre.waiter_of(u));
                        assert(base.detached_of(u) == pre.detached_of(u));
                        assert(base.context_of(u) == pre.context_of(u));
                        assert(base.stack_base_of(u) == pre.stack_base_of(u));
                    }
                }
                assert forall|u: Tid| #[trigger] self.priority_of(u) == old(
                    self,
                ).priority_of(u) by {
                    assert(self.priority_of(u) == base.priority_of(u));
                }
                assert forall|u: Tid| #[trigger] self.slice_of(u) == old(self).slice_of(u) by {
                    assert(self.slice_of(u) == base.slice_of(u));
                }
            }
        }
        let ghost drained = *self;
        let ghost due0 = old(self).timer_entries().take(
            due_count(old(self).timer_entries(), (old(self).timer_time() + 1) as usize),
        );
        match tid {
            Some(t) => {
                proof {
                    assert((t as int) < drained.capacity());
                    assert(drained.slice_of(t) == old(self).slice_of(t));
                }
                let r = self.scheduler.tick(t);
                proof {
                    self.lemma_wf_same_state(drained);
                    assert forall|u: Tid| #[trigger] self.priority_of(u) == old(
                        self,
                    ).priority_of(u) by {
                        assert(drained.priority_of(u) == old(self).priority_of(u));
                    }
                    assert forall|u: Tid| u != t implies #[trigger] self.slice_of(u) == old(
                        self,
                    ).slice_of(u) by {
                        assert(drained.slice_of(u) == old(self).slice_of(u));
                    }
                    if cpu_id == 0 {
                        lemma_wakeups_applied_same(*old(self), drained, *self, due0);
                    } else {
                        assert forall|u: int|
                            0 <= u < old(self).capacity() && u != -1 && u != -1 implies
                            #[trigger] slot_unchanged(*old(self), *self, u) by {
                            assert(slot_unchanged(*old(self), drained, u));
                        }
                    }
                }
                r
            },
            None => false,
        }
    }

    /// Adjust `tid`'s scheduling weight.
    pub fn set_priority(&mut self, tid: Tid, priority: u8)
        requires
            old(self).wf(),
            (tid as int) < old(self).capacity(),
        ensures
            final(self).wf(),
            final(self).capacity() == old(self).capacity(),
            queue_timer_unchanged(*old(self), *final(self)),
            slots_unchanged_except2(*old(self), *final(self), -1, -1),
            final(self).priority_of(tid) == priority,
            forall|u: Tid|
                u != tid ==> #[trigger] final(self).priority_of(u) == old(self).priority_of(u),
            final(self).quantum() == old(self).quantum(),
            forall|u: Tid| #[trigger] final(self).slice_of(u) == old(self).slice_of(u),
    {
        self.scheduler.set_priority(tid, priority);
        proof {
            self.lemma_wf_same_state(*old(self));
        }
    }

    /// A thread stands in the scheduler's runnable queue exactly when its
    /// status is `Ready`.
    pub proof fn lemma_ready_iff_queued(&self, t: int)
        requires
            self.wf(),
            0 <= t < self.capacity(),
        ensures
            self.ready_queue().contains(t as usize) <==> (self.slot_used(t) && self.status_of(t)
                is Ready),
    {
        if self.ready_queue().contains(t as usize) {
            let i = choose|i: int|
                0 <= i < self.ready_queue().len() && self.ready_queue()[i] == (t as usize);
            assert(self.slot_used(t));
        }
        if self.slot_used(t) && self.status_of(t) is Ready {
            assert(self.ready_queue().contains(t as usize));
        }
    }

    /// The saved context is out of a live slot exactly while the thread
    /// occupies a CPU or has exited (an exited thread's context is dropped).
    pub proof fn lemma_context_absent_iff(&self, t: int)
        requires
            self.wf(),
            0 <= t < self.capacity(),
            self.slot_used(t),
        ensures
            self.context_of(t) is None <==> (self.status_of(t) is Running || self.status_of(t)
                is Exited),
    {
        assert(self.context_ok(t));
    }

    /// A transition is deferred only while the thread is on a CPU: off the
    /// CPU, `status_after_stop` always reads `Ready`.
    pub proof fn lemma_deferred_only_while_running(&self, t: int)
        requires
            self.wf(),
            0 <= t < self.capacity(),
            self.slot_used(t),
        ensures
            !(self.status_of(t) is Running) ==> self.after_stop_of(t) == Status::Ready,
    {
        assert(self.slot_used(t));
    }

    /// The invariant carries over when only the timer moved, as long as its
    /// entries still target slots of the table.
    proof fn lemma_wf_timer_change(&self, pre: Self)
        requires
            pre.wf(),
            self.threads@ == pre.threads@,
            self.scheduler == pre.scheduler,
            self.timer.wf(),
            self.timer_events_ok(),
        ensures
            self.wf(),
    {
        let q = self.ready_queue();
        assert forall|i: int| 0 <= i < q.len() implies {
            let t = (#[trigger] q[i]) as int;
            &&& t < self.capacity()
            &&& self.slot_used(t)
            &&& self.status_of(t) is Ready
        } by {
            assert(pre.ready_queue()[i] == q[i]);
            assert(pre.slot_used(q[i] as int));
        }
        assert forall|t: int|
            0 <= t < self.capacity() && self.slot_used(t) && #[trigger] self.status_of(t)
                is Ready implies q.contains(t as usize) by {
            assert(pre.slot_used(t) && pre.status_of(t) is Ready);
        }
        assert forall|t: int| 0 <= t < self.capacity() && #[trigger] self.slot_used(t) implies {
            &&& (!(self.status_of(t) is Running) ==> self.after_stop_of(t) == Status::Ready)
            &&& !(self.after_stop_of(t) is Running)
            &&& (self.waiter_of(t) matches Some(w) ==> w < self.capacity())
        } by {
            assert(pre.slot_used(t));
        }
        assert forall|t: int| 0 <= t < self.capacity() implies #[trigger] self.context_ok(t) by {
            assert(pre.context_ok(t));
        }
    }

    /// When the queue is unchanged and slot `tid`'s readiness is unchanged,
    /// the membership conditions of `lemma_wf_one_slot` follow from the old
    /// invariant.
    proof fn lemma_queue_same_membership(&self, pre: Self, tid: Tid)
        requires
            pre.wf_core(),
            self.ready_queue() == pre.ready_queue(),
            self.capacity() == pre.capacity(),
            (self.slot_used(tid as int) && self.status_of(tid as int) is Ready) <==> (
            pre.slot_used(tid as int) && pre.status_of(tid as int) is Ready),
        ensures
            forall|u: Tid|
                u != tid ==> (self.ready_queue().contains(u) <==> pre.ready_queue().contains(u)),
            self.ready_queue().contains(tid) <==> (self.slot_used(tid as int) && self.status_of(
                tid as int,
            ) is Ready),
            forall|i: int|
                0 <= i < self.ready_queue().len() ==> ((#[trigger] self.ready_queue()[i]) as int)
                    < self.capacity(),
    {
        if pre.ready_queue().contains(tid) {
            let i = choose|i: int|
                0 <= i < pre.ready_queue().len() && pre.ready_queue()[i] == tid;
            assert(pre.slot_used(tid as int) && pre.status_of(tid as int) is Ready);
        }
        if pre.slot_used(tid as int) && pre.status_of(tid as int) is Ready {
            assert(pre.status_of(tid as int) is Ready);
            assert(pre.ready_queue().contains(tid));
        }
        assert forall|i: int| 0 <= i < self.ready_queue().len() implies ((
        #[trigger] self.ready_queue()[i]) as int) < self.capacity() by {
            assert(pre.ready_queue()[i] == self.ready_queue()[i]);
        }
    }
}

/// Removing one occurrence of `tid` from a duplicate-free queue touches no
/// other member.
proof fn lemma_remove_value_membership(q: Seq<Tid>, tid: Tid)
    requires
        q.no_duplicates(),
        q.contains(tid),
    ensures
        !q.remove_value(tid).contains(tid),
        forall|u: Tid| u != tid ==> (q.remove_value(tid).contains(u) <==> q.contains(u)),
        forall|i: int|
            0 <= i < q.remove_value(tid).len() ==> q.contains(#[trigger] q.remove_value(tid)[i]),
{
    q.index_of_first_ensures(tid);
    let idx = q.index_of_first(tid).unwrap();
    let r = q.remove_value(tid);
    assert(r == q.remove(idx));
    q.remove_ensures(idx);
    assert forall|i: int| 0 <= i < r.len() implies q.contains(#[trigger] r[i]) by {
        if i < idx {
            assert(r[i] == q[i]);
        } else {
            assert(r[i] == q[i + 1]);
        }
    }
    assert(!r.contains(tid)) by {
        if r.contains(tid) {
            let j = choose|j: int| 0 <= j < r.len() && r[j] == tid;
            if j < idx {
                assert(q[j] == tid);
            } else {
                assert(q[j + 1] == tid);
            }
        }
    }
    assert forall|u: Tid| u != tid implies (r.contains(u) <==> q.contains(u)) by {
        if r.contains(u) {
            let j = choose|j: int| 0 <= j < r.len() && r[j] == u;
            if j < idx {
                assert(q[j] == u);
            } else {
                assert(q[j + 1] == u);
            }
        }
        if q.contains(u) {
            let k = choose|k: int| 0 <= k < q.len() && q[k] == u;
            if k < idx {
                assert(r[k] == u);
            } else {
                assert(k > idx);
                assert(r[k - 1] == u);
            }
        }
    }
}

/// The thread a timer event wakes.
pub open spec fn event_tid(e: Event) -> Tid {
    match e {
        Event::Wakeup(t) => t,
    }
}

/// The scheduler's accounting (quantum, weights, time slices) reads the
/// same in `pre` and `post`.
pub open spec fn accounting_unchanged<S: Scheduler>(
    pre: ThreadPool<S>,
    post: ThreadPool<S>,
) -> bool {
    &&& post.quantum() == pre.quantum()
    &&& forall|u: Tid| #[trigger] post.priority_of(u) == pre.priority_of(u)
    &&& forall|u: Tid| #[trigger] post.slice_of(u) == pre.slice_of(u)
}

/// The scheduler's accounting reads the same in `pre` and `post`, except
/// that thread `t`'s time slice may have moved.
pub open spec fn accounting_unchanged_except_slice<S: Scheduler>(
    pre: ThreadPool<S>,
    post: ThreadPool<S>,
    t: Tid,
) -> bool {
    &&& post.quantum() == pre.quantum()
    &&& forall|u: Tid| #[trigger] post.priority_of(u) == pre.priority_of(u)
    &&& forall|u: Tid| u != t ==> #[trigger] post.slice_of(u) == pre.slice_of(u)
}

/// Queue and timer read the same in `pre` and `post`.
pub open spec fn queue_timer_unchanged<S: Scheduler>(pre: ThreadPool<S>, post: ThreadPool<S>) -> bool {
    &&& post.ready_queue() == pre.ready_queue()
    &&& post.timer_time() == pre.timer_time()
    &&& post.timer_entries() == pre.timer_entries()
}

/// The timer reads the same in `pre` and `post`.
pub open spec fn timer_unchanged<S: Scheduler>(pre: ThreadPool<S>, post: ThreadPool<S>) -> bool {
    &&& post.timer_time() == pre.timer_time()
    &&& post.timer_entries() == pre.timer_entries()
}

/// Every slot but `a` and `b` reads the same in `pre` and `post`.
pub open spec fn slots_unchanged_except2<S: Scheduler>(
    pre: ThreadPool<S>,
    post: ThreadPool<S>,
    a: int,
    b: int,
) -> bool {
    forall|u: int|
        0 <= u < pre.capacity() && u != a && u != b ==> #[trigger] slot_unchanged(pre, post, u)
}

/// Every slot but `a` reads the same in `pre` and `post`.
pub open spec fn slots_unchanged_except<S: Scheduler>(
    pre: ThreadPool<S>,
    post: ThreadPool<S>,
    a: int,
) -> bool {
    slots_unchanged_except2(pre, post, a, a)
}

/// Nothing observable changed between `pre` and `post`.
pub open spec fn pool_unchanged<S: Scheduler>(pre: ThreadPool<S>, post: ThreadPool<S>) -> bool {
    &&& post.capacity() == pre.capacity()
    &&& queue_timer_unchanged(pre, post)
    &&& slots_unchanged_except2(pre, post, -1, -1)
}

/// Whether the exit of `t` wakes a waiter: one is registered and it is
/// (still) sleeping. Evaluated over the state just before the exit takes
/// effect, when a waiter equal to `t` itself can no longer be sleeping.
pub open spec fn exit_wakes<S: Scheduler>(pre: ThreadPool<S>, t: int) -> bool {
    &&& pre.waiter_of(t) matches Some(w)
    &&& (w as int) != t
    &&& pre.slot_used(w as int)
    &&& pre.status_of(w as int) is Sleeping
}

/// The outcome of the exit handler for `tid`, relative to the state `pre`
/// just before the exit transition and the runnable queue `q0` it left
/// behind: the waiter (if sleeping) is woken and queued, the context is
/// dropped, and a detached slot is released.
pub open spec fn exit_outcome<S: Scheduler>(
    pre: ThreadPool<S>,
    post: ThreadPool<S>,
    tid: Tid,
    status: Status,
    q0: Seq<Tid>,
) -> bool {
    let t = tid as int;
    let w = pre.waiter_of(t).unwrap() as int;
    &&& (exit_wakes(pre, t) ==> {
        &&& post.ready_queue() == q0.push(pre.waiter_of(t).unwrap())
        &&& post.slot_used(w)
        &&& post.status_of(w) == Status::Ready
        &&& post.after_stop_of(w) == pre.after_stop_of(w)
        &&& post.waiter_of(w) == pre.waiter_of(w)
        &&& post.detached_of(w) == pre.detached_of(w)
        &&& post.context_of(w) == pre.context_of(w)
        &&& post.stack_base_of(w) == pre.stack_base_of(w)
    })
    &&& (!exit_wakes(pre, t) ==> post.ready_queue() == q0)
    &&& (pre.detached_of(t) ==> !post.slot_used(t))
    &&& (!pre.detached_of(t) ==> {
        &&& post.slot_used(t)
        &&& post.status_of(t) == status
        &&& post.after_stop_of(t) == Status::Ready
        &&& post.waiter_of(t) == pre.waiter_of(t)
        &&& post.detached_of(t) == pre.detached_of(t)
        &&& post.context_of(t) is None
        &&& post.stack_base_of(t) == pre.stack_base_of(t)
    })
    &&& slots_unchanged_except2(pre, post, t, if exit_wakes(pre, t) {
        w
    } else {
        t
    })
}

/// How many entries a full drain of the timer removes at tick `now`: `pop`
/// keeps removing the head while it is due.
pub open spec fn due_count(s: Seq<(usize, Event)>, now: usize) -> int
    decreases s.len(),
{
    if s.len() == 0 || s[0].0 > now {
        0
    } else {
        1 + due_count(s.drop_first(), now)
    }
}

/// Whether some entry of `due` targets thread `t`.
pub open spec fn targeted(due: Seq<(usize, Event)>, t: int) -> bool {
    exists|j: int| 0 <= j < due.len() && event_tid((#[trigger] due[j]).1) == t
}

/// The threads that a drain of the `due` entries moves from `Sleeping` to
/// `Ready`, in the order their first wakeup fires: those that were sleeping
/// when the drain began, once each.
pub open spec fn woken_tids<S: Scheduler>(
    pre: ThreadPool<S>,
    due: Seq<(usize, Event)>,
) -> Seq<Tid>
    decreases due.len(),
{
    if due.len() == 0 {
        Seq::empty()
    } else {
        let rest = woken_tids(pre, due.drop_last());
        let t = event_tid(due.last().1);
        if pre.slot_used(t as int) && pre.status_of(t as int) is Sleeping && !rest.contains(t) {
            rest.push(t)
        } else {
            rest
        }
    }
}

/// What draining the `due` wakeup entries does to the thread table: a
/// targeted sleeper becomes `Ready`, a targeted running thread has any
/// deferred transition replaced by `Ready`, and nothing else moves.
pub open spec fn wakeups_applied<S: Scheduler>(
    pre: ThreadPool<S>,
    post: ThreadPool<S>,
    due: Seq<(usize, Event)>,
) -> bool {
    forall|t: int|
        #![trigger post.slot_used(t)]
        0 <= t < pre.capacity() ==> {
            &&& post.slot_used(t) == pre.slot_used(t)
            &&& (pre.slot_used(t) ==> {
                &&& post.waiter_of(t) == pre.waiter_of(t)
                &&& post.detached_of(t) == pre.detached_of(t)
                &&& post.context_of(t) == pre.context_of(t)
                &&& post.stack_base_of(t) == pre.stack_base_of(t)
                &&& post.status_of(t) == (if targeted(due, t) && pre.status_of(t) is Sleeping {
                    Status::Ready
                } else {
                    pre.status_of(t)
                })
                &&& post.after_stop_of(t) == (if targeted(due, t) && pre.status_of(t)
                    is Running {
                    Status::Ready
                } else {
                    pre.after_stop_of(t)
                })
            })
        }
}

/// `due_count` marks the first entry that is not yet due; everything before
/// it is due.
proof fn lemma_due_count(s: Seq<(usize, Event)>, now: usize)
    ensures
        0 <= due_count(s, now) <= s.len(),
        forall|j: int| 0 <= j < due_count(s, now) ==> (#[trigger] s[j]).0 <= now,
        due_count(s, now) < s.len() ==> s[due_count(s, now)].0 > now,
    decreases s.len(),
{
    if s.len() == 0 || s[0].0 > now {
    } else {
        lemma_due_count(s.drop_first(), now);
        let d = due_count(s, now);
        assert forall|j: int| 0 <= j < d implies (#[trigger] s[j]).0 <= now by {
            if j > 0 {
                assert(s.drop_first()[j - 1] == s[j]);
            }
        }
        if d < s.len() {
            assert(s.drop_first()[d - 1] == s[d]);
        }
    }
}

/// A thread is among the woken exactly when some due entry targets it and it
/// was sleeping; no thread is woken twice.
proof fn lemma_woken_tids<S: Scheduler>(pre: ThreadPool<S>, due: Seq<(usize, Event)>)
    ensures
        woken_tids(pre, due).no_duplicates(),
        forall|t: Tid|
            #[trigger] woken_tids(pre, due).contains(t) <==> (targeted(due, t as int)
                && pre.slot_used(t as int) && pre.status_of(t as int) is Sleeping),
    decreases due.len(),
{
    if due.len() == 0 {
        assert forall|t: Tid|
            #[trigger] woken_tids(pre, due).contains(t) <==> (targeted(due, t as int)
                && pre.slot_used(t as int) && pre.status_of(t as int) is Sleeping) by {
            assert(!targeted(due, t as int));
        }
    } else {
        lemma_woken_tids(pre, due.drop_last());
        let rest = woken_tids(pre, due.drop_last());
        let t0 = event_tid(due.last().1);
        let w = woken_tids(pre, due);
        assert forall|t: Tid|
            #[trigger] w.contains(t) <==> (targeted(due, t as int) && pre.slot_used(t as int)
                && pre.status_of(t as int) is Sleeping) by {
            if w.contains(t) {
                let i = choose|i: int| 0 <= i < w.len() && w[i] == t;
                if i < rest.len() {
                    assert(rest[i] == t);
                    assert(rest.contains(t));
                    let j = choose|j: int|
                        0 <= j < due.drop_last().len() && event_tid(
                            (#[trigger] due.drop_last()[j]).1,
                        ) == t as int;
                    assert(due[j] == due.drop_last()[j]);
                    assert(targeted(due, t as int));
                } else {
                    assert(t == t0);
                    assert(due[due.len() - 1] == due.last());
                    assert(targeted(due, t as int));
                }
            }
            if targeted(due, t as int) && pre.slot_used(t as int) && pre.status_of(t as int)
                is Sleeping {
                let j = choose|j: int|
                    0 <= j < due.len() && event_tid((#[trigger] due[j]).1) == t as int;
                if j < due.len() - 1 {
                    assert(due.drop_last()[j] == due[j]);
                    assert(targeted(due.drop_last(), t as int));
                    assert(rest.contains(t));
                    let i = choose|i: int| 0 <= i < rest.len() && rest[i] == t;
                    assert(w[i] == t);
                } else {
                    assert(t == t0);
                    if rest.contains(t) {
                        let i = choose|i: int| 0 <= i < rest.len() && rest[i] == t;
                        assert(w[i] == t);
                    } else {
                        assert(w[w.len() - 1] == t);
                    }
                }
                assert(w.contains(t));
            }
        }
        assert(w.no_duplicates()) by {
            if pre.slot_used(t0 as int) && pre.status_of(t0 as int) is Sleeping && !rest.contains(
                t0,
            ) {
                assert forall|i: int, j: int|
                    0 <= i < w.len() && 0 <= j < w.len() && i != j implies w[i] != w[j] by {
                    if i < rest.len() && j < rest.len() {
                    } else if i < rest.len() {
                        assert(w[i] == rest[i]);
                        assert(rest.contains(rest[i]));
                    } else if j < rest.len() {
                        assert(w[j] == rest[j]);
                        assert(rest.contains(rest[j]));
                    }
                }
            }
        }
    }
}

/// Appending one due entry wakes its target exactly when it was sleeping and
/// not already woken.
proof fn lemma_wake_step<S: Scheduler>(
    pre: ThreadPool<S>,
    due: Seq<(usize, Event)>,
    e: (usize, Event),
)
    ensures
        forall|u: int|
            #[trigger] targeted(due.push(e), u) <==> (targeted(due, u) || event_tid(e.1) == u),
        woken_tids(pre, due.push(e)) == (if pre.slot_used(event_tid(e.1) as int)
            && pre.status_of(event_tid(e.1) as int) is Sleeping && !woken_tids(pre, due).contains(
            event_tid(e.1),
        ) {
            woken_tids(pre, due).push(event_tid(e.1))
        } else {
            woken_tids(pre, due)
        }),
{
    assert(due.push(e).drop_last() =~= due);
    assert(due.push(e).last() == e);
    assert forall|u: int|
        #[trigger] targeted(due.push(e), u) <==> (targeted(due, u) || event_tid(e.1) == u) by {
        if targeted(due.push(e), u) {
            let j = choose|j: int|
                0 <= j < due.push(e).len() && event_tid((#[trigger] due.push(e)[j]).1) == u;
            if j < due.len() {
                assert(due[j] == due.push(e)[j]);
                assert(targeted(due, u));
            } else {
                assert(due.push(e)[j] == e);
            }
        }
        if targeted(due, u) {
            let j = choose|j: int| 0 <= j < due.len() && event_tid((#[trigger] due[j]).1) == u;
            assert(due.push(e)[j] == due[j]);
            assert(targeted(due.push(e), u));
        }
        if event_tid(e.1) == u {
            assert(due.push(e)[due.len() as int] == e);
            assert(targeted(due.push(e), u));
        }
    }
}

/// `wakeups_applied` is insensitive to anything but the thread table of its
/// post state.
proof fn lemma_wakeups_applied_same<S: Scheduler>(
    pre: ThreadPool<S>,
    a: ThreadPool<S>,
    b: ThreadPool<S>,
    due: Seq<(usize, Event)>,
)
    requires
        wakeups_applied(pre, a, due),
        b.threads@ == a.threads@,
    ensures
        wakeups_applied(pre, b, due),
{
    assert forall|u: int| #![trigger b.slot_used(u)] 0 <= u < pre.capacity() implies {
        &&& b.slot_used(u) == pre.slot_used(u)
        &&& (pre.slot_used(u) ==> {
            &&& b.waiter_of(u) == pre.waiter_of(u)
            &&& b.detached_of(u) == pre.detached_of(u)
            &&& b.context_of(u) == pre.context_of(u)
            &&& b.stack_base_of(u) == pre.stack_base_of(u)
            &&& b.status_of(u) == (if targeted(due, u) && pre.status_of(u) is Sleeping {
                Status::Ready
            } else {
                pre.status_of(u)
            })
            &&& b.after_stop_of(u) == (if targeted(due, u) && pre.status_of(u) is Running {
                Status::Ready
            } else {
                pre.after_stop_of(u)
            })
        })
    } by {
        assert(a.slot_used(u) == pre.slot_used(u));
        assert(b.slot_used(u) == a.slot_used(u));
    }
}

/// `woken_tids` depends only on which slots hold sleeping threads.
proof fn lemma_woken_tids_congruent<S: Scheduler>(
    a: ThreadPool<S>,
    b: ThreadPool<S>,
    due: Seq<(usize, Event)>,
)
    requires
        forall|t: int| #[trigger] a.slot_used(t) == b.slot_used(t),
        forall|t: int| a.slot_used(t) ==> #[trigger] a.status_of(t) == b.status_of(t),
    ensures
        woken_tids(a, due) == woken_tids(b, due),
    decreases due.len(),
{
    if due.len() > 0 {
        lemma_woken_tids_congruent(a, b, due.drop_last());
        let t = event_tid(due.last().1);
        assert(a.slot_used(t as int) == b.slot_used(t as int));
    }
}

/// What a sleep request does to `tid`'s status, deferred status and the
/// runnable queue: a ready thread leaves the queue and sleeps, a running
/// thread has the sleep staged for its next stop, a sleeping thread stays
/// put, and a missing slot absorbs the request.
pub open spec fn sleep_applied<S: Scheduler>(
    pre: ThreadPool<S>,
    post: ThreadPool<S>,
    tid: Tid,
) -> bool {
    let t = tid as int;
    if !pre.slot_used(t) {
        &&& !post.slot_used(t)
        &&& post.ready_queue() == pre.ready_queue()
    } else {
        &&& post.slot_used(t)
        &&& match pre.status_of(t) {
            Status::Ready => {
                &&& post.status_of(t) == Status::Sleeping
                &&& post.after_stop_of(t) == pre.after_stop_of(t)
                &&& post.ready_queue() == pre.ready_queue().remove_value(tid)
            },
            Status::Running(_) => {
                &&& post.status_of(t) == pre.status_of(t)
                &&& post.after_stop_of(t) == Status::Sleeping
                &&& post.ready_queue() == pre.ready_queue()
            },
            Status::Sleeping => {
                &&& post.status_of(t) == Status::Sleeping
                &&& post.after_stop_of(t) == pre.after_stop_of(t)
                &&& post.ready_queue() == pre.ready_queue()
            },
            Status::Exited(_) => true,
        }
        &&& post.detached_of(t) == pre.detached_of(t)
        &&& post.context_of(t) == pre.context_of(t)
        &&& post.stack_base_of(t) == pre.stack_base_of(t)
    }
}

/// The transition table of the internal status engine: what one
/// `set_status`-style request does to the pool, depending on the thread's
/// current status.
///
/// - On a missing slot the request is silently absorbed.
/// - A `Ready` thread leaves the runnable queue unless it stays `Ready`.
/// - A request against a `Running` thread is deferred: only
///   `status_after_stop` changes, to be committed by `stop`.
/// - A `Sleeping` thread returning to `Ready` is queued again.
/// - On the transition `Sleeping` to `Exited` the pending wakeup entry is
///   purged from the timer.
/// - A transition into `Exited` (of a non-running thread) runs the exit
///   handler (`exit_outcome`).
pub open spec fn set_status_effect<S: Scheduler>(
    pre: ThreadPool<S>,
    post: ThreadPool<S>,
    tid: Tid,
    status: Status,
) -> bool {
    let t = tid as int;
    &&& post.capacity() == pre.capacity()
    &&& if !pre.slot_used(t) {
        pool_unchanged(pre, post)
    } else {
        match pre.status_of(t) {
            Status::Ready => {
                if status is Ready {
                    pool_unchanged(pre, post)
                } else if status is Sleeping {
                    &&& timer_unchanged(pre, post)
                    &&& post.ready_queue() == pre.ready_queue().remove_value(tid)
                    &&& post.slot_used(t)
                    &&& post.status_of(t) == Status::Sleeping
                    &&& post.after_stop_of(t) == pre.after_stop_of(t)
                    &&& post.waiter_of(t) == pre.waiter_of(t)
                    &&& post.detached_of(t) == pre.detached_of(t)
                    &&& post.context_of(t) == pre.context_of(t)
                    &&& post.stack_base_of(t) == pre.stack_base_of(t)
                    &&& slots_unchanged_except(pre, post, t)
                } else {
                    &&& timer_unchanged(pre, post)
                    &&& exit_outcome(pre, post, tid, status, pre.ready_queue().remove_value(tid))
                }
            },
            Status::Running(_) => {
                &&& queue_timer_unchanged(pre, post)
                &&& post.slot_used(t)
                &&& post.status_of(t) == pre.status_of(t)
                &&& post.after_stop_of(t) == status
                &&& post.waiter_of(t) == pre.waiter_of(t)
                &&& post.detached_of(t) == pre.detached_of(t)
                &&& post.context_of(t) == pre.context_of(t)
                &&& post.stack_base_of(t) == pre.stack_base_of(t)
                &&& slots_unchanged_except(pre, post, t)
            },
            Status::Sleeping => {
                if status is Ready {
                    &&& timer_unchanged(pre, post)
                    &&& post.ready_queue() == pre.ready_queue().push(tid)
                    &&& post.slot_used(t)
                    &&& post.status_of(t) == Status::Ready
                    &&& post.after_stop_of(t) == pre.after_stop_of(t)
                    &&& post.waiter_of(t) == pre.waiter_of(t)
                    &&& post.detached_of(t) == pre.detached_of(t)
                    &&& post.context_of(t) == pre.context_of(t)
                    &&& post.stack_base_of(t) == pre.stack_base_of(t)
                    &&& slots_unchanged_except(pre, post, t)
                } else if status is Sleeping {
                    pool_unchanged(pre, post)
                } else {
                    &&& post.timer_time() == pre.timer_time()
                    &&& post.timer_entries() == remove_first_event(
                        pre.timer_entries(),
                        Event::Wakeup(tid),
                    )
                    &&& exit_outcome(pre, post, tid, status, pre.ready_queue())
                }
            },
            Status::Exited(_) => true,
        }
    }
}

/// Slot `t` reads the same in `pre` and `post`.
pub open spec fn slot_unchanged<S: Scheduler>(pre: ThreadPool<S>, post: ThreadPool<S>, t: int) -> bool {
    &&& post.slot_used(t) == pre.slot_used(t)
    &&& (pre.slot_used(t) ==> {
        &&& post.status_of(t) == pre.status_of(t)
        &&& post.after_stop_of(t) == pre.after_stop_of(t)
        &&& post.waiter_of(t) == pre.waiter_of(t)
        &&& post.detached_of(t) == pre.detached_of(t)
        &&& post.context_of(t) == pre.context_of(t)
        &&& post.stack_base_of(t) == pre.stack_base_of(t)
    })
}

} // verus!
