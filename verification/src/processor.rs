//! Per-CPU executor state.
//!
//! A `Processor` drives one CPU's scheduling loop. Each round it asks the
//! pool for a ready thread (`schedule`), the embedding kernel performs the
//! actual context switch into that thread, and when control comes back the
//! processor returns the thread and its context to the pool (`finish`),
//! which commits any transition deferred while the thread ran. Timer
//! interrupts call `tick`; a `true` result tells the kernel the current
//! thread's time slice is spent and it should switch back to the loop.
//!
//! The switch primitive itself is architecture code outside this crate: the
//! processor only decides which context to resume and hands the opaque
//! handles around.

use vstd::prelude::*;

use crate::context::Context;
use crate::scheduler::Scheduler;
use crate::thread_pool::{
    accounting_unchanged, accounting_unchanged_except_slice, due_count, event_tid, exit_outcome,
    queue_timer_unchanged, slots_unchanged_except, slots_unchanged_except2, timer_unchanged,
    wakeups_applied, woken_tids, Status, ThreadPool, Tid,
};

verus! {

struct ProcessorInner {
    /// This CPU's identifier.
    id: usize,
    /// The thread currently occupying the CPU, with its context moved out
    /// of the pool; at most one at any time.
    thread: Option<(Tid, Context)>,
    /// Saved state of this CPU's own scheduling loop: the home a switched-out
    /// thread returns control to.
    loop_context: Context,
}

/// One CPU's executor: initialized once at boot, then run forever.
pub struct Processor {
    inner: Option<ProcessorInner>,
}

impl Processor {
    /// Whether `init` has been called.
    pub closed spec fn initialized(self) -> bool {
        self.inner is Some
    }

    /// This CPU's identifier.
    pub closed spec fn id(self) -> usize {
        self.inner.unwrap().id
    }

    /// The thread currently on this CPU, if any.
    pub closed spec fn current(self) -> Option<(Tid, Context)> {
        self.inner.unwrap().thread
    }

    /// Saved state of the CPU's own scheduling loop.
    pub closed spec fn loop_context(self) -> Context {
        self.inner.unwrap().loop_context
    }

    /// An uninitialized processor.
    pub fn new() -> (p: Processor)
        ensures
            !p.initialized(),
    {
        Processor { inner: None }
    }

    /// Set up this CPU's executor with its identifier and the placeholder
    /// state for its scheduling loop.
    pub fn init(&mut self, id: usize, context: Context)
        ensures
            final(self).initialized(),
            final(self).id() == id,
            final(self).current() is None,
            final(self).loop_context() == context,
    {
        self.inner = Some(ProcessorInner { id, thread: None, loop_context: context });
    }

    /// Identifier of the running thread; the CPU must not be idle.
    pub fn tid(&self) -> (t: Tid)
        requires
            self.initialized(),
            self.current() is Some,
        ensures
            t == self.current().unwrap().0,
    {
        let inner = self.inner.as_ref().unwrap();
        let pair = inner.thread.as_ref().unwrap();
        pair.0
    }

    /// Identifier of the running thread, or `None` when the CPU is idle or
    /// the executor is not set up yet.
    pub fn tid_option(&self) -> (t: Option<Tid>)
        ensures
            t == (if self.initialized() && self.current() is Some {
                Some(self.current().unwrap().0)
            } else {
                None::<Tid>
            }),
    {
        match &self.inner {
            Some(inner) => match &inner.thread {
                Some(pair) => Some(pair.0),
                None => None,
            },
            None => None,
        }
    }

    /// Saved context of the running thread; the CPU must not be idle.
    pub fn context(&self) -> (c: &Context)
        requires
            self.initialized(),
            self.current() is Some,
        ensures
            *c == self.current().unwrap().1,
    {
        let inner = self.inner.as_ref().unwrap();
        let pair = inner.thread.as_ref().unwrap();
        &pair.1
    }

    /// One scheduling decision: take the pool's choice for this CPU and
    /// install it as the current thread. The caller then switches from the
    /// loop context into the returned thread's context; `None` means nothing
    /// is runnable and the CPU should wait for an interrupt.
    pub fn schedule<S: Scheduler>(&mut self, pool: &mut ThreadPool<S>) -> (r: Option<Tid>)
        requires
            old(self).initialized(),
            old(self).current() is None,
            old(pool).wf(),
        ensures
            final(self).initialized(),
            final(self).id() == old(self).id(),
            final(self).loop_context() == old(self).loop_context(),
            final(pool).wf(),
            final(pool).capacity() == old(pool).capacity(),
            timer_unchanged(*old(pool), *final(pool)),
            match r {
                Option::None => {
                    &&& final(self).current() is None
                    &&& old(pool).ready_queue().len() == 0
                    &&& final(pool).ready_queue() == old(pool).ready_queue()
                    &&& accounting_unchanged(*old(pool), *final(pool))
                    &&& slots_unchanged_except2(*old(pool), *final(pool), -1, -1)
                },
                Option::Some(tid) => {
                    &&& (tid as int) < old(pool).capacity()
                    &&& old(pool).slot_used(tid as int)
                    &&& old(pool).status_of(tid as int) is Ready
                    &&& final(self).current() == Some(
                        (tid, old(pool).context_of(tid as int).unwrap()),
                    )
                    &&& final(pool).slot_used(tid as int)
                    &&& final(pool).status_of(tid as int) == Status::Running(old(self).id())
                    &&& final(pool).context_of(tid as int) is None
                    &&& final(pool).ready_queue() == old(pool).ready_queue().remove_value(tid)
                    &&& accounting_unchanged_except_slice(*old(pool), *final(pool), tid)
                    &&& final(pool).slice_of(tid) == old(pool).quantum()
                    &&& slots_unchanged_except(*old(pool), *final(pool), tid as int)
                },
            },
    {
        let id = self.inner.as_ref().unwrap().id;
        match pool.run(id) {
            Some((tid, context)) => {
                match &mut self.inner {
                    Some(inner) => {
                        inner.thread = Some((tid, context));
                    },
                    None => {
                        proof {
                            assert(false);
                        }
                    },
                }
                Some(tid)
            },
            None => None,
        }
    }

    /// The current thread has switched back to the loop context: hand the
    /// thread and its context back to the pool, which commits its deferred
    /// transition. The CPU becomes idle.
    pub fn finish<S: Scheduler>(&mut self, pool: &mut ThreadPool<S>)
        requires
            old(self).initialized(),
            old(self).current() matches Some(pair) && {
                let t = pair.0 as int;
                &&& t < old(pool).capacity()
                &&& old(pool).slot_used(t)
                &&& old(pool).status_of(t) is Running
            },
            old(pool).wf(),
        ensures
            final(self).initialized(),
            final(self).id() == old(self).id(),
            final(self).loop_context() == old(self).loop_context(),
            final(self).current() is None,
            final(pool).wf(),
            final(pool).capacity() == old(pool).capacity(),
            accounting_unchanged(*old(pool), *final(pool)),
            ({
                let tid = old(self).current().unwrap().0;
                let context = old(self).current().unwrap().1;
                let t = tid as int;
                match old(pool).after_stop_of(t) {
                    Status::Ready => {
                        &&& timer_unchanged(*old(pool), *final(pool))
                        &&& final(pool).ready_queue() == old(pool).ready_queue().push(tid)
                        &&& final(pool).slot_used(t)
                        &&& final(pool).status_of(t) == Status::Ready
                        &&& final(pool).after_stop_of(t) == Status::Ready
                        &&& final(pool).context_of(t) == Some(context)
                        &&& slots_unchanged_except(*old(pool), *final(pool), t)
                    },
                    Status::Sleeping => {
                        &&& queue_timer_unchanged(*old(pool), *final(pool))
                        &&& final(pool).slot_used(t)
                        &&& final(pool).status_of(t) == Status::Sleeping
                        &&& final(pool).after_stop_of(t) == Status::Ready
                        &&& final(pool).context_of(t) == Some(context)
                        &&& slots_unchanged_except(*old(pool), *final(pool), t)
                    },
                    Status::Exited(_) => {
                        &&& timer_unchanged(*old(pool), *final(pool))
                        &&& exit_outcome(
                            *old(pool),
                            *final(pool),
                            tid,
                            old(pool).after_stop_of(t),
                            old(pool).ready_queue(),
                        )
                    },
                    Status::Running(_) => true,
                }
            }),
    {
        let taken: Option<(Tid, Context)> = match &mut self.inner {
            Some(inner) => inner.thread.take(),
            None => {
                proof {
                    assert(false);
                }
                None
            },
        };
        match taken {
            Some((tid, context)) => {
                pool.stop(tid, context);
            },
            None => {
                proof {
                    assert(false);
                }
            },
        }
    }

    /// A timer interrupt on this CPU: drive the pool's tick with the current
    /// thread (if any). A `true` result means the time slice is spent and
    /// the kernel should switch back to the scheduling loop.
    pub fn tick<S: Scheduler>(&self, pool: &mut ThreadPool<S>) -> (reschedule: bool)
        requires
            self.initialized(),
            old(pool).wf(),
            self.current() matches Some(pair) ==> (pair.0 as int) < old(pool).capacity(),
            self.id() == 0 ==> old(pool).timer_time() < usize::MAX,
            self.id() == 0 ==> forall|j: int|
                0 <= j < old(pool).timer_entries().len() && (#[trigger] old(
                    pool,
                ).timer_entries()[j]).0 <= old(pool).timer_time() + 1 ==> !(old(pool).slot_used(
                    event_tid(old(pool).timer_entries()[j].1) as int,
                ) && old(pool).status_of(event_tid(old(pool).timer_entries()[j].1) as int)
                    is Exited),
        ensures
            final(pool).wf(),
            final(pool).capacity() == old(pool).capacity(),
            reschedule == (self.current() matches Some(pair) && old(pool).slice_expired(pair.0)),
            final(pool).quantum() == old(pool).quantum(),
            forall|u: Tid| #[trigger] final(pool).priority_of(u) == old(pool).priority_of(u),
            !(self.current() is Some) ==> forall|u: Tid|
                #[trigger] final(pool).slice_of(u) == old(pool).slice_of(u),
            self.current() matches Some(pair) ==> {
                &&& final(pool).slice_of(pair.0) == (if old(pool).slice_of(pair.0) > 0 {
                    (old(pool).slice_of(pair.0) - 1) as usize
                } else {
                    0
                })
                &&& forall|u: Tid|
                    u != pair.0 ==> #[trigger] final(pool).slice_of(u) == old(pool).slice_of(u)
            },
            self.id() != 0 ==> queue_timer_unchanged(*old(pool), *final(pool))
                && slots_unchanged_except2(*old(pool), *final(pool), -1, -1),
            self.id() == 0 ==> ({
                let all = old(pool).timer_entries();
                let now1 = (old(pool).timer_time() + 1) as usize;
                let due = all.take(due_count(all, now1));
                &&& final(pool).timer_time() == now1
                &&& final(pool).timer_entries() == all.skip(due_count(all, now1))
                &&& final(pool).ready_queue() == old(pool).ready_queue() + woken_tids(
                    *old(pool),
                    due,
                )
                &&& wakeups_applied(*old(pool), *final(pool), due)
            }),
    {
        let id = self.inner.as_ref().unwrap().id;
        let tid = self.tid_option();
        pool.tick(id, tid)
    }
}

} // verus!
