//! Core of a bare-metal cooperative/preemptive kernel thread runtime: a
//! per-CPU executor that multiplexes a bounded set of kernel threads over
//! pluggable scheduling policies, with a tick-driven delay queue for sleeps.
//!
//! Architecture-specific register save/restore and interrupt control are
//! opaque primitives supplied by the embedding kernel; this crate models the
//! saved-state handle as plain data and verifies the lifecycle logic around
//! it.

pub mod context;
pub mod processor;
pub mod scheduler;
pub mod thread_pool;
pub mod timer;

pub use crate::context::{Context, Registers, RegistersCR3, RegistersSatp};
pub use crate::processor::Processor;
pub use crate::scheduler::{Scheduler, StrideScheduler, BIG_STRIDE};
pub use crate::thread_pool::{
    new_vec_default, ExitCode, Stack, Status, ThreadPool, Tid, STACK_SIZE,
};
pub use crate::timer::{Event, Timer};
