//! Saved-CPU-state handles and the initial register frames that a context
//! switch primitive restores.
//!
//! The runtime never inspects saved register state: it only creates an
//! initial handle for a fresh thread, moves handles between the thread table
//! and the per-CPU executor, and hands them to the (external) switch
//! primitive. `Context` therefore records exactly the data an initial frame
//! is built from; the register frame types below give the concrete layout an
//! embedding kernel pushes at the top of a fresh stack.

use vstd::prelude::*;

verus! {

/// Handle to the saved CPU state of a thread that is not currently running.
///
/// A fresh handle records the entry point, its single argument and the stack
/// top the thread starts on; the embedding kernel builds the matching
/// architecture frame from these. An `uninit` handle is the placeholder for a
/// CPU's own scheduling-loop state before the first switch.
#[derive(Clone, Copy, Debug, PartialEq, Eq, Structural)]
pub struct Context {
    /// Address of the `fn(usize) -> !` entry point of the thread.
    pub entry: usize,
    /// Argument handed to the entry point on the first resume.
    pub arg0: usize,
    /// Address one past the highest byte of the thread's stack.
    pub stack_top: usize,
}

impl Context {
    /// Initial saved state for a fresh thread: the first switch-in resumes at
    /// `entry(arg0)` with the stack pointer at `stack_top`.
    pub fn new(entry: usize, arg0: usize, stack_top: usize) -> (c: Context)
        ensures
            c == (Context { entry, arg0, stack_top }),
    {
        Context { entry, arg0, stack_top }
    }

    /// Zeroed placeholder for a scheduling loop's own state; only ever the
    /// `from` side of a first switch.
    pub fn uninit() -> (c: Context)
        ensures
            c == (Context { entry: 0, arg0: 0, stack_top: 0 }),
    {
        Context { entry: 0, arg0: 0, stack_top: 0 }
    }
}

/// Callee-saved frame restored by the x86-64 switch primitive, in the order
/// it is popped from the stack.
#[derive(Clone, Copy, Debug, PartialEq, Eq, Structural)]
pub struct Registers {
    pub r15: usize,
    pub r14: usize,
    pub r13: usize,
    pub r12: usize,
    pub rbp: usize,
    /// Carries the entry argument on the first resume.
    pub rbx: usize,
    /// Resume address.
    pub rip: usize,
}

impl Registers {
    /// Initial frame for a fresh thread: resume at `entry`, argument in the
    /// callee-saved slot the switch primitive moves into the argument
    /// register, everything else zero.
    pub fn new(entry: usize, arg0: usize) -> (r: Registers)
        ensures
            r == (Registers { r15: 0, r14: 0, r13: 0, r12: 0, rbp: 0, rbx: arg0, rip: entry }),
    {
        Registers { r15: 0, r14: 0, r13: 0, r12: 0, rbp: 0, rbx: arg0, rip: entry }
    }
}

/// x86-64 frame that additionally saves the page-table root, for switches
/// that change address spaces.
#[derive(Clone, Copy, Debug, PartialEq, Eq, Structural)]
pub struct RegistersCR3 {
    pub cr3: usize,
    pub r15: usize,
    pub r14: usize,
    pub r13: usize,
    pub r12: usize,
    pub rbp: usize,
    /// Carries the entry argument on the first resume.
    pub rbx: usize,
    /// Resume address.
    pub rip: usize,
}

impl RegistersCR3 {
    /// Initial frame for a fresh thread in the address space rooted at `cr3`.
    pub fn new(entry: usize, arg0: usize, cr3: usize) -> (r: RegistersCR3)
        ensures
            r == (RegistersCR3 {
                cr3,
                r15: 0,
                r14: 0,
                r13: 0,
                r12: 0,
                rbp: 0,
                rbx: arg0,
                rip: entry,
            }),
    {
        RegistersCR3 { cr3, r15: 0, r14: 0, r13: 0, r12: 0, rbp: 0, rbx: arg0, rip: entry }
    }
}

/// RISC-V frame that additionally saves the page-table token, for switches
/// that change address spaces: the twelve callee-saved registers, the return
/// address, and `satp`.
#[derive(Clone, Copy, Debug)]
pub struct RegistersSatp {
    /// Callee-saved registers; the first carries the entry argument on the
    /// first resume.
    pub s: [usize; 12],
    /// Return address: resume point of the thread.
    pub ra: usize,
    /// Page-table token.
    pub satp: usize,
}

impl RegistersSatp {
    /// Initial frame for a fresh thread in the address space tokened by
    /// `satp`.
    pub fn new(entry: usize, arg0: usize, satp: usize) -> (r: RegistersSatp)
        ensures
            r.ra == entry,
            r.satp == satp,
            r.s[0] == arg0,
            forall|i: int| 1 <= i < 12 ==> r.s[i] == 0,
    {
        let s: [usize; 12] = [arg0, 0, 0, 0, 0, 0, 0, 0, 0, 0, 0, 0];
        RegistersSatp { s, ra: entry, satp }
    }
}

} // verus!
