//! Execution contexts.
//!
//! An execution context is a resumable snapshot of one flow: its
//! argument registers, stack pointer and program counter. A foreign
//! context pairs the snapshot with the address-space identifier it
//! must run under, because resuming a process installs its address
//! space atomically with its registers.

use vstd::prelude::*;

verus! {

use crate::addr::VADDR_LIMIT;

/// Number of argument registers of the syscall calling convention.
pub const ARG_REGS: usize = 8;

/// Width of the trapping instruction: advancing past a syscall moves
/// the program counter by this much.
pub const INSTRUCTION_BYTES: usize = 4;

/// A resumable snapshot of one flow's registers.
#[derive(Clone, Copy, Debug)]
pub struct ExecutionContext {
    /// Argument registers `a0 .. a7`; the syscall id lives in `a7`,
    /// the return value in `a0`.
    pub regs: [usize; 8],
    /// Stack pointer.
    pub sp: usize,
    /// Program counter.
    pub pc: usize,
}

impl ExecutionContext {
    /// A fresh unprivileged context entering at `entry` with the
    /// given stack pointer and cleared argument registers.
    pub fn user(entry: usize, sp: usize) -> (r: ExecutionContext)
        ensures
            r.pc == entry,
            r.sp == sp,
            forall|i: int| 0 <= i < 8 ==> r.regs[i] == 0,
    {
        ExecutionContext { regs: [0, 0, 0, 0, 0, 0, 0, 0], sp, pc: entry }
    }

    /// Value of argument register `a<i>`.
    pub fn a(&self, i: usize) -> (r: usize)
        requires
            i < ARG_REGS,
        ensures
            r == self.regs[i as int],
    {
        self.regs[i]
    }

    /// Overwrites argument register `a<i>`.
    pub fn set_a(&mut self, i: usize, value: usize)
        requires
            i < ARG_REGS,
        ensures
            final(self).regs[i as int] == value,
            forall|j: int| 0 <= j < 8 && j != i ==> final(self).regs[j] == old(self).regs[j],
            final(self).sp == old(self).sp,
            final(self).pc == old(self).pc,
    {
        self.regs[i] = value;
    }

    /// Advances the program counter past the trapping instruction, so
    /// a correctly continuing flow resumes after its syscall.
    pub fn move_next(&mut self)
        requires
            old(self).pc < VADDR_LIMIT,
        ensures
            final(self).pc == old(self).pc + INSTRUCTION_BYTES,
            final(self).sp == old(self).sp,
            forall|j: int| 0 <= j < 8 ==> final(self).regs[j] == old(self).regs[j],
    {
        self.pc = self.pc + INSTRUCTION_BYTES;
    }
}

/// An execution context bound to the address space it runs under.
#[derive(Clone, Copy, Debug)]
pub struct ForeignContext {
    /// The register snapshot.
    pub ctx: ExecutionContext,
    /// Identifier of the address space to install on resume.
    pub asid: usize,
}

} // verus!
