//! A process-execution kernel core, verified with Verus.
//!
//! The crate models the engine of a small privileged-mode kernel for a
//! paged CPU: per-process virtual address spaces built over
//! page-granular mapped regions, the process control block and its
//! lifecycle (load, fork, exec, wait, heap growth, memory mapping), a
//! stride-weighted scheduler, and the trap/syscall dispatch protocol.
//! Page tables are modelled as index-addressed records and physical
//! frames as owned byte buffers, so every mapping, translation and
//! byte transfer is a bounds-checked operation with a proved contract;
//! the modelled geometry uses 4 KiB pages in a 31-bit virtual space
//! (see [`addr`]).
//!
//! Hardware edges (firmware calls, CSR access, the cross-address-space
//! trampoline, ELF byte parsing) stay outside: the run loop hands this
//! library plain events and values and performs the privileged work
//! itself.

pub mod addr;
pub mod boot;
pub mod buddy;
pub mod context;
pub mod flags;
pub mod image;
pub mod kernel;
pub mod process;
pub mod sched;
pub mod syscall;
pub mod vm;

use vstd::prelude::*;

verus! {

/// Bytes in one page.
pub const PAGE_SIZE: usize = 4096;

/// log2 of the page size.
pub const PAGE_BITS: usize = 12;

} // verus!
