//! The syscall surface: identifiers, descriptors, the per-process
//! call counters, and the correlation record handed to handlers.
//!
//! The dispatch site increments the calling process's counter for a
//! syscall id *before* computing the auxiliary value of the
//! correlation record, so the call-count query observes itself as
//! already counted.

use vstd::prelude::*;

verus! {

/// Read from a descriptor.
pub const SYSCALL_READ: usize = 63;

/// Write to a descriptor.
pub const SYSCALL_WRITE: usize = 64;

/// End the calling process with a status.
pub const SYSCALL_EXIT: usize = 93;

/// Report the monotonic clock.
pub const SYSCALL_CLOCK_GETTIME: usize = 113;

/// Give up the processor voluntarily.
pub const SYSCALL_SCHED_YIELD: usize = 124;

/// Change the caller's scheduling weight.
pub const SYSCALL_SET_PRIORITY: usize = 140;

/// Report the caller's own pid.
pub const SYSCALL_GETPID: usize = 172;

/// Move the caller's program break.
pub const SYSCALL_SBRK: usize = 214;

/// Remove a memory mapping.
pub const SYSCALL_MUNMAP: usize = 215;

/// Duplicate the calling process.
pub const SYSCALL_FORK: usize = 220;

/// Replace the caller's program image.
pub const SYSCALL_EXEC: usize = 221;

/// Create a memory mapping.
pub const SYSCALL_MMAP: usize = 222;

/// Reap a finished child.
pub const SYSCALL_WAIT: usize = 260;

/// Load and start a new program in a fresh process (reserved).
pub const SYSCALL_SPAWN: usize = 400;

/// Tracing: peek or poke one user byte, or query a call counter.
pub const SYSCALL_TRACE: usize = 410;

/// Counter-table entries per process: one per syscall id it may
/// invoke.
pub const SYSCALL_COUNT_CAP: usize = 512;

/// Descriptor of standard input.
pub const STDIN: usize = 0;

/// Descriptor of standard output.
pub const STDOUT: usize = 1;

/// Descriptor of the debug output channel.
pub const STDDEBUG: usize = 2;

/// Monotonic clock id accepted by the clock syscall.
pub const CLOCK_MONOTONIC: usize = 1;

/// Correlation record built by the dispatch site: which process
/// trapped, and the auxiliary value consumed by the call-count query.
#[derive(Clone, Copy, Debug)]
pub struct Caller {
    /// Identifier of the calling process.
    pub entity: usize,
    /// Pre-computed auxiliary value; its defined use is the
    /// call-count query, which receives the target id's count with
    /// the current call already included.
    pub flow: u64,
}

/// Counter table after one invocation of `id` is recorded: the entry
/// for an in-range id rises by one (saturating); out-of-range ids
/// leave the table unchanged.
pub open spec fn bump(counts: Seq<u64>, id: usize) -> Seq<u64> {
    if (id as int) < counts.len() {
        counts.update(
            id as int,
            if counts[id as int] == u64::MAX {
                u64::MAX
            } else {
                (counts[id as int] + 1) as u64
            },
        )
    } else {
        counts
    }
}

/// Counter table after the invocations in `ids` are recorded in
/// order.
pub open spec fn bump_all(counts: Seq<u64>, ids: Seq<usize>) -> Seq<u64>
    decreases ids.len(),
{
    if ids.len() == 0 {
        counts
    } else {
        bump_all(bump(counts, ids[0]), ids.drop_first())
    }
}

/// Invoking syscall `x` exactly `k` times raises its counter by
/// exactly `k`: the call-count query issued afterwards, which sees
/// the table these invocations left, reports `k` more than before.
pub proof fn lemma_call_count(counts: Seq<u64>, ids: Seq<usize>, x: usize)
    requires
        (x as int) < counts.len(),
        forall|i: int| 0 <= i < ids.len() ==> ids[i] == x,
        counts[x as int] + ids.len() <= u64::MAX,
    ensures
        bump_all(counts, ids).len() == counts.len(),
        bump_all(counts, ids)[x as int] == counts[x as int] + ids.len(),
    decreases ids.len(),
{
    if ids.len() > 0 {
        let next = bump(counts, ids[0]);
        assert(next[x as int] == counts[x as int] + 1);
        lemma_call_count(next, ids.drop_first(), x);
    }
}

/// Recording an invocation of `id` never touches another entry.
pub proof fn lemma_bump_other(counts: Seq<u64>, id: usize, other: int)
    requires
        0 <= other < counts.len(),
        other != id,
    ensures
        bump(counts, id)[other] == counts[other],
{
}

} // verus!
