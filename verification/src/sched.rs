//! Process table and stride scheduler.
//!
//! The manager owns every live process and keeps a ready queue of
//! pids. Selection scans the queue for the entry with the minimum
//! current stride (the first occurrence wins ties), removes it, and
//! advances its stride by a large constant divided by its priority,
//! so a process of weight `p` is re-selected proportionally more
//! often than one of weight 1. A process that yields is re-added at
//! the tail with its already-advanced stride, which is what bounds
//! starvation of the other ready processes.

use vstd::prelude::*;

verus! {

use crate::process::Process;

/// Stride step numerator: a selected process's stride advances by
/// this divided by its priority.
pub const BIG_STRIDE: u64 = 0x7fffffff;

/// Some process of `tasks` carries `pid`.
pub open spec fn has_pid(tasks: Seq<Process>, pid: int) -> bool {
    exists|i: int| 0 <= i < tasks.len() && (#[trigger] tasks[i]).pid == pid
}

/// Index of the process carrying `pid`; meaningful only when one
/// exists (unique when pids are distinct).
pub open spec fn idx_of(tasks: Seq<Process>, pid: int) -> int {
    choose|i: int| 0 <= i < tasks.len() && (#[trigger] tasks[i]).pid == pid
}

/// The process of `tasks` carrying `pid`.
pub open spec fn proc_of(tasks: Seq<Process>, pid: int) -> Process {
    tasks[idx_of(tasks, pid)]
}

/// With distinct pids, the index carrying `pid` is the one and only.
pub proof fn lemma_pid_unique(tasks: Seq<Process>, i: int, pid: int)
    requires
        forall|u: int, w: int|
            0 <= u < w < tasks.len() ==> (#[trigger] tasks[u]).pid != (#[trigger] tasks[w]).pid,
        0 <= i < tasks.len(),
        tasks[i].pid == pid,
    ensures
        has_pid(tasks, pid),
        idx_of(tasks, pid) == i,
{
    assert(has_pid(tasks, pid));
    let j = idx_of(tasks, pid);
    if i < j {
        assert(tasks[i].pid != tasks[j].pid);
    } else if j < i {
        assert(tasks[j].pid != tasks[i].pid);
    }
}

/// The process table and ready queue.
pub struct ProcManager {
    /// Every live process, keyed by its pid field.
    pub tasks: Vec<Process>,
    /// Pids eligible for selection, in queue order.
    pub ready_queue: Vec<usize>,
    /// Pid of the process whose context the run loop is executing.
    pub current: Option<usize>,
}

impl ProcManager {
    /// Stride of the process carrying `pid`.
    pub open spec fn stride_of(self, pid: int) -> u64 {
        proc_of(self.tasks@, pid).stride
    }

    /// Queue position `j` holds the first minimum-stride entry.
    pub open spec fn is_first_min(self, j: int) -> bool {
        &&& 0 <= j < self.ready_queue@.len()
        &&& forall|t: int|
            0 <= t < self.ready_queue@.len() ==> #[trigger] self.stride_of(
                self.ready_queue@[t] as int,
            ) >= self.stride_of(self.ready_queue@[j] as int)
        &&& forall|t: int|
            0 <= t < j ==> #[trigger] self.stride_of(self.ready_queue@[t] as int)
                > self.stride_of(self.ready_queue@[j] as int)
    }

    /// Position of the first minimum-stride entry among the first
    /// `upto` queue entries.
    pub open spec fn first_min_upto(self, upto: int) -> int
        decreases upto,
    {
        if upto <= 1 {
            0
        } else {
            let prev = self.first_min_upto(upto - 1);
            if self.stride_of(self.ready_queue@[upto - 1] as int) < self.stride_of(
                self.ready_queue@[prev] as int,
            ) {
                upto - 1
            } else {
                prev
            }
        }
    }

    /// Well-formed manager: processes well-formed with distinct
    /// pids, every queued pid a live unfinished process, and the
    /// current pid (when set) live.
    pub open spec fn wf(self) -> bool {
        &&& forall|i: int| 0 <= i < self.tasks@.len() ==> (#[trigger] self.tasks@[i]).wf()
        &&& forall|u: int, w: int|
            0 <= u < w < self.tasks@.len() ==> (#[trigger] self.tasks@[u]).pid != (
            #[trigger] self.tasks@[w]).pid
        &&& forall|q: int|
            0 <= q < self.ready_queue@.len() ==> has_pid(
                self.tasks@,
                #[trigger] self.ready_queue@[q] as int,
            ) && !proc_of(self.tasks@, self.ready_queue@[q] as int).finished
        &&& forall|q1: int, q2: int|
            0 <= q1 < q2 < self.ready_queue@.len() ==> (#[trigger] self.ready_queue@[q1]) != (
            #[trigger] self.ready_queue@[q2])
        &&& (self.current matches Some(pid) ==> has_pid(self.tasks@, pid as int))
    }

    /// An empty manager.
    pub fn new() -> (r: ProcManager)
        ensures
            r.wf(),
            r.tasks@.len() == 0,
            r.ready_queue@.len() == 0,
            r.current is None,
    {
        ProcManager { tasks: Vec::new(), ready_queue: Vec::new(), current: None }
    }

    /// Index of the process carrying `pid`, if it is live.
    pub fn find_index(&self, pid: usize) -> (r: Option<usize>)
        requires
            self.wf(),
        ensures
            r is Some <==> has_pid(self.tasks@, pid as int),
            r matches Some(i) ==> 0 <= i < self.tasks@.len() && self.tasks@[i as int].pid == pid
                && idx_of(self.tasks@, pid as int) == i,
    {
        let n = self.tasks.len();
        let mut i: usize = 0;
        while i < n
            invariant
                self.wf(),
                i <= n,
                n == self.tasks@.len(),
                forall|t: int| 0 <= t < i ==> (#[trigger] self.tasks@[t]).pid != pid,
            decreases n - i,
        {
            if self.tasks[i].pid == pid {
                proof {
                    lemma_pid_unique(self.tasks@, i as int, pid as int);
                }
                return Some(i);
            }
            i = i + 1;
        }
        proof {
            if has_pid(self.tasks@, pid as int) {
                let t = idx_of(self.tasks@, pid as int);
            }
        }
        None
    }

    /// Stride of a live process.
    fn stride_lookup(&self, pid: usize) -> (r: u64)
        requires
            self.wf(),
            has_pid(self.tasks@, pid as int),
        ensures
            r == self.stride_of(pid as int),
    {
        let i_opt = self.find_index(pid);
        let i = match i_opt {
            Some(i) => i,
            None => {
                proof {
                    assert(false);
                }
                0
            },
        };
        self.tasks[i].stride
    }

    /// Inserts a new process into the table.
    pub fn insert(&mut self, p: Process)
        requires
            old(self).wf(),
            p.wf(),
            !has_pid(old(self).tasks@, p.pid as int),
        ensures
            final(self).wf(),
            final(self).tasks@ == old(self).tasks@.push(p),
            final(self).ready_queue == old(self).ready_queue,
            final(self).current == old(self).current,
    {
        let ghost olds = self.tasks@;
        self.tasks.push(p);
        proof {
            let news = self.tasks@;
            assert forall|q: int| 0 <= q < self.ready_queue@.len() implies has_pid(
                news,
                #[trigger] self.ready_queue@[q] as int,
            ) && !proc_of(news, self.ready_queue@[q] as int).finished by {
                let pid = self.ready_queue@[q] as int;
                let t = idx_of(olds, pid);
                assert(news[t].pid == pid);
                lemma_pid_unique(news, t, pid);
            }
            match self.current {
                Some(pid) => {
                    let t = idx_of(olds, pid as int);
                    assert(news[t].pid == pid);
                    lemma_pid_unique(news, t, pid as int);
                },
                None => {},
            }
        }
    }

    /// Removes the process carrying `pid` from the table; the pid
    /// must not be queued or current (a reaped process is finished,
    /// and finished processes are neither).
    pub fn delete(&mut self, pid: usize)
        requires
            old(self).wf(),
            forall|q: int| 0 <= q < old(self).ready_queue@.len() ==> old(
                self,
            ).ready_queue@[q] != pid,
            !(old(self).current matches Some(c) && c == pid),
        ensures
            final(self).wf(),
            !has_pid(final(self).tasks@, pid as int),
            final(self).ready_queue == old(self).ready_queue,
            final(self).current == old(self).current,
            forall|other: int|
                other != pid && has_pid(old(self).tasks@, other) ==> has_pid(
                    final(self).tasks@,
                    other,
                ) && proc_of(final(self).tasks@, other) == proc_of(old(self).tasks@, other),
            forall|other: int|
                has_pid(final(self).tasks@, other) ==> other != pid && has_pid(
                    old(self).tasks@,
                    other,
                ),
    {
        let ghost olds = self.tasks@;
        let i_opt = self.find_index(pid);
        match i_opt {
            Some(i) => {
                self.tasks.remove(i);
                proof {
                    let news = self.tasks@;
                    assert forall|other: int|
                        other != pid && has_pid(olds, other) implies has_pid(news, other)
                        && proc_of(news, other) == proc_of(olds, other) by {
                        let t = idx_of(olds, other);
                        lemma_pid_unique(olds, t, other);
                        if t < i {
                            assert(news[t] == olds[t]);
                            lemma_pid_unique(news, t, other);
                        } else {
                            assert(t > i);
                            assert(news[t - 1] == olds[t]);
                            lemma_pid_unique(news, t - 1, other);
                        }
                    }
                    assert forall|other: int| has_pid(news, other) implies other != pid && has_pid(
                        olds,
                        other,
                    ) by {
                        let t = idx_of(news, other);
                        if t < i {
                            assert(olds[t].pid == other);
                            assert(olds[t].pid != olds[i as int].pid);
                        } else {
                            assert(olds[t + 1].pid == other);
                            assert(olds[t + 1].pid != olds[i as int].pid);
                        }
                    }
                    if !has_pid(news, pid as int) {
                    } else {
                        let t = idx_of(news, pid as int);
                    }
                    assert forall|q: int| 0 <= q < self.ready_queue@.len() implies has_pid(
                        news,
                        #[trigger] self.ready_queue@[q] as int,
                    ) && !proc_of(news, self.ready_queue@[q] as int).finished by {
                        let qpid = self.ready_queue@[q] as int;
                        assert(has_pid(olds, qpid) && !proc_of(olds, qpid).finished);
                        assert(qpid != pid);
                    }
                    match self.current {
                        Some(c) => {
                            assert(has_pid(news, c as int));
                        },
                        None => {},
                    }
                }
            },
            None => {
                proof {
                    if has_pid(self.tasks@, pid as int) {
                        let t = idx_of(self.tasks@, pid as int);
                    }
                }
            },
        }
    }

    /// Appends `pid` to the ready queue tail.
    pub fn add(&mut self, pid: usize)
        requires
            old(self).wf(),
            has_pid(old(self).tasks@, pid as int),
            !proc_of(old(self).tasks@, pid as int).finished,
            forall|q: int| 0 <= q < old(self).ready_queue@.len() ==> old(
                self,
            ).ready_queue@[q] != pid,
        ensures
            final(self).wf(),
            final(self).ready_queue@ == old(self).ready_queue@.push(pid),
            final(self).tasks == old(self).tasks,
            final(self).current == old(self).current,
    {
        self.ready_queue.push(pid);
    }

    /// Selects and removes the ready process with the minimum current
    /// stride (first occurrence wins ties) and advances its stride by
    /// [`BIG_STRIDE`] divided by its priority, saturating at the top
    /// of the counter; reports emptiness otherwise.
    pub fn fetch(&mut self) -> (r: Option<usize>)
        requires
            old(self).wf(),
        ensures
            final(self).wf(),
            r is None <==> old(self).ready_queue@.len() == 0,
            r is None ==> *final(self) == *old(self),
            final(self).current == old(self).current,
            r matches Some(pid) ==> ({
                let j = old(self).first_min_upto(old(self).ready_queue@.len() as int);
                &&& old(self).is_first_min(j)
                &&& pid == old(self).ready_queue@[j]
                &&& final(self).ready_queue@ == old(self).ready_queue@.remove(j)
                &&& forall|q: int|
                    0 <= q < final(self).ready_queue@.len() ==> final(self).ready_queue@[q] != pid
                &&& final(self).tasks@.len() == old(self).tasks@.len()
                &&& forall|t: int|
                    0 <= t < old(self).tasks@.len() && (#[trigger] old(self).tasks@[t]).pid != pid
                        ==> final(self).tasks@[t] == old(self).tasks@[t]
                &&& forall|t: int|
                    0 <= t < old(self).tasks@.len() && (#[trigger] old(self).tasks@[t]).pid == pid
                        ==> advanced(old(self).tasks@[t], final(self).tasks@[t])
            }),
    {
        let n = self.ready_queue.len();
        if n == 0 {
            return None;
        }
        proof {
            self.lemma_first_min(n as int);
        }
        let mut min_idx: usize = 0;
        let first_pid = self.ready_queue[0];
        let mut min_stride: u64 = self.stride_lookup(first_pid);
        let mut q: usize = 1;
        while q < n
            invariant
                self.wf(),
                1 <= q <= n,
                n == self.ready_queue@.len(),
                min_idx < q,
                min_idx == self.first_min_upto(q as int),
                min_stride == self.stride_of(self.ready_queue@[min_idx as int] as int),
            decreases n - q,
        {
            let qpid = self.ready_queue[q];
            let s_q = self.stride_lookup(qpid);
            if s_q < min_stride {
                min_idx = q;
                min_stride = s_q;
            }
            q = q + 1;
        }
        let pid = self.ready_queue.remove(min_idx);
        let ghost olds = self.tasks@;
        let ti_opt = self.find_index(pid);
        let ti = match ti_opt {
            Some(t) => t,
            None => {
                proof {
                    assert(false);
                }
                0
            },
        };
        let prio = self.tasks[ti].priority;
        let step = BIG_STRIDE / prio;
        let elem = &mut self.tasks[ti];
        if elem.stride > u64::MAX - step {
            elem.stride = u64::MAX;
        } else {
            elem.stride = elem.stride + step;
        }
        proof {
            let news = self.tasks@;
            assert forall|t: int|
                0 <= t < olds.len() && (#[trigger] olds[t]).pid == pid implies advanced(
                olds[t],
                news[t],
            ) by {
                lemma_pid_unique(olds, t, pid as int);
            }
            assert forall|q2: int| 0 <= q2 < self.ready_queue@.len() implies has_pid(
                news,
                #[trigger] self.ready_queue@[q2] as int,
            ) && !proc_of(news, self.ready_queue@[q2] as int).finished by {
                let qpid = self.ready_queue@[q2] as int;
                assert(old(self).ready_queue@[if q2 < min_idx {
                    q2
                } else {
                    q2 + 1
                }] == self.ready_queue@[q2]);
                let t = idx_of(olds, qpid);
                lemma_pid_unique(olds, t, qpid);
                assert(news[t].pid == qpid);
                lemma_pid_unique(news, t, qpid);
            }
            match self.current {
                Some(c) => {
                    let t = idx_of(olds, c as int);
                    lemma_pid_unique(olds, t, c as int);
                    assert(news[t].pid == c);
                    lemma_pid_unique(news, t, c as int);
                },
                None => {},
            }
        }
        Some(pid)
    }

    /// The scanned first-minimum position really carries the global
    /// minimum stride of the ready queue, with the first occurrence
    /// winning ties.
    pub proof fn lemma_first_min(self, upto: int)
        requires
            1 <= upto <= self.ready_queue@.len(),
        ensures
            ({
                let j = self.first_min_upto(upto);
                &&& 0 <= j < upto
                &&& forall|t: int|
                    0 <= t < upto ==> #[trigger] self.stride_of(self.ready_queue@[t] as int)
                        >= self.stride_of(self.ready_queue@[j] as int)
                &&& forall|t: int|
                    0 <= t < j ==> #[trigger] self.stride_of(self.ready_queue@[t] as int)
                        > self.stride_of(self.ready_queue@[j] as int)
            }),
        decreases upto,
    {
        if upto > 1 {
            self.lemma_first_min(upto - 1);
        }
    }
}

/// `post` is `pre` with its stride advanced one selection step:
/// raised by [`BIG_STRIDE`] divided by its priority, saturating at
/// the counter's top; every other field kept.
pub open spec fn advanced(pre: Process, post: Process) -> bool {
    let step = BIG_STRIDE as int / pre.priority as int;
    &&& post.stride == if pre.stride + step > u64::MAX {
        u64::MAX as int
    } else {
        pre.stride + step
    }
    &&& post.pid == pre.pid
    &&& post.parent == pre.parent
    &&& post.context == pre.context
    &&& post.address_space == pre.address_space
    &&& post.heap_bottom == pre.heap_bottom
    &&& post.program_brk == pre.program_brk
    &&& post.priority == pre.priority
    &&& post.finished == pre.finished
    &&& post.exit_code == pre.exit_code
    &&& post.syscall_count == pre.syscall_count
}

} // verus!
