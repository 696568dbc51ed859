//! The kernel context: process table and scheduler, console
//! channels, registered program images, and the trap/syscall
//! dispatch protocol that the run loop drives.
//!
//! The run loop outside this crate alternates two calls:
//! [`Kernel::find_next`] hands it the foreign context to resume, and
//! after the hardware traps back it reports the updated context and
//! the trap cause to [`Kernel::on_trap`], which interprets the event,
//! performs the syscall against the calling process's own state, and
//! decides scheduling. Console output and input are modelled as byte
//! queues that the surrounding program drains and fills.

use vstd::prelude::*;

verus! {

use crate::PAGE_SIZE;
use crate::addr::{VADDR_LIMIT, PPN_LIMIT};
use crate::context::{ExecutionContext, ForeignContext};
use crate::flags::VmFlags;
use crate::image::Image;
use crate::process::{
    Process,
    LoadError,
    PID_LIMIT,
    loadable,
    loaded_state,
    mem_only_change,
    brk_change_ok,
};
use crate::sched::{ProcManager, has_pid, idx_of, proc_of, lemma_pid_unique};
use crate::syscall::{Caller, STDIN, STDOUT, STDDEBUG};
use crate::vm::{AddressSpace, page_state_eq, byte_ok, user_range_ok};

/// Flags a buffer handed to the write syscall must carry: a valid,
/// readable mapping.
pub open spec fn read_req() -> VmFlags {
    VmFlags {
        valid: true,
        readable: true,
        writable: false,
        executable: false,
        user: false,
        global: false,
        owned: false,
    }
}

/// Flags a buffer filled by the read syscall must carry: a valid,
/// writable mapping.
pub open spec fn write_req() -> VmFlags {
    VmFlags {
        valid: true,
        readable: false,
        writable: true,
        executable: false,
        user: false,
        global: false,
        owned: false,
    }
}

/// Flags the tracing peek demands: valid, readable and
/// user-accessible.
pub open spec fn user_read_req() -> VmFlags {
    VmFlags { user: true, ..read_req() }
}

/// Flags the tracing poke demands: valid, writable and
/// user-accessible.
pub open spec fn user_write_req() -> VmFlags {
    VmFlags { user: true, ..write_req() }
}

/// The byte sequence held at `vaddr .. vaddr + count` of a space.
pub open spec fn user_bytes(s: AddressSpace, vaddr: int, count: int) -> Seq<u8> {
    Seq::new(count as nat, |k: int| s.byte_at(vaddr + k))
}

/// 256 to the power `k`: the place value of byte `k` in a
/// little-endian encoding.
pub open spec fn pow256(k: int) -> int
    decreases k,
{
    if k <= 0 {
        1
    } else {
        256 * pow256(k - 1)
    }
}

/// Byte `k` of the little-endian encoding of a 32-bit status value.
pub open spec fn i32_le_byte(v: i32, k: int) -> u8 {
    (((v as u32) as int / pow256(k)) % 256) as u8
}

/// Byte `k` of the little-endian encoding of a 64-bit value.
pub open spec fn u64_le_byte(v: u64, k: int) -> u8 {
    ((v as int / pow256(k)) % 256) as u8
}

/// Index of the first process that is a finished child of `caller`
/// matching `target` (`-1` is the wildcard), scanning from `i`.
pub open spec fn find_child(tasks: Seq<Process>, caller: int, target: int, i: int) -> Option<int>
    decreases tasks.len() - i,
{
    if i < 0 || i >= tasks.len() {
        None
    } else if tasks[i].parent == caller && tasks[i].finished && (target == -1 || tasks[i].pid
        == target) {
        Some(i)
    } else {
        find_child(tasks, caller, target, i + 1)
    }
}

/// Index of the first registered image carrying `nm`, scanning from
/// `i`.
pub open spec fn find_app(apps: Seq<App>, nm: Seq<u8>, i: int) -> Option<int>
    decreases apps.len() - i,
{
    if i < 0 || i >= apps.len() {
        None
    } else if apps[i].name@ == nm {
        Some(i)
    } else {
        find_app(apps, nm, i + 1)
    }
}

/// The byte place values are positive.
proof fn lemma_pow256_positive(k: int)
    ensures
        pow256(k) >= 1,
    decreases k,
{
    if k > 0 {
        lemma_pow256_positive(k - 1);
    }
}

/// A positive byte count needs at least one page.
proof fn lemma_ceil_positive(len: int)
    requires
        len >= 1,
    ensures
        crate::addr::spec_page_ceil(len) >= 1,
{
    assert((len + PAGE_SIZE as int - 1) / PAGE_SIZE as int >= 1) by (nonlinear_arith)
        requires
            len >= 1,
            PAGE_SIZE as int == 4096,
    ;
}

/// Pages needed to hold `len` bytes.
fn page_ceil_pages(len: usize) -> (r: usize)
    requires
        len <= VADDR_LIMIT,
    ensures
        r == crate::addr::spec_page_ceil(len as int),
        r * PAGE_SIZE >= len,
        r as int <= VADDR_LIMIT as int / PAGE_SIZE as int,
        r as int * PAGE_SIZE as int / PAGE_SIZE as int == r,
{
    let r = if len == 0 {
        0
    } else {
        (len - 1) / PAGE_SIZE + 1
    };
    proof {
        assert(r == crate::addr::spec_page_ceil(len as int) && r as int * PAGE_SIZE as int
            >= len as int && r as int <= VADDR_LIMIT as int / PAGE_SIZE as int && r as int
            * PAGE_SIZE as int / PAGE_SIZE as int == r as int) by (nonlinear_arith)
            requires
                len as int <= VADDR_LIMIT as int,
                r as int == if len as int == 0 {
                    0int
                } else {
                    (len as int - 1) / PAGE_SIZE as int + 1
                },
                PAGE_SIZE as int == 4096,
                VADDR_LIMIT as int == 0x80000000,
        ;
    }
    r
}

/// Whether two byte vectors hold the same bytes.
fn bytes_equal(a: &Vec<u8>, b: &Vec<u8>) -> (r: bool)
    ensures
        r == (a@ == b@),
{
    if a.len() != b.len() {
        proof {
            assert(a@ != b@);
        }
        return false;
    }
    let n = a.len();
    let mut i: usize = 0;
    while i < n
        invariant
            i <= n,
            n == a@.len(),
            n == b@.len(),
            forall|k: int| 0 <= k < i ==> a@[k] == b@[k],
        decreases n - i,
    {
        if a[i] != b[i] {
            proof {
                assert(a@[i as int] != b@[i as int]);
            }
            return false;
        }
        i = i + 1;
    }
    proof {
        assert(a@ =~= b@);
    }
    true
}

/// Little-endian bytes of a 32-bit status value.
fn i32_le_bytes(v: i32) -> (r: Vec<u8>)
    ensures
        r@.len() == 4,
        forall|k: int| 0 <= k < 4 ==> #[trigger] r@[k] == i32_le_byte(v, k),
{
    let u = v as u32;
    let mut r: Vec<u8> = Vec::new();
    r.push((u % 256) as u8);
    r.push(((u / 256) % 256) as u8);
    r.push(((u / 65536) % 256) as u8);
    r.push(((u / 16777216) % 256) as u8);
    proof {
        assert(pow256(0) == 1);
        assert(pow256(1) == 256);
        assert(pow256(2) == 65536);
        assert(pow256(3) == 16777216);
        vstd::arithmetic::div_mod::lemma_div_denominator(u as int, 256, 256);
        vstd::arithmetic::div_mod::lemma_div_denominator(u as int, 65536, 256);
    }
    r
}

/// Little-endian bytes of a 64-bit value.
fn u64_le_bytes(v: u64) -> (r: Vec<u8>)
    ensures
        r@.len() == 8,
        forall|k: int| 0 <= k < 8 ==> #[trigger] r@[k] == u64_le_byte(v, k),
{
    let mut r: Vec<u8> = Vec::new();
    let mut x = v;
    let mut k: usize = 0;
    while k < 8
        invariant
            k <= 8,
            r@.len() == k,
            x as int == v as int / pow256(k as int),
            forall|k2: int| 0 <= k2 < k ==> #[trigger] r@[k2] == u64_le_byte(v, k2),
        decreases 8 - k,
    {
        r.push((x % 256) as u8);
        proof {
            assert(pow256(k + 1) == pow256(k as int) * 256);
            lemma_pow256_positive(k as int);
        }
        x = x / 256;
        proof {
            vstd::arithmetic::div_mod::lemma_div_denominator(v as int, pow256(k as int), 256);
        }
        k = k + 1;
    }
    r
}

/// Exclusive upper bound of address-space identifiers.
pub const ASID_LIMIT: usize = 0xffff;

/// Parent marker of the initial process, outside every real pid.
pub const NO_PARENT: usize = 0x40000000;

/// A program image registered under a name, for exec to find.
pub struct App {
    /// Name the image is looked up by.
    pub name: Vec<u8>,
    /// The image itself.
    pub image: Image,
}


/// The mmap request is accepted: page-aligned address, a protection
/// mask with at least one and only known bits, and a rounded range
/// that fits the space, overlaps nothing and has frames left (an
/// empty rounded range is accepted trivially).
pub open spec fn mmap_accepted(p: Process, addr: int, len: int, prot: int) -> bool {
    &&& addr % PAGE_SIZE as int == 0
    &&& prot % 8 != 0
    &&& prot < 8
    &&& (crate::addr::spec_page_ceil(len) == 0 || {
        let start = addr / PAGE_SIZE as int;
        let end = start + crate::addr::spec_page_ceil(len);
        &&& len <= VADDR_LIMIT
        &&& addr + crate::addr::spec_page_ceil(len) * PAGE_SIZE <= VADDR_LIMIT
        &&& p.address_space.range_free(start, end)
        &&& p.address_space.next_ppn + (end - start) <= PPN_LIMIT
    })
}

/// The munmap request is accepted: page-aligned address and a
/// rounded range inside the space whose every page is mapped (an
/// empty rounded range is accepted trivially).
pub open spec fn munmap_accepted(p: Process, addr: int, len: int) -> bool {
    &&& addr % PAGE_SIZE as int == 0
    &&& (crate::addr::spec_page_ceil(len) == 0 || {
        let start = addr / PAGE_SIZE as int;
        let end = start + crate::addr::spec_page_ceil(len);
        &&& len <= VADDR_LIMIT
        &&& addr + crate::addr::spec_page_ceil(len) * PAGE_SIZE <= VADDR_LIMIT
        &&& (forall|vpn: int| start <= vpn < end ==> #[trigger] p.address_space.maps(vpn))
    })
}

/// The kernel context.
pub struct Kernel {
    /// Process table, ready queue and current pid.
    pub pm: ProcManager,
    /// Next unused process identifier.
    pub next_pid: usize,
    /// Next unused address-space identifier.
    pub next_asid: usize,
    /// Physical page of the shared trap portal.
    pub portal_ppn: usize,
    /// Bytes written to the console, in order.
    pub output: Vec<u8>,
    /// Bytes waiting to be read from the console.
    pub input: Vec<u8>,
    /// The registered program images.
    pub apps: Vec<App>,
}

impl Kernel {
    /// A process with this pid is live.
    pub open spec fn has_proc(self, pid: int) -> bool {
        has_pid(self.pm.tasks@, pid)
    }

    /// The live process carrying `pid`.
    pub open spec fn proc(self, pid: int) -> Process {
        proc_of(self.pm.tasks@, pid)
    }

    /// Well-formed kernel: a well-formed process table whose pids
    /// are all below the next one to be handed out.
    pub open spec fn wf(self) -> bool {
        &&& self.pm.wf()
        &&& self.portal_ppn < PPN_LIMIT
        &&& self.next_pid <= PID_LIMIT
        &&& self.next_asid <= ASID_LIMIT
        &&& forall|i: int|
            0 <= i < self.pm.tasks@.len() ==> (#[trigger] self.pm.tasks@[i]).pid
                < self.next_pid
    }

    /// Environment outside the process table is untouched.
    pub open spec fn same_env(self, post: Kernel) -> bool {
        &&& post.next_pid == self.next_pid
        &&& post.next_asid == self.next_asid
        &&& post.portal_ppn == self.portal_ppn
        &&& post.output == self.output
        &&& post.input == self.input
        &&& post.apps == self.apps
    }

    /// Table slots keep their pids, and every process but `pid` is
    /// untouched in every field.
    pub open spec fn others_unchanged(self, post: Kernel, pid: int) -> bool {
        &&& post.pm.tasks@.len() == self.pm.tasks@.len()
        &&& forall|t: int|
            0 <= t < self.pm.tasks@.len() ==> (#[trigger] post.pm.tasks@[t]).pid
                == self.pm.tasks@[t].pid
        &&& forall|t: int|
            0 <= t < self.pm.tasks@.len() && (#[trigger] self.pm.tasks@[t]).pid != pid
                ==> post.pm.tasks@[t] == self.pm.tasks@[t]
    }

    /// A fresh kernel around the given portal page.
    pub fn new(portal_ppn: usize) -> (r: Kernel)
        requires
            portal_ppn < PPN_LIMIT,
        ensures
            r.wf(),
            r.pm.tasks@.len() == 0,
            r.pm.ready_queue@.len() == 0,
            r.pm.current is None,
            r.next_pid == 0,
            r.next_asid == 0,
            r.output@.len() == 0,
            r.input@.len() == 0,
            r.apps@.len() == 0,
            r.portal_ppn == portal_ppn,
    {
        Kernel {
            pm: ProcManager::new(),
            next_pid: 0,
            next_asid: 0,
            portal_ppn,
            output: Vec::new(),
            input: Vec::new(),
            apps: Vec::new(),
        }
    }

    /// Registers a program image under a name for exec to find.
    pub fn register_app(&mut self, name: Vec<u8>, image: Image)
        requires
            old(self).wf(),
        ensures
            final(self).wf(),
            final(self).apps@.len() == old(self).apps@.len() + 1,
            final(self).apps@[old(self).apps@.len() as int].name == name,
            final(self).apps@[old(self).apps@.len() as int].image == image,
            forall|i: int|
                0 <= i < old(self).apps@.len() ==> final(self).apps@[i] == old(self).apps@[i],
            final(self).pm == old(self).pm,
            final(self).output == old(self).output,
            final(self).input == old(self).input,
            final(self).next_pid == old(self).next_pid,
            final(self).next_asid == old(self).next_asid,
    {
        self.apps.push(App { name, image });
    }

    /// Queues one byte of console input.
    pub fn feed_input(&mut self, b: u8)
        requires
            old(self).wf(),
        ensures
            final(self).wf(),
            final(self).input@ == old(self).input@.push(b),
            final(self).pm == old(self).pm,
            final(self).output == old(self).output,
            final(self).apps == old(self).apps,
            final(self).next_pid == old(self).next_pid,
            final(self).next_asid == old(self).next_asid,
    {
        self.input.push(b);
    }

    /// Table index of a live process.
    fn task_index(&self, pid: usize) -> (r: usize)
        requires
            self.wf(),
            self.has_proc(pid as int),
        ensures
            r < self.pm.tasks@.len(),
            self.pm.tasks@[r as int].pid == pid,
            idx_of(self.pm.tasks@, pid as int) == r,
            self.pm.tasks@[r as int] == self.proc(pid as int),
    {
        let i_opt = self.pm.find_index(pid);
        match i_opt {
            Some(i) => i,
            None => {
                proof {
                    assert(false);
                }
                0
            },
        }
    }

    /// Copies `count` user bytes starting at `vaddr` out of the
    /// process's space, provided every byte is accessible for `req`;
    /// reports failure otherwise. A syscall handler only ever reads
    /// the calling process's own space.
    pub fn read_user_bytes(&self, pid: usize, vaddr: usize, count: usize, req: VmFlags) -> (r:
        Option<Vec<u8>>)
        requires
            self.wf(),
            self.has_proc(pid as int),
            vaddr + count <= VADDR_LIMIT,
        ensures
            r is Some <==> user_range_ok(
                self.proc(pid as int).address_space,
                vaddr as int,
                count as int,
                req,
            ),
            r matches Some(v) ==> v@.len() == count && forall|k: int|
                0 <= k < count ==> #[trigger] v@[k] == self.proc(pid as int).address_space.byte_at(
                    vaddr + k,
                ),
    {
        let ti = self.task_index(pid);
        self.pm.tasks[ti].read_bytes(vaddr, count, req)
    }

    /// Writes the given bytes at `vaddr` into the process's space,
    /// all or nothing: succeeds, depositing every byte, exactly when
    /// the whole range is accessible for `req`; otherwise nothing
    /// anywhere changes. Every other process, the scheduler state and
    /// the console channels are untouched either way.
    pub fn write_user_bytes(&mut self, pid: usize, vaddr: usize, data: &Vec<u8>, req: VmFlags) -> (r:
        bool)
        requires
            old(self).wf(),
            old(self).has_proc(pid as int),
            vaddr + data@.len() <= VADDR_LIMIT,
        ensures
            final(self).wf(),
            r == user_range_ok(
                old(self).proc(pid as int).address_space,
                vaddr as int,
                data@.len() as int,
                req,
            ),
            old(self).others_unchanged(*final(self), pid as int),
            old(self).same_env(*final(self)),
            final(self).pm.ready_queue == old(self).pm.ready_queue,
            final(self).pm.current == old(self).pm.current,
            final(self).has_proc(pid as int),
            mem_only_change(old(self).proc(pid as int), final(self).proc(pid as int)),
            !r ==> final(self).proc(pid as int) == old(self).proc(pid as int),
            r ==> forall|k: int|
                0 <= k < data@.len() ==> #[trigger] final(self).proc(
                    pid as int,
                ).address_space.byte_at(vaddr + k) == data@[k],
            forall|a: int|
                (a < vaddr || a >= vaddr + data@.len()) && 0 <= a && old(self).proc(
                    pid as int,
                ).address_space.owned_at(a / PAGE_SIZE as int) ==> #[trigger] final(self).proc(
                    pid as int,
                ).address_space.byte_at(a) == old(self).proc(pid as int).address_space.byte_at(a),
    {
        let ti = self.task_index(pid);
        let tref = &mut self.pm.tasks[ti];
        let r = tref.write_bytes(vaddr, data, req);
        proof {
            self.lemma_restore_after_task_update(*old(self), ti as int, pid as int);
        }
        r
    }

    /// After one table slot was updated with its pid, finished flag,
    /// priority and well-formedness preserved, the kernel invariant
    /// and the frame conditions hold again.
    proof fn lemma_restore_after_task_update(self, pre: Kernel, ti: int, pid: int)
        requires
            pre.wf(),
            0 <= ti < pre.pm.tasks@.len(),
            pre.pm.tasks@[ti].pid == pid,
            self.pm.tasks@.len() == pre.pm.tasks@.len(),
            forall|t: int| 0 <= t < pre.pm.tasks@.len() && t != ti ==> self.pm.tasks@[t]
                == pre.pm.tasks@[t],
            self.pm.tasks@[ti].wf(),
            self.pm.tasks@[ti].pid == pid,
            self.pm.tasks@[ti].finished == pre.pm.tasks@[ti].finished,
            self.pm.ready_queue == pre.pm.ready_queue,
            self.pm.current == pre.pm.current,
            self.next_pid == pre.next_pid,
            self.next_asid == pre.next_asid,
            self.portal_ppn == pre.portal_ppn,
        ensures
            self.wf(),
            pre.others_unchanged(self, pid),
            self.has_proc(pid),
            self.proc(pid) == self.pm.tasks@[ti],
            pre.proc(pid) == pre.pm.tasks@[ti],
            forall|other: int|
                has_pid(pre.pm.tasks@, other) && other != pid ==> self.has_proc(other)
                    && self.proc(other) == pre.proc(other),
    {
        let olds = pre.pm.tasks@;
        let news = self.pm.tasks@;
        lemma_pid_unique(olds, ti, pid);
        assert forall|t: int| 0 <= t < news.len() implies (#[trigger] news[t]).pid
            == olds[t].pid by {
            if t != ti {
                assert(news[t] == olds[t]);
            }
        }
        assert forall|u: int, w: int| 0 <= u < w < news.len() implies (#[trigger] news[u]).pid != (
        #[trigger] news[w]).pid by {
            assert(olds[u].pid != olds[w].pid);
        }
        assert forall|t: int| 0 <= t < news.len() implies (#[trigger] news[t]).wf() by {
            if t != ti {
                assert(olds[t].wf());
            }
        }
        lemma_pid_unique(news, ti, pid);
        assert forall|q: int| 0 <= q < self.pm.ready_queue@.len() implies has_pid(
            news,
            #[trigger] self.pm.ready_queue@[q] as int,
        ) && !proc_of(news, self.pm.ready_queue@[q] as int).finished by {
            let qpid = self.pm.ready_queue@[q] as int;
            assert(has_pid(olds, qpid));
            let t = idx_of(olds, qpid);
            lemma_pid_unique(olds, t, qpid);
            assert(news[t].pid == qpid);
            lemma_pid_unique(news, t, qpid);
            assert(news[t].finished == olds[t].finished);
        }
        match self.pm.current {
            Some(c) => {
                assert(has_pid(olds, c as int));
                let t = idx_of(olds, c as int);
                lemma_pid_unique(olds, t, c as int);
                assert(news[t].pid == c);
                lemma_pid_unique(news, t, c as int);
            },
            None => {},
        }
        assert forall|i: int| 0 <= i < news.len() implies (#[trigger] news[i]).pid
            < self.next_pid by {
            assert(olds[i].pid < pre.next_pid);
        }
        assert forall|other: int|
            has_pid(olds, other) && other != pid implies self.has_proc(other) && self.proc(other)
            == pre.proc(other) by {
            let t = idx_of(olds, other);
            lemma_pid_unique(olds, t, other);
            assert(news[t].pid == other);
            lemma_pid_unique(news, t, other);
            assert(news[t] == olds[t]);
        }
    }

    /// Handles the write syscall: sends `count` bytes from the
    /// caller's buffer at `buf` to the console when the descriptor is
    /// standard or debug output and every byte is readable; returns
    /// the count then, and -1 on a bad descriptor or an inaccessible
    /// buffer. The process table is never touched.
    pub fn write(&mut self, pid: usize, fd: usize, buf: usize, count: usize) -> (r: isize)
        requires
            old(self).wf(),
            old(self).has_proc(pid as int),
        ensures
            final(self).wf(),
            ({
                let ok = (fd == STDOUT || fd == STDDEBUG) && buf + count <= VADDR_LIMIT
                    && user_range_ok(
                    old(self).proc(pid as int).address_space,
                    buf as int,
                    count as int,
                    read_req(),
                );
                &&& r == if ok {
                    count as isize
                } else {
                    -1isize
                }
                &&& (ok ==> final(self).output@ == old(self).output@ + user_bytes(
                    old(self).proc(pid as int).address_space,
                    buf as int,
                    count as int,
                ))
                &&& (!ok ==> final(self).output == old(self).output)
            }),
            final(self).pm == old(self).pm,
            final(self).input == old(self).input,
            final(self).apps == old(self).apps,
            final(self).next_pid == old(self).next_pid,
            final(self).next_asid == old(self).next_asid,
    {
        if !(fd == STDOUT || fd == STDDEBUG) {
            return -1;
        }
        if count > VADDR_LIMIT || buf > VADDR_LIMIT - count {
            return -1;
        }
        let req = VmFlags {
            valid: true,
            readable: true,
            writable: false,
            executable: false,
            user: false,
            global: false,
            owned: false,
        };
        let got = self.read_user_bytes(pid, buf, count, req);
        match got {
            None => -1,
            Some(bytes) => {
                let ghost out0 = self.output@;
                let mut k: usize = 0;
                while k < count
                    invariant
                        k <= count,
                        count == bytes@.len(),
                        out0 == old(self).output@,
                        self.output@ == out0 + bytes@.take(k as int),
                        self.pm == old(self).pm,
                        self.input == old(self).input,
                        self.apps == old(self).apps,
                        self.next_pid == old(self).next_pid,
                        self.next_asid == old(self).next_asid,
                        self.portal_ppn == old(self).portal_ppn,
                        old(self).wf(),
                    decreases count - k,
                {
                    self.output.push(bytes[k]);
                    proof {
                        assert(self.output@ =~= out0 + bytes@.take(k + 1));
                    }
                    k = k + 1;
                }
                proof {
                    assert(bytes@.take(count as int) =~= bytes@);
                    assert(bytes@ =~= user_bytes(
                        self.proc(pid as int).address_space,
                        buf as int,
                        count as int,
                    ));
                }
                count as isize
            },
        }
    }

    /// Handles the read syscall: moves the next `count` queued input
    /// bytes into the caller's buffer at `buf` when the descriptor is
    /// standard input, the whole buffer is writable, and that much
    /// input is waiting; returns the count then, and -1 otherwise
    /// with nothing consumed or written.
    pub fn read(&mut self, pid: usize, fd: usize, buf: usize, count: usize) -> (r: isize)
        requires
            old(self).wf(),
            old(self).has_proc(pid as int),
        ensures
            final(self).wf(),
            ({
                let ok = fd == STDIN && buf + count <= VADDR_LIMIT && user_range_ok(
                    old(self).proc(pid as int).address_space,
                    buf as int,
                    count as int,
                    write_req(),
                ) && old(self).input@.len() >= count;
                &&& r == if ok {
                    count as isize
                } else {
                    -1isize
                }
                &&& (!ok ==> {
                    &&& final(self).input == old(self).input
                    &&& final(self).output == old(self).output
                    &&& final(self).apps == old(self).apps
                    &&& final(self).next_pid == old(self).next_pid
                    &&& final(self).pm.ready_queue == old(self).pm.ready_queue
                    &&& final(self).pm.current == old(self).pm.current
                    &&& old(self).others_unchanged(*final(self), pid as int)
                    &&& final(self).proc(pid as int) == old(self).proc(pid as int)
                })
                &&& (ok ==> {
                    &&& final(self).input@ == old(self).input@.skip(count as int)
                    &&& forall|k: int|
                        0 <= k < count ==> #[trigger] final(self).proc(
                            pid as int,
                        ).address_space.byte_at(buf + k) == old(self).input@[k]
                    &&& mem_only_change(
                        old(self).proc(pid as int),
                        final(self).proc(pid as int),
                    )
                    &&& old(self).others_unchanged(*final(self), pid as int)
                    &&& final(self).output == old(self).output
                    &&& final(self).apps == old(self).apps
                    &&& final(self).next_pid == old(self).next_pid
                    &&& final(self).pm.ready_queue == old(self).pm.ready_queue
                    &&& final(self).pm.current == old(self).pm.current
                })
            }),
            final(self).has_proc(pid as int),
    {
        if fd != STDIN {
            return -1;
        }
        if count > VADDR_LIMIT || buf > VADDR_LIMIT - count {
            return -1;
        }
        if self.input.len() < count {
            return -1;
        }
        let mut prefix: Vec<u8> = Vec::new();
        let mut k: usize = 0;
        while k < count
            invariant
                k <= count,
                count <= self.input@.len(),
                prefix@.len() == k,
                forall|k2: int| 0 <= k2 < k ==> #[trigger] prefix@[k2] == self.input@[k2],
            decreases count - k,
        {
            prefix.push(self.input[k]);
            k = k + 1;
        }
        let req = VmFlags {
            valid: true,
            readable: false,
            writable: true,
            executable: false,
            user: false,
            global: false,
            owned: false,
        };
        let wrote = self.write_user_bytes(pid, buf, &prefix, req);
        if !wrote {
            return -1;
        }
        let n = self.input.len();
        let mut rest: Vec<u8> = Vec::new();
        let mut k: usize = count;
        while k < n
            invariant
                count <= k <= n,
                n == self.input@.len(),
                rest@.len() == k - count,
                forall|k2: int|
                    0 <= k2 < k - count ==> #[trigger] rest@[k2] == self.input@[count + k2],
            decreases n - k,
        {
            rest.push(self.input[k]);
            k = k + 1;
        }
        self.input = rest;
        proof {
            assert(self.input@ =~= old(self).input@.skip(count as int));
        }
        count as isize
    }

    /// Handles the getpid syscall: the caller's own pid.
    pub fn getpid(&self, pid: usize) -> (r: isize)
        requires
            self.wf(),
            self.has_proc(pid as int),
        ensures
            r == pid as isize,
    {
        pid as isize
    }

    /// Handles the spawn syscall, which is reserved and not
    /// implemented: always rejected.
    pub fn spawn(&self, pid: usize) -> (r: isize)
        requires
            self.wf(),
            self.has_proc(pid as int),
        ensures
            r == -1,
    {
        -1
    }

    /// Handles the yield syscall: the caller gives up the processor
    /// voluntarily; re-queueing is the dispatch loop's business, the
    /// call itself just succeeds.
    pub fn sched_yield(&self, pid: usize) -> (r: isize)
        requires
            self.wf(),
            self.has_proc(pid as int),
        ensures
            r == 0,
    {
        0
    }

    /// Handles the sbrk syscall: moves the caller's program break,
    /// returning the old break, or -1 leaving the process untouched
    /// when the move is rejected.
    pub fn sbrk(&mut self, pid: usize, size_raw: usize) -> (r: isize)
        requires
            old(self).wf(),
            old(self).has_proc(pid as int),
        ensures
            final(self).wf(),
            r == if brk_change_ok(old(self).proc(pid as int), size_raw as i32 as int) {
                old(self).proc(pid as int).program_brk as isize
            } else {
                -1isize
            },
            old(self).others_unchanged(*final(self), pid as int),
            old(self).same_env(*final(self)),
            final(self).pm.ready_queue == old(self).pm.ready_queue,
            final(self).pm.current == old(self).pm.current,
            final(self).has_proc(pid as int),
            r == -1 ==> final(self).proc(pid as int) == old(self).proc(pid as int),
            r != -1 ==> final(self).proc(pid as int).program_brk == old(self).proc(
                pid as int,
            ).program_brk + size_raw as i32,
            final(self).proc(pid as int).heap_bottom == old(self).proc(pid as int).heap_bottom,
            final(self).proc(pid as int).pid == pid,
            final(self).proc(pid as int).finished == old(self).proc(pid as int).finished,
            final(self).proc(pid as int).stride == old(self).proc(pid as int).stride,
            final(self).proc(pid as int).priority == old(self).proc(pid as int).priority,
            final(self).proc(pid as int).context == old(self).proc(pid as int).context,
            final(self).proc(pid as int).syscall_count == old(self).proc(
                pid as int,
            ).syscall_count,
    {
        let size = size_raw as i32;
        let ti = self.task_index(pid);
        let tref = &mut self.pm.tasks[ti];
        let res = tref.change_program_brk(size);
        proof {
            self.lemma_restore_after_task_update(*old(self), ti as int, pid as int);
        }
        match res {
            Some(old_brk) => old_brk as isize,
            None => -1,
        }
    }

    /// Handles the set-priority syscall: installs the new scheduling
    /// weight and returns it, or -1 leaving everything untouched when
    /// the weight is below one.
    pub fn set_priority(&mut self, pid: usize, prio_raw: usize) -> (r: isize)
        requires
            old(self).wf(),
            old(self).has_proc(pid as int),
        ensures
            final(self).wf(),
            r == if prio_raw as isize >= 1 {
                prio_raw as isize
            } else {
                -1isize
            },
            old(self).others_unchanged(*final(self), pid as int),
            old(self).same_env(*final(self)),
            final(self).pm.ready_queue == old(self).pm.ready_queue,
            final(self).pm.current == old(self).pm.current,
            final(self).has_proc(pid as int),
            r == -1 ==> final(self).proc(pid as int) == old(self).proc(pid as int),
            r != -1 ==> final(self).proc(pid as int) == (Process {
                priority: (prio_raw as isize) as u64,
                ..old(self).proc(pid as int)
            }),
    {
        let prio = prio_raw as isize;
        if prio < 1 {
            return -1;
        }
        let ti = self.task_index(pid);
        let tref = &mut self.pm.tasks[ti];
        tref.priority = prio as u64;
        proof {
            self.lemma_restore_after_task_update(*old(self), ti as int, pid as int);
        }
        prio
    }

    /// Handles the fork syscall: duplicates the calling process under
    /// a fresh pid, registers the child with parent linkage and
    /// queues it, and returns the new pid to the parent's continued
    /// flow; the child's own return-value register is zero. Fails
    /// with -1, changing nothing, when the pid or address-space
    /// identifiers are spent.
    pub fn fork(&mut self, pid: usize) -> (r: isize)
        requires
            old(self).wf(),
            old(self).has_proc(pid as int),
            !old(self).proc(pid as int).finished,
        ensures
            final(self).wf(),
            ({
                let ok = old(self).next_pid < PID_LIMIT && old(self).next_asid < ASID_LIMIT;
                &&& r == if ok {
                    old(self).next_pid as isize
                } else {
                    -1isize
                }
                &&& (!ok ==> *final(self) == *old(self))
                &&& (ok ==> {
                    let child = final(self).proc(old(self).next_pid as int);
                    let parent = old(self).proc(pid as int);
                    &&& final(self).next_pid == old(self).next_pid + 1
                    &&& final(self).next_asid == old(self).next_asid + 1
                    &&& final(self).has_proc(old(self).next_pid as int)
                    &&& child.pid == old(self).next_pid
                    &&& child.parent == pid
                    &&& child.context.ctx.regs[0] == 0
                    &&& (forall|j: int|
                        1 <= j < 8 ==> child.context.ctx.regs[j] == parent.context.ctx.regs[j])
                    &&& child.context.ctx.pc == parent.context.ctx.pc
                    &&& child.context.ctx.sp == parent.context.ctx.sp
                    &&& child.heap_bottom == parent.heap_bottom
                    &&& child.program_brk == parent.program_brk
                    &&& child.stride == 0
                    &&& child.priority == parent.priority
                    &&& !child.finished
                    &&& (forall|vpn: int| #[trigger]
                        page_state_eq(
                            parent.address_space.areas@,
                            child.address_space.areas@,
                            vpn,
                        ))
                    &&& final(self).pm.ready_queue@ == old(self).pm.ready_queue@.push(
                        old(self).next_pid,
                    )
                    &&& final(self).pm.current == old(self).pm.current
                    &&& final(self).pm.tasks@.len() == old(self).pm.tasks@.len() + 1
                    &&& (forall|t: int|
                        0 <= t < old(self).pm.tasks@.len() ==> final(self).pm.tasks@[t] == old(
                            self,
                        ).pm.tasks@[t])
                    &&& final(self).output == old(self).output
                    &&& final(self).input == old(self).input
                    &&& final(self).apps == old(self).apps
                })
            }),
    {
        if self.next_pid >= PID_LIMIT || self.next_asid >= ASID_LIMIT {
            return -1;
        }
        let ti = self.task_index(pid);
        let newpid = self.next_pid;
        let child = self.pm.tasks[ti].fork(newpid, self.next_asid);
        proof {
            if has_pid(self.pm.tasks@, newpid as int) {
                let t = idx_of(self.pm.tasks@, newpid as int);
            }
        }
        self.pm.insert(child);
        proof {
            lemma_pid_unique(self.pm.tasks@, self.pm.tasks@.len() - 1, newpid as int);
            assert forall|q: int| 0 <= q < self.pm.ready_queue@.len() implies self.pm
                .ready_queue@[q] != newpid by {
                let qpid = self.pm.ready_queue@[q] as int;
                assert(has_pid(old(self).pm.tasks@, qpid));
                let t = idx_of(old(self).pm.tasks@, qpid);
                assert(old(self).pm.tasks@[t].pid < old(self).next_pid);
            }
        }
        self.pm.add(newpid);
        self.next_pid = self.next_pid + 1;
        self.next_asid = self.next_asid + 1;
        proof {
            assert forall|i: int| 0 <= i < self.pm.tasks@.len() implies (
            #[trigger] self.pm.tasks@[i]).pid < self.next_pid by {
                if i < self.pm.tasks@.len() - 1 {
                    assert(old(self).pm.tasks@[i].pid < old(self).next_pid);
                }
            }
        }
        newpid as isize
    }

    /// First finished child of `caller` matching `target`, if any.
    fn find_child_index(&self, caller: usize, target: isize) -> (r: Option<usize>)
        requires
            self.wf(),
        ensures
            ({
                let m = find_child(self.pm.tasks@, caller as int, target as int, 0);
                match r {
                    Some(i) => m == Some(i as int) && 0 <= i < self.pm.tasks@.len()
                        && self.pm.tasks@[i as int].parent == caller
                        && self.pm.tasks@[i as int].finished && (target == -1
                        || self.pm.tasks@[i as int].pid == target),
                    None => m is None,
                }
            }),
    {
        let n = self.pm.tasks.len();
        let mut i: usize = 0;
        while i < n
            invariant
                self.wf(),
                i <= n,
                n == self.pm.tasks@.len(),
                find_child(self.pm.tasks@, caller as int, target as int, 0) == find_child(
                    self.pm.tasks@,
                    caller as int,
                    target as int,
                    i as int,
                ),
            decreases n - i,
        {
            let t = &self.pm.tasks[i];
            if t.parent == caller && t.finished && (target == -1 || (target >= 0 && t.pid
                == target as usize)) {
                proof {
                    assert(self.pm.tasks@[i as int].pid == target || target == -1 || !(target
                        >= 0)) by {
                        if target >= 0 && t.pid == target as usize {
                        }
                    }
                }
                return Some(i);
            }
            i = i + 1;
        }
        None
    }

    /// Handles the wait syscall: reaps any already-finished child
    /// matching `target` (`-1` waits for any child), writing its
    /// exit status to the caller-supplied pointer when that pointer
    /// is writable, and returns the reaped pid; returns -1, changing
    /// nothing, when no finished child matches — the caller must
    /// retry later.
    pub fn wait(&mut self, pid: usize, target: isize, status_ptr: usize) -> (r: isize)
        requires
            old(self).wf(),
            old(self).has_proc(pid as int),
            !old(self).proc(pid as int).finished,
            old(self).pm.current matches Some(c) ==> c == pid,
        ensures
            final(self).wf(),
            ({
                let m = find_child(old(self).pm.tasks@, pid as int, target as int, 0);
                match m {
                    Option::None => r == -1 && *final(self) == *old(self),
                    Option::Some(mi) => {
                        let child = old(self).pm.tasks@[mi];
                        let writable = status_ptr + 4 <= VADDR_LIMIT && user_range_ok(
                            old(self).proc(pid as int).address_space,
                            status_ptr as int,
                            4,
                            write_req(),
                        );
                        &&& r == child.pid as isize
                        &&& !final(self).has_proc(child.pid as int)
                        &&& (forall|other: int|
                            other != child.pid && #[trigger] old(self).has_proc(other)
                                ==> final(self).has_proc(other))
                        &&& (forall|other: int|
                            other != child.pid && other != pid && #[trigger] old(self).has_proc(
                                other) ==> final(self).proc(other) == old(self).proc(other))
                        &&& mem_only_change(
                            old(self).proc(pid as int),
                            final(self).proc(pid as int),
                        )
                        &&& (writable ==> forall|k: int|
                            0 <= k < 4 ==> #[trigger] final(self).proc(
                                pid as int,
                            ).address_space.byte_at(status_ptr + k) == i32_le_byte(
                                child.exit_code as i32,
                                k,
                            ))
                        &&& (!writable ==> final(self).proc(pid as int) == old(self).proc(
                            pid as int,
                        ))
                        &&& final(self).pm.ready_queue == old(self).pm.ready_queue
                        &&& final(self).pm.current == old(self).pm.current
                        &&& final(self).output == old(self).output
                        &&& final(self).input == old(self).input
                        &&& final(self).apps == old(self).apps
                        &&& final(self).next_pid == old(self).next_pid
                        &&& final(self).next_asid == old(self).next_asid
                    },
                }
            }),
    {
        let found = self.find_child_index(pid, target);
        match found {
            None => -1,
            Some(mi) => {
                let child_pid = self.pm.tasks[mi].pid;
                let code = self.pm.tasks[mi].exit_code;
                proof {
                    lemma_pid_unique(self.pm.tasks@, mi as int, child_pid as int);
                    assert(child_pid != pid);
                }
                if status_ptr <= VADDR_LIMIT - 4 {
                    let bytes = i32_le_bytes(code as i32);
                    let req = VmFlags {
                        valid: true,
                        readable: false,
                        writable: true,
                        executable: false,
                        user: false,
                        global: false,
                        owned: false,
                    };
                    let _wrote = self.write_user_bytes(pid, status_ptr, &bytes, req);
                } else {
                }
                proof {
                    assert forall|q: int| 0 <= q < self.pm.ready_queue@.len() implies self.pm
                        .ready_queue@[q] != child_pid by {
                        let qpid = self.pm.ready_queue@[q] as int;
                        assert(has_pid(self.pm.tasks@, qpid) && !proc_of(
                            self.pm.tasks@,
                            qpid,
                        ).finished);
                        if qpid == child_pid {
                            let t = idx_of(self.pm.tasks@, qpid);
                            lemma_pid_unique(self.pm.tasks@, mi as int, child_pid as int);
                        }
                    }
                }
                let ghost before_del = *self;
                self.pm.delete(child_pid);
                proof {
                    assert forall|i: int| 0 <= i < self.pm.tasks@.len() implies (
                    #[trigger] self.pm.tasks@[i]).pid < self.next_pid by {
                        let p = self.pm.tasks@[i].pid as int;
                        lemma_pid_unique(self.pm.tasks@, i, p);
                        assert(has_pid(before_del.pm.tasks@, p));
                        let t = idx_of(before_del.pm.tasks@, p);
                        assert(before_del.pm.tasks@[t].pid < before_del.next_pid);
                    }
                }
                child_pid as isize
            },
        }
    }

    /// First registered image carrying exactly the given name.
    fn app_index(&self, nm: &Vec<u8>) -> (r: Option<usize>)
        requires
            self.wf(),
        ensures
            ({
                let m = find_app(self.apps@, nm@, 0);
                match r {
                    Some(i) => m == Some(i as int) && 0 <= i < self.apps@.len()
                        && self.apps@[i as int].name@ == nm@,
                    None => m is None,
                }
            }),
    {
        let n = self.apps.len();
        let mut i: usize = 0;
        while i < n
            invariant
                i <= n,
                n == self.apps@.len(),
                find_app(self.apps@, nm@, 0) == find_app(self.apps@, nm@, i as int),
            decreases n - i,
        {
            if bytes_equal(&self.apps[i].name, nm) {
                return Some(i);
            }
            i = i + 1;
        }
        None
    }

    /// Handles the exec syscall: reads the program name of `count`
    /// bytes at `path` from the caller's memory, looks it up among
    /// the registered images, and replaces the caller's address
    /// space, context and heap in place; nothing of the old mappings
    /// is inherited and the same pid continues at the new entry
    /// point. Returns 0 then; returns -1, changing nothing, when the
    /// name is unreadable or unknown, the image is not loadable, or
    /// the address-space identifiers are spent.
    pub fn exec(&mut self, pid: usize, path: usize, count: usize) -> (r: isize)
        requires
            old(self).wf(),
            old(self).has_proc(pid as int),
        ensures
            final(self).wf(),
            ({
                let readable = path + count <= VADDR_LIMIT && user_range_ok(
                    old(self).proc(pid as int).address_space,
                    path as int,
                    count as int,
                    read_req(),
                );
                let nm = user_bytes(
                    old(self).proc(pid as int).address_space,
                    path as int,
                    count as int,
                );
                let m = find_app(old(self).apps@, nm, 0);
                let ok = readable && m is Some && loadable(
                    old(self).apps@[m.unwrap()].image,
                ) && old(self).next_asid < ASID_LIMIT;
                &&& r == if ok {
                    0isize
                } else {
                    -1isize
                }
                &&& (!ok ==> {
                    &&& final(self).has_proc(pid as int)
                    &&& final(self).proc(pid as int) == old(self).proc(pid as int)
                    &&& old(self).others_unchanged(*final(self), pid as int)
                    &&& old(self).same_env(*final(self))
                    &&& final(self).pm.ready_queue == old(self).pm.ready_queue
                    &&& final(self).pm.current == old(self).pm.current
                })
                &&& (ok ==> {
                    &&& final(self).has_proc(pid as int)
                    &&& loaded_state(
                        final(self).proc(pid as int).address_space,
                        final(self).proc(pid as int).context,
                        final(self).proc(pid as int).heap_bottom as int,
                        final(self).proc(pid as int).program_brk as int,
                        old(self).apps@[m.unwrap()].image,
                        old(self).next_asid as int,
                        old(self).portal_ppn as int,
                    )
                    &&& final(self).proc(pid as int).pid == pid
                    &&& final(self).proc(pid as int).parent == old(self).proc(
                        pid as int,
                    ).parent
                    &&& final(self).proc(pid as int).stride == old(self).proc(
                        pid as int,
                    ).stride
                    &&& final(self).proc(pid as int).priority == old(self).proc(
                        pid as int,
                    ).priority
                    &&& final(self).proc(pid as int).finished == old(self).proc(
                        pid as int,
                    ).finished
                    &&& final(self).proc(pid as int).syscall_count == old(self).proc(
                        pid as int,
                    ).syscall_count
                    &&& old(self).others_unchanged(*final(self), pid as int)
                    &&& final(self).next_asid == old(self).next_asid + 1
                    &&& final(self).next_pid == old(self).next_pid
                    &&& final(self).output == old(self).output
                    &&& final(self).input == old(self).input
                    &&& final(self).apps == old(self).apps
                    &&& final(self).pm.ready_queue == old(self).pm.ready_queue
                    &&& final(self).pm.current == old(self).pm.current
                })
            }),
    {
        if count > VADDR_LIMIT || path > VADDR_LIMIT - count {
            return -1;
        }
        let got = self.read_user_bytes(pid, path, count, VmFlags {
            valid: true,
            readable: true,
            writable: false,
            executable: false,
            user: false,
            global: false,
            owned: false,
        });
        let nm = match got {
            Some(v) => v,
            None => {
                return -1;
            },
        };
        proof {
            assert(nm@ =~= user_bytes(
                self.proc(pid as int).address_space,
                path as int,
                count as int,
            ));
        }
        let ai = match self.app_index(&nm) {
            Some(a) => a,
            None => {
                return -1;
            },
        };
        if self.next_asid >= ASID_LIMIT {
            return -1;
        }
        let ti = self.task_index(pid);
        let tref = &mut self.pm.tasks[ti];
        let res = tref.exec(&self.apps[ai].image, self.next_asid, self.portal_ppn);
        proof {
            self.lemma_restore_after_task_update(*old(self), ti as int, pid as int);
        }
        match res {
            Ok(()) => {
                self.next_asid = self.next_asid + 1;
                0
            },
            Err(_) => -1,
        }
    }

    /// Handles the clock syscall: converts the hardware tick count to
    /// seconds and nanoseconds at a fixed scale and writes the pair,
    /// two 64-bit little-endian words, at the caller's pointer.
    /// Returns 0 then; -1, changing nothing, on any clock but the
    /// monotonic one or an unwritable pointer.
    pub fn clock_gettime(&mut self, pid: usize, clock_id: usize, tp: usize, ticks: u64) -> (r:
        isize)
        requires
            old(self).wf(),
            old(self).has_proc(pid as int),
            ticks as int * 10000 <= u64::MAX as int,
        ensures
            final(self).wf(),
            ({
                let ok = clock_id == crate::syscall::CLOCK_MONOTONIC && tp + 16 <= VADDR_LIMIT
                    && user_range_ok(
                    old(self).proc(pid as int).address_space,
                    tp as int,
                    16,
                    write_req(),
                );
                let time = ticks as int * 10000 / 125;
                let sec = time / 1000000000;
                let nsec = time % 1000000000;
                &&& r == if ok {
                    0isize
                } else {
                    -1isize
                }
                &&& (!ok ==> {
                    &&& final(self).has_proc(pid as int)
                    &&& final(self).proc(pid as int) == old(self).proc(pid as int)
                    &&& old(self).others_unchanged(*final(self), pid as int)
                    &&& old(self).same_env(*final(self))
                    &&& final(self).pm.ready_queue == old(self).pm.ready_queue
                    &&& final(self).pm.current == old(self).pm.current
                })
                &&& (ok ==> {
                    &&& (forall|k: int|
                        0 <= k < 8 ==> #[trigger] final(self).proc(
                            pid as int,
                        ).address_space.byte_at(tp + k) == u64_le_byte(sec as u64, k))
                    &&& (forall|k: int|
                        8 <= k < 16 ==> #[trigger] final(self).proc(
                            pid as int,
                        ).address_space.byte_at(tp + k) == u64_le_byte(nsec as u64, k - 8))
                    &&& mem_only_change(
                        old(self).proc(pid as int),
                        final(self).proc(pid as int),
                    )
                    &&& old(self).others_unchanged(*final(self), pid as int)
                    &&& old(self).same_env(*final(self))
                    &&& final(self).pm.ready_queue == old(self).pm.ready_queue
                    &&& final(self).pm.current == old(self).pm.current
                })
            }),
    {
        if clock_id != crate::syscall::CLOCK_MONOTONIC {
            return -1;
        }
        if tp > VADDR_LIMIT - 16 {
            return -1;
        }
        let time = ticks * 10000 / 125;
        let sec = time / 1000000000;
        let nsec = time % 1000000000;
        let mut bytes = u64_le_bytes(sec);
        let lo = u64_le_bytes(nsec);
        let mut k: usize = 0;
        while k < 8
            invariant
                k <= 8,
                lo@.len() == 8,
                bytes@.len() == 8 + k,
                forall|k2: int| 0 <= k2 < 8 ==> #[trigger] bytes@[k2] == u64_le_byte(sec, k2),
                forall|k2: int|
                    8 <= k2 < 8 + k ==> #[trigger] bytes@[k2] == u64_le_byte(nsec, k2 - 8),
                forall|k2: int| 0 <= k2 < 8 ==> #[trigger] lo@[k2] == u64_le_byte(nsec, k2),
            decreases 8 - k,
        {
            bytes.push(lo[k]);
            k = k + 1;
        }
        let req = VmFlags {
            valid: true,
            readable: false,
            writable: true,
            executable: false,
            user: false,
            global: false,
            owned: false,
        };
        let wrote = self.write_user_bytes(pid, tp, &bytes, req);
        if wrote {
            0
        } else {
            -1
        }
    }

    /// Handles the trace syscall: request 0 reads one byte at a
    /// user-accessible readable address and returns it; request 1
    /// writes the low byte of `data` at a user-accessible writable
    /// address; request 2 returns the correlation record's
    /// pre-computed call count for the queried id. Anything else, or
    /// an inaccessible address, is -1.
    pub fn trace(&mut self, pid: usize, request: usize, addr: usize, data: usize, flow: u64) -> (r:
        isize)
        requires
            old(self).wf(),
            old(self).has_proc(pid as int),
        ensures
            final(self).wf(),
            final(self).has_proc(pid as int),
            old(self).others_unchanged(*final(self), pid as int),
            final(self).pm.ready_queue == old(self).pm.ready_queue,
            final(self).pm.current == old(self).pm.current,
            old(self).same_env(*final(self)),
            mem_only_change(old(self).proc(pid as int), final(self).proc(pid as int)),
            request == 0 ==> ({
                let ok = addr + 1 <= VADDR_LIMIT && byte_ok(
                    old(self).proc(pid as int).address_space,
                    addr as int,
                    user_read_req(),
                );
                &&& r == if ok {
                    old(self).proc(pid as int).address_space.byte_at(addr as int) as isize
                } else {
                    -1isize
                }
                &&& final(self).proc(pid as int) == old(self).proc(pid as int)
            }),
            request == 1 ==> ({
                let ok = addr + 1 <= VADDR_LIMIT && byte_ok(
                    old(self).proc(pid as int).address_space,
                    addr as int,
                    user_write_req(),
                );
                &&& r == if ok {
                    0isize
                } else {
                    -1isize
                }
                &&& (ok ==> final(self).proc(pid as int).address_space.byte_at(addr as int) == (
                data % 256) as u8)
                &&& (!ok ==> final(self).proc(pid as int) == old(self).proc(pid as int))
            }),
            request == 2 ==> r == flow as isize && final(self).proc(pid as int) == old(
                self,
            ).proc(pid as int),
            request > 2 ==> r == -1 && final(self).proc(pid as int) == old(self).proc(
                pid as int,
            ),
    {
        if request == 0 {
            if addr > VADDR_LIMIT - 1 {
                return -1;
            }
            let req = VmFlags {
                valid: true,
                readable: true,
                writable: false,
                executable: false,
                user: true,
                global: false,
                owned: false,
            };
            let got = self.read_user_bytes(pid, addr, 1, req);
            match got {
                Some(v) => {
                    proof {
                        assert(byte_ok(
                            self.proc(pid as int).address_space,
                            addr as int,
                            user_read_req(),
                        ));
                    }
                    v[0] as isize
                },
                None => {
                    proof {
                        if byte_ok(
                            self.proc(pid as int).address_space,
                            addr as int,
                            user_read_req(),
                        ) {
                            assert(user_range_ok(
                                self.proc(pid as int).address_space,
                                addr as int,
                                1,
                                user_read_req(),
                            )) by {
                                assert forall|a: int|
                                    addr <= a < addr + 1 implies #[trigger] byte_ok(
                                    self.proc(pid as int).address_space,
                                    a,
                                    user_read_req(),
                                ) by {}
                            }
                        }
                    }
                    -1
                },
            }
        } else if request == 1 {
            if addr > VADDR_LIMIT - 1 {
                return -1;
            }
            let mut one: Vec<u8> = Vec::new();
            one.push((data % 256) as u8);
            let req = VmFlags {
                valid: true,
                readable: false,
                writable: true,
                executable: false,
                user: true,
                global: false,
                owned: false,
            };
            let wrote = self.write_user_bytes(pid, addr, &one, req);
            proof {
                if byte_ok(
                    old(self).proc(pid as int).address_space,
                    addr as int,
                    user_write_req(),
                ) {
                    assert(user_range_ok(
                        old(self).proc(pid as int).address_space,
                        addr as int,
                        1,
                        user_write_req(),
                    )) by {
                        assert forall|a: int|
                            addr <= a < addr + 1 implies #[trigger] byte_ok(
                            old(self).proc(pid as int).address_space,
                            a,
                            user_write_req(),
                        ) by {}
                    }
                } else {
                    if user_range_ok(
                        old(self).proc(pid as int).address_space,
                        addr as int,
                        1,
                        user_write_req(),
                    ) {
                        assert(byte_ok(
                            old(self).proc(pid as int).address_space,
                            addr as int,
                            user_write_req(),
                        ));
                    }
                }
            }
            if wrote {
                proof {
                    assert(self.proc(pid as int).address_space.byte_at(addr + 0) == one@[0]);
                }
                0
            } else {
                -1
            }
        } else if request == 2 {
            flow as isize
        } else {
            -1
        }
    }

    /// Handles the mmap syscall: maps `len` bytes (rounded up to
    /// pages) of fresh zero-filled user memory at the page-aligned
    /// address `addr` with the protection bits (bit 0 read, bit 1
    /// write, bit 2 execute). Returns 0 on success and on a rounded
    /// length of zero; returns -1, leaving the caller's mappings
    /// exactly as they were, on a misaligned address, an empty or
    /// out-of-range protection mask, a range beyond the virtual
    /// space, any overlap with an existing area, or exhausted frames.
    pub fn mmap(&mut self, pid: usize, addr: usize, len: usize, prot: usize) -> (r: isize)
        requires
            old(self).wf(),
            old(self).has_proc(pid as int),
        ensures
            final(self).wf(),
            final(self).has_proc(pid as int),
            old(self).others_unchanged(*final(self), pid as int),
            old(self).same_env(*final(self)),
            final(self).pm.ready_queue == old(self).pm.ready_queue,
            final(self).pm.current == old(self).pm.current,
            r == if mmap_accepted(old(self).proc(pid as int), addr as int, len as int, prot as int) {
                0isize
            } else {
                -1isize
            },
            !mmap_accepted(old(self).proc(pid as int), addr as int, len as int, prot as int)
                ==> final(self).proc(pid as int) == old(self).proc(pid as int),
            crate::addr::spec_page_ceil(len as int) == 0 ==> final(self).proc(pid as int) == old(
                self).proc(pid as int),
            (mmap_accepted(old(self).proc(pid as int), addr as int, len as int, prot as int)
                && crate::addr::spec_page_ceil(len as int) > 0) ==> forall|vpn: int|
                addr as int / PAGE_SIZE as int <= vpn < addr as int / PAGE_SIZE as int
                    + crate::addr::spec_page_ceil(len as int) ==> #[trigger] final(self).proc(
                    pid as int,
                ).address_space.maps(vpn) && final(self).proc(pid as int).address_space.flags_at(
                    vpn,
                ) == VmFlags::spec_user_rwx(
                    prot % 2 == 1,
                    (prot / 2) % 2 == 1,
                    (prot / 4) % 2 == 1,
                ).spec_with_owned(),
            (mmap_accepted(old(self).proc(pid as int), addr as int, len as int, prot as int)
                && crate::addr::spec_page_ceil(len as int) > 0) ==> forall|a: int|
                (addr as int / PAGE_SIZE as int) * PAGE_SIZE <= a < (addr as int
                    / PAGE_SIZE as int + crate::addr::spec_page_ceil(len as int)) * PAGE_SIZE
                    ==> #[trigger] final(self).proc(pid as int).address_space.byte_at(a) == 0,
            (mmap_accepted(old(self).proc(pid as int), addr as int, len as int, prot as int)
                && crate::addr::spec_page_ceil(len as int) > 0) ==> crate::vm::unchanged_outside(
                old(self).proc(pid as int).address_space.areas@,
                final(self).proc(pid as int).address_space.areas@,
                addr as int / PAGE_SIZE as int,
                addr as int / PAGE_SIZE as int + crate::addr::spec_page_ceil(len as int),
            ),
            mmap_accepted(old(self).proc(pid as int), addr as int, len as int, prot as int)
                ==> final(self).proc(pid as int).program_brk == old(self).proc(
                pid as int,
            ).program_brk && final(self).proc(pid as int).context == old(self).proc(
                pid as int,
            ).context && final(self).proc(pid as int).syscall_count == old(self).proc(
                pid as int,
            ).syscall_count && final(self).proc(pid as int).finished == old(self).proc(
                pid as int,
            ).finished,
    {
        if addr % PAGE_SIZE != 0 {
            return -1;
        }
        if prot % 8 == 0 || prot >= 8 {
            return -1;
        }
        if len == 0 {
            return 0;
        }
        proof {
            lemma_ceil_positive(len as int);
        }
        if len > VADDR_LIMIT {
            return -1;
        }
        let pages = page_ceil_pages(len);
        let la = pages * PAGE_SIZE;
        if addr > VADDR_LIMIT - la {
            return -1;
        }
        let start = addr / PAGE_SIZE;
        let end = start + pages;
        let ti = self.task_index(pid);
        let empty: Vec<u8> = Vec::new();
        let fl = VmFlags::user_rwx(prot % 2 == 1, (prot / 2) % 2 == 1, (prot / 4) % 2 == 1);
        let tref = &mut self.pm.tasks[ti];
        let res = tref.address_space.map(start, end, &empty, 0, fl);
        proof {
            assert(self.pm.tasks@[ti as int].wf()) by {
                assert(old(self).pm.tasks@[ti as int].wf());
            }
            self.lemma_restore_after_task_update(*old(self), ti as int, pid as int);
        }
        match res {
            Ok(()) => {
                proof {
                    assert forall|vpn: int|
                        addr as int / PAGE_SIZE as int <= vpn < addr as int / PAGE_SIZE as int
                            + crate::addr::spec_page_ceil(len as int) implies #[trigger] self.proc(
                        pid as int,
                    ).address_space.maps(vpn) && self.proc(pid as int).address_space.flags_at(vpn)
                        == VmFlags::spec_user_rwx(
                        prot % 2 == 1,
                        (prot / 2) % 2 == 1,
                        (prot / 4) % 2 == 1,
                    ).spec_with_owned() by {
                        assert(start <= vpn < end);
                        assert(self.proc(pid as int).address_space.maps(vpn));
                    }
                }
                0
            },
            Err(e) => {
                proof {
                    assert(e != crate::vm::MapError::InvalidRange) by {
                        assert(crate::vm::map_range_ok(start as int, end as int, 0, 0));
                    }
                }
                -1
            },
        }
    }

    /// Handles the munmap syscall: removes the mappings of `len`
    /// bytes (rounded up to pages) at the page-aligned address
    /// `addr`. The range must be fully covered by existing mappings:
    /// partial coverage is an error, not a partial unmap. Returns 0
    /// on success and on a rounded length of zero; -1, changing
    /// nothing, on a misaligned address, a range beyond the virtual
    /// space, or incomplete coverage.
    pub fn munmap(&mut self, pid: usize, addr: usize, len: usize) -> (r: isize)
        requires
            old(self).wf(),
            old(self).has_proc(pid as int),
        ensures
            final(self).wf(),
            final(self).has_proc(pid as int),
            old(self).others_unchanged(*final(self), pid as int),
            old(self).same_env(*final(self)),
            final(self).pm.ready_queue == old(self).pm.ready_queue,
            final(self).pm.current == old(self).pm.current,
            r == if munmap_accepted(old(self).proc(pid as int), addr as int, len as int) {
                0isize
            } else {
                -1isize
            },
            !munmap_accepted(old(self).proc(pid as int), addr as int, len as int) ==> final(
                self).proc(pid as int) == old(self).proc(pid as int),
            crate::addr::spec_page_ceil(len as int) == 0 ==> final(self).proc(pid as int) == old(
                self).proc(pid as int),
            (munmap_accepted(old(self).proc(pid as int), addr as int, len as int)
                && crate::addr::spec_page_ceil(len as int) > 0) ==> forall|vpn: int| #[trigger]
                final(self).proc(pid as int).address_space.maps(vpn) == (old(self).proc(
                    pid as int,
                ).address_space.maps(vpn) && !(addr as int / PAGE_SIZE as int <= vpn < addr as int
                    / PAGE_SIZE as int + crate::addr::spec_page_ceil(len as int))),
            (munmap_accepted(old(self).proc(pid as int), addr as int, len as int)
                && crate::addr::spec_page_ceil(len as int) > 0) ==> crate::vm::unchanged_outside(
                old(self).proc(pid as int).address_space.areas@,
                final(self).proc(pid as int).address_space.areas@,
                addr as int / PAGE_SIZE as int,
                addr as int / PAGE_SIZE as int + crate::addr::spec_page_ceil(len as int),
            ),
            munmap_accepted(old(self).proc(pid as int), addr as int, len as int) ==> final(
                self).proc(pid as int).program_brk == old(self).proc(pid as int).program_brk
                && final(self).proc(pid as int).context == old(self).proc(pid as int).context
                && final(self).proc(pid as int).syscall_count == old(self).proc(
                pid as int,
            ).syscall_count && final(self).proc(pid as int).finished == old(self).proc(
                pid as int,
            ).finished,
    {
        if addr % PAGE_SIZE != 0 {
            return -1;
        }
        if len == 0 {
            return 0;
        }
        proof {
            lemma_ceil_positive(len as int);
        }
        if len > VADDR_LIMIT {
            return -1;
        }
        let pages = page_ceil_pages(len);
        let la = pages * PAGE_SIZE;
        if addr > VADDR_LIMIT - la {
            return -1;
        }
        let start = addr / PAGE_SIZE;
        let end = start + pages;
        proof {
            vstd::arithmetic::div_mod::lemma_fundamental_div_mod(addr as int, PAGE_SIZE as int);
            assert(end as int * PAGE_SIZE as int <= VADDR_LIMIT as int) by (nonlinear_arith)
                requires
                    addr as int % PAGE_SIZE as int == 0,
                    addr as int == (addr as int / PAGE_SIZE as int) * PAGE_SIZE as int + addr as int
                        % PAGE_SIZE as int,
                    start as int == addr as int / PAGE_SIZE as int,
                    end as int == start as int + pages as int,
                    la as int == pages as int * PAGE_SIZE as int,
                    addr as int + la as int <= VADDR_LIMIT as int,
                    PAGE_SIZE as int == 4096,
            ;
        }
        let ti = self.task_index(pid);
        // Every page of the range must be covered.
        {
            let space = &self.pm.tasks[ti].address_space;
            let mut vpn: usize = start;
            while vpn < end
                invariant
                    self.wf(),
                    self.has_proc(pid as int),
                    *self == *old(self),
                    ti < self.pm.tasks@.len(),
                    *space == self.proc(pid as int).address_space,
                    space.wf(),
                    start <= vpn <= end,
                    start == addr as int / PAGE_SIZE as int,
                    pages == crate::addr::spec_page_ceil(len as int),
                    pages > 0,
                    end == start + pages,
                    addr as int % PAGE_SIZE as int == 0,
                    len <= VADDR_LIMIT,
                    la == pages * PAGE_SIZE,
                    addr + la <= VADDR_LIMIT,
                    end as int * PAGE_SIZE as int <= VADDR_LIMIT as int,
                    forall|v2: int| start <= v2 < vpn ==> #[trigger] space.maps(v2),
                decreases end - vpn,
            {
                let probe = space.translate(vpn * PAGE_SIZE, VmFlags::empty());
                match probe {
                    Some(_) => {
                        proof {
                            crate::vm::lemma_page_of_byte(vpn as int, 0);
                        }
                    },
                    None => {
                        proof {
                            crate::vm::lemma_page_of_byte(vpn as int, 0);
                            assert(!self.proc(pid as int).address_space.maps(vpn as int));
                            assert(!munmap_accepted(
                                self.proc(pid as int),
                                addr as int,
                                len as int,
                            ));
                        }
                        return -1;
                    },
                }
                vpn = vpn + 1;
            }
        }
        let tref = &mut self.pm.tasks[ti];
        tref.address_space.unmap(start, end);
        proof {
            self.lemma_restore_after_task_update(*old(self), ti as int, pid as int);
        }
        0
    }

    /// Loads a fresh process from an image, enters it in the table
    /// and queues it. Fails exactly when the image is not loadable or
    /// the pid or address-space identifiers are spent; the error then
    /// names the reason, the kernel is untouched, and no process
    /// appears.
    pub fn load_process(&mut self, image: &Image) -> (r: Result<usize, LoadError>)
        requires
            old(self).wf(),
        ensures
            final(self).wf(),
            r is Ok <==> (loadable(*image) && old(self).next_pid < PID_LIMIT && old(
                self,
            ).next_asid < ASID_LIMIT),
            r matches Err(_) ==> *final(self) == *old(self),
            r matches Ok(pid) ==> {
                &&& pid == old(self).next_pid
                &&& final(self).next_pid == old(self).next_pid + 1
                &&& final(self).next_asid == old(self).next_asid + 1
                &&& final(self).has_proc(pid as int)
                &&& final(self).proc(pid as int).pid == pid
                &&& final(self).proc(pid as int).parent == NO_PARENT
                &&& final(self).proc(pid as int).stride == 0
                &&& !final(self).proc(pid as int).finished
                &&& loaded_state(
                    final(self).proc(pid as int).address_space,
                    final(self).proc(pid as int).context,
                    final(self).proc(pid as int).heap_bottom as int,
                    final(self).proc(pid as int).program_brk as int,
                    *image,
                    old(self).next_asid as int,
                    old(self).portal_ppn as int,
                )
                &&& final(self).pm.ready_queue@ == old(self).pm.ready_queue@.push(pid)
                &&& final(self).pm.current == old(self).pm.current
                &&& final(self).output == old(self).output
                &&& final(self).input == old(self).input
                &&& final(self).apps == old(self).apps
                &&& final(self).pm.tasks@.len() == old(self).pm.tasks@.len() + 1
                &&& forall|t: int|
                    0 <= t < old(self).pm.tasks@.len() ==> final(self).pm.tasks@[t] == old(
                        self,
                    ).pm.tasks@[t]
            },
    {
        if self.next_pid >= PID_LIMIT || self.next_asid >= ASID_LIMIT {
            return Err(LoadError::Exhausted);
        }
        let res = Process::from_image(image, self.next_asid, self.portal_ppn, self.next_pid, NO_PARENT);
        match res {
            Ok(p) => {
                let pid = p.pid;
                proof {
                    if has_pid(self.pm.tasks@, pid as int) {
                        let t = idx_of(self.pm.tasks@, pid as int);
                    }
                }
                self.pm.insert(p);
                proof {
                    lemma_pid_unique(
                        self.pm.tasks@,
                        self.pm.tasks@.len() - 1,
                        pid as int,
                    );
                }
                self.pm.add(pid);
                self.next_pid = self.next_pid + 1;
                self.next_asid = self.next_asid + 1;
                Ok(pid)
            },
            Err(e) => Err(e),
        }
    }

    /// Picks the ready process with the minimum stride, makes it
    /// current, and hands out its foreign context for the run loop to
    /// resume; reports an empty queue by clearing the current pid.
    pub fn find_next(&mut self) -> (r: Option<(usize, ForeignContext)>)
        requires
            old(self).wf(),
        ensures
            final(self).wf(),
            r is None <==> old(self).pm.ready_queue@.len() == 0,
            r is None ==> final(self).pm.current is None && final(self).pm.tasks == old(
                self,
            ).pm.tasks && final(self).pm.ready_queue == old(self).pm.ready_queue && old(
                self,
            ).same_env(*final(self)),
            r matches Some((pid, fc)) ==> {
                let j = old(self).pm.first_min_upto(old(self).pm.ready_queue@.len() as int);
                &&& old(self).pm.is_first_min(j)
                &&& pid == old(self).pm.ready_queue@[j]
                &&& final(self).pm.ready_queue@ == old(self).pm.ready_queue@.remove(j)
                &&& final(self).pm.current == Some(pid)
                &&& final(self).has_proc(pid as int)
                &&& fc == final(self).proc(pid as int).context
                &&& !final(self).proc(pid as int).finished
                &&& old(self).others_unchanged(*final(self), pid as int)
                &&& forall|t: int|
                    0 <= t < old(self).pm.tasks@.len() && (#[trigger] old(self).pm.tasks@[t]).pid
                        == pid ==> crate::sched::advanced(
                        old(self).pm.tasks@[t],
                        final(self).pm.tasks@[t],
                    )
                &&& old(self).same_env(*final(self))
            },
    {
        let fetched = self.pm.fetch();
        match fetched {
            None => {
                self.pm.current = None;
                proof {
                    assert forall|i: int| 0 <= i < self.pm.tasks@.len() implies (
                    #[trigger] self.pm.tasks@[i]).pid < self.next_pid by {
                        assert(old(self).pm.tasks@[i].pid < old(self).next_pid);
                    }
                }
                None
            },
            Some(pid) => {
                proof {
                    assert forall|i: int| 0 <= i < self.pm.tasks@.len() implies (
                    #[trigger] self.pm.tasks@[i]).pid < self.next_pid by {
                        assert(old(self).pm.tasks@[i].pid < old(self).next_pid);
                        if old(self).pm.tasks@[i].pid == pid {
                            assert(crate::sched::advanced(
                                old(self).pm.tasks@[i],
                                self.pm.tasks@[i],
                            ));
                        } else {
                            assert(self.pm.tasks@[i] == old(self).pm.tasks@[i]);
                        }
                    }
                }
                proof {
                    let olds = old(self).pm.tasks@;
                    let j = old(self).pm.first_min_upto(old(self).pm.ready_queue@.len() as int);
                    let qpid = old(self).pm.ready_queue@[j] as int;
                    let t = idx_of(olds, qpid);
                    lemma_pid_unique(olds, t, qpid);
                    assert(self.pm.tasks@[t].pid == pid);
                    lemma_pid_unique(self.pm.tasks@, t, pid as int);
                }
                self.pm.current = Some(pid);
                let ti = self.task_index(pid);
                Some((pid, self.pm.tasks[ti].context))
            },
        }
    }

    /// After one table slot was killed (marked finished) or its
    /// context rewritten, with its pid kept and the pid absent from
    /// the ready queue, the kernel invariant and the frame conditions
    /// hold again.
    proof fn lemma_restore_after_kill(self, pre: Kernel, ti: int, pid: int)
        requires
            pre.wf(),
            0 <= ti < pre.pm.tasks@.len(),
            pre.pm.tasks@[ti].pid == pid,
            self.pm.tasks@.len() == pre.pm.tasks@.len(),
            forall|t: int| 0 <= t < pre.pm.tasks@.len() && t != ti ==> self.pm.tasks@[t]
                == pre.pm.tasks@[t],
            self.pm.tasks@[ti].wf(),
            self.pm.tasks@[ti].pid == pid,
            forall|q: int| 0 <= q < pre.pm.ready_queue@.len() ==> pre.pm.ready_queue@[q] != pid,
            self.pm.ready_queue == pre.pm.ready_queue,
            self.pm.current == pre.pm.current,
            self.next_pid == pre.next_pid,
            self.next_asid == pre.next_asid,
            self.portal_ppn == pre.portal_ppn,
        ensures
            self.wf(),
            pre.others_unchanged(self, pid),
            self.has_proc(pid),
            self.proc(pid) == self.pm.tasks@[ti],
            pre.proc(pid) == pre.pm.tasks@[ti],
    {
        let olds = pre.pm.tasks@;
        let news = self.pm.tasks@;
        lemma_pid_unique(olds, ti, pid);
        assert forall|t: int| 0 <= t < news.len() implies (#[trigger] news[t]).pid
            == olds[t].pid by {
            if t != ti {
                assert(news[t] == olds[t]);
            }
        }
        assert forall|u: int, w: int| 0 <= u < w < news.len() implies (#[trigger] news[u]).pid != (
        #[trigger] news[w]).pid by {
            assert(olds[u].pid != olds[w].pid);
        }
        assert forall|t: int| 0 <= t < news.len() implies (#[trigger] news[t]).wf() by {
            if t != ti {
                assert(olds[t].wf());
            }
        }
        lemma_pid_unique(news, ti, pid);
        assert forall|q: int| 0 <= q < self.pm.ready_queue@.len() implies has_pid(
            news,
            #[trigger] self.pm.ready_queue@[q] as int,
        ) && !proc_of(news, self.pm.ready_queue@[q] as int).finished by {
            let qpid = self.pm.ready_queue@[q] as int;
            assert(has_pid(olds, qpid));
            let t = idx_of(olds, qpid);
            lemma_pid_unique(olds, t, qpid);
            assert(t != ti);
            assert(news[t].pid == qpid);
            lemma_pid_unique(news, t, qpid);
            assert(news[t].finished == olds[t].finished);
        }
        match self.pm.current {
            Some(c) => {
                assert(has_pid(olds, c as int));
                let t = idx_of(olds, c as int);
                lemma_pid_unique(olds, t, c as int);
                assert(news[t].pid == c);
                lemma_pid_unique(news, t, c as int);
            },
            None => {},
        }
        assert forall|i: int| 0 <= i < news.len() implies (#[trigger] news[i]).pid
            < self.next_pid by {
            assert(olds[i].pid < pre.next_pid);
        }
    }

    /// Interprets one trap of the current process: stores the trapped
    /// context, classifies the cause, and decides scheduling. A
    /// syscall first has the caller's counter for its id raised and
    /// the saved program counter advanced past the trapping
    /// instruction (except for exit); the correlation record built
    /// here carries the calling process and, for the call-count
    /// query, the queried counter with the current call already
    /// included. A successful call deposits its return value in the
    /// return register and re-queues the caller; exit marks the
    /// caller finished with its status; an id with no handler, an
    /// exception or an unexpected interrupt kills the caller with a
    /// distinguished code; the timer re-queues it without completing
    /// anything. The current pid is cleared either way.
    #[verifier::rlimit(80)]
    pub fn on_trap(&mut self, ctx: ExecutionContext, cause: TrapCause, ticks: u64) -> (r:
        SchedulingEvent)
        requires
            old(self).wf(),
            old(self).pm.current is Some,
            old(self).pm.current matches Some(c) ==> !old(self).proc(c as int).finished,
            old(self).pm.current matches Some(c) ==> forall|q: int|
                0 <= q < old(self).pm.ready_queue@.len() ==> old(self).pm.ready_queue@[q] != c,
            ctx.pc < VADDR_LIMIT,
            ticks as int * 10000 <= u64::MAX as int,
        ensures
            final(self).wf(),
            final(self).pm.current is None,
            old(self).pm.current matches Some(pid) ==> final(self).has_proc(pid as int),
            old(self).pm.current matches Some(pid) ==> (cause is UserEnvCall ==> final(self).proc(
                pid as int,
            ).syscall_count@ == crate::syscall::bump(
                old(self).proc(pid as int).syscall_count@,
                ctx.regs[7],
            )),
            old(self).pm.current matches Some(pid) ==> ((cause is UserEnvCall && ctx.regs[7]
                == crate::syscall::SYSCALL_EXIT) ==> r == SchedulingEvent::Exit(
                ctx.regs[0] as isize,
            ) && final(self).proc(pid as int).finished && final(self).proc(
                pid as int,
            ).exit_code == ctx.regs[0] as isize && final(self).pm.ready_queue == old(
                self,
            ).pm.ready_queue),
            old(self).pm.current matches Some(pid) ==> ((cause is UserEnvCall && !handled_id(
                ctx.regs[7],
            ) && ctx.regs[7] != crate::syscall::SYSCALL_EXIT) ==> r
                == SchedulingEvent::UnsupportedSyscall(ctx.regs[7]) && final(self).proc(
                pid as int,
            ).finished && final(self).proc(pid as int).exit_code == EXIT_CODE_UNSUPPORTED
                && final(self).pm.ready_queue == old(self).pm.ready_queue),
            old(self).pm.current matches Some(pid) ==> ((cause is UserEnvCall && handled_id(
                ctx.regs[7],
            )) ==> r == SchedulingEvent::Continue && final(self).pm.ready_queue@.len() > 0
                && final(self).pm.ready_queue@.last() == pid && !final(self).proc(
                pid as int,
            ).finished),
            old(self).pm.current matches Some(pid) ==> ((cause is UserEnvCall && handled_id(
                ctx.regs[7],
            ) && ctx.regs[7] != crate::syscall::SYSCALL_EXEC) ==> final(self).proc(
                pid as int,
            ).context.ctx.pc == ctx.pc + crate::context::INSTRUCTION_BYTES),
            old(self).pm.current matches Some(pid) ==> ((cause is UserEnvCall && handled_id(
                ctx.regs[7],
            )) ==> final(self).proc(pid as int).context.ctx.regs[0] == dispatch_result(
                *old(self),
                pid as int,
                ctx,
                ticks,
            ) as usize),
            old(self).pm.current matches Some(pid) ==> ((cause is UserEnvCall && ctx.regs[7]
                == crate::syscall::SYSCALL_TRACE && ctx.regs[0] == 2 && ctx.regs[1]
                < crate::syscall::SYSCALL_COUNT_CAP) ==> final(self).proc(
                pid as int,
            ).context.ctx.regs[0] == (crate::syscall::bump(
                old(self).proc(pid as int).syscall_count@,
                ctx.regs[7],
            )[ctx.regs[1] as int] as isize) as usize),
            old(self).pm.current matches Some(pid) ==> (cause is Timer ==> r
                == SchedulingEvent::Preempted && final(self).pm.ready_queue@ == old(
                self,
            ).pm.ready_queue@.push(pid) && final(self).proc(pid as int) == (Process {
                context: ForeignContext {
                    ctx,
                    asid: old(self).proc(pid as int).context.asid,
                },
                ..old(self).proc(pid as int)
            })),
            old(self).pm.current matches Some(pid) ==> ((cause matches TrapCause::Exception(_)
                || cause matches TrapCause::Interrupt(_)) ==> r == SchedulingEvent::Fault
                && final(self).proc(pid as int).finished && final(self).proc(
                pid as int).exit_code == EXIT_CODE_TRAP && final(self).pm.ready_queue == old(
                self).pm.ready_queue),
    {
        let pid = match self.pm.current {
            Some(p) => p,
            None => {
                proof {
                    assert(false);
                }
                return SchedulingEvent::Fault;
            },
        };
        let ti = self.task_index(pid);
        {
            let tref = &mut self.pm.tasks[ti];
            let asid = tref.context.asid;
            tref.context = ForeignContext { ctx, asid };
        }
        proof {
            self.lemma_restore_after_kill(*old(self), ti as int, pid as int);
            assert(self.proc(pid as int).address_space == old(self).proc(
                pid as int,
            ).address_space);
            assert(self.proc(pid as int).syscall_count == old(self).proc(
                pid as int,
            ).syscall_count);
            assert(self.proc(pid as int).program_brk == old(self).proc(pid as int).program_brk);
            assert(self.proc(pid as int).heap_bottom == old(self).proc(pid as int).heap_bottom);
            assert(self.proc(pid as int).priority == old(self).proc(pid as int).priority);
            assert(self.proc(pid as int).parent == old(self).proc(pid as int).parent);
            assert(self.proc(pid as int).finished == old(self).proc(pid as int).finished);
        }
        let ghost k_stored = *self;
        match cause {
            TrapCause::Timer => {
                self.pm.add(pid);
                self.pm.current = None;
                proof {
                    assert forall|i: int| 0 <= i < self.pm.tasks@.len() implies (
                    #[trigger] self.pm.tasks@[i]).pid < self.next_pid by {
                        assert(k_stored.pm.tasks@[i].pid < k_stored.next_pid);
                    }
                }
                SchedulingEvent::Preempted
            },
            TrapCause::Exception(_) => {
                let tref = &mut self.pm.tasks[ti];
                tref.finished = true;
                tref.exit_code = EXIT_CODE_TRAP;
                proof {
                    self.lemma_restore_after_kill(k_stored, ti as int, pid as int);
                }
                self.pm.current = None;
                proof {
                    assert forall|i: int| 0 <= i < self.pm.tasks@.len() implies (
                    #[trigger] self.pm.tasks@[i]).pid < self.next_pid by {
                        assert(k_stored.pm.tasks@[i].pid < k_stored.next_pid);
                    }
                }
                SchedulingEvent::Fault
            },
            TrapCause::Interrupt(_) => {
                let tref = &mut self.pm.tasks[ti];
                tref.finished = true;
                tref.exit_code = EXIT_CODE_TRAP;
                proof {
                    self.lemma_restore_after_kill(k_stored, ti as int, pid as int);
                }
                self.pm.current = None;
                proof {
                    assert forall|i: int| 0 <= i < self.pm.tasks@.len() implies (
                    #[trigger] self.pm.tasks@[i]).pid < self.next_pid by {
                        assert(k_stored.pm.tasks@[i].pid < k_stored.next_pid);
                    }
                }
                SchedulingEvent::Fault
            },
            TrapCause::UserEnvCall => {
                let id = ctx.a(7);
                let a0 = ctx.a(0);
                let a1 = ctx.a(1);
                let a2 = ctx.a(2);
                // Count the invocation before anything else, so the
                // call-count query observes itself as counted.
                {
                    let tref = &mut self.pm.tasks[ti];
                    if id < crate::syscall::SYSCALL_COUNT_CAP {
                        let c = tref.syscall_count[id];
                        let nc = if c == u64::MAX {
                            u64::MAX
                        } else {
                            c + 1
                        };
                        tref.syscall_count[id] = nc;
                    }
                }
                proof {
                    self.lemma_restore_after_kill(k_stored, ti as int, pid as int);
                    assert(self.proc(pid as int).syscall_count@ =~= crate::syscall::bump(
                        k_stored.proc(pid as int).syscall_count@,
                        id,
                    ));
                    assert(self.proc(pid as int).address_space == k_stored.proc(
                        pid as int,
                    ).address_space);
                    assert(self.proc(pid as int).program_brk == k_stored.proc(
                        pid as int,
                    ).program_brk);
                    assert(self.proc(pid as int).heap_bottom == k_stored.proc(
                        pid as int,
                    ).heap_bottom);
                    assert(self.proc(pid as int).priority == k_stored.proc(pid as int).priority);
                    assert(self.proc(pid as int).parent == k_stored.proc(pid as int).parent);
                    assert(self.proc(pid as int).finished == k_stored.proc(pid as int).finished);
                }
                let ghost k_counted = *self;
                // The correlation record: the calling process, and
                // the queried counter as the auxiliary value, already
                // including this call.
                let flow: u64 = if id == crate::syscall::SYSCALL_TRACE && a0 == 2 {
                    if a1 < crate::syscall::SYSCALL_COUNT_CAP {
                        self.pm.tasks[ti].syscall_count[a1]
                    } else {
                        0
                    }
                } else {
                    0
                };
                let caller = Caller { entity: pid, flow };
                if id == crate::syscall::SYSCALL_EXIT {
                    let tref = &mut self.pm.tasks[ti];
                    tref.finished = true;
                    tref.exit_code = a0 as isize;
                    proof {
                        self.lemma_restore_after_kill(k_counted, ti as int, pid as int);
                    }
                    self.pm.current = None;
                    proof {
                        assert forall|i: int| 0 <= i < self.pm.tasks@.len() implies (
                        #[trigger] self.pm.tasks@[i]).pid < self.next_pid by {
                            assert(k_counted.pm.tasks@[i].pid < k_counted.next_pid);
                        }
                    }
                    return SchedulingEvent::Exit(a0 as isize);
                }
                // Advance past the trapping instruction before
                // dispatch, so a continuing process resumes after its
                // call.
                {
                    let tref = &mut self.pm.tasks[ti];
                    tref.context.ctx.move_next();
                }
                proof {
                    self.lemma_restore_after_kill(k_counted, ti as int, pid as int);
                    assert(self.proc(pid as int).address_space == k_counted.proc(
                        pid as int,
                    ).address_space);
                    assert(self.proc(pid as int).syscall_count == k_counted.proc(
                        pid as int,
                    ).syscall_count);
                    assert(self.proc(pid as int).program_brk == k_counted.proc(
                        pid as int,
                    ).program_brk);
                    assert(self.proc(pid as int).heap_bottom == k_counted.proc(
                        pid as int,
                    ).heap_bottom);
                    assert(self.proc(pid as int).priority == k_counted.proc(pid as int).priority);
                    assert(self.proc(pid as int).parent == k_counted.proc(pid as int).parent);
                    assert(self.proc(pid as int).finished == k_counted.proc(pid as int).finished);
                }
                let ghost k_pre_dispatch = *self;
                proof {
                    // The dispatch state differs from the trapped
                    // state only in the caller's saved context and
                    // its bumped counter; everything a handler's
                    // result can depend on is unchanged.
                    assert(k_pre_dispatch.proc(pid as int).address_space == old(self).proc(
                        pid as int,
                    ).address_space);
                    assert(k_pre_dispatch.proc(pid as int).syscall_count@
                        == crate::syscall::bump(old(self).proc(pid as int).syscall_count@, id));
                    assert(k_pre_dispatch.proc(pid as int).program_brk == old(self).proc(
                        pid as int,
                    ).program_brk);
                    assert(k_pre_dispatch.proc(pid as int).heap_bottom == old(self).proc(
                        pid as int,
                    ).heap_bottom);
                    assert(k_pre_dispatch.proc(pid as int).priority == old(self).proc(
                        pid as int,
                    ).priority);
                    assert(k_pre_dispatch.input == old(self).input);
                    assert(k_pre_dispatch.apps == old(self).apps);
                    assert(k_pre_dispatch.next_pid == old(self).next_pid);
                    assert(k_pre_dispatch.next_asid == old(self).next_asid);
                    assert(k_pre_dispatch.pm.tasks@.len() == old(self).pm.tasks@.len());
                    assert forall|j: int| 0 <= j < old(self).pm.tasks@.len() implies (
                    #[trigger] k_pre_dispatch.pm.tasks@[j]).pid == old(self).pm.tasks@[j].pid
                        && k_pre_dispatch.pm.tasks@[j].parent == old(self).pm.tasks@[j].parent
                        && k_pre_dispatch.pm.tasks@[j].finished == old(
                        self,
                    ).pm.tasks@[j].finished by {
                        if j == ti as int {
                            assert(k_pre_dispatch.pm.tasks@[j] == k_pre_dispatch.proc(
                                pid as int,
                            ));
                            assert(old(self).pm.tasks@[j] == old(self).proc(pid as int));
                        } else {
                            assert(old(self).pm.tasks@[j].pid != pid);
                            assert(k_stored.pm.tasks@[j] == old(self).pm.tasks@[j]);
                            assert(k_counted.pm.tasks@[j] == k_stored.pm.tasks@[j]);
                            assert(k_pre_dispatch.pm.tasks@[j] == k_counted.pm.tasks@[j]);
                        }
                    }
                }
                let ret_opt: Option<isize> = if id == crate::syscall::SYSCALL_WRITE {
                    Some(self.write(pid, a0, a1, a2))
                } else if id == crate::syscall::SYSCALL_READ {
                    Some(self.read(pid, a0, a1, a2))
                } else if id == crate::syscall::SYSCALL_FORK {
                    Some(self.fork(pid))
                } else if id == crate::syscall::SYSCALL_EXEC {
                    Some(self.exec(pid, a0, a1))
                } else if id == crate::syscall::SYSCALL_WAIT {
                    Some(self.wait(pid, a0 as isize, a1))
                } else if id == crate::syscall::SYSCALL_GETPID {
                    Some(self.getpid(pid))
                } else if id == crate::syscall::SYSCALL_SPAWN {
                    Some(self.spawn(pid))
                } else if id == crate::syscall::SYSCALL_SBRK {
                    Some(self.sbrk(pid, a0))
                } else if id == crate::syscall::SYSCALL_SCHED_YIELD {
                    Some(self.sched_yield(pid))
                } else if id == crate::syscall::SYSCALL_SET_PRIORITY {
                    Some(self.set_priority(pid, a0))
                } else if id == crate::syscall::SYSCALL_CLOCK_GETTIME {
                    Some(self.clock_gettime(pid, a0, a1, ticks))
                } else if id == crate::syscall::SYSCALL_TRACE {
                    Some(self.trace(caller.entity, a0, a1, a2, caller.flow))
                } else if id == crate::syscall::SYSCALL_MMAP {
                    Some(self.mmap(pid, a0, a1, a2))
                } else if id == crate::syscall::SYSCALL_MUNMAP {
                    Some(self.munmap(pid, a0, a1))
                } else {
                    None
                };
                match ret_opt {
                    Some(ret) => {
                        proof {
                            assert forall|q: int|
                                0 <= q < self.pm.ready_queue@.len() implies self.pm
                                .ready_queue@[q] != pid by {}
                            assert(ret == dispatch_result(*old(self), pid as int, ctx, ticks)) by {
                                if id == crate::syscall::SYSCALL_WAIT {
                                    lemma_find_child_in_bounds(
                                        k_pre_dispatch.pm.tasks@,
                                        pid as int,
                                        a0 as isize as int,
                                        0,
                                    );
                                    lemma_find_child_congruent(
                                        k_pre_dispatch.pm.tasks@,
                                        old(self).pm.tasks@,
                                        pid as int,
                                        a0 as isize as int,
                                        0,
                                    );
                                }
                                if id == crate::syscall::SYSCALL_SBRK {
                                    assert(crate::process::brk_change_ok(
                                        k_pre_dispatch.proc(pid as int),
                                        a0 as i32 as int,
                                    ) == crate::process::brk_change_ok(
                                        old(self).proc(pid as int),
                                        a0 as i32 as int,
                                    ));
                                }
                                if id == crate::syscall::SYSCALL_MMAP {
                                    assert(mmap_accepted(
                                        k_pre_dispatch.proc(pid as int),
                                        a0 as int,
                                        a1 as int,
                                        a2 as int,
                                    ) == mmap_accepted(
                                        old(self).proc(pid as int),
                                        a0 as int,
                                        a1 as int,
                                        a2 as int,
                                    ));
                                }
                                if id == crate::syscall::SYSCALL_MUNMAP {
                                    assert(munmap_accepted(
                                        k_pre_dispatch.proc(pid as int),
                                        a0 as int,
                                        a1 as int,
                                    ) == munmap_accepted(
                                        old(self).proc(pid as int),
                                        a0 as int,
                                        a1 as int,
                                    ));
                                }
                                if id == crate::syscall::SYSCALL_TRACE {
                                    assert(flow == query_flow(
                                        *old(self),
                                        pid as int,
                                        id,
                                        a0,
                                        a1,
                                    ));
                                }
                            }
                        }
                        let ti2 = self.task_index(pid);
                        let ghost k_done = *self;
                        {
                            let tref = &mut self.pm.tasks[ti2];
                            tref.context.ctx.set_a(0, ret as usize);
                        }
                        proof {
                            self.lemma_restore_after_kill(k_done, ti2 as int, pid as int);
                        }
                        self.pm.add(pid);
                        self.pm.current = None;
                        proof {
                            assert forall|i: int| 0 <= i < self.pm.tasks@.len() implies (
                            #[trigger] self.pm.tasks@[i]).pid < self.next_pid by {
                                assert(has_pid(self.pm.tasks@, self.pm.tasks@[i].pid as int)) by {
                                    lemma_pid_unique(
                                        self.pm.tasks@,
                                        i,
                                        self.pm.tasks@[i].pid as int,
                                    );
                                }
                            }
                        }
                        SchedulingEvent::Continue
                    },
                    None => {
                        let tref = &mut self.pm.tasks[ti];
                        tref.finished = true;
                        tref.exit_code = EXIT_CODE_UNSUPPORTED;
                        proof {
                            self.lemma_restore_after_kill(k_pre_dispatch, ti as int, pid as int);
                        }
                        self.pm.current = None;
                        proof {
                            assert forall|i: int| 0 <= i < self.pm.tasks@.len() implies (
                            #[trigger] self.pm.tasks@[i]).pid < self.next_pid by {
                                assert(k_pre_dispatch.pm.tasks@[i].pid < k_pre_dispatch.next_pid);
                            }
                        }
                        SchedulingEvent::UnsupportedSyscall(id)
                    },
                }
            },
        }
    }
}


/// The auxiliary value of the correlation record handed to the
/// tracing handler: for the call-count query it is the queried id's
/// counter with the current call already included; zero otherwise.
pub open spec fn query_flow(k: Kernel, pid: int, id: usize, a0: usize, a1: usize) -> u64 {
    if id == crate::syscall::SYSCALL_TRACE && a0 == 2 {
        if (a1 as int) < crate::syscall::SYSCALL_COUNT_CAP {
            crate::syscall::bump(k.proc(pid).syscall_count@, id)[a1 as int]
        } else {
            0u64
        }
    } else {
        0u64
    }
}

/// The value a completed syscall deposits in the return register,
/// as a function of the pre-trap kernel state and the trapped
/// registers: the byte-exact result of every handled id, matching
/// each handler's own contract. `ctx.regs[7]` is the id,
/// `ctx.regs[0..3]` the arguments the handled ids consume.
pub open spec fn dispatch_result(k: Kernel, pid: int, ctx: ExecutionContext, ticks: u64) -> isize {
    let id = ctx.regs[7];
    let a0 = ctx.regs[0];
    let a1 = ctx.regs[1];
    let a2 = ctx.regs[2];
    let space = k.proc(pid).address_space;
    if id == crate::syscall::SYSCALL_WRITE {
        if (a0 == STDOUT || a0 == STDDEBUG) && a1 + a2 <= VADDR_LIMIT && user_range_ok(
            space,
            a1 as int,
            a2 as int,
            read_req(),
        ) {
            a2 as isize
        } else {
            -1isize
        }
    } else if id == crate::syscall::SYSCALL_READ {
        if a0 == STDIN && a1 + a2 <= VADDR_LIMIT && user_range_ok(
            space,
            a1 as int,
            a2 as int,
            write_req(),
        ) && k.input@.len() >= a2 {
            a2 as isize
        } else {
            -1isize
        }
    } else if id == crate::syscall::SYSCALL_FORK {
        if k.next_pid < PID_LIMIT && k.next_asid < ASID_LIMIT {
            k.next_pid as isize
        } else {
            -1isize
        }
    } else if id == crate::syscall::SYSCALL_EXEC {
        let readable = a0 + a1 <= VADDR_LIMIT && user_range_ok(
            space,
            a0 as int,
            a1 as int,
            read_req(),
        );
        let m = find_app(k.apps@, user_bytes(space, a0 as int, a1 as int), 0);
        if readable && m is Some && loadable(k.apps@[m.unwrap()].image) && k.next_asid
            < ASID_LIMIT {
            0isize
        } else {
            -1isize
        }
    } else if id == crate::syscall::SYSCALL_WAIT {
        match find_child(k.pm.tasks@, pid, a0 as isize as int, 0) {
            Option::Some(mi) => k.pm.tasks@[mi].pid as isize,
            Option::None => -1isize,
        }
    } else if id == crate::syscall::SYSCALL_GETPID {
        pid as isize
    } else if id == crate::syscall::SYSCALL_SPAWN {
        -1isize
    } else if id == crate::syscall::SYSCALL_SBRK {
        if crate::process::brk_change_ok(k.proc(pid), a0 as i32 as int) {
            k.proc(pid).program_brk as isize
        } else {
            -1isize
        }
    } else if id == crate::syscall::SYSCALL_SCHED_YIELD {
        0isize
    } else if id == crate::syscall::SYSCALL_SET_PRIORITY {
        if a0 as isize >= 1 {
            a0 as isize
        } else {
            -1isize
        }
    } else if id == crate::syscall::SYSCALL_CLOCK_GETTIME {
        if a0 == crate::syscall::CLOCK_MONOTONIC && a1 + 16 <= VADDR_LIMIT && user_range_ok(
            space,
            a1 as int,
            16,
            write_req(),
        ) {
            0isize
        } else {
            -1isize
        }
    } else if id == crate::syscall::SYSCALL_TRACE {
        if a0 == 0 {
            if a1 + 1 <= VADDR_LIMIT && byte_ok(space, a1 as int, user_read_req()) {
                space.byte_at(a1 as int) as isize
            } else {
                -1isize
            }
        } else if a0 == 1 {
            if a1 + 1 <= VADDR_LIMIT && byte_ok(space, a1 as int, user_write_req()) {
                0isize
            } else {
                -1isize
            }
        } else if a0 == 2 {
            query_flow(k, pid, id, a0, a1) as isize
        } else {
            -1isize
        }
    } else if id == crate::syscall::SYSCALL_MMAP {
        if mmap_accepted(k.proc(pid), a0 as int, a1 as int, a2 as int) {
            0isize
        } else {
            -1isize
        }
    } else if id == crate::syscall::SYSCALL_MUNMAP {
        if munmap_accepted(k.proc(pid), a0 as int, a1 as int) {
            0isize
        } else {
            -1isize
        }
    } else {
        -1isize
    }
}

/// A found child's index lies within the table.
proof fn lemma_find_child_in_bounds(t: Seq<Process>, caller: int, target: int, i: int)
    requires
        0 <= i,
    ensures
        find_child(t, caller, target, i) matches Some(j) ==> i <= j < t.len(),
    decreases t.len() - i,
{
    if i < t.len() {
        lemma_find_child_in_bounds(t, caller, target, i + 1);
    }
}

/// The first finished matching child depends only on each slot's
/// pid, parent and finished flag: tables that agree on those agree
/// on the search.
proof fn lemma_find_child_congruent(
    t1: Seq<Process>,
    t2: Seq<Process>,
    caller: int,
    target: int,
    i: int,
)
    requires
        0 <= i,
        t1.len() == t2.len(),
        forall|j: int|
            0 <= j < t1.len() ==> (#[trigger] t2[j]).pid == t1[j].pid && t2[j].parent
                == t1[j].parent && t2[j].finished == t1[j].finished,
    ensures
        find_child(t1, caller, target, i) == find_child(t2, caller, target, i),
    decreases t1.len() - i,
{
    if i < t1.len() {
        lemma_find_child_congruent(t1, t2, caller, target, i + 1);
    }
}

/// What the run loop classified the trap as; built by the
/// surrounding program from the hardware cause register.
pub enum TrapCause {
    /// Environment call from user mode: a syscall.
    UserEnvCall,
    /// The preemption timer fired.
    Timer,
    /// A synchronous exception with the given cause code.
    Exception(usize),
    /// An unexpected asynchronous interrupt with the given cause
    /// code.
    Interrupt(usize),
}

/// What the dispatcher decided for the trapped process.
pub enum SchedulingEvent {
    /// The syscall completed and the process was re-queued at the
    /// tail.
    Continue,
    /// The timer preempted the process; it was re-queued without
    /// completing a syscall.
    Preempted,
    /// The process exited with the given status.
    Exit(isize),
    /// The process invoked a syscall id with no registered handler
    /// and was killed.
    UnsupportedSyscall(usize),
    /// An exception or unexpected interrupt killed the process.
    Fault,
}

/// Exit code of a process killed for an unsupported syscall.
pub const EXIT_CODE_UNSUPPORTED: isize = -2;

/// Exit code of a process killed by an unhandled trap.
pub const EXIT_CODE_TRAP: isize = -3;

/// The syscall ids the dispatcher forwards to a handler (exit is
/// decided by the dispatcher itself).
pub open spec fn handled_id(id: usize) -> bool {
    ||| id == crate::syscall::SYSCALL_WRITE
    ||| id == crate::syscall::SYSCALL_READ
    ||| id == crate::syscall::SYSCALL_FORK
    ||| id == crate::syscall::SYSCALL_EXEC
    ||| id == crate::syscall::SYSCALL_WAIT
    ||| id == crate::syscall::SYSCALL_GETPID
    ||| id == crate::syscall::SYSCALL_SPAWN
    ||| id == crate::syscall::SYSCALL_SBRK
    ||| id == crate::syscall::SYSCALL_SCHED_YIELD
    ||| id == crate::syscall::SYSCALL_SET_PRIORITY
    ||| id == crate::syscall::SYSCALL_CLOCK_GETTIME
    ||| id == crate::syscall::SYSCALL_TRACE
    ||| id == crate::syscall::SYSCALL_MMAP
    ||| id == crate::syscall::SYSCALL_MUNMAP
}


/// Writes in one process's address space never change another's: a
/// memory operation that leaves every slot but the writer's intact —
/// as every syscall handler of this kernel guarantees — preserves,
/// for any other live process, its whole state and in particular the
/// byte at every address. Together with fork's deep copy, which gives
/// the child equal bytes in fresh frames, writes in the child's
/// space never change the parent's values, and vice versa.
pub proof fn lemma_cross_process_isolation(k1: Kernel, k2: Kernel, writer: int, other: int, a: int)
    requires
        k1.wf(),
        k1.has_proc(other),
        other != writer,
        k1.others_unchanged(k2, writer),
    ensures
        k2.has_proc(other),
        k2.proc(other) == k1.proc(other),
        k2.proc(other).address_space.byte_at(a) == k1.proc(other).address_space.byte_at(a),
{
    let t = idx_of(k1.pm.tasks@, other);
    lemma_pid_unique(k1.pm.tasks@, t, other);
    assert(k2.pm.tasks@[t] == k1.pm.tasks@[t]);
    assert forall|u: int, w: int| 0 <= u < w < k2.pm.tasks@.len() implies (
    #[trigger] k2.pm.tasks@[u]).pid != (#[trigger] k2.pm.tasks@[w]).pid by {
        assert(k1.pm.tasks@[u].pid != k1.pm.tasks@[w].pid);
    }
    lemma_pid_unique(k2.pm.tasks@, t, other);
}

} // verus!
