//! Processes: identity, context, address space, heap boundaries and
//! scheduling weight, with the lifecycle operations load, fork, exec
//! and heap growth.

use vstd::prelude::*;

verus! {

use crate::PAGE_SIZE;
use crate::addr::{
    VADDR_LIMIT,
    PPN_LIMIT,
    USER_STACK_TOP_VPN,
    USER_STACK_PAGES,
    PORTAL_VPN,
    USER_TOP,
    spec_page_ceil,
    page_ceil,
    page_floor,
    page_offset,
};
use crate::context::{ExecutionContext, ForeignContext};
use crate::flags::VmFlags;
use crate::image::{Image, Segment, SEGMENT_LOAD};
use crate::syscall::SYSCALL_COUNT_CAP;
use crate::vm::{
    AddressSpace,
    loaded_byte,
    page_state_eq,
    unchanged_outside,
    lemma_state_preserved,
    lemma_byte_preserved,
    lemma_page_range,
    seq_maps,
    seq_flags_at,
    byte_ok,
    user_range_ok,
};

/// Exclusive upper bound of process identifiers, so a pid always
/// fits the signed syscall return register.
pub const PID_LIMIT: usize = 0x40000000;

/// Scheduling weight a freshly loaded process starts with.
pub const DEFAULT_PRIORITY: u64 = 16;

/// Why an image could not be loaded.
#[derive(Clone, Copy, PartialEq, Eq, Structural, Debug)]
pub enum LoadError {
    /// Class, object type or machine does not match the target.
    BadHeader,
    /// A loadable segment is malformed: misaligned file offset,
    /// file bytes exceeding its memory span, or memory beyond the
    /// user region.
    BadSegment,
    /// Two loadable segments ask for the same page.
    Overlap,
    /// The image needs more frames than the space can hold.
    Exhausted,
}

/// Flags of a mapped program segment: its access bits, plus valid
/// and user-accessible.
pub open spec fn seg_flags(s: Segment) -> VmFlags {
    VmFlags {
        valid: true,
        readable: s.readable,
        writable: s.writable,
        executable: s.executable,
        user: true,
        global: false,
        owned: true,
    }
}

/// Flags of the user stack and heap pages.
pub open spec fn stack_flags() -> VmFlags {
    VmFlags {
        valid: true,
        readable: true,
        writable: true,
        executable: false,
        user: true,
        global: false,
        owned: true,
    }
}

/// Flags of the shared portal page.
pub open spec fn portal_flags() -> VmFlags {
    VmFlags {
        valid: true,
        readable: true,
        writable: true,
        executable: true,
        user: false,
        global: true,
        owned: false,
    }
}

/// An image whose load is owed to succeed: matching header, honorable
/// pairwise-disjoint segments, and a frame demand within the space.
pub open spec fn loadable(image: Image) -> bool {
    &&& image.header_ok()
    &&& image.segments_ok()
    &&& image.segments_disjoint()
    &&& image.pages_upto(image.segments@.len() as int) + USER_STACK_PAGES <= PPN_LIMIT
}

/// The address space, context and heap boundaries a load of `image`
/// produces: every loadable segment mapped with its bytes at its
/// place, a zeroed anonymous stack below the top of the user range,
/// the shared portal page, and the heap starting at the first page
/// boundary above the image.
pub open spec fn loaded_state(
    space: AddressSpace,
    ctx: ForeignContext,
    heap_bottom: int,
    program_brk: int,
    image: Image,
    asid: int,
    portal_ppn: int,
) -> bool {
    let nsegs = image.segments@.len() as int;
    &&& space.asid == asid
    &&& forall|vpn: int| #[trigger]
        space.maps(vpn) <==> (image.covers(nsegs, vpn) || (USER_STACK_TOP_VPN - USER_STACK_PAGES
            <= vpn < USER_STACK_TOP_VPN) || vpn == PORTAL_VPN)
    &&& forall|i: int, vpn: int|
        0 <= i < nsegs && (#[trigger] image.segments@[i]).is_load()
            && image.segments@[i].start_vpn() <= vpn < image.segments@[i].end_vpn()
            ==> #[trigger] space.flags_at(vpn) == seg_flags(image.segments@[i])
    &&& forall|i: int, a: int|
        0 <= i < nsegs && (#[trigger] image.segments@[i]).is_load()
            && image.segments@[i].start_vpn() * PAGE_SIZE <= a < image.segments@[i].end_vpn()
            * PAGE_SIZE ==> #[trigger] space.byte_at(a) == loaded_byte(
            image.segments@[i].data@,
            image.segments@[i].vaddr as int % PAGE_SIZE as int,
            a - image.segments@[i].start_vpn() * PAGE_SIZE,
        )
    &&& forall|vpn: int|
        USER_STACK_TOP_VPN - USER_STACK_PAGES <= vpn < USER_STACK_TOP_VPN ==> #[trigger] space
            .flags_at(vpn) == stack_flags()
    &&& forall|a: int|
        (USER_STACK_TOP_VPN - USER_STACK_PAGES) * PAGE_SIZE <= a < USER_STACK_TOP_VPN * PAGE_SIZE
            ==> #[trigger] space.byte_at(a) == 0
    &&& space.flags_at(PORTAL_VPN as int) == portal_flags()
    &&& space.ppn_at(PORTAL_VPN as int) == portal_ppn
    &&& heap_bottom == spec_page_ceil(image.max_end(nsegs)) * PAGE_SIZE
    &&& program_brk == heap_bottom
    &&& ctx.asid == asid
    &&& ctx.ctx.pc == image.entry
    &&& ctx.ctx.sp == USER_STACK_TOP_VPN * PAGE_SIZE
    &&& forall|j: int| 0 <= j < 8 ==> ctx.ctx.regs[j] == 0
}

/// A process.
pub struct Process {
    /// Globally unique identifier.
    pub pid: usize,
    /// Identifier of the process that created this one.
    pub parent: usize,
    /// The saved execution context and its address-space identifier.
    pub context: ForeignContext,
    /// The process's own address space.
    pub address_space: AddressSpace,
    /// Lowest heap address.
    pub heap_bottom: usize,
    /// Current program break.
    pub program_brk: usize,
    /// Virtual clock of the stride scheduler.
    pub stride: u64,
    /// Scheduling weight; the stride advances inversely to it.
    pub priority: u64,
    /// The process has exited or was killed.
    pub finished: bool,
    /// Status it finished with.
    pub exit_code: isize,
    /// Per-syscall-id invocation counters.
    pub syscall_count: Vec<u64>,
}

/// Rounding facts for a segment at `v` spanning `m` bytes below the
/// user top.
proof fn lemma_seg_round(v: int, m: int)
    requires
        0 <= v,
        0 < m,
        v + m <= USER_TOP,
    ensures
        (v / PAGE_SIZE as int) < spec_page_ceil(v + m),
        0 <= v / PAGE_SIZE as int,
        spec_page_ceil(v + m) <= USER_TOP as int / PAGE_SIZE as int,
        v % PAGE_SIZE as int + m <= (spec_page_ceil(v + m) - v / PAGE_SIZE as int) * PAGE_SIZE,
        (v / PAGE_SIZE as int) * PAGE_SIZE <= v,
        v + m <= spec_page_ceil(v + m) * PAGE_SIZE,
{
    assert((v / PAGE_SIZE as int) < (v + m + PAGE_SIZE as int - 1) / PAGE_SIZE as int && 0 <= v
        / PAGE_SIZE as int && (v + m + PAGE_SIZE as int - 1) / PAGE_SIZE as int
        <= USER_TOP as int / PAGE_SIZE as int && v % PAGE_SIZE as int + m <= ((v + m
        + PAGE_SIZE as int - 1) / PAGE_SIZE as int - v / PAGE_SIZE as int) * PAGE_SIZE as int && (v
        / PAGE_SIZE as int) * PAGE_SIZE as int <= v && v + m <= ((v + m + PAGE_SIZE as int - 1)
        / PAGE_SIZE as int) * PAGE_SIZE as int) by (nonlinear_arith)
        requires
            0 <= v,
            0 < m,
            v + m <= USER_TOP as int,
            PAGE_SIZE as int == 4096,
            USER_TOP as int == 0x3fffe000,
    ;
}

/// The page demand of a longer prefix of segments is no smaller.
proof fn lemma_pages_upto_mono(image: Image, i: int, j: int)
    requires
        0 <= i <= j,
    ensures
        image.pages_upto(i) <= image.pages_upto(j),
    decreases j - i,
{
    if i < j {
        lemma_pages_upto_mono(image, i, j - 1);
        let s = image.segments@[j - 1];
        if s.is_load() {
            vstd::arithmetic::div_mod::lemma_div_is_ordered(
                s.vaddr as int,
                s.vaddr + s.mem_size + PAGE_SIZE - 1,
                PAGE_SIZE as int,
            );
        }
    }
}

/// A fresh, zeroed counter table.
fn zero_counts() -> (r: Vec<u64>)
    ensures
        r@.len() == SYSCALL_COUNT_CAP,
        forall|i: int| 0 <= i < SYSCALL_COUNT_CAP ==> r@[i] == 0,
{
    let mut r: Vec<u64> = Vec::new();
    let mut i: usize = 0;
    while i < SYSCALL_COUNT_CAP
        invariant
            i <= SYSCALL_COUNT_CAP,
            r@.len() == i,
            forall|k: int| 0 <= k < i ==> r@[k] == 0,
        decreases SYSCALL_COUNT_CAP - i,
    {
        r.push(0u64);
        i = i + 1;
    }
    r
}

impl Process {
    /// Well-formed process.
    pub open spec fn wf(self) -> bool {
        &&& self.address_space.wf()
        &&& self.pid < PID_LIMIT
        &&& self.heap_bottom <= self.program_brk
        &&& self.program_brk <= USER_TOP
        &&& self.priority >= 1
        &&& self.syscall_count@.len() == SYSCALL_COUNT_CAP
    }

    /// Builds a process from a program image: validates the header
    /// and segments, maps each loadable segment with its permission
    /// bits plus user access, places the anonymous stack and the
    /// shared portal page, and derives the heap base from the highest
    /// mapped address. Fails exactly on a mismatched header, a
    /// malformed segment, overlapping segments, or a frame demand the
    /// space cannot hold.
    pub fn from_image(
        image: &Image,
        asid: usize,
        portal_ppn: usize,
        pid: usize,
        parent: usize,
    ) -> (r: Result<Process, LoadError>)
        requires
            portal_ppn < PPN_LIMIT,
            pid < PID_LIMIT,
        ensures
            r is Ok <==> loadable(*image),
            r == Err::<Process, LoadError>(LoadError::BadHeader) <==> !image.header_ok(),
            r == Err::<Process, LoadError>(LoadError::BadSegment) <==> (image.header_ok()
                && !image.segments_ok()),
            r == Err::<Process, LoadError>(LoadError::Overlap) <==> (image.header_ok()
                && image.segments_ok() && !image.segments_disjoint()),
            r == Err::<Process, LoadError>(LoadError::Exhausted) <==> (image.header_ok()
                && image.segments_ok() && image.segments_disjoint() && image.pages_upto(
                image.segments@.len() as int,
            ) + USER_STACK_PAGES > PPN_LIMIT),
            r matches Ok(p) ==> {
                &&& p.wf()
                &&& p.pid == pid
                &&& p.parent == parent
                &&& p.stride == 0
                &&& p.priority == DEFAULT_PRIORITY
                &&& !p.finished
                &&& forall|i: int| 0 <= i < SYSCALL_COUNT_CAP ==> p.syscall_count@[i] == 0
                &&& loaded_state(
                    p.address_space,
                    p.context,
                    p.heap_bottom as int,
                    p.program_brk as int,
                    *image,
                    asid as int,
                    portal_ppn as int,
                )
            },
    {
        if !(image.class64 && image.etype == crate::image::IMAGE_TYPE_EXEC && image.machine
            == crate::image::IMAGE_MACHINE_RISCV) {
            return Err(LoadError::BadHeader);
        }
        let nsegs = image.segments.len();
        // Validate each loadable segment.
        let mut i: usize = 0;
        while i < nsegs
            invariant
                i <= nsegs,
                nsegs == image.segments@.len(),
                image.header_ok(),
                forall|j: int|
                    0 <= j < i && (#[trigger] image.segments@[j]).is_load()
                        ==> image.segments@[j].ok(),
            decreases nsegs - i,
        {
            let s = &image.segments[i];
            if s.kind == SEGMENT_LOAD && s.mem_size > 0 {
                if s.vaddr > USER_TOP || s.mem_size > USER_TOP - s.vaddr || s.data.len()
                    > s.mem_size || s.file_offset % PAGE_SIZE != s.vaddr % PAGE_SIZE {
                    proof {
                        assert(image.segments@[i as int].is_load());
                        assert(!image.segments@[i as int].ok());
                    }
                    return Err(LoadError::BadSegment);
                }
            }
            i = i + 1;
        }
        assert(image.segments_ok());
        // Reject overlapping loadable segments.
        let mut i: usize = 0;
        while i < nsegs
            invariant
                i <= nsegs,
                nsegs == image.segments@.len(),
                image.header_ok(),
                image.segments_ok(),
                forall|u: int, w: int|
                    0 <= u < i && u < w < nsegs && (#[trigger] image.segments@[u]).is_load() && (
                    #[trigger] image.segments@[w]).is_load() ==> (image.segments@[u].end_vpn()
                        <= image.segments@[w].start_vpn() || image.segments@[w].end_vpn()
                        <= image.segments@[u].start_vpn()),
            decreases nsegs - i,
        {
            let s = &image.segments[i];
            if s.kind == SEGMENT_LOAD && s.mem_size > 0 {
                proof {
                    assert(image.segments@[i as int].is_load());
                    assert(image.segments@[i as int].ok());
                }
                let si = s.vaddr / PAGE_SIZE;
                let ei = page_ceil(s.vaddr + s.mem_size);
                let mut j: usize = i + 1;
                while j < nsegs
                    invariant
                        i < j <= nsegs,
                        nsegs == image.segments@.len(),
                        image.header_ok(),
                        image.segments_ok(),
                        image.segments@[i as int].is_load(),
                        si == image.segments@[i as int].start_vpn(),
                        ei == image.segments@[i as int].end_vpn(),
                        forall|u: int, w: int|
                            0 <= u < i && u < w < nsegs && (
                            #[trigger] image.segments@[u]).is_load() && (
                            #[trigger] image.segments@[w]).is_load() ==> (
                            image.segments@[u].end_vpn() <= image.segments@[w].start_vpn()
                                || image.segments@[w].end_vpn() <= image.segments@[u].start_vpn()),
                        forall|w: int|
                            i < w < j && (#[trigger] image.segments@[w]).is_load() ==> (ei
                                <= image.segments@[w].start_vpn() || image.segments@[w].end_vpn()
                                <= si),
                    decreases nsegs - j,
                {
                    let t = &image.segments[j];
                    if t.kind == SEGMENT_LOAD && t.mem_size > 0 {
                        proof {
                            assert(image.segments@[j as int].is_load());
                            assert(image.segments@[j as int].ok());
                        }
                        let sj = t.vaddr / PAGE_SIZE;
                        let ej = page_ceil(t.vaddr + t.mem_size);
                        if si < ej && sj < ei {
                            proof {
                                assert(!image.segments_disjoint());
                            }
                            return Err(LoadError::Overlap);
                        }
                    }
                    j = j + 1;
                }
            }
            i = i + 1;
        }
        assert(image.segments_disjoint());
        // Check the frame demand.
        let mut total: usize = 0;
        let mut i: usize = 0;
        while i < nsegs
            invariant
                i <= nsegs,
                nsegs == image.segments@.len(),
                image.header_ok(),
                image.segments_ok(),
                image.segments_disjoint(),
                total == image.pages_upto(i as int),
                total + USER_STACK_PAGES <= PPN_LIMIT,
            decreases nsegs - i,
        {
            let s = &image.segments[i];
            if s.kind == SEGMENT_LOAD && s.mem_size > 0 {
                proof {
                    assert(image.segments@[i as int].is_load());
                    assert(image.segments@[i as int].ok());
                    lemma_seg_round(s.vaddr as int, s.mem_size as int);
                }
                let si = s.vaddr / PAGE_SIZE;
                let ei = page_ceil(s.vaddr + s.mem_size);
                let add = ei - si;
                if add > PPN_LIMIT - USER_STACK_PAGES - total {
                    proof {
                        lemma_pages_upto_mono(*image, i + 1 as int, nsegs as int);
                    }
                    return Err(LoadError::Exhausted);
                }
                total = total + add;
            }
            i = i + 1;
        }
        assert(image.pages_upto(nsegs as int) + USER_STACK_PAGES <= PPN_LIMIT);
        assert(loadable(*image));
        // Map the loadable segments.
        let mut space = AddressSpace::new(asid);
        let mut max_end: usize = 0;
        let mut i: usize = 0;
        while i < nsegs
            invariant
                i <= nsegs,
                nsegs == image.segments@.len(),
                image.header_ok(),
                image.segments_ok(),
                image.segments_disjoint(),
                image.pages_upto(nsegs as int) + USER_STACK_PAGES <= PPN_LIMIT,
                space.wf(),
                space.asid == asid,
                space.next_ppn == image.pages_upto(i as int),
                max_end == image.max_end(i as int),
                max_end <= USER_TOP,
                forall|vpn: int| #[trigger] space.maps(vpn) <==> image.covers(i as int, vpn),
                forall|j: int, vpn: int|
                    0 <= j < i && (#[trigger] image.segments@[j]).is_load()
                        && image.segments@[j].start_vpn() <= vpn < image.segments@[j].end_vpn()
                        ==> #[trigger] space.flags_at(vpn) == seg_flags(image.segments@[j]),
                forall|j: int, a: int|
                    0 <= j < i && (#[trigger] image.segments@[j]).is_load()
                        && image.segments@[j].start_vpn() * PAGE_SIZE <= a
                        < image.segments@[j].end_vpn() * PAGE_SIZE ==> #[trigger] space.byte_at(a)
                        == loaded_byte(
                        image.segments@[j].data@,
                        image.segments@[j].vaddr as int % PAGE_SIZE as int,
                        a - image.segments@[j].start_vpn() * PAGE_SIZE,
                    ),
            decreases nsegs - i,
        {
            let s = &image.segments[i];
            if s.kind == SEGMENT_LOAD && s.mem_size > 0 {
                proof {
                    assert(image.segments@[i as int].is_load());
                    assert(image.segments@[i as int].ok());
                    lemma_seg_round(s.vaddr as int, s.mem_size as int);
                }
                let sv = page_floor(s.vaddr);
                let ev = page_ceil(s.vaddr + s.mem_size);
                let off = page_offset(s.vaddr);
                let ghost pre = space;
                proof {
                    // The range is free: covered pages come from
                    // earlier loadable segments, all disjoint from
                    // this one.
                    assert forall|vpn: int| sv <= vpn < ev implies !(#[trigger] space.maps(
                        vpn,
                    )) by {
                        if space.maps(vpn) {
                            let u = choose|u: int|
                                0 <= u < i && u < image.segments@.len() && (
                                #[trigger] image.segments@[u]).is_load()
                                    && image.segments@[u].start_vpn() <= vpn
                                    < image.segments@[u].end_vpn();
                            assert(image.segments@[u].is_load());
                            assert(image.segments@[i as int].is_load());
                        }
                    }
                    // The frames suffice.
                    lemma_pages_upto_mono(*image, i + 1 as int, nsegs as int);
                    assert(image.pages_upto(i + 1 as int) == image.pages_upto(i as int) + (
                    image.segments@[i as int].end_vpn() - image.segments@[i as int].start_vpn()));
                    assert(sv as int == image.segments@[i as int].start_vpn());
                    assert(ev as int == image.segments@[i as int].end_vpn());
                    assert(space.next_ppn + (ev - sv) <= PPN_LIMIT);
                    assert(crate::vm::map_range_ok(
                        sv as int,
                        ev as int,
                        s.data@.len() as int,
                        off as int,
                    ));
                    assert(space.range_free(sv as int, ev as int));
                }
                let res = space.map(
                    sv,
                    ev,
                    &s.data,
                    off,
                    VmFlags::user_rwx(s.readable, s.writable, s.executable),
                );
                match res {
                    Ok(()) => {},
                    Err(_) => {
                        proof {
                            assert(false);
                        }
                        return Err(LoadError::Overlap);
                    },
                }
                if s.vaddr > USER_TOP - s.mem_size {
                    proof {
                        assert(false);
                    }
                } else if s.vaddr + s.mem_size > max_end {
                    max_end = s.vaddr + s.mem_size;
                }
                proof {
                    let segs = image.segments@;
                    let cur = segs[i as int];
                    assert(space.next_ppn == image.pages_upto(i + 1 as int));
                    assert(max_end == image.max_end(i + 1 as int));
                    // Mapping equivalence for the grown prefix.
                    assert forall|vpn: int| #[trigger] space.maps(vpn) <==> image.covers(
                        i + 1 as int,
                        vpn,
                    ) by {
                        if sv <= vpn < ev {
                            assert(space.maps(vpn));
                            assert(image.covers(i + 1 as int, vpn));
                        } else {
                            lemma_state_preserved(
                                pre.areas@,
                                space.areas@,
                                sv as int,
                                ev as int,
                                vpn,
                            );
                            assert(space.maps(vpn) == pre.maps(vpn));
                            assert(pre.maps(vpn) == image.covers(i as int, vpn));
                            if image.covers(i + 1 as int, vpn) {
                                let u = choose|u: int|
                                    0 <= u < i + 1 && u < segs.len() && (
                                    #[trigger] segs[u]).is_load() && segs[u].start_vpn() <= vpn
                                        < segs[u].end_vpn();
                                assert(u < i);
                                assert(image.covers(i as int, vpn));
                            }
                            if image.covers(i as int, vpn) {
                                let u = choose|u: int|
                                    0 <= u < i && u < segs.len() && (#[trigger] segs[u]).is_load()
                                        && segs[u].start_vpn() <= vpn < segs[u].end_vpn();
                                assert(image.covers(i + 1 as int, vpn));
                            }
                        }
                    }
                    // Earlier segments keep their flags and bytes.
                    assert forall|j: int, vpn: int|
                        0 <= j < i + 1 && (#[trigger] segs[j]).is_load() && segs[j].start_vpn()
                            <= vpn < segs[j].end_vpn() implies #[trigger] space.flags_at(vpn)
                        == seg_flags(segs[j]) by {
                        if j == i {
                            assert(space.maps(vpn));
                            assert(space.flags_at(vpn) == VmFlags::user_rwx(
                                cur.readable,
                                cur.writable,
                                cur.executable,
                            ).spec_with_owned());
                        } else {
                            assert(segs[j].end_vpn() <= segs[i as int].start_vpn()
                                || segs[i as int].end_vpn() <= segs[j].start_vpn());
                            assert(image.covers(i as int, vpn));
                            assert(pre.maps(vpn) == image.covers(i as int, vpn));
                            assert(pre.flags_at(vpn) == seg_flags(segs[j]));
                            lemma_state_preserved(
                                pre.areas@,
                                space.areas@,
                                sv as int,
                                ev as int,
                                vpn,
                            );
                            assert(seq_flags_at(space.areas@, vpn) == seq_flags_at(
                                pre.areas@,
                                vpn,
                            ));
                        }
                    }
                    assert forall|j: int, a: int|
                        0 <= j < i + 1 && (#[trigger] segs[j]).is_load() && segs[j].start_vpn()
                            * PAGE_SIZE <= a < segs[j].end_vpn() * PAGE_SIZE implies
                        #[trigger] space.byte_at(a) == loaded_byte(
                        segs[j].data@,
                        segs[j].vaddr as int % PAGE_SIZE as int,
                        a - segs[j].start_vpn() * PAGE_SIZE,
                    ) by {
                        if j == i {
                            assert(space.byte_at(a) == loaded_byte(
                                cur.data@,
                                off as int,
                                a - sv * PAGE_SIZE,
                            ));
                        } else {
                            lemma_page_range(segs[j].start_vpn(), segs[j].end_vpn(), a);
                            let vpn = a / PAGE_SIZE as int;
                            assert(segs[j].end_vpn() <= segs[i as int].start_vpn()
                                || segs[i as int].end_vpn() <= segs[j].start_vpn());
                            assert(image.covers(i as int, vpn));
                            assert(pre.maps(vpn) == image.covers(i as int, vpn));
                            assert(pre.flags_at(vpn) == seg_flags(segs[j]));
                            assert(pre.byte_at(a) == loaded_byte(
                                segs[j].data@,
                                segs[j].vaddr as int % PAGE_SIZE as int,
                                a - segs[j].start_vpn() * PAGE_SIZE,
                            ));
                            lemma_byte_preserved(pre.areas@, space.areas@, sv as int, ev as int, a);
                            assert(crate::vm::seq_byte_at(space.areas@, a) == crate::vm::seq_byte_at(
                                pre.areas@,
                                a,
                            ));
                        }
                    }
                }
            } else {
                proof {
                    assert(!image.segments@[i as int].is_load());
                    assert forall|vpn: int| #[trigger] space.maps(vpn) <==> image.covers(
                        i + 1 as int,
                        vpn,
                    ) by {
                        if image.covers(i + 1 as int, vpn) {
                            let u = choose|u: int|
                                0 <= u < i + 1 && u < image.segments@.len() && (
                                #[trigger] image.segments@[u]).is_load()
                                    && image.segments@[u].start_vpn() <= vpn
                                    < image.segments@[u].end_vpn();
                            assert(u < i);
                            assert(image.covers(i as int, vpn));
                        }
                        if image.covers(i as int, vpn) {
                            assert(image.covers(i + 1 as int, vpn));
                        }
                    }
                }
            }
            i = i + 1;
        }
        // Map the anonymous user stack.
        let ghost pre_stack = space;
        proof {
            assert forall|vpn: int|
                USER_STACK_TOP_VPN - USER_STACK_PAGES <= vpn < USER_STACK_TOP_VPN implies !(
            #[trigger] space.maps(vpn)) by {
                if space.maps(vpn) {
                    let u = choose|u: int|
                        0 <= u < nsegs && u < image.segments@.len() && (
                        #[trigger] image.segments@[u]).is_load() && image.segments@[u].start_vpn()
                            <= vpn < image.segments@[u].end_vpn();
                    assert(image.segments@[u].ok());
                    lemma_seg_round(
                        image.segments@[u].vaddr as int,
                        image.segments@[u].mem_size as int,
                    );
                }
            }
        }
        let empty: Vec<u8> = Vec::new();
        let res = space.map(
            USER_STACK_TOP_VPN - USER_STACK_PAGES,
            USER_STACK_TOP_VPN,
            &empty,
            0,
            VmFlags::user_rwx(true, true, false),
        );
        match res {
            Ok(()) => {},
            Err(_) => {
                proof {
                    assert(false);
                }
                return Err(LoadError::Exhausted);
            },
        }
        // Map the shared portal page.
        let ghost pre_portal = space;
        proof {
            assert forall|vpn: int| PORTAL_VPN <= vpn < PORTAL_VPN + 1 implies !(
            #[trigger] space.maps(vpn)) by {
                lemma_state_preserved(
                    pre_stack.areas@,
                    space.areas@,
                    USER_STACK_TOP_VPN - USER_STACK_PAGES as int,
                    USER_STACK_TOP_VPN as int,
                    vpn,
                );
                if pre_stack.maps(vpn) {
                    let u = choose|u: int|
                        0 <= u < nsegs && u < image.segments@.len() && (
                        #[trigger] image.segments@[u]).is_load() && image.segments@[u].start_vpn()
                            <= vpn < image.segments@[u].end_vpn();
                    assert(image.segments@[u].ok());
                    lemma_seg_round(
                        image.segments@[u].vaddr as int,
                        image.segments@[u].mem_size as int,
                    );
                }
            }
        }
        let portal_bits = VmFlags {
            valid: true,
            readable: true,
            writable: true,
            executable: true,
            user: false,
            global: true,
            owned: false,
        };
        let res = space.map_extern(PORTAL_VPN, PORTAL_VPN + 1, portal_ppn, portal_bits);
        match res {
            Ok(()) => {},
            Err(_) => {
                proof {
                    assert(false);
                }
                return Err(LoadError::Exhausted);
            },
        }
        // Derive the heap base and assemble the process.
        let heap_bottom = page_ceil(max_end) * PAGE_SIZE;
        let context = ExecutionContext::user(image.entry, crate::addr::USER_STACK_TOP);
        let fctx = ForeignContext { ctx: context, asid };
        let counts = zero_counts();
        let p = Process {
            pid,
            parent,
            context: fctx,
            address_space: space,
            heap_bottom,
            program_brk: heap_bottom,
            stride: 0,
            priority: DEFAULT_PRIORITY,
            finished: false,
            exit_code: 0,
            syscall_count: counts,
        };
        proof {
            let segs = image.segments@;
            let n = nsegs as int;
            // Mapping equivalence of the finished space.
            assert forall|vpn: int| #[trigger] p.address_space.maps(vpn) <==> (image.covers(n, vpn)
                || (USER_STACK_TOP_VPN - USER_STACK_PAGES <= vpn < USER_STACK_TOP_VPN) || vpn
                == PORTAL_VPN) by {
                if vpn == PORTAL_VPN {
                    assert(p.address_space.maps(vpn));
                } else {
                    lemma_state_preserved(
                        pre_portal.areas@,
                        p.address_space.areas@,
                        PORTAL_VPN as int,
                        PORTAL_VPN + 1 as int,
                        vpn,
                    );
                    assert(p.address_space.maps(vpn) == pre_portal.maps(vpn));
                    if USER_STACK_TOP_VPN - USER_STACK_PAGES <= vpn < USER_STACK_TOP_VPN {
                        assert(pre_portal.maps(vpn));
                    } else {
                        lemma_state_preserved(
                            pre_stack.areas@,
                            pre_portal.areas@,
                            USER_STACK_TOP_VPN - USER_STACK_PAGES as int,
                            USER_STACK_TOP_VPN as int,
                            vpn,
                        );
                        assert(pre_portal.maps(vpn) == pre_stack.maps(vpn));
                        assert(pre_stack.maps(vpn) == image.covers(n, vpn));
                    }
                }
            }
            // Segment flags and bytes in the finished space.
            assert forall|j: int, vpn: int|
                0 <= j < n && (#[trigger] segs[j]).is_load() && segs[j].start_vpn() <= vpn
                    < segs[j].end_vpn() implies #[trigger] p.address_space.flags_at(vpn)
                == seg_flags(segs[j]) by {
                assert(segs[j].ok());
                lemma_seg_round(segs[j].vaddr as int, segs[j].mem_size as int);
                assert(image.covers(n, vpn));
                assert(pre_stack.maps(vpn) == image.covers(n, vpn));
                assert(pre_stack.flags_at(vpn) == seg_flags(segs[j]));
                lemma_state_preserved(
                    pre_stack.areas@,
                    pre_portal.areas@,
                    USER_STACK_TOP_VPN - USER_STACK_PAGES as int,
                    USER_STACK_TOP_VPN as int,
                    vpn,
                );
                assert(pre_portal.maps(vpn) == pre_stack.maps(vpn));
                assert(pre_portal.flags_at(vpn) == pre_stack.flags_at(vpn));
                lemma_state_preserved(
                    pre_portal.areas@,
                    p.address_space.areas@,
                    PORTAL_VPN as int,
                    PORTAL_VPN + 1 as int,
                    vpn,
                );
                assert(p.address_space.flags_at(vpn) == pre_portal.flags_at(vpn));
            }
            assert forall|j: int, a: int|
                0 <= j < n && (#[trigger] segs[j]).is_load() && segs[j].start_vpn() * PAGE_SIZE
                    <= a < segs[j].end_vpn() * PAGE_SIZE implies
                #[trigger] p.address_space.byte_at(a) == loaded_byte(
                segs[j].data@,
                segs[j].vaddr as int % PAGE_SIZE as int,
                a - segs[j].start_vpn() * PAGE_SIZE,
            ) by {
                assert(segs[j].ok());
                lemma_seg_round(segs[j].vaddr as int, segs[j].mem_size as int);
                lemma_page_range(segs[j].start_vpn(), segs[j].end_vpn(), a);
                let vpn = a / PAGE_SIZE as int;
                assert(image.covers(n, vpn));
                assert(pre_stack.maps(vpn) == image.covers(n, vpn));
                assert(pre_stack.flags_at(vpn) == seg_flags(segs[j]));
                assert(pre_stack.byte_at(a) == loaded_byte(
                    segs[j].data@,
                    segs[j].vaddr as int % PAGE_SIZE as int,
                    a - segs[j].start_vpn() * PAGE_SIZE,
                ));
                lemma_byte_preserved(
                    pre_stack.areas@,
                    pre_portal.areas@,
                    USER_STACK_TOP_VPN - USER_STACK_PAGES as int,
                    USER_STACK_TOP_VPN as int,
                    a,
                );
                lemma_state_preserved(
                    pre_stack.areas@,
                    pre_portal.areas@,
                    USER_STACK_TOP_VPN - USER_STACK_PAGES as int,
                    USER_STACK_TOP_VPN as int,
                    vpn,
                );
                assert(pre_portal.maps(vpn) == pre_stack.maps(vpn));
                assert(pre_portal.flags_at(vpn) == pre_stack.flags_at(vpn));
                assert(pre_portal.byte_at(a) == pre_stack.byte_at(a));
                lemma_byte_preserved(
                    pre_portal.areas@,
                    p.address_space.areas@,
                    PORTAL_VPN as int,
                    PORTAL_VPN + 1 as int,
                    a,
                );
                assert(p.address_space.byte_at(a) == pre_portal.byte_at(a));
            }
            // Stack flags and zero fill in the finished space.
            assert forall|vpn: int|
                USER_STACK_TOP_VPN - USER_STACK_PAGES <= vpn < USER_STACK_TOP_VPN implies
                #[trigger] p.address_space.flags_at(vpn) == stack_flags() by {
                assert(pre_portal.maps(vpn));
                assert(pre_portal.flags_at(vpn) == VmFlags::user_rwx(
                    true,
                    true,
                    false,
                ).spec_with_owned());
                lemma_state_preserved(
                    pre_portal.areas@,
                    p.address_space.areas@,
                    PORTAL_VPN as int,
                    PORTAL_VPN + 1 as int,
                    vpn,
                );
                assert(p.address_space.flags_at(vpn) == pre_portal.flags_at(vpn));
            }
            assert forall|a: int|
                (USER_STACK_TOP_VPN - USER_STACK_PAGES) * PAGE_SIZE <= a < USER_STACK_TOP_VPN
                    * PAGE_SIZE implies #[trigger] p.address_space.byte_at(a) == 0 by {
                lemma_page_range(
                    USER_STACK_TOP_VPN - USER_STACK_PAGES as int,
                    USER_STACK_TOP_VPN as int,
                    a,
                );
                let vpn = a / PAGE_SIZE as int;
                assert(pre_portal.maps(vpn));
                assert(pre_portal.byte_at(a) == loaded_byte(
                    empty@,
                    0,
                    a - (USER_STACK_TOP_VPN - USER_STACK_PAGES) * PAGE_SIZE,
                ));
                assert(pre_portal.flags_at(vpn) == VmFlags::user_rwx(
                    true,
                    true,
                    false,
                ).spec_with_owned());
                lemma_byte_preserved(
                    pre_portal.areas@,
                    p.address_space.areas@,
                    PORTAL_VPN as int,
                    PORTAL_VPN + 1 as int,
                    a,
                );
                assert(p.address_space.byte_at(a) == pre_portal.byte_at(a));
            }
            assert(p.address_space.maps(PORTAL_VPN as int));
            assert(p.address_space.flags_at(PORTAL_VPN as int) == portal_flags());
            assert(p.address_space.ppn_at(PORTAL_VPN as int) == portal_ppn);
        }
        Ok(p)
    }

    /// Duplicates this process under a new pid and address-space
    /// identifier: a deep copy of every mapped page, a copy of the
    /// execution context with the return-value register cleared (so
    /// the child observes fork returning zero), the same heap
    /// boundaries and priority, a stride starting at zero, and fresh
    /// call counters. The caller is responsible for queueing the
    /// child; the parent's own return value is not set here.
    pub fn fork(&self, pid: usize, asid: usize) -> (r: Process)
        requires
            self.wf(),
            pid < PID_LIMIT,
        ensures
            r.wf(),
            r.pid == pid,
            r.parent == self.pid,
            r.address_space.asid == asid,
            forall|vpn: int| #[trigger]
                page_state_eq(self.address_space.areas@, r.address_space.areas@, vpn),
            r.context.ctx.regs[0] == 0,
            forall|j: int| 1 <= j < 8 ==> r.context.ctx.regs[j] == self.context.ctx.regs[j],
            r.context.ctx.sp == self.context.ctx.sp,
            r.context.ctx.pc == self.context.ctx.pc,
            r.context.asid == asid,
            r.heap_bottom == self.heap_bottom,
            r.program_brk == self.program_brk,
            r.stride == 0,
            r.priority == self.priority,
            !r.finished,
            forall|i: int| 0 <= i < SYSCALL_COUNT_CAP ==> r.syscall_count@[i] == 0,
    {
        let mut space = AddressSpace::new(asid);
        self.address_space.clone_into(&mut space);
        let mut ctx = self.context.ctx;
        ctx.set_a(0, 0);
        Process {
            pid,
            parent: self.pid,
            context: ForeignContext { ctx, asid },
            address_space: space,
            heap_bottom: self.heap_bottom,
            program_brk: self.program_brk,
            stride: 0,
            priority: self.priority,
            finished: false,
            exit_code: 0,
            syscall_count: zero_counts(),
        }
    }

    /// Replaces this process's address space, context and heap
    /// boundaries by re-loading `image` under the same pid; nothing
    /// of the old mappings is inherited. Scheduling state and call
    /// counters stay. Fails, leaving the process untouched, exactly
    /// when the image is not loadable.
    pub fn exec(&mut self, image: &Image, asid: usize, portal_ppn: usize) -> (r: Result<
        (),
        LoadError,
    >)
        requires
            old(self).wf(),
            portal_ppn < PPN_LIMIT,
        ensures
            final(self).wf(),
            r is Ok <==> loadable(*image),
            r matches Err(_) ==> *final(self) == *old(self),
            final(self).pid == old(self).pid,
            final(self).parent == old(self).parent,
            final(self).stride == old(self).stride,
            final(self).priority == old(self).priority,
            final(self).finished == old(self).finished,
            final(self).exit_code == old(self).exit_code,
            final(self).syscall_count == old(self).syscall_count,
            r is Ok ==> loaded_state(
                final(self).address_space,
                final(self).context,
                final(self).heap_bottom as int,
                final(self).program_brk as int,
                *image,
                asid as int,
                portal_ppn as int,
            ),
    {
        match Process::from_image(image, asid, portal_ppn, self.pid, self.parent) {
            Ok(p) => {
                self.address_space = p.address_space;
                self.context = p.context;
                self.heap_bottom = p.heap_bottom;
                self.program_brk = p.program_brk;
                Ok(())
            },
            Err(e) => Err(e),
        }
    }

    /// Moves the program break by `size` bytes and returns the old
    /// break. Growth maps the newly spanned pages zero-filled and
    /// user-read/write; shrinking unmaps the pages no longer spanned.
    /// Rejects, changing nothing, a break that would fall below the
    /// heap bottom, leave the user region, or land on pages that are
    /// already mapped or beyond the remaining frames. A zero `size`
    /// returns the unchanged break and mutates no mapping.
    pub fn change_program_brk(&mut self, size: i32) -> (r: Option<usize>)
        requires
            old(self).wf(),
        ensures
            final(self).wf(),
            final(self).pid == old(self).pid,
            final(self).parent == old(self).parent,
            final(self).context == old(self).context,
            final(self).heap_bottom == old(self).heap_bottom,
            final(self).stride == old(self).stride,
            final(self).priority == old(self).priority,
            final(self).finished == old(self).finished,
            final(self).exit_code == old(self).exit_code,
            final(self).syscall_count == old(self).syscall_count,
            final(self).address_space.asid == old(self).address_space.asid,
            r is Some <==> brk_change_ok(*old(self), size as int),
            r is None ==> *final(self) == *old(self),
            r is Some ==> r == Some(old(self).program_brk) && final(self).program_brk == old(
                self).program_brk + size,
            size == 0 ==> r == Some(old(self).program_brk) && *final(self) == *old(self),
            r is Some ==> ({
                let oc = spec_page_ceil(old(self).program_brk as int);
                let nc = spec_page_ceil(old(self).program_brk + size);
                &&& (nc > oc ==> {
                    &&& forall|vpn: int|
                        oc <= vpn < nc ==> #[trigger] final(self).address_space.maps(vpn)
                            && final(self).address_space.flags_at(vpn) == stack_flags()
                    &&& forall|a: int|
                        oc * PAGE_SIZE <= a < nc * PAGE_SIZE
                            ==> #[trigger] final(self).address_space.byte_at(a) == 0
                    &&& unchanged_outside(
                        old(self).address_space.areas@,
                        final(self).address_space.areas@,
                        oc,
                        nc,
                    )
                })
                &&& (nc < oc ==> {
                    &&& forall|vpn: int| #[trigger]
                        final(self).address_space.maps(vpn) == (old(self).address_space.maps(vpn)
                            && !(nc <= vpn < oc))
                    &&& unchanged_outside(
                        old(self).address_space.areas@,
                        final(self).address_space.areas@,
                        nc,
                        oc,
                    )
                })
                &&& (nc == oc ==> final(self).address_space == old(self).address_space)
            }),
    {
        let old_brk = self.program_brk;
        let nb_wide = old_brk as i64 + size as i64;
        if nb_wide < self.heap_bottom as i64 || nb_wide > USER_TOP as i64 {
            return None;
        }
        let nb = nb_wide as usize;
        let oc = page_ceil(old_brk);
        let nc = page_ceil(nb);
        if size > 0 {
            if nc > oc {
                let empty: Vec<u8> = Vec::new();
                let res = self.address_space.map(
                    oc,
                    nc,
                    &empty,
                    0,
                    VmFlags::user_rwx(true, true, false),
                );
                match res {
                    Ok(()) => {},
                    Err(_) => {
                        return None;
                    },
                }
            }
        } else if size < 0 {
            if oc > nc {
                self.address_space.unmap(nc, oc);
            }
        }
        self.program_brk = nb;
        Some(old_brk)
    }

    /// Copies `count` bytes starting at user address `vaddr` out of
    /// this process's space, provided every byte is accessible for
    /// `req` with an owned frame; reports failure otherwise.
    pub fn read_bytes(&self, vaddr: usize, count: usize, req: VmFlags) -> (r: Option<Vec<u8>>)
        requires
            self.wf(),
            vaddr + count <= VADDR_LIMIT,
        ensures
            r is Some <==> user_range_ok(self.address_space, vaddr as int, count as int, req),
            r matches Some(v) ==> v@.len() == count && forall|k: int|
                0 <= k < count ==> #[trigger] v@[k] == self.address_space.byte_at(vaddr + k),
    {
        let mut out: Vec<u8> = Vec::new();
        let mut k: usize = 0;
        while k < count
            invariant
                self.wf(),
                vaddr + count <= VADDR_LIMIT,
                k <= count,
                out@.len() == k,
                forall|k2: int|
                    0 <= k2 < k ==> #[trigger] out@[k2] == self.address_space.byte_at(vaddr + k2),
                forall|a: int|
                    vaddr <= a < vaddr + k ==> #[trigger] byte_ok(self.address_space, a, req),
            decreases count - k,
        {
            let b_opt = self.address_space.read_byte(vaddr + k, req);
            match b_opt {
                Some(b) => {
                    out.push(b);
                    proof {
                        assert(byte_ok(self.address_space, vaddr + k, req));
                    }
                },
                None => {
                    proof {
                        assert(!byte_ok(self.address_space, vaddr + k, req));
                    }
                    return None;
                },
            }
            k = k + 1;
        }
        Some(out)
    }

    /// Writes the given bytes at user address `vaddr`, all or
    /// nothing: succeeds, depositing every byte, exactly when the
    /// whole range is accessible for `req` with owned frames;
    /// otherwise nothing changes. Mappings, flags and frames are
    /// untouched either way, as is every byte outside the range.
    pub fn write_bytes(&mut self, vaddr: usize, data: &Vec<u8>, req: VmFlags) -> (r: bool)
        requires
            old(self).wf(),
            vaddr + data@.len() <= VADDR_LIMIT,
        ensures
            final(self).wf(),
            r == user_range_ok(old(self).address_space, vaddr as int, data@.len() as int, req),
            !r ==> *final(self) == *old(self),
            mem_only_change(*old(self), *final(self)),
            r ==> forall|k: int|
                0 <= k < data@.len() ==> #[trigger] final(self).address_space.byte_at(vaddr + k)
                    == data@[k],
            forall|a: int|
                (a < vaddr || a >= vaddr + data@.len()) && 0 <= a && old(
                    self).address_space.owned_at(a / PAGE_SIZE as int)
                    ==> #[trigger] final(self).address_space.byte_at(a) == old(
                    self).address_space.byte_at(a),
    {
        let count = data.len();
        // First pass: the whole range must be accessible.
        let mut k: usize = 0;
        while k < count
            invariant
                self.wf(),
                *self == *old(self),
                vaddr + count <= VADDR_LIMIT,
                k <= count,
                count == data@.len(),
                forall|a: int|
                    vaddr <= a < vaddr + k ==> #[trigger] byte_ok(self.address_space, a, req),
            decreases count - k,
        {
            let b_opt = self.address_space.read_byte(vaddr + k, req);
            match b_opt {
                Some(_) => {
                    proof {
                        assert(byte_ok(self.address_space, vaddr + k, req));
                    }
                },
                None => {
                    proof {
                        assert(!byte_ok(self.address_space, vaddr + k, req));
                    }
                    return false;
                },
            }
            k = k + 1;
        }
        // Second pass: deposit the bytes.
        let ghost pre = *old(self);
        let mut k: usize = 0;
        while k < count
            invariant
                self.wf(),
                vaddr + count <= VADDR_LIMIT,
                k <= count,
                count == data@.len(),
                user_range_ok(pre.address_space, vaddr as int, count as int, req),
                mem_only_change(pre, *self),
                forall|k2: int|
                    0 <= k2 < k ==> #[trigger] self.address_space.byte_at(vaddr + k2)
                        == data@[k2],
                forall|a: int|
                    (a < vaddr || a >= vaddr + k) && 0 <= a && pre.address_space.owned_at(
                        a / PAGE_SIZE as int,
                    ) ==> #[trigger] self.address_space.byte_at(a) == pre.address_space.byte_at(a),
            decreases count - k,
        {
            let ghost before = *self;
            let v = data[k];
            proof {
                assert(byte_ok(pre.address_space, vaddr + k, req));
            }
            let ok = self.address_space.write_byte(vaddr + k, v, req);
            proof {
                assert(ok);
                assert forall|k2: int|
                    0 <= k2 < k + 1 implies #[trigger] self.address_space.byte_at(vaddr + k2)
                    == data@[k2] by {
                    if k2 < k {
                        assert(before.address_space.byte_at(vaddr + k2) == data@[k2]);
                        assert(byte_ok(pre.address_space, vaddr + k2, req));
                        assert(before.address_space.owned_at((vaddr + k2) / PAGE_SIZE as int));
                        assert(vaddr + k2 != vaddr + k);
                    }
                }
                assert forall|a: int|
                    (a < vaddr || a >= vaddr + k + 1) && 0 <= a && pre.address_space.owned_at(
                        a / PAGE_SIZE as int,
                    ) implies #[trigger] self.address_space.byte_at(a) == pre.address_space.byte_at(
                    a,
                ) by {
                    assert(before.address_space.byte_at(a) == pre.address_space.byte_at(a));
                    assert(before.address_space.owned_at(a / PAGE_SIZE as int));
                    assert(a != vaddr + k);
                }
            }
            k = k + 1;
        }
        true
    }
}

/// `post` is `pre` with at most the contents of its owned frames
/// changed: same identity, scheduling state, heap boundaries, and
/// the same mapping with the same flags and frames.
pub open spec fn mem_only_change(pre: Process, post: Process) -> bool {
    &&& post.pid == pre.pid
    &&& post.parent == pre.parent
    &&& post.context == pre.context
    &&& post.heap_bottom == pre.heap_bottom
    &&& post.program_brk == pre.program_brk
    &&& post.stride == pre.stride
    &&& post.priority == pre.priority
    &&& post.finished == pre.finished
    &&& post.exit_code == pre.exit_code
    &&& post.syscall_count == pre.syscall_count
    &&& post.address_space.asid == pre.address_space.asid
    &&& post.address_space.next_ppn == pre.address_space.next_ppn
    &&& forall|vpn: int|
        post.address_space.maps(vpn) == (#[trigger] pre.address_space.maps(vpn))
    &&& forall|vpn: int| #[trigger]
        pre.address_space.maps(vpn) ==> post.address_space.flags_at(vpn)
            == pre.address_space.flags_at(vpn) && post.address_space.ppn_at(vpn)
            == pre.address_space.ppn_at(vpn)
}

/// The break move `size` is accepted: the new break stays within the
/// heap region, and pages it newly spans are free and available.
pub open spec fn brk_change_ok(p: Process, size: int) -> bool {
    let nb = p.program_brk + size;
    let oc = spec_page_ceil(p.program_brk as int);
    let nc = spec_page_ceil(nb);
    &&& nb >= p.heap_bottom
    &&& nb <= USER_TOP
    &&& (size > 0 && nc > oc ==> p.address_space.range_free(oc, nc) && p.address_space.next_ppn + (
    nc - oc) <= PPN_LIMIT)
}


/// Growing the heap and then shrinking it by the same amount
/// restores the original break, and the shrink unmaps exactly the
/// pages the growth added: afterwards every page of the space is
/// mapped exactly as before, with its former flags, frame and owned
/// bytes. A zero-sized move returns the unchanged break and mutates
/// no mapping, which `change_program_brk` states directly.
pub proof fn lemma_sbrk_round_trip(p0: Process, p1: Process, p2: Process, n: int)
    requires
        p0.wf(),
        n > 0,
        brk_change_ok(p0, n),
        // Effect of the accepted growth, as change_program_brk states it.
        p1.program_brk == p0.program_brk + n,
        spec_page_ceil(p0.program_brk + n) > spec_page_ceil(p0.program_brk as int) ==> {
            &&& unchanged_outside(
                p0.address_space.areas@,
                p1.address_space.areas@,
                spec_page_ceil(p0.program_brk as int),
                spec_page_ceil(p0.program_brk + n),
            )
        },
        spec_page_ceil(p0.program_brk + n) == spec_page_ceil(p0.program_brk as int)
            ==> p1.address_space == p0.address_space,
        // Effect of the accepted shrink back, as change_program_brk states it.
        p2.program_brk == p1.program_brk - n,
        spec_page_ceil(p1.program_brk as int) > spec_page_ceil(p1.program_brk - n) ==> {
            &&& (forall|vpn: int| #[trigger]
                p2.address_space.maps(vpn) == (p1.address_space.maps(vpn) && !(spec_page_ceil(
                    p1.program_brk - n,
                ) <= vpn < spec_page_ceil(p1.program_brk as int))))
            &&& unchanged_outside(
                p1.address_space.areas@,
                p2.address_space.areas@,
                spec_page_ceil(p1.program_brk - n),
                spec_page_ceil(p1.program_brk as int),
            )
        },
        spec_page_ceil(p1.program_brk as int) == spec_page_ceil(p1.program_brk - n)
            ==> p2.address_space == p1.address_space,
    ensures
        p2.program_brk == p0.program_brk,
        forall|vpn: int| #[trigger]
            page_state_eq(p0.address_space.areas@, p2.address_space.areas@, vpn),
{
    let oc = spec_page_ceil(p0.program_brk as int);
    let nc = spec_page_ceil(p0.program_brk + n);
    assert(p1.program_brk - n == p0.program_brk);
    assert forall|vpn: int| #[trigger]
        page_state_eq(p0.address_space.areas@, p2.address_space.areas@, vpn) by {
        if nc == oc {
            assert(page_state_eq(p0.address_space.areas@, p0.address_space.areas@, vpn));
        } else {
            if oc <= vpn < nc {
                // The growth pages were free before and are unmapped
                // again after the shrink.
                assert(!p0.address_space.maps(vpn));
                assert(!p2.address_space.maps(vpn));
            } else {
                crate::vm::lemma_state_preserved(
                    p0.address_space.areas@,
                    p1.address_space.areas@,
                    oc,
                    nc,
                    vpn,
                );
                crate::vm::lemma_state_preserved(
                    p1.address_space.areas@,
                    p2.address_space.areas@,
                    oc,
                    nc,
                    vpn,
                );
                assert(page_state_eq(p0.address_space.areas@, p1.address_space.areas@, vpn));
                assert(page_state_eq(p1.address_space.areas@, p2.address_space.areas@, vpn));
                assert forall|k: int|
                    0 <= k < PAGE_SIZE && seq_maps(p0.address_space.areas@, vpn) && seq_flags_at(
                        p0.address_space.areas@,
                        vpn,
                    ).owned implies #[trigger] crate::vm::seq_byte_at(
                    p0.address_space.areas@,
                    vpn * PAGE_SIZE + k,
                ) == crate::vm::seq_byte_at(p2.address_space.areas@, vpn * PAGE_SIZE + k) by {}
            }
        }
    }
}

} // verus!
