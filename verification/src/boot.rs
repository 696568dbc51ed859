//! Building the kernel's own address space.
//!
//! At boot the linker layout is discovered outside this crate and
//! handed over as plain ranges; this module maps each kernel region
//! identity (virtual page equals physical page) with permissions
//! derived from its kind, binds the heap the same way, and installs
//! the shared trap portal in the fixed high virtual page that every
//! user space mirrors.

use vstd::prelude::*;

verus! {

use crate::PAGE_SIZE;
use crate::addr::{VADDR_LIMIT, VPN_LIMIT, PPN_LIMIT, PORTAL_VPN, spec_page_ceil, page_ceil, page_floor};
use crate::flags::VmFlags;
use crate::vm::{AddressSpace, MapError, lemma_state_preserved};

/// What a kernel image region holds, deciding its permissions.
pub enum KernelRegionKind {
    /// Executable kernel code.
    Text,
    /// Read-only data.
    Rodata,
    /// Writable data.
    Data,
    /// Boot-time data, writable like data.
    Boot,
}

/// One region of the kernel image, as the boot layout reports it.
pub struct KernelRegion {
    /// First byte of the region.
    pub start: usize,
    /// First byte past the region.
    pub end: usize,
    /// What the region holds.
    pub kind: KernelRegionKind,
}

/// Flags a kernel region is mapped with: code executable, read-only
/// data readable, everything else writable; none user-accessible.
pub open spec fn region_flags(kind: KernelRegionKind) -> VmFlags {
    match kind {
        KernelRegionKind::Text => VmFlags {
            valid: true,
            readable: true,
            writable: false,
            executable: true,
            user: false,
            global: false,
            owned: false,
        },
        KernelRegionKind::Rodata => VmFlags {
            valid: true,
            readable: true,
            writable: false,
            executable: false,
            user: false,
            global: false,
            owned: false,
        },
        _ => VmFlags {
            valid: true,
            readable: true,
            writable: true,
            executable: false,
            user: false,
            global: false,
            owned: false,
        },
    }
}

/// Flags of the kernel heap pages: writable data, not
/// user-accessible.
pub open spec fn heap_flags() -> VmFlags {
    VmFlags {
        valid: true,
        readable: true,
        writable: true,
        executable: false,
        user: false,
        global: false,
        owned: false,
    }
}

/// First page of a region.
pub open spec fn region_start_vpn(r: KernelRegion) -> int {
    r.start as int / PAGE_SIZE as int
}

/// First page past a region.
pub open spec fn region_end_vpn(r: KernelRegion) -> int {
    spec_page_ceil(r.end as int)
}

/// A region the builder can honor: non-empty and inside the space,
/// below the portal page.
pub open spec fn region_ok(r: KernelRegion) -> bool {
    &&& r.start < r.end
    &&& r.end <= VADDR_LIMIT - PAGE_SIZE
}

/// The rounded page ranges of the regions and of the heap are
/// pairwise disjoint.
pub open spec fn layout_disjoint(
    regions: Seq<KernelRegion>,
    heap_start: int,
    heap_end: int,
) -> bool {
    &&& forall|i: int, j: int|
        0 <= i < j < regions.len() ==> (region_end_vpn(#[trigger] regions[i]) <= region_start_vpn(
            #[trigger] regions[j],
        ) || region_end_vpn(regions[j]) <= region_start_vpn(regions[i]))
    &&& forall|i: int|
        0 <= i < regions.len() ==> (region_end_vpn(#[trigger] regions[i]) <= heap_start
            / PAGE_SIZE as int || spec_page_ceil(heap_end) <= region_start_vpn(regions[i]))
}

/// A boot layout the builder is owed to honor: every region and the
/// heap well-shaped, all page ranges pairwise disjoint, and a portal
/// frame within physical memory.
pub open spec fn layout_ok(
    regions: Seq<KernelRegion>,
    heap_start: int,
    heap_end: int,
    portal_ppn: int,
) -> bool {
    &&& forall|i: int| 0 <= i < regions.len() ==> region_ok(#[trigger] regions[i])
    &&& heap_start < heap_end
    &&& heap_end <= VADDR_LIMIT - PAGE_SIZE
    &&& layout_disjoint(regions, heap_start, heap_end)
    &&& portal_ppn < PPN_LIMIT
}

/// Builds the kernel's address space: every layout region and the
/// heap bound identity (each virtual page to the equal physical
/// page) with permissions from its kind, and the shared portal page
/// at the fixed top virtual page. Fails, building nothing lasting,
/// exactly when the layout is malformed or overlapping or the portal
/// frame is out of range.
pub fn kernel_space(
    regions: &Vec<KernelRegion>,
    heap_start: usize,
    heap_end: usize,
    portal_ppn: usize,
    asid: usize,
) -> (r: Result<AddressSpace, MapError>)
    ensures
        r is Ok <==> layout_ok(regions@, heap_start as int, heap_end as int, portal_ppn as int),
        r matches Ok(s) ==> {
            &&& s.wf()
            &&& s.asid == asid
            &&& forall|i: int, vpn: int|
                0 <= i < regions@.len() && region_start_vpn(#[trigger] regions@[i]) <= vpn
                    < region_end_vpn(regions@[i]) ==> #[trigger] s.maps(vpn) && s.flags_at(vpn)
                    == region_flags(regions@[i].kind) && s.ppn_at(vpn) == vpn
            &&& forall|vpn: int|
                heap_start as int / PAGE_SIZE as int <= vpn < spec_page_ceil(heap_end as int)
                    ==> #[trigger] s.maps(vpn) && s.flags_at(vpn) == heap_flags() && s.ppn_at(vpn)
                    == vpn
            &&& s.maps(PORTAL_VPN as int)
            &&& s.ppn_at(PORTAL_VPN as int) == portal_ppn
            &&& s.flags_at(PORTAL_VPN as int) == crate::process::portal_flags()
        },
{
    // Validate the layout.
    if portal_ppn >= PPN_LIMIT {
        return Err(MapError::InvalidRange);
    }
    if !(heap_start < heap_end && heap_end <= VADDR_LIMIT - PAGE_SIZE) {
        return Err(MapError::InvalidRange);
    }
    let n = regions.len();
    let mut i: usize = 0;
    while i < n
        invariant
            i <= n,
            n == regions@.len(),
            forall|k: int| 0 <= k < i ==> region_ok(#[trigger] regions@[k]),
        decreases n - i,
    {
        let rg = &regions[i];
        if !(rg.start < rg.end && rg.end <= VADDR_LIMIT - PAGE_SIZE) {
            return Err(MapError::InvalidRange);
        }
        i = i + 1;
    }
    // Reject overlapping page ranges, the heap's included.
    let hs = page_floor(heap_start);
    let he = page_ceil(heap_end);
    let mut i: usize = 0;
    while i < n
        invariant
            i <= n,
            n == regions@.len(),
            forall|k: int| 0 <= k < n ==> region_ok(#[trigger] regions@[k]),
            heap_start < heap_end,
            heap_end <= VADDR_LIMIT - PAGE_SIZE,
            hs == heap_start as int / PAGE_SIZE as int,
            he == spec_page_ceil(heap_end as int),
            forall|u: int, w: int|
                0 <= u < i && u < w < n ==> (region_end_vpn(#[trigger] regions@[u])
                    <= region_start_vpn(#[trigger] regions@[w]) || region_end_vpn(regions@[w])
                    <= region_start_vpn(regions@[u])),
            forall|u: int|
                0 <= u < i ==> (region_end_vpn(#[trigger] regions@[u]) <= hs || he
                    <= region_start_vpn(regions@[u])),
        decreases n - i,
    {
        let rg = &regions[i];
        let si = page_floor(rg.start);
        let ei = page_ceil(rg.end);
        if !(ei <= hs || he <= si) {
            return Err(MapError::Overlap);
        }
        let mut j: usize = i + 1;
        while j < n
            invariant
                i < j <= n,
                n == regions@.len(),
                forall|k: int| 0 <= k < n ==> region_ok(#[trigger] regions@[k]),
                si == region_start_vpn(regions@[i as int]),
                ei == region_end_vpn(regions@[i as int]),
                forall|w: int|
                    i < w < j ==> (region_end_vpn(regions@[i as int]) <= region_start_vpn(
                        #[trigger] regions@[w],
                    ) || region_end_vpn(regions@[w]) <= region_start_vpn(regions@[i as int])),
            decreases n - j,
        {
            let other = &regions[j];
            let sj = page_floor(other.start);
            let ej = page_ceil(other.end);
            if si < ej && sj < ei {
                return Err(MapError::Overlap);
            }
            j = j + 1;
        }
        i = i + 1;
    }
    // Bind every region identity, with flags from its kind.
    let mut s = AddressSpace::new(asid);
    let mut i: usize = 0;
    while i < n
        invariant
            i <= n,
            n == regions@.len(),
            s.wf(),
            s.asid == asid,
            forall|k: int| 0 <= k < n ==> region_ok(#[trigger] regions@[k]),
            heap_start < heap_end,
            heap_end <= VADDR_LIMIT - PAGE_SIZE,
            hs == heap_start as int / PAGE_SIZE as int,
            he == spec_page_ceil(heap_end as int),
            layout_disjoint(regions@, heap_start as int, heap_end as int),
            forall|vpn: int| #[trigger]
                s.maps(vpn) <==> exists|k: int|
                    0 <= k < i && region_start_vpn(#[trigger] regions@[k]) <= vpn
                        < region_end_vpn(regions@[k]),
            forall|k: int, vpn: int|
                0 <= k < i && region_start_vpn(#[trigger] regions@[k]) <= vpn < region_end_vpn(
                    regions@[k],
                ) ==> #[trigger] s.maps(vpn) && s.flags_at(vpn) == region_flags(regions@[k].kind)
                    && s.ppn_at(vpn) == vpn,
        decreases n - i,
    {
        let rg = &regions[i];
        let si = page_floor(rg.start);
        let ei = page_ceil(rg.end);
        let fl = match rg.kind {
            KernelRegionKind::Text => VmFlags {
                valid: true,
                readable: true,
                writable: false,
                executable: true,
                user: false,
                global: false,
                owned: false,
            },
            KernelRegionKind::Rodata => VmFlags {
                valid: true,
                readable: true,
                writable: false,
                executable: false,
                user: false,
                global: false,
                owned: false,
            },
            _ => VmFlags {
                valid: true,
                readable: true,
                writable: true,
                executable: false,
                user: false,
                global: false,
                owned: false,
            },
        };
        let ghost pre = s;
        proof {
            assert(region_flags(regions@[i as int].kind) == fl.spec_without_owned());
            assert forall|vpn: int| si <= vpn < ei implies !(#[trigger] s.maps(vpn)) by {
                if s.maps(vpn) {
                    let k = choose|k: int|
                        0 <= k < i && region_start_vpn(#[trigger] regions@[k]) <= vpn
                            < region_end_vpn(regions@[k]);
                    assert(region_end_vpn(regions@[k]) <= region_start_vpn(regions@[i as int])
                        || region_end_vpn(regions@[i as int]) <= region_start_vpn(regions@[k]));
                }
            }
        }
        let res = s.map_extern(si, ei, si, fl);
        match res {
            Ok(()) => {},
            Err(_) => {
                proof {
                    assert(false);
                }
                return Err(MapError::Overlap);
            },
        }
        proof {
            assert forall|vpn: int| #[trigger] s.maps(vpn) <==> exists|k: int|
                0 <= k < i + 1 && region_start_vpn(#[trigger] regions@[k]) <= vpn
                    < region_end_vpn(regions@[k]) by {
                if si <= vpn < ei {
                    assert(s.maps(vpn));
                    assert(region_start_vpn(regions@[i as int]) <= vpn < region_end_vpn(
                        regions@[i as int],
                    ));
                } else {
                    lemma_state_preserved(pre.areas@, s.areas@, si as int, ei as int, vpn);
                    assert(s.maps(vpn) == pre.maps(vpn));
                    if s.maps(vpn) {
                        let k = choose|k: int|
                            0 <= k < i && region_start_vpn(#[trigger] regions@[k]) <= vpn
                                < region_end_vpn(regions@[k]);
                        assert(region_start_vpn(regions@[k]) <= vpn < region_end_vpn(regions@[k]));
                    }
                    if exists|k: int|
                        0 <= k < i + 1 && region_start_vpn(#[trigger] regions@[k]) <= vpn
                            < region_end_vpn(regions@[k]) {
                        let k = choose|k: int|
                            0 <= k < i + 1 && region_start_vpn(#[trigger] regions@[k]) <= vpn
                                < region_end_vpn(regions@[k]);
                        assert(k < i);
                        assert(pre.maps(vpn));
                    }
                }
            }
            assert forall|k: int, vpn: int|
                0 <= k < i + 1 && region_start_vpn(#[trigger] regions@[k]) <= vpn < region_end_vpn(
                    regions@[k],
                ) implies #[trigger] s.maps(vpn) && s.flags_at(vpn) == region_flags(
                regions@[k].kind,
            ) && s.ppn_at(vpn) == vpn by {
                if k == i {
                    assert(s.maps(vpn));
                } else {
                    assert(region_end_vpn(regions@[k]) <= region_start_vpn(regions@[i as int])
                        || region_end_vpn(regions@[i as int]) <= region_start_vpn(regions@[k]));
                    assert(pre.maps(vpn)) by {
                        assert(region_start_vpn(regions@[k]) <= vpn < region_end_vpn(regions@[k]));
                    }
                    lemma_state_preserved(pre.areas@, s.areas@, si as int, ei as int, vpn);
                }
            }
        }
        i = i + 1;
    }
    // Bind the heap identity.
    let ghost pre_heap = s;
    proof {
        assert forall|vpn: int| hs <= vpn < he implies !(#[trigger] s.maps(vpn)) by {
            if s.maps(vpn) {
                let k = choose|k: int|
                    0 <= k < n && region_start_vpn(#[trigger] regions@[k]) <= vpn < region_end_vpn(
                        regions@[k],
                    );
                assert(region_end_vpn(regions@[k]) <= hs || he <= region_start_vpn(regions@[k]));
            }
        }
    }
    let res = s.map_extern(hs, he, hs, VmFlags {
        valid: true,
        readable: true,
        writable: true,
        executable: false,
        user: false,
        global: false,
        owned: false,
    });
    match res {
        Ok(()) => {},
        Err(_) => {
            proof {
                assert(false);
            }
            return Err(MapError::Overlap);
        },
    }
    // Install the shared portal page.
    let ghost pre_portal = s;
    proof {
        assert forall|vpn: int| PORTAL_VPN <= vpn < PORTAL_VPN + 1 implies !(#[trigger] s.maps(
            vpn,
        )) by {
            lemma_state_preserved(pre_heap.areas@, s.areas@, hs as int, he as int, vpn);
            if pre_heap.maps(vpn) {
                let k = choose|k: int|
                    0 <= k < n && region_start_vpn(#[trigger] regions@[k]) <= vpn < region_end_vpn(
                        regions@[k],
                    );
                assert(region_ok(regions@[k]));
            }
        }
    }
    let res = s.map_extern(PORTAL_VPN, PORTAL_VPN + 1, portal_ppn, VmFlags {
        valid: true,
        readable: true,
        writable: true,
        executable: true,
        user: false,
        global: true,
        owned: false,
    });
    match res {
        Ok(()) => {},
        Err(_) => {
            proof {
                assert(false);
            }
            return Err(MapError::Overlap);
        },
    }
    proof {
        assert forall|k: int, vpn: int|
            0 <= k < n && region_start_vpn(#[trigger] regions@[k]) <= vpn < region_end_vpn(
                regions@[k],
            ) implies #[trigger] s.maps(vpn) && s.flags_at(vpn) == region_flags(regions@[k].kind)
            && s.ppn_at(vpn) == vpn by {
            assert(pre_heap.maps(vpn)) by {
                assert(region_start_vpn(regions@[k]) <= vpn < region_end_vpn(regions@[k]));
            }
            assert(region_end_vpn(regions@[k]) <= hs || he <= region_start_vpn(regions@[k]));
            lemma_state_preserved(pre_heap.areas@, pre_portal.areas@, hs as int, he as int, vpn);
            assert(region_ok(regions@[k]));
            lemma_state_preserved(
                pre_portal.areas@,
                s.areas@,
                PORTAL_VPN as int,
                PORTAL_VPN + 1 as int,
                vpn,
            );
        }
        assert forall|vpn: int| hs <= vpn < he implies #[trigger] s.maps(vpn) && s.flags_at(vpn)
            == heap_flags() && s.ppn_at(vpn) == vpn by {
            assert(pre_portal.maps(vpn));
            assert(pre_portal.flags_at(vpn) == heap_flags());
            lemma_state_preserved(
                pre_portal.areas@,
                s.areas@,
                PORTAL_VPN as int,
                PORTAL_VPN + 1 as int,
                vpn,
            );
        }
        assert(s.maps(PORTAL_VPN as int));
    }
    Ok(s)
}

} // verus!
