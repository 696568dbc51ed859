//! Virtual address spaces.
//!
//! An address space is an ordered set of virtual memory areas (VMA),
//! each a page-aligned range tagged with permission flags. Areas never
//! overlap. Pages mapped through [`AddressSpace::map`] are backed by
//! frames the space allocates and owns, modelled as byte buffers; pages
//! bound through [`AddressSpace::map_extern`] reference pre-existing
//! physical frames and carry no modelled contents. Translation is
//! permission-checked: it yields a physical address only when the
//! page is mapped and the mapping's flags contain all required bits.

use vstd::prelude::*;

verus! {

use crate::PAGE_SIZE;
use crate::addr::{VPN_LIMIT, PPN_LIMIT, VADDR_LIMIT};
use crate::flags::VmFlags;

/// One virtual memory area: the pages `start .. end`, all with the
/// same flags, backed by the physical pages `ppn ..`.
pub struct Vma {
    /// First virtual page of the area.
    pub start: usize,
    /// First virtual page past the area.
    pub end: usize,
    /// Permission flags of every page in the area.
    pub flags: VmFlags,
    /// Physical page backing `start`; page `start + k` is backed by
    /// `ppn + k`.
    pub ppn: usize,
    /// Contents of the owned frames, one byte per mapped byte; empty
    /// for areas that bind pre-existing physical pages.
    pub data: Vec<u8>,
}

impl Vma {
    /// Well-formed area: non-empty, in range, with backing bytes
    /// exactly when the frames are owned.
    pub open spec fn wf(self) -> bool {
        &&& self.start < self.end
        &&& self.end <= VPN_LIMIT
        &&& self.ppn + (self.end - self.start) <= PPN_LIMIT
        &&& if self.flags.owned {
                self.data.len() == (self.end - self.start) * PAGE_SIZE
            } else {
                self.data.len() == 0
            }
    }

    /// The area covers virtual page `vpn`.
    pub open spec fn contains(self, vpn: int) -> bool {
        self.start <= vpn < self.end
    }

    /// The two areas share no virtual page.
    pub open spec fn disjoint(self, other: Vma) -> bool {
        self.end <= other.start || other.end <= self.start
    }
}

/// All areas well-formed and pairwise non-overlapping.
pub open spec fn vmas_wf(areas: Seq<Vma>) -> bool {
    &&& forall|i: int| 0 <= i < areas.len() ==> (#[trigger] areas[i]).wf()
    &&& forall|i: int, j: int|
        0 <= i < j < areas.len() ==> (#[trigger] areas[i]).disjoint(#[trigger] areas[j])
}

/// Some area of `areas` covers `vpn`.
pub open spec fn seq_maps(areas: Seq<Vma>, vpn: int) -> bool {
    exists|i: int| 0 <= i < areas.len() && (#[trigger] areas[i]).contains(vpn)
}

/// Index of the area covering `vpn`; meaningful only when one exists
/// (unique under `vmas_wf`).
pub open spec fn seq_area_of(areas: Seq<Vma>, vpn: int) -> int {
    choose|i: int| 0 <= i < areas.len() && (#[trigger] areas[i]).contains(vpn)
}

/// Flags of the page `vpn`.
pub open spec fn seq_flags_at(areas: Seq<Vma>, vpn: int) -> VmFlags {
    areas[seq_area_of(areas, vpn)].flags
}

/// Physical page backing the page `vpn`.
pub open spec fn seq_ppn_at(areas: Seq<Vma>, vpn: int) -> int {
    let a = areas[seq_area_of(areas, vpn)];
    a.ppn + (vpn - a.start)
}

/// Byte held at virtual address `addr`; meaningful only when the
/// page of `addr` is mapped with owned frames.
pub open spec fn seq_byte_at(areas: Seq<Vma>, addr: int) -> u8 {
    let a = areas[seq_area_of(areas, addr / PAGE_SIZE as int)];
    a.data[addr - a.start * PAGE_SIZE]
}

/// With non-overlapping areas, the covering area of `vpn` is the one
/// and only index that contains it.
pub proof fn lemma_area_unique(areas: Seq<Vma>, i: int, vpn: int)
    requires
        vmas_wf(areas),
        0 <= i < areas.len(),
        areas[i].contains(vpn),
    ensures
        seq_maps(areas, vpn),
        seq_area_of(areas, vpn) == i,
{
    assert(seq_maps(areas, vpn));
    let j = seq_area_of(areas, vpn);
    if i < j {
        assert(areas[i].disjoint(areas[j]));
    } else if j < i {
        assert(areas[j].disjoint(areas[i]));
    }
}

/// Mapping, flags, backing frame and owned contents of page `vpn`
/// agree between the two area sets.
pub open spec fn page_state_eq(a1: Seq<Vma>, a2: Seq<Vma>, vpn: int) -> bool {
    &&& seq_maps(a1, vpn) == seq_maps(a2, vpn)
    &&& (seq_maps(a1, vpn) ==> {
        &&& seq_flags_at(a1, vpn) == seq_flags_at(a2, vpn)
        &&& seq_ppn_at(a1, vpn) == seq_ppn_at(a2, vpn)
        &&& (seq_flags_at(a1, vpn).owned ==> forall|k: int|
            0 <= k < PAGE_SIZE ==> #[trigger] seq_byte_at(a1, vpn * PAGE_SIZE + k) == seq_byte_at(
                a2,
                vpn * PAGE_SIZE + k,
            ))
    })
}

/// Every page outside `lo .. hi` has the same state in both sets.
pub open spec fn unchanged_outside(a1: Seq<Vma>, a2: Seq<Vma>, lo: int, hi: int) -> bool {
    forall|vpn: int| !(lo <= vpn < hi) ==> #[trigger] page_state_eq(a1, a2, vpn)
}

/// Why a map request was rejected.
#[derive(Clone, Copy, PartialEq, Eq, Structural, Debug)]
pub enum MapError {
    /// Empty or out-of-range page interval, or source bytes that do
    /// not fit in it.
    InvalidRange,
    /// The interval overlaps an existing area.
    Overlap,
    /// No physical frames left for the request.
    Exhausted,
}

/// Byte that `map` deposits at relative offset `rel` of the freshly
/// mapped interval: the source bytes shifted by `offset`, zero-filled
/// elsewhere.
pub open spec fn loaded_byte(src: Seq<u8>, offset: int, rel: int) -> u8 {
    if offset <= rel < offset + src.len() {
        src[rel - offset]
    } else {
        0
    }
}

/// One process's page table and mapped regions.
pub struct AddressSpace {
    /// The mapped areas; pairwise non-overlapping.
    pub areas: Vec<Vma>,
    /// Next free physical page of the space's frame allocator.
    pub next_ppn: usize,
    /// Address-space identifier, installed when a context of this
    /// space is resumed.
    pub asid: usize,
}

impl AddressSpace {
    /// Well-formed space.
    pub open spec fn wf(self) -> bool {
        &&& vmas_wf(self.areas@)
        &&& self.next_ppn <= PPN_LIMIT
    }

    /// Page `vpn` is mapped.
    pub open spec fn maps(self, vpn: int) -> bool {
        seq_maps(self.areas@, vpn)
    }

    /// Flags of mapped page `vpn`.
    pub open spec fn flags_at(self, vpn: int) -> VmFlags {
        seq_flags_at(self.areas@, vpn)
    }

    /// Physical page backing mapped page `vpn`.
    pub open spec fn ppn_at(self, vpn: int) -> int {
        seq_ppn_at(self.areas@, vpn)
    }

    /// Page `vpn` is mapped with frames the space owns.
    pub open spec fn owned_at(self, vpn: int) -> bool {
        self.maps(vpn) && self.flags_at(vpn).owned
    }

    /// Byte at virtual address `addr` (owned pages only).
    pub open spec fn byte_at(self, addr: int) -> u8 {
        seq_byte_at(self.areas@, addr)
    }

    /// The whole interval `start .. end` is free of mappings.
    pub open spec fn range_free(self, start: int, end: int) -> bool {
        forall|vpn: int| start <= vpn < end ==> !(#[trigger] self.maps(vpn))
    }

    /// A fresh, empty address space with the given identifier.
    pub fn new(asid: usize) -> (r: AddressSpace)
        ensures
            r.wf(),
            r.asid == asid,
            r.areas@.len() == 0,
            r.next_ppn == 0,
            forall|vpn: int| !(#[trigger] r.maps(vpn)),
    {
        AddressSpace { areas: Vec::new(), next_ppn: 0, asid }
    }

    /// Allocates fresh zeroed frames for the pages `start .. end`,
    /// copies the source bytes to relative offset `offset`, and
    /// records the area with the allocator-owned bit added to `flags`.
    /// Rejects empty or oversized intervals, any overlap with an
    /// existing area, and requests beyond the remaining frames.
    pub fn map(
        &mut self,
        start: usize,
        end: usize,
        src: &Vec<u8>,
        offset: usize,
        flags: VmFlags,
    ) -> (r: Result<(), MapError>)
        requires
            old(self).wf(),
        ensures
            final(self).wf(),
            final(self).asid == old(self).asid,
            r == Err::<(), MapError>(MapError::InvalidRange) <==> !map_range_ok(
                start as int,
                end as int,
                src@.len() as int,
                offset as int,
            ),
            r == Err::<(), MapError>(MapError::Overlap) <==> (map_range_ok(
                start as int,
                end as int,
                src@.len() as int,
                offset as int,
            ) && !old(self).range_free(start as int, end as int)),
            r == Err::<(), MapError>(MapError::Exhausted) <==> (map_range_ok(
                start as int,
                end as int,
                src@.len() as int,
                offset as int,
            ) && old(self).range_free(start as int, end as int) && old(self).next_ppn + (end
                - start) > PPN_LIMIT),
            r matches Err(_) ==> *final(self) == *old(self),
            (map_range_ok(start as int, end as int, src@.len() as int, offset as int) && old(
                self,
            ).range_free(start as int, end as int) && old(self).next_ppn + (end - start)
                <= PPN_LIMIT) ==> r == Ok::<(), MapError>(()),
            r == Ok::<(), MapError>(()) ==> {
                &&& forall|vpn: int|
                    start <= vpn < end ==> #[trigger] final(self).maps(vpn)
                        && final(self).flags_at(vpn) == flags.with_owned()
                        && final(self).ppn_at(vpn) == old(self).next_ppn + (vpn - start)
                &&& forall|a: int|
                    start * PAGE_SIZE <= a < end * PAGE_SIZE ==> #[trigger] final(self).byte_at(a)
                        == loaded_byte(src@, offset as int, a - start * PAGE_SIZE)
                &&& unchanged_outside(old(self).areas@, final(self).areas@, start as int, end as int)
                &&& final(self).next_ppn == old(self).next_ppn + (end - start)
            },
            r == Ok::<(), MapError>(()) ==> final(self).range_free(start as int, end as int)
                == false,
    {
        if !(start < end && end <= VPN_LIMIT) {
            return Err(MapError::InvalidRange);
        }
        let npages = end - start;
        let total = npages * PAGE_SIZE;
        assert(total == npages * PAGE_SIZE && total <= VPN_LIMIT * PAGE_SIZE) by (nonlinear_arith)
            requires
                npages == end - start,
                end <= VPN_LIMIT,
                start < end,
                total == npages * PAGE_SIZE,
        ;
        if offset > total || src.len() > total - offset {
            return Err(MapError::InvalidRange);
        }
        if let Some(hit) = self.first_overlap(start, end) {
            return Err(MapError::Overlap);
        }
        if PPN_LIMIT - self.next_ppn < npages {
            return Err(MapError::Exhausted);
        }
        let mut data: Vec<u8> = Vec::new();
        let mut i: usize = 0;
        while i < total
            invariant
                data@.len() == i,
                i <= total,
                offset + src@.len() <= total,
                forall|k: int|
                    0 <= k < i ==> data@[k] == loaded_byte(src@, offset as int, k),
            decreases total - i,
        {
            if i >= offset && i - offset < src.len() {
                data.push(src[i - offset]);
            } else {
                data.push(0u8);
            }
            i = i + 1;
        }
        let vma = Vma { start, end, flags: flags.with_owned(), ppn: self.next_ppn, data };
        let ghost old_areas = self.areas@;
        let ghost old_ppn = self.next_ppn as int;
        proof {
            assert forall|i: int| 0 <= i < old_areas.len() implies old_areas[i].disjoint(vma) by {
                if !old_areas[i].disjoint(vma) {
                    let lo = if old_areas[i].start >= vma.start {
                        old_areas[i].start as int
                    } else {
                        vma.start as int
                    };
                    assert(old_areas[i].contains(lo));
                    assert(self.maps(lo));
                    assert(start <= lo < end);
                }
            }
        }
        self.next_ppn = self.next_ppn + npages;
        self.areas.push(vma);
        proof {
            let new_areas = self.areas@;
            let last = new_areas.len() - 1;
            assert(vmas_wf(new_areas)) by {
                assert forall|i: int, j: int| 0 <= i < j < new_areas.len() implies (
                #[trigger] new_areas[i]).disjoint(#[trigger] new_areas[j]) by {
                    if j == last {
                        assert(old_areas[i].disjoint(vma));
                    }
                }
            }
            assert forall|vpn: int| start <= vpn < end implies #[trigger] self.maps(vpn)
                && self.flags_at(vpn) == flags.with_owned() && self.ppn_at(vpn) == old_ppn + (vpn
                - start) by {
                assert(new_areas[last].contains(vpn));
                lemma_area_unique(new_areas, last, vpn);
            }
            assert forall|a: int| start * PAGE_SIZE <= a < end * PAGE_SIZE implies #[trigger] self
                .byte_at(a) == loaded_byte(src@, offset as int, a - start * PAGE_SIZE) by {
                let vpn = a / PAGE_SIZE as int;
                vstd::arithmetic::div_mod::lemma_div_is_ordered(
                    start as int * PAGE_SIZE as int,
                    a,
                    PAGE_SIZE as int,
                );
                assert(start as int == start as int * PAGE_SIZE as int / PAGE_SIZE as int)
                    by (nonlinear_arith);
                assert(vpn < end as int) by (nonlinear_arith)
                    requires
                        a < end as int * PAGE_SIZE as int,
                        vpn == a / PAGE_SIZE as int,
                        PAGE_SIZE as int == 4096,
                ;
                assert(new_areas[last].contains(vpn));
                lemma_area_unique(new_areas, last, vpn);
                assert(0 <= a - vma.start as int * PAGE_SIZE as int);
                assert((a - vma.start as int * PAGE_SIZE as int) < vma.data@.len());
            }
            assert(unchanged_outside(old_areas, new_areas, start as int, end as int)) by {
                assert forall|vpn: int| !(start as int <= vpn < end as int) implies
                #[trigger] page_state_eq(old_areas, new_areas, vpn) by {
                    lemma_push_preserves_outside(old_areas, vma, vpn);
                }
            }
            assert(self.maps(start as int));
        }
        Ok(())
    }

    /// Binds the pages `start .. end` to the pre-existing physical
    /// pages `ppn ..`, without allocating or owning frames: used for
    /// kernel-identity regions and the shared portal page. The
    /// allocator-owned bit is never set on such an area.
    pub fn map_extern(&mut self, start: usize, end: usize, ppn: usize, flags: VmFlags) -> (r: Result<
        (),
        MapError,
    >)
        requires
            old(self).wf(),
        ensures
            final(self).wf(),
            final(self).asid == old(self).asid,
            final(self).next_ppn == old(self).next_ppn,
            r == Err::<(), MapError>(MapError::InvalidRange) <==> !extern_range_ok(
                start as int,
                end as int,
                ppn as int,
            ),
            r == Err::<(), MapError>(MapError::Overlap) <==> (extern_range_ok(
                start as int,
                end as int,
                ppn as int,
            ) && !old(self).range_free(start as int, end as int)),
            r matches Err(_) ==> *final(self) == *old(self),
            (extern_range_ok(start as int, end as int, ppn as int) && old(self).range_free(
                start as int,
                end as int,
            )) ==> r == Ok::<(), MapError>(()),
            r == Ok::<(), MapError>(()) ==> forall|vpn: int|
                start <= vpn < end ==> #[trigger] final(self).maps(vpn)
                    && final(self).flags_at(vpn) == flags.spec_without_owned()
                    && final(self).ppn_at(vpn) == ppn + (vpn - start),
            r == Ok::<(), MapError>(()) ==> unchanged_outside(
                old(self).areas@,
                final(self).areas@,
                start as int,
                end as int,
            ),
    {
        if !(start < end && end <= VPN_LIMIT && ppn <= PPN_LIMIT && PPN_LIMIT - ppn >= end - start) {
            return Err(MapError::InvalidRange);
        }
        if let Some(_hit) = self.first_overlap(start, end) {
            return Err(MapError::Overlap);
        }
        let vma = Vma {
            start,
            end,
            flags: VmFlags { owned: false, ..flags },
            ppn,
            data: Vec::new(),
        };
        let ghost old_areas = self.areas@;
        proof {
            assert forall|i: int| 0 <= i < old_areas.len() implies old_areas[i].disjoint(vma) by {
                if !old_areas[i].disjoint(vma) {
                    let lo = if old_areas[i].start >= vma.start {
                        old_areas[i].start as int
                    } else {
                        vma.start as int
                    };
                    assert(old_areas[i].contains(lo));
                    assert(self.maps(lo));
                    assert(start <= lo < end);
                }
            }
        }
        self.areas.push(vma);
        proof {
            let new_areas = self.areas@;
            let last = new_areas.len() - 1;
            assert(vmas_wf(new_areas)) by {
                assert forall|i: int, j: int| 0 <= i < j < new_areas.len() implies (
                #[trigger] new_areas[i]).disjoint(#[trigger] new_areas[j]) by {
                    if j == last {
                        assert(old_areas[i].disjoint(vma));
                    }
                }
            }
            assert forall|vpn: int| start <= vpn < end implies #[trigger] self.maps(vpn)
                && self.flags_at(vpn) == flags.spec_without_owned() && self.ppn_at(vpn)
                == ppn + (vpn - start) by {
                assert(new_areas[last].contains(vpn));
                lemma_area_unique(new_areas, last, vpn);
            }
            assert(unchanged_outside(old_areas, new_areas, start as int, end as int)) by {
                assert forall|vpn: int| !(start as int <= vpn < end as int) implies
                #[trigger] page_state_eq(old_areas, new_areas, vpn) by {
                    lemma_push_preserves_outside(old_areas, vma, vpn);
                }
            }
        }
        Ok(())
    }

    /// Reads the byte at `vaddr`, provided its page is mapped with
    /// flags containing `req` and the space owns the backing frame.
    pub fn read_byte(&self, vaddr: usize, req: VmFlags) -> (r: Option<u8>)
        requires
            self.wf(),
            vaddr < VADDR_LIMIT,
        ensures
            r is Some <==> (self.maps(vaddr as int / PAGE_SIZE as int) && self.flags_at(
                vaddr as int / PAGE_SIZE as int,
            ).spec_contains(req) && self.flags_at(vaddr as int / PAGE_SIZE as int).owned),
            r matches Some(b) ==> b == self.byte_at(vaddr as int),
    {
        let vpn = vaddr / PAGE_SIZE;
        let off = vaddr % PAGE_SIZE;
        let n = self.areas.len();
        let mut i: usize = 0;
        while i < n
            invariant
                self.wf(),
                i <= n,
                n == self.areas@.len(),
                vaddr < VADDR_LIMIT,
                vpn == vaddr as int / PAGE_SIZE as int,
                off == vaddr as int % PAGE_SIZE as int,
                forall|j: int| 0 <= j < i ==> !(#[trigger] self.areas@[j].contains(vpn as int)),
            decreases n - i,
        {
            let a = &self.areas[i];
            if a.start <= vpn && vpn < a.end {
                proof {
                    lemma_area_unique(self.areas@, i as int, vpn as int);
                }
                if a.flags.contains(req) && a.flags.owned {
                    let idx = (vpn - a.start) * PAGE_SIZE + off;
                    proof {
                        lemma_data_index(a.start as int, a.end as int, vpn as int, vaddr as int);
                    }
                    return Some(a.data[idx]);
                } else {
                    return None;
                }
            }
            i = i + 1;
        }
        proof {
            if self.maps(vpn as int) {
                let j = seq_area_of(self.areas@, vpn as int);
            }
        }
        None
    }

    /// Writes one byte at `vaddr` when its page is mapped with flags
    /// containing `req` and the frame is owned; reports whether the
    /// write happened. Nothing else changes either way.
    pub fn write_byte(&mut self, vaddr: usize, value: u8, req: VmFlags) -> (r: bool)
        requires
            old(self).wf(),
            vaddr < VADDR_LIMIT,
        ensures
            final(self).wf(),
            final(self).asid == old(self).asid,
            final(self).next_ppn == old(self).next_ppn,
            r == (old(self).maps(vaddr as int / PAGE_SIZE as int) && old(self).flags_at(
                vaddr as int / PAGE_SIZE as int,
            ).spec_contains(req) && old(self).flags_at(vaddr as int / PAGE_SIZE as int).owned),
            !r ==> *final(self) == *old(self),
            forall|vpn: int| final(self).maps(vpn) == (#[trigger] old(self).maps(vpn)),
            forall|vpn: int| #[trigger]
                old(self).maps(vpn) ==> final(self).flags_at(vpn) == old(self).flags_at(vpn)
                    && final(self).ppn_at(vpn) == old(self).ppn_at(vpn),
            r ==> final(self).byte_at(vaddr as int) == value,
            r ==> forall|a: int|
                a != vaddr && old(self).owned_at(a / PAGE_SIZE as int)
                    ==> #[trigger] final(self).byte_at(a) == old(self).byte_at(a),
    {
        let vpn = vaddr / PAGE_SIZE;
        let off = vaddr % PAGE_SIZE;
        let n = self.areas.len();
        let mut i: usize = 0;
        while i < n
            invariant
                self.wf(),
                i <= n,
                n == self.areas@.len(),
                vaddr < VADDR_LIMIT,
                vpn == vaddr as int / PAGE_SIZE as int,
                off == vaddr as int % PAGE_SIZE as int,
                self == old(self),
                forall|j: int| 0 <= j < i ==> !(#[trigger] self.areas@[j].contains(vpn as int)),
            decreases n - i,
        {
            let a = &self.areas[i];
            if a.start <= vpn && vpn < a.end {
                proof {
                    lemma_area_unique(self.areas@, i as int, vpn as int);
                }
                if a.flags.contains(req) && a.flags.owned {
                    let idx = (vpn - a.start) * PAGE_SIZE + off;
                    proof {
                        lemma_data_index(a.start as int, a.end as int, vpn as int, vaddr as int);
                    }
                    let ghost old_areas = self.areas@;
                    let area = &mut self.areas[i];
                    area.data[idx] = value;
                    proof {
                        lemma_update_byte(
                            old_areas,
                            self.areas@,
                            i as int,
                            vaddr as int,
                            value,
                        );
                    }
                    return true;
                } else {
                    return false;
                }
            }
            i = i + 1;
        }
        proof {
            if self.maps(vpn as int) {
                let j = seq_area_of(self.areas@, vpn as int);
            }
        }
        false
    }

    /// Removes every mapping of the pages `start .. end`, releasing
    /// the owned frames; areas that straddle the boundary are trimmed
    /// to their part outside it. Every page outside the interval keeps
    /// its mapping, flags, frames and bytes.
    pub fn unmap(&mut self, start: usize, end: usize)
        requires
            old(self).wf(),
            start <= end,
        ensures
            final(self).wf(),
            final(self).asid == old(self).asid,
            final(self).next_ppn == old(self).next_ppn,
            forall|vpn: int| #[trigger]
                final(self).maps(vpn) == (old(self).maps(vpn) && !(start <= vpn < end)),
            unchanged_outside(old(self).areas@, final(self).areas@, start as int, end as int),
    {
        let ghost olds = self.areas@;
        let n = self.areas.len();
        let mut kept: Vec<Vma> = Vec::new();
        let mut i: usize = 0;
        while i < n
            invariant
                i <= n,
                n == olds.len(),
                vmas_wf(olds),
                start <= end,
                self.areas@ == olds.subrange(i as int, n as int),
                self.next_ppn == old(self).next_ppn,
                self.asid == old(self).asid,
                self.next_ppn <= PPN_LIMIT,
                cut_ok(olds.subrange(0, i as int), kept@, start as int, end as int),
            decreases n - i,
        {
            let ghost prefix = olds.subrange(0, i as int);
            let ghost kept0 = kept@;
            let v = self.areas.remove(0);
            proof {
                assert(self.areas@ =~= olds.subrange(i + 1 as int, n as int));
                assert(v == olds[i as int]);
                assert(prefix.push(v) =~= olds.subrange(0, i + 1 as int));
                assert(vmas_wf(olds.subrange(0, i + 1 as int))) by {
                    lemma_vmas_wf_subrange(olds, i + 1 as int);
                }
                assert(v.wf());
            }
            let ghost mut pieces: Seq<Vma> = Seq::empty();
            if v.end <= start || end <= v.start {
                proof {
                    pieces = pieces.push(v);
                    assert(piece_of(v, v)) by {
                        assert forall|rel: int|
                            0 <= rel < (v.end - v.start) * PAGE_SIZE && v.flags.owned implies
                            #[trigger] v.data@[rel] == v.data@[(v.start - v.start) * PAGE_SIZE
                            + rel] by {
                            assert((v.start - v.start) * PAGE_SIZE as int + rel == rel);
                        }
                    }
                }
                kept.push(v);
            } else {
                if v.start < start {
                    let len_pages = start - v.start;
                    proof {
                        lemma_mul_bound(len_pages as int, (v.end - v.start) as int);
                    }
                    let d = if v.flags.owned {
                        copy_bytes(&v.data, 0, len_pages * PAGE_SIZE)
                    } else {
                        Vec::new()
                    };
                    let p = Vma { start: v.start, end: start, flags: v.flags, ppn: v.ppn, data: d };
                    proof {
                        assert(piece_of(p, v)) by {
                            assert forall|rel: int|
                                0 <= rel < (p.end - p.start) * PAGE_SIZE && p.flags.owned implies
                                #[trigger] p.data@[rel] == v.data@[(p.start - v.start) * PAGE_SIZE
                                + rel] by {
                                assert((p.start - v.start) * PAGE_SIZE as int + rel == rel);
                                assert(p.data@[rel] == v.data@[0 + rel]);
                            }
                        }
                        pieces = pieces.push(p);
                    }
                    kept.push(p);
                }
                if end < v.end {
                    let skip = end - v.start;
                    let len_pages = v.end - end;
                    proof {
                        lemma_mul_bound(skip as int, (v.end - v.start) as int);
                        lemma_mul_bound(len_pages as int, (v.end - v.start) as int);
                        assert(skip * PAGE_SIZE + len_pages * PAGE_SIZE == (v.end - v.start)
                            * PAGE_SIZE) by (nonlinear_arith)
                            requires
                                skip == end - v.start,
                                len_pages == v.end - end,
                                v.start as int <= end as int,
                                (end as int) < v.end as int,
                        ;
                    }
                    let d = if v.flags.owned {
                        copy_bytes(&v.data, skip * PAGE_SIZE, len_pages * PAGE_SIZE)
                    } else {
                        Vec::new()
                    };
                    let p = Vma {
                        start: end,
                        end: v.end,
                        flags: v.flags,
                        ppn: v.ppn + skip,
                        data: d,
                    };
                    proof {
                        assert(piece_of(p, v)) by {
                            assert forall|rel: int|
                                0 <= rel < (p.end - p.start) * PAGE_SIZE && p.flags.owned implies
                                #[trigger] p.data@[rel] == v.data@[(p.start - v.start) * PAGE_SIZE
                                + rel] by {
                                assert(p.data@[rel] == v.data@[skip * PAGE_SIZE + rel]);
                            }
                        }
                        pieces = pieces.push(p);
                    }
                    kept.push(p);
                }
            }
            proof {
                assert(kept@ =~= kept0 + pieces);
                assert forall|vpn: int|
                    v.contains(vpn) && !(start as int <= vpn < end as int) implies exists|t: int|
                    0 <= t < pieces.len() && (#[trigger] pieces[t]).contains(vpn) by {
                    if v.end <= start || end <= v.start {
                        assert(pieces[0].contains(vpn));
                    } else if vpn < start {
                        assert(pieces[0].contains(vpn));
                    } else {
                        assert(pieces[pieces.len() - 1].contains(vpn));
                    }
                }
                lemma_cut_extend(prefix, v, kept0, pieces, start as int, end as int);
                assert(cut_ok(
                    olds.subrange(0, i + 1 as int),
                    kept@,
                    start as int,
                    end as int,
                )) by {
                    assert(prefix.push(v) =~= olds.subrange(0, i + 1 as int));
                }
            }
            i = i + 1;
        }
        proof {
            assert(olds.subrange(0, n as int) =~= olds);
        }
        self.areas = kept;
        proof {
            let news = self.areas@;
            assert forall|vpn: int| #[trigger]
                self.maps(vpn) == (seq_maps(olds, vpn) && !(start <= vpn < end)) by {}
            assert forall|vpn: int| !(start as int <= vpn < end as int) implies
                #[trigger] page_state_eq(olds, news, vpn) by {
                if seq_maps(olds, vpn) {
                    assert(seq_maps(news, vpn));
                    assert forall|k: int|
                        0 <= k < PAGE_SIZE && seq_flags_at(olds, vpn).owned implies
                        #[trigger] seq_byte_at(olds, vpn * PAGE_SIZE + k) == seq_byte_at(
                        news,
                        vpn * PAGE_SIZE + k,
                    ) by {
                        let a = vpn * PAGE_SIZE + k;
                        lemma_page_of_byte(vpn, k);
                        let j = seq_area_of(olds, vpn);
                        assert(vpn >= olds[j].start);
                        assert(a >= 0) by (nonlinear_arith)
                            requires
                                vpn >= 0,
                                0 <= k,
                                a == vpn * PAGE_SIZE as int + k,
                                PAGE_SIZE as int == 4096,
                        ;
                        assert(seq_byte_at(news, a) == seq_byte_at(olds, a));
                    }
                }
            }
        }
    }

    /// Deep-copies every mapped area into `dest`, which must be
    /// empty: same ranges, flags and frame numbers, and a fresh copy
    /// of every owned byte. Used by fork.
    pub fn clone_into(&self, dest: &mut AddressSpace)
        requires
            self.wf(),
            old(dest).wf(),
            old(dest).areas@.len() == 0,
        ensures
            final(dest).wf(),
            final(dest).asid == old(dest).asid,
            final(dest).next_ppn == self.next_ppn,
            forall|vpn: int| #[trigger] page_state_eq(self.areas@, final(dest).areas@, vpn),
    {
        dest.next_ppn = self.next_ppn;
        let n = self.areas.len();
        let mut i: usize = 0;
        while i < n
            invariant
                i <= n,
                n == self.areas@.len(),
                self.wf(),
                dest.areas@.len() == i,
                dest.next_ppn == self.next_ppn,
                dest.asid == old(dest).asid,
                forall|j: int| 0 <= j < i ==> vma_like(#[trigger] self.areas@[j], dest.areas@[j]),
            decreases n - i,
        {
            let a = &self.areas[i];
            let d = copy_bytes(&a.data, 0, a.data.len());
            let c = Vma { start: a.start, end: a.end, flags: a.flags, ppn: a.ppn, data: d };
            proof {
                assert(c.data@ =~= a.data@);
            }
            dest.areas.push(c);
            i = i + 1;
        }
        proof {
            assert forall|vpn: int| #[trigger]
                page_state_eq(self.areas@, dest.areas@, vpn) by {
                lemma_like_page_state(self.areas@, dest.areas@, vpn);
            }
            lemma_like_page_state(self.areas@, dest.areas@, 0);
        }
    }

    /// First area index that overlaps the page interval, if any.
    fn first_overlap(&self, start: usize, end: usize) -> (r: Option<usize>)
        requires
            self.wf(),
            start < end,
        ensures
            r is Some <==> !self.range_free(start as int, end as int),
    {
        let n = self.areas.len();
        let mut i: usize = 0;
        while i < n
            invariant
                self.wf(),
                start < end,
                i <= n,
                n == self.areas@.len(),
                forall|j: int, vpn: int|
                    0 <= j < i && start <= vpn < end ==> !(#[trigger] self.areas@[j].contains(vpn)),
            decreases n - i,
        {
            let a = &self.areas[i];
            if a.start < end && start < a.end {
                let ghost lo = if a.start as int >= start as int {
                    a.start as int
                } else {
                    start as int
                };
                proof {
                    assert(self.areas@[i as int].contains(lo));
                    assert(self.maps(lo));
                    assert(start <= lo < end);
                }
                return Some(i);
            }
            i = i + 1;
        }
        proof {
            assert forall|vpn: int| start <= vpn < end implies !(#[trigger] self.maps(vpn)) by {
                if self.maps(vpn) {
                    let j = seq_area_of(self.areas@, vpn);
                }
            }
        }
        None
    }

    /// Returns the physical address of `vaddr` when its page is
    /// mapped and the mapping's flags contain every bit of `req`;
    /// reports failure otherwise.
    pub fn translate(&self, vaddr: usize, req: VmFlags) -> (r: Option<usize>)
        requires
            self.wf(),
        ensures
            r is Some <==> (self.maps(vaddr as int / PAGE_SIZE as int) && self.flags_at(
                vaddr as int / PAGE_SIZE as int,
            ).spec_contains(req)),
            r matches Some(p) ==> p == self.ppn_at(vaddr as int / PAGE_SIZE as int) * PAGE_SIZE
                + vaddr as int % PAGE_SIZE as int,
    {
        let vpn = vaddr / PAGE_SIZE;
        let off = vaddr % PAGE_SIZE;
        let n = self.areas.len();
        let mut i: usize = 0;
        while i < n
            invariant
                self.wf(),
                i <= n,
                n == self.areas@.len(),
                vpn == vaddr as int / PAGE_SIZE as int,
                off == vaddr as int % PAGE_SIZE as int,
                forall|j: int| 0 <= j < i ==> !(#[trigger] self.areas@[j].contains(vpn as int)),
            decreases n - i,
        {
            let a = &self.areas[i];
            if a.start <= vpn && vpn < a.end {
                proof {
                    lemma_area_unique(self.areas@, i as int, vpn as int);
                }
                if a.flags.contains(req) {
                    let base = a.ppn + (vpn - a.start);
                    assert(base * PAGE_SIZE + off <= 0xffffffff) by (nonlinear_arith)
                        requires
                            base < PPN_LIMIT,
                            off < PAGE_SIZE,
                            PAGE_SIZE as int == 4096,
                            PPN_LIMIT as int == 0x100000,
                    ;
                    return Some(base * PAGE_SIZE + off);
                } else {
                    return None;
                }
            }
            i = i + 1;
        }
        proof {
            if self.maps(vpn as int) {
                let j = seq_area_of(self.areas@, vpn as int);
            }
        }
        None
    }
}

/// A request to map the pages `start .. end` is shaped correctly:
/// non-empty, inside the virtual space, and the source bytes fit.
pub open spec fn map_range_ok(start: int, end: int, src_len: int, offset: int) -> bool {
    &&& start < end
    &&& end <= VPN_LIMIT
    &&& offset + src_len <= (end - start) * PAGE_SIZE
}

/// Appending an area leaves every page outside it untouched.
proof fn lemma_push_preserves_outside(areas: Seq<Vma>, vma: Vma, vpn: int)
    requires
        vmas_wf(areas),
        vma.wf(),
        forall|i: int| 0 <= i < areas.len() ==> (#[trigger] areas[i]).disjoint(vma),
        !vma.contains(vpn),
    ensures
        page_state_eq(areas, areas.push(vma), vpn),
{
    let bigger = areas.push(vma);
    assert(vmas_wf(bigger)) by {
        assert forall|i: int, j: int| 0 <= i < j < bigger.len() implies (
        #[trigger] bigger[i]).disjoint(#[trigger] bigger[j]) by {
            if j == bigger.len() - 1 {
                assert(areas[i].disjoint(vma));
            }
        }
    }
    if seq_maps(areas, vpn) {
        let i = seq_area_of(areas, vpn);
        assert(bigger[i].contains(vpn));
        lemma_area_unique(bigger, i, vpn);
        lemma_area_unique(areas, i, vpn);
        assert forall|k: int| 0 <= k < PAGE_SIZE && seq_flags_at(areas, vpn).owned implies
            #[trigger] seq_byte_at(areas, vpn * PAGE_SIZE + k) == seq_byte_at(
            bigger,
            vpn * PAGE_SIZE + k,
        ) by {
            let a = vpn * PAGE_SIZE + k;
            lemma_page_of_byte(vpn, k);
            lemma_area_unique(bigger, i, a / PAGE_SIZE as int);
            lemma_area_unique(areas, i, a / PAGE_SIZE as int);
        }
    } else {
        if seq_maps(bigger, vpn) {
            let i = seq_area_of(bigger, vpn);
            if i < areas.len() {
                assert(seq_maps(areas, vpn));
            }
        }
    }
}

/// Field-for-field correspondence of two areas: same range, flags and
/// frame base, and the same backing bytes.
pub open spec fn vma_like(a: Vma, b: Vma) -> bool {
    &&& a.start == b.start
    &&& a.end == b.end
    &&& a.flags == b.flags
    &&& a.ppn == b.ppn
    &&& a.data@ == b.data@
}

/// Area sets that correspond element-for-element give every page the
/// same state.
proof fn lemma_like_page_state(a1: Seq<Vma>, a2: Seq<Vma>, vpn: int)
    requires
        vmas_wf(a1),
        a1.len() == a2.len(),
        forall|j: int| 0 <= j < a1.len() ==> vma_like(#[trigger] a1[j], a2[j]),
    ensures
        vmas_wf(a2),
        page_state_eq(a1, a2, vpn),
{
    assert(vmas_wf(a2)) by {
        assert forall|j: int| 0 <= j < a2.len() implies (#[trigger] a2[j]).wf() by {
            assert(a1[j].wf());
            assert(a1[j].data@.len() == a2[j].data@.len());
        }
        assert forall|j: int, k: int| 0 <= j < k < a2.len() implies (#[trigger] a2[j]).disjoint(
            #[trigger] a2[k],
        ) by {
            assert(a1[j].disjoint(a1[k]));
        }
    }
    if seq_maps(a1, vpn) {
        let j = seq_area_of(a1, vpn);
        lemma_area_unique(a1, j, vpn);
        assert(a2[j].contains(vpn));
        lemma_area_unique(a2, j, vpn);
        assert forall|k: int| 0 <= k < PAGE_SIZE && seq_flags_at(a1, vpn).owned implies
            #[trigger] seq_byte_at(a1, vpn * PAGE_SIZE + k) == seq_byte_at(
            a2,
            vpn * PAGE_SIZE + k,
        ) by {
            lemma_page_of_byte(vpn, k);
            lemma_area_unique(a1, j, (vpn * PAGE_SIZE + k) / PAGE_SIZE as int);
            lemma_area_unique(a2, j, (vpn * PAGE_SIZE + k) / PAGE_SIZE as int);
        }
    } else {
        if seq_maps(a2, vpn) {
            let j = seq_area_of(a2, vpn);
            assert(a1[j].contains(vpn));
        }
    }
}

/// Bytes `from .. from + len` of `src`, as a fresh vector.
fn copy_bytes(src: &Vec<u8>, from: usize, len: usize) -> (r: Vec<u8>)
    requires
        from + len <= src.len(),
    ensures
        r@.len() == len,
        forall|k: int| 0 <= k < len ==> #[trigger] r@[k] == src@[from + k],
{
    let mut r: Vec<u8> = Vec::new();
    let mut i: usize = 0;
    while i < len
        invariant
            i <= len,
            from + len <= src@.len(),
            r@.len() == i,
            forall|k: int| 0 <= k < i ==> #[trigger] r@[k] == src@[from + k],
        decreases len - i,
    {
        assert(from + i < src.len());
        r.push(src[from + i]);
        i = i + 1;
    }
    r
}

/// `p` is a fragment of `v`: a sub-range carrying the same flags, the
/// corresponding frames, and the corresponding bytes.
pub open spec fn piece_of(p: Vma, v: Vma) -> bool {
    &&& p.wf()
    &&& v.start <= p.start
    &&& p.start < p.end
    &&& p.end <= v.end
    &&& p.flags == v.flags
    &&& p.ppn as int - p.start as int == v.ppn as int - v.start as int
    &&& (p.flags.owned ==> forall|rel: int|
        0 <= rel < (p.end - p.start) * PAGE_SIZE ==> #[trigger] p.data@[rel] == v.data@[(p.start
            - v.start) * PAGE_SIZE + rel])
}

/// The pages of `kept` are exactly the pages of `shown` outside the
/// cut `start .. end`, each with the state it had.
pub open spec fn cut_ok(shown: Seq<Vma>, kept: Seq<Vma>, start: int, end: int) -> bool {
    &&& vmas_wf(kept)
    &&& forall|vpn: int| #[trigger]
        seq_maps(kept, vpn) == (seq_maps(shown, vpn) && !(start <= vpn < end))
    &&& forall|vpn: int| #[trigger]
        seq_maps(kept, vpn) ==> seq_flags_at(kept, vpn) == seq_flags_at(shown, vpn) && seq_ppn_at(
            kept,
            vpn,
        ) == seq_ppn_at(shown, vpn)
    &&& forall|a: int|
        0 <= a && seq_maps(kept, a / PAGE_SIZE as int) && seq_flags_at(
            kept,
            a / PAGE_SIZE as int,
        ).owned ==> #[trigger] seq_byte_at(kept, a) == seq_byte_at(shown, a)
}

/// Extending a cut-down set with the fragments of the next area keeps
/// it a faithful cut-down of the larger set.
proof fn lemma_cut_extend(
    prefix: Seq<Vma>,
    v: Vma,
    kept: Seq<Vma>,
    pieces: Seq<Vma>,
    start: int,
    end: int,
)
    requires
        vmas_wf(prefix.push(v)),
        cut_ok(prefix, kept, start, end),
        forall|t: int| 0 <= t < pieces.len() ==> piece_of(#[trigger] pieces[t], v),
        forall|t: int|
            0 <= t < pieces.len() ==> ((#[trigger] pieces[t]).end <= start || pieces[t].start
                >= end),
        forall|t: int, u: int|
            0 <= t < u < pieces.len() ==> (#[trigger] pieces[t]).disjoint(#[trigger] pieces[u]),
        forall|vpn: int|
            v.contains(vpn) && !(start <= vpn < end) ==> exists|t: int|
                0 <= t < pieces.len() && (#[trigger] pieces[t]).contains(vpn),
    ensures
        cut_ok(prefix.push(v), kept + pieces, start, end),
{
    let shown = prefix.push(v);
    let bigger = kept + pieces;
    assert(v.wf()) by {
        assert(shown[prefix.len() as int].wf());
    }
    assert(vmas_wf(prefix)) by {
        assert(prefix =~= shown.subrange(0, prefix.len() as int));
        lemma_vmas_wf_subrange(shown, prefix.len() as int);
    }
    // Disjointness of the extended set.
    assert(vmas_wf(bigger)) by {
        assert forall|j: int| 0 <= j < bigger.len() implies (#[trigger] bigger[j]).wf() by {
            if j < kept.len() {
                assert(kept[j].wf());
            } else {
                assert(piece_of(pieces[j - kept.len()], v));
            }
        }
        assert forall|j: int, k: int| 0 <= j < k < bigger.len() implies (
        #[trigger] bigger[j]).disjoint(#[trigger] bigger[k]) by {
            if k < kept.len() {
                assert(kept[j].disjoint(kept[k]));
            } else if j >= kept.len() {
                assert(pieces[j - kept.len()].disjoint(pieces[k - kept.len()]));
            } else {
                // A kept area against a fragment of `v`: the kept
                // pages are pages of the prefix, which is disjoint
                // from `v`.
                let q = kept[j];
                let p = pieces[k - kept.len()];
                if !q.disjoint(p) {
                    let vpn = if q.start >= p.start {
                        q.start as int
                    } else {
                        p.start as int
                    };
                    assert(q.contains(vpn) && p.contains(vpn));
                    assert(seq_maps(kept, vpn));
                    assert(seq_maps(prefix, vpn));
                    let w = seq_area_of(prefix, vpn);
                    assert(shown[w].contains(vpn));
                    assert(v.contains(vpn));
                    assert(shown[w].disjoint(shown[prefix.len() as int]));
                }
            }
        }
    }
    // Page-for-page equivalence.
    assert forall|vpn: int| #[trigger] seq_maps(bigger, vpn) == (seq_maps(shown, vpn) && !(start
        <= vpn < end)) by {
        if seq_maps(bigger, vpn) {
            let j = seq_area_of(bigger, vpn);
            if j < kept.len() {
                assert(seq_maps(kept, vpn));
                let w = seq_area_of(prefix, vpn);
                assert(shown[w].contains(vpn));
                assert(seq_maps(shown, vpn));
            } else {
                let p = pieces[j - kept.len()];
                assert(p.contains(vpn));
                assert(v.contains(vpn));
                assert(shown[prefix.len() as int].contains(vpn));
                assert(seq_maps(shown, vpn));
            }
        }
        if seq_maps(shown, vpn) && !(start <= vpn < end) {
            let w = seq_area_of(shown, vpn);
            if w < prefix.len() {
                assert(prefix[w].contains(vpn));
                assert(seq_maps(prefix, vpn));
                assert(seq_maps(kept, vpn));
                let j = seq_area_of(kept, vpn);
                assert(bigger[j].contains(vpn));
                assert(seq_maps(bigger, vpn));
            } else {
                assert(v.contains(vpn));
                let t = choose|t: int|
                    0 <= t < pieces.len() && (#[trigger] pieces[t]).contains(vpn);
                assert(bigger[kept.len() + t].contains(vpn));
                assert(seq_maps(bigger, vpn));
            }
        }
    }
    // State preservation, page by page.
    assert forall|vpn: int| #[trigger] seq_maps(bigger, vpn) implies seq_flags_at(bigger, vpn)
        == seq_flags_at(shown, vpn) && seq_ppn_at(bigger, vpn) == seq_ppn_at(shown, vpn) by {
        let j = seq_area_of(bigger, vpn);
        lemma_area_unique(bigger, j, vpn);
        if j < kept.len() {
            lemma_area_unique(kept, j, vpn);
            assert(seq_maps(kept, vpn));
            let w = seq_area_of(prefix, vpn);
            lemma_area_unique(prefix, w, vpn);
            assert(shown[w].contains(vpn));
            lemma_area_unique(shown, w, vpn);
        } else {
            let p = pieces[j - kept.len()];
            assert(p.contains(vpn));
            assert(v.contains(vpn));
            assert(shown[prefix.len() as int].contains(vpn));
            lemma_area_unique(shown, prefix.len() as int, vpn);
        }
    }
    assert forall|a: int|
        0 <= a && seq_maps(bigger, a / PAGE_SIZE as int) && seq_flags_at(
            bigger,
            a / PAGE_SIZE as int,
        ).owned implies #[trigger] seq_byte_at(bigger, a) == seq_byte_at(shown, a) by {
        let vpn = a / PAGE_SIZE as int;
        let j = seq_area_of(bigger, vpn);
        lemma_area_unique(bigger, j, vpn);
        if j < kept.len() {
            lemma_area_unique(kept, j, vpn);
            assert(seq_maps(kept, vpn));
            assert(bigger[j] == kept[j]);
            assert(seq_flags_at(kept, vpn) == kept[j].flags);
            assert(seq_flags_at(kept, vpn).owned);
            assert(seq_byte_at(kept, a) == seq_byte_at(prefix, a));
            assert(seq_maps(prefix, vpn));
            let w = seq_area_of(prefix, vpn);
            lemma_area_unique(prefix, w, vpn);
            assert(shown[w] == prefix[w]);
            assert(shown[w].contains(vpn));
            lemma_area_unique(shown, w, vpn);
            assert(seq_byte_at(prefix, a) == seq_byte_at(shown, a));
            assert(seq_byte_at(bigger, a) == seq_byte_at(kept, a));
        } else {
            let p = pieces[j - kept.len()];
            assert(p.contains(vpn));
            assert(v.contains(vpn));
            assert(shown[prefix.len() as int].contains(vpn));
            lemma_area_unique(shown, prefix.len() as int, vpn);
            lemma_data_index(p.start as int, p.end as int, vpn, a);
            lemma_data_index(v.start as int, v.end as int, vpn, a);
            assert(p.data@[a - p.start * PAGE_SIZE] == v.data@[(p.start - v.start) * PAGE_SIZE + (a
                - p.start * PAGE_SIZE)]);
            assert((p.start - v.start) * PAGE_SIZE as int + (a - p.start * PAGE_SIZE as int) == a
                - v.start * PAGE_SIZE as int) by (nonlinear_arith);
        }
    }
}

/// The byte at `a` is accessible in `s` for the required flags, with
/// an owned frame behind it.
pub open spec fn byte_ok(s: AddressSpace, a: int, req: VmFlags) -> bool {
    &&& s.maps(a / PAGE_SIZE as int)
    &&& s.flags_at(a / PAGE_SIZE as int).spec_contains(req)
    &&& s.flags_at(a / PAGE_SIZE as int).owned
}

/// Every byte of `vaddr .. vaddr + count` is accessible for `req`.
pub open spec fn user_range_ok(s: AddressSpace, vaddr: int, count: int, req: VmFlags) -> bool {
    forall|a: int| vaddr <= a < vaddr + count ==> #[trigger] byte_ok(s, a, req)
}

/// A request to bind the pages `start .. end` to physical pages
/// `ppn ..` is shaped correctly.
pub open spec fn extern_range_ok(start: int, end: int, ppn: int) -> bool {
    &&& start < end
    &&& end <= VPN_LIMIT
    &&& ppn + (end - start) <= PPN_LIMIT
}

/// Index of `addr` within the backing bytes of the area `s .. e`
/// covering its page.
proof fn lemma_data_index(s: int, e: int, vpn: int, addr: int)
    requires
        s <= vpn < e,
        0 <= addr,
        vpn == addr / PAGE_SIZE as int,
    ensures
        (vpn - s) * PAGE_SIZE + addr % PAGE_SIZE as int == addr - s * PAGE_SIZE,
        0 <= addr - s * PAGE_SIZE,
        addr - s * PAGE_SIZE < (e - s) * PAGE_SIZE,
{
    assert((vpn - s) * PAGE_SIZE as int + addr % PAGE_SIZE as int == addr - s * PAGE_SIZE as int
        && 0 <= addr - s * PAGE_SIZE as int && (addr - s * PAGE_SIZE as int) < (e - s)
        * PAGE_SIZE as int) by (nonlinear_arith)
        requires
            s <= vpn < e,
            0 <= addr,
            vpn == addr / PAGE_SIZE as int,
            PAGE_SIZE as int == 4096,
    ;
}

/// Overwriting one owned byte changes exactly that byte: mapping,
/// flags and frames stay, and every other owned byte keeps its value.
proof fn lemma_update_byte(olds: Seq<Vma>, news: Seq<Vma>, i: int, addr: int, value: u8)
    requires
        vmas_wf(olds),
        0 <= i < olds.len(),
        0 <= addr,
        olds[i].contains(addr / PAGE_SIZE as int),
        olds[i].flags.owned,
        news.len() == olds.len(),
        forall|j: int| 0 <= j < olds.len() && j != i ==> news[j] == olds[j],
        news[i].start == olds[i].start,
        news[i].end == olds[i].end,
        news[i].flags == olds[i].flags,
        news[i].ppn == olds[i].ppn,
        news[i].data@ == olds[i].data@.update(addr - olds[i].start * PAGE_SIZE, value),
    ensures
        vmas_wf(news),
        forall|vpn: int| seq_maps(news, vpn) == (#[trigger] seq_maps(olds, vpn)),
        forall|vpn: int| #[trigger]
            seq_maps(olds, vpn) ==> seq_flags_at(news, vpn) == seq_flags_at(olds, vpn)
                && seq_ppn_at(news, vpn) == seq_ppn_at(olds, vpn),
        seq_byte_at(news, addr) == value,
        forall|a: int|
            a != addr && 0 <= a && seq_maps(olds, a / PAGE_SIZE as int) && seq_flags_at(
                olds,
                a / PAGE_SIZE as int,
            ).owned ==> #[trigger] seq_byte_at(news, a) == seq_byte_at(olds, a),
{
    let vpn0 = addr / PAGE_SIZE as int;
    lemma_data_index(olds[i].start as int, olds[i].end as int, vpn0, addr);
    assert(vmas_wf(news)) by {
        assert forall|j: int| 0 <= j < news.len() implies (#[trigger] news[j]).wf() by {
            assert(olds[j].wf());
        }
        assert forall|j: int, k: int| 0 <= j < k < news.len() implies (
        #[trigger] news[j]).disjoint(#[trigger] news[k]) by {
            assert(olds[j].disjoint(olds[k]));
        }
    }
    assert forall|vpn: int| seq_maps(news, vpn) == (#[trigger] seq_maps(olds, vpn)) by {
        if seq_maps(olds, vpn) {
            let j = seq_area_of(olds, vpn);
            assert(news[j].contains(vpn));
            assert(seq_maps(news, vpn));
        }
        if seq_maps(news, vpn) {
            let j = seq_area_of(news, vpn);
            assert(olds[j].contains(vpn));
            assert(seq_maps(olds, vpn));
        }
    }
    assert forall|vpn: int| #[trigger]
        seq_maps(olds, vpn) implies seq_flags_at(news, vpn) == seq_flags_at(olds, vpn)
        && seq_ppn_at(news, vpn) == seq_ppn_at(olds, vpn) by {
        let j = seq_area_of(olds, vpn);
        lemma_area_unique(olds, j, vpn);
        assert(news[j].contains(vpn));
        lemma_area_unique(news, j, vpn);
    }
    assert(seq_byte_at(news, addr) == value) by {
        lemma_area_unique(olds, i, vpn0);
        assert(news[i].contains(vpn0));
        lemma_area_unique(news, i, vpn0);
    }
    assert forall|a: int|
        a != addr && 0 <= a && seq_maps(olds, a / PAGE_SIZE as int) && seq_flags_at(
            olds,
            a / PAGE_SIZE as int,
        ).owned implies #[trigger] seq_byte_at(news, a) == seq_byte_at(olds, a) by {
        let vpn = a / PAGE_SIZE as int;
        let j = seq_area_of(olds, vpn);
        lemma_area_unique(olds, j, vpn);
        assert(news[j].contains(vpn));
        lemma_area_unique(news, j, vpn);
        if j == i {
            lemma_data_index(olds[i].start as int, olds[i].end as int, vpn, a);
            assert(a - olds[i].start * PAGE_SIZE != addr - olds[i].start * PAGE_SIZE);
        }
    }
}

/// Unpacks `unchanged_outside` for one page: outside the touched
/// interval, mapping, flags and frame survive.
pub proof fn lemma_state_preserved(olds: Seq<Vma>, news: Seq<Vma>, lo: int, hi: int, vpn: int)
    requires
        unchanged_outside(olds, news, lo, hi),
        !(lo <= vpn < hi),
    ensures
        seq_maps(news, vpn) == seq_maps(olds, vpn),
        seq_maps(olds, vpn) ==> seq_flags_at(news, vpn) == seq_flags_at(olds, vpn) && seq_ppn_at(
            news,
            vpn,
        ) == seq_ppn_at(olds, vpn),
{
    assert(page_state_eq(olds, news, vpn));
}

/// Unpacks `unchanged_outside` for one byte: a byte of an owned page
/// outside the touched interval keeps its value.
pub proof fn lemma_byte_preserved(olds: Seq<Vma>, news: Seq<Vma>, lo: int, hi: int, a: int)
    requires
        unchanged_outside(olds, news, lo, hi),
        0 <= a,
        lo > a / PAGE_SIZE as int || a / PAGE_SIZE as int >= hi,
        seq_maps(olds, a / PAGE_SIZE as int),
        seq_flags_at(olds, a / PAGE_SIZE as int).owned,
    ensures
        seq_byte_at(news, a) == seq_byte_at(olds, a),
{
    let vpn = a / PAGE_SIZE as int;
    let k = a % PAGE_SIZE as int;
    assert(page_state_eq(olds, news, vpn));
    vstd::arithmetic::div_mod::lemma_fundamental_div_mod(a, PAGE_SIZE as int);
    assert(a == vpn * PAGE_SIZE + k);
    assert(0 <= k < PAGE_SIZE);
    assert(seq_byte_at(olds, vpn * PAGE_SIZE + k) == seq_byte_at(news, vpn * PAGE_SIZE + k));
}

/// A prefix of a set of non-overlapping areas is itself one.
proof fn lemma_vmas_wf_subrange(areas: Seq<Vma>, m: int)
    requires
        vmas_wf(areas),
        0 <= m <= areas.len(),
    ensures
        vmas_wf(areas.subrange(0, m)),
{
    let sub = areas.subrange(0, m);
    assert forall|i: int| 0 <= i < sub.len() implies (#[trigger] sub[i]).wf() by {
        assert(areas[i].wf());
    }
    assert forall|i: int, j: int| 0 <= i < j < sub.len() implies (#[trigger] sub[i]).disjoint(
        #[trigger] sub[j],
    ) by {
        assert(areas[i].disjoint(areas[j]));
    }
}

/// Page counts below the area bound keep their byte products in range.
proof fn lemma_mul_bound(pages: int, cap: int)
    requires
        0 <= pages <= cap,
        cap <= VPN_LIMIT,
    ensures
        pages * PAGE_SIZE <= cap * PAGE_SIZE,
        cap * PAGE_SIZE <= VPN_LIMIT as int * PAGE_SIZE as int,
{
    assert(pages * PAGE_SIZE as int <= cap * PAGE_SIZE as int && cap * PAGE_SIZE as int
        <= VPN_LIMIT as int * PAGE_SIZE as int) by (nonlinear_arith)
        requires
            0 <= pages <= cap,
            cap <= VPN_LIMIT as int,
            PAGE_SIZE as int == 4096,
    ;
}

/// In any well-formed address space, the virtual memory areas are
/// pairwise non-overlapping: no page belongs to two areas.
pub proof fn lemma_vmas_pairwise_disjoint(s: AddressSpace, i: int, j: int)
    requires
        s.wf(),
        0 <= i < s.areas@.len(),
        0 <= j < s.areas@.len(),
        i != j,
    ensures
        s.areas@[i].disjoint(s.areas@[j]),
{
    if i < j {
        assert(s.areas@[i].disjoint(s.areas@[j]));
    } else {
        assert(s.areas@[j].disjoint(s.areas@[i]));
    }
}

/// A byte inside the span of the pages `s .. e` lies on one of them.
pub proof fn lemma_page_range(s: int, e: int, a: int)
    requires
        0 <= s,
        s * PAGE_SIZE <= a < e * PAGE_SIZE,
    ensures
        s <= a / PAGE_SIZE as int,
        e > a / PAGE_SIZE as int,
        0 <= a,
{
    assert(s <= a / PAGE_SIZE as int && e > a / PAGE_SIZE as int && 0 <= a) by (nonlinear_arith)
        requires
            0 <= s,
            s * PAGE_SIZE as int <= a,
            a < e * PAGE_SIZE as int,
            PAGE_SIZE as int == 4096,
    ;
}

/// The byte `vpn * PAGE_SIZE + k` lies on page `vpn`.
pub proof fn lemma_page_of_byte(vpn: int, k: int)
    requires
        0 <= k < PAGE_SIZE,
    ensures
        (vpn * PAGE_SIZE + k) / PAGE_SIZE as int == vpn,
{
    assert((vpn * PAGE_SIZE as int + k) / PAGE_SIZE as int == vpn) by (nonlinear_arith)
        requires
            0 <= k < PAGE_SIZE as int,
            PAGE_SIZE as int == 4096,
    ;
}

} // verus!
