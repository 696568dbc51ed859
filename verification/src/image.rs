//! Program images.
//!
//! The loader consumes a program image as plain values: the header
//! facts it must check (class, object type, machine) and the loadable
//! segments with their bytes and permission bits. Producing an
//! [`Image`] from an on-disk executable is the job of the surrounding
//! program; the kernel core only validates and maps what it is given.

use vstd::prelude::*;

verus! {

use crate::PAGE_SIZE;
use crate::addr::{USER_STACK_TOP_VPN, USER_STACK_PAGES, spec_page_ceil};

/// Object type of an executable image.
pub const IMAGE_TYPE_EXEC: u16 = 2;

/// Machine tag of the target instruction set.
pub const IMAGE_MACHINE_RISCV: u16 = 243;

/// Program-header kind of a loadable segment; all others are ignored.
pub const SEGMENT_LOAD: u32 = 1;

/// One program segment as the image describes it.
pub struct Segment {
    /// Program-header kind; only [`SEGMENT_LOAD`] is honored.
    pub kind: u32,
    /// Virtual address the segment is loaded at.
    pub vaddr: usize,
    /// Bytes the segment occupies in memory; the part past the file
    /// bytes is zero-filled.
    pub mem_size: usize,
    /// Offset of the segment's bytes within the image file; must
    /// agree with `vaddr` modulo the page size.
    pub file_offset: usize,
    /// The segment's file bytes.
    pub data: Vec<u8>,
    /// Loads allowed.
    pub readable: bool,
    /// Stores allowed.
    pub writable: bool,
    /// Instruction fetch allowed.
    pub executable: bool,
}

impl Segment {
    /// The segment asks for memory to be mapped.
    pub open spec fn is_load(self) -> bool {
        self.kind == SEGMENT_LOAD && self.mem_size > 0
    }

    /// First virtual page of the segment.
    pub open spec fn start_vpn(self) -> int {
        self.vaddr as int / PAGE_SIZE as int
    }

    /// First virtual page past the segment.
    pub open spec fn end_vpn(self) -> int {
        spec_page_ceil(self.vaddr + self.mem_size)
    }

    /// The segment can be honored: its file offset and address agree
    /// modulo the page size, its file bytes fit in its memory span,
    /// and it lies below the user stack.
    pub open spec fn ok(self) -> bool {
        &&& self.file_offset as int % PAGE_SIZE as int == self.vaddr as int % PAGE_SIZE as int
        &&& self.data@.len() <= self.mem_size
        &&& self.vaddr + self.mem_size <= (USER_STACK_TOP_VPN - USER_STACK_PAGES) * PAGE_SIZE
    }
}

/// A program image: checked header facts plus its segments.
pub struct Image {
    /// The image is a 64-bit object.
    pub class64: bool,
    /// Object type; must be [`IMAGE_TYPE_EXEC`].
    pub etype: u16,
    /// Machine tag; must be [`IMAGE_MACHINE_RISCV`].
    pub machine: u16,
    /// Entry point of the image.
    pub entry: usize,
    /// The program segments.
    pub segments: Vec<Segment>,
}

impl Image {
    /// The image's class, type and machine match the target.
    pub open spec fn header_ok(self) -> bool {
        &&& self.class64
        &&& self.etype == IMAGE_TYPE_EXEC
        &&& self.machine == IMAGE_MACHINE_RISCV
    }

    /// Every loadable segment can be honored.
    pub open spec fn segments_ok(self) -> bool {
        forall|i: int|
            0 <= i < self.segments@.len() && (#[trigger] self.segments@[i]).is_load()
                ==> self.segments@[i].ok()
    }

    /// The page ranges of the loadable segments never overlap.
    pub open spec fn segments_disjoint(self) -> bool {
        forall|i: int, j: int|
            0 <= i < j < self.segments@.len() && (#[trigger] self.segments@[i]).is_load() && (
            #[trigger] self.segments@[j]).is_load() ==> (self.segments@[i].end_vpn()
                <= self.segments@[j].start_vpn() || self.segments@[j].end_vpn()
                <= self.segments@[i].start_vpn())
    }

    /// Pages the loadable segments occupy, summed over the rounded
    /// page ranges of the first `upto` segments.
    pub open spec fn pages_upto(self, upto: int) -> int
        decreases upto,
    {
        if upto <= 0 {
            0
        } else {
            self.pages_upto(upto - 1) + if self.segments@[upto - 1].is_load() {
                self.segments@[upto - 1].end_vpn() - self.segments@[upto - 1].start_vpn()
            } else {
                0
            }
        }
    }

    /// Some loadable segment's pages cover `vpn`, among the first
    /// `upto` segments.
    pub open spec fn covers(self, upto: int, vpn: int) -> bool {
        exists|i: int|
            0 <= i < upto && i < self.segments@.len() && (#[trigger] self.segments@[i]).is_load()
                && self.segments@[i].start_vpn() <= vpn < self.segments@[i].end_vpn()
    }

    /// Highest byte past any loadable segment, among the first
    /// `upto` segments: the heap starts at the next page boundary.
    pub open spec fn max_end(self, upto: int) -> int
        decreases upto,
    {
        if upto <= 0 {
            0
        } else {
            let prev = self.max_end(upto - 1);
            let s = self.segments@[upto - 1];
            if s.is_load() && s.vaddr + s.mem_size > prev {
                s.vaddr + s.mem_size
            } else {
                prev
            }
        }
    }
}

} // verus!
