//! Page-granular address arithmetic and the geometry of the modelled
//! virtual space.
//!
//! The model uses 4 KiB pages in a 31-bit virtual space: 2^19 virtual
//! pages, with the user stack just below the top of the space and the
//! shared portal page in the very last virtual page. Every address
//! handed to the mapping layer is first rounded to page boundaries;
//! these helpers do the rounding with proved bounds.

use vstd::prelude::*;

verus! {

use crate::PAGE_SIZE;

/// Number of virtual pages (exclusive upper bound of page numbers).
pub const VPN_LIMIT: usize = 0x80000;

/// Exclusive upper bound of virtual addresses.
pub const VADDR_LIMIT: usize = 0x80000000;

/// First page above the user stack; the stack pointer of a fresh
/// process starts at `USER_STACK_TOP_VPN * PAGE_SIZE`.
pub const USER_STACK_TOP_VPN: usize = 0x40000;

/// Pages in the fixed-size anonymous user stack.
pub const USER_STACK_PAGES: usize = 2;

/// Virtual page of the shared trap portal, identical in every space.
pub const PORTAL_VPN: usize = 0x7ffff;

/// First byte above the memory user images and the heap may occupy:
/// the base of the user stack.
pub const USER_TOP: usize = (0x40000 - 2) * 4096;

/// Initial stack pointer of a fresh process: the byte above its
/// stack.
pub const USER_STACK_TOP: usize = 0x40000 * 4096;

/// Exclusive upper bound of physical page numbers the model hands out.
pub const PPN_LIMIT: usize = 0x100000;

/// Page number that contains the byte at `addr`.
pub fn page_floor(addr: usize) -> (r: usize)
    ensures
        r == addr as int / PAGE_SIZE as int,
{
    addr / PAGE_SIZE
}

/// First page number at or above `addr`.
pub fn page_ceil(addr: usize) -> (r: usize)
    requires
        addr < VADDR_LIMIT,
    ensures
        r == spec_page_ceil(addr as int),
        addr as int <= r * PAGE_SIZE,
        r * PAGE_SIZE < addr + PAGE_SIZE,
{
    (addr + PAGE_SIZE - 1) / PAGE_SIZE
}

/// Page number holding the byte just above `addr - 1`, as a spec value.
pub open spec fn spec_page_ceil(addr: int) -> int {
    (addr + PAGE_SIZE - 1) / PAGE_SIZE as int
}

/// Byte offset of `addr` within its page.
pub fn page_offset(addr: usize) -> (r: usize)
    ensures
        r == addr as int % PAGE_SIZE as int,
        r < PAGE_SIZE,
{
    addr % PAGE_SIZE
}

} // verus!
