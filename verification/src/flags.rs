//! Permission flags of a mapped virtual region.
//!
//! One flag set tags every page of a region: the classic
//! valid/readable/writable/executable bits, the user-accessible and
//! global bits, and an allocator-owned bit that marks pages whose
//! frames the address space allocated (and must release) itself.

use vstd::prelude::*;

verus! {

/// Permission and bookkeeping bits of a mapped region.
#[derive(Clone, Copy, PartialEq, Eq, Structural, Debug)]
pub struct VmFlags {
    /// Mapping present.
    pub valid: bool,
    /// Loads allowed.
    pub readable: bool,
    /// Stores allowed.
    pub writable: bool,
    /// Instruction fetch allowed.
    pub executable: bool,
    /// Accessible from unprivileged mode.
    pub user: bool,
    /// Shared by every address space.
    pub global: bool,
    /// Frames are owned by the mapping and released on unmap.
    pub owned: bool,
}

impl VmFlags {
    /// True when every bit set in `req` is also set in `self`.
    pub open spec fn spec_contains(self, req: VmFlags) -> bool {
        &&& (req.valid ==> self.valid)
        &&& (req.readable ==> self.readable)
        &&& (req.writable ==> self.writable)
        &&& (req.executable ==> self.executable)
        &&& (req.user ==> self.user)
        &&& (req.global ==> self.global)
        &&& (req.owned ==> self.owned)
    }

    /// Superset test on the permission bits: translation succeeds only
    /// when the mapping's flags contain all required ones.
    pub fn contains(self, req: VmFlags) -> (r: bool)
        ensures
            r == self.spec_contains(req),
    {
        (!req.valid || self.valid)
            && (!req.readable || self.readable)
            && (!req.writable || self.writable)
            && (!req.executable || self.executable)
            && (!req.user || self.user)
            && (!req.global || self.global)
            && (!req.owned || self.owned)
    }

    /// No bit set.
    pub fn empty() -> (r: VmFlags)
        ensures
            r == (VmFlags {
                valid: false,
                readable: false,
                writable: false,
                executable: false,
                user: false,
                global: false,
                owned: false,
            }),
    {
        VmFlags {
            valid: false,
            readable: false,
            writable: false,
            executable: false,
            user: false,
            global: false,
            owned: false,
        }
    }

    /// A valid user mapping with the given access bits (spec view).
    pub open spec fn spec_user_rwx(readable: bool, writable: bool, executable: bool) -> VmFlags {
        VmFlags {
            valid: true,
            readable,
            writable,
            executable,
            user: true,
            global: false,
            owned: false,
        }
    }

    /// A valid user mapping with the given access bits.
    #[verifier::when_used_as_spec(spec_user_rwx)]
    pub fn user_rwx(readable: bool, writable: bool, executable: bool) -> (r: VmFlags)
        ensures
            r == VmFlags::spec_user_rwx(readable, writable, executable),
    {
        VmFlags {
            valid: true,
            readable,
            writable,
            executable,
            user: true,
            global: false,
            owned: false,
        }
    }

    /// Same flags with the allocator-owned bit cleared.
    pub open spec fn spec_without_owned(self) -> VmFlags {
        VmFlags { owned: false, ..self }
    }

    /// Same flags with the allocator-owned bit set (spec view).
    pub open spec fn spec_with_owned(self) -> VmFlags {
        VmFlags { owned: true, ..self }
    }

    /// Same flags with the allocator-owned bit set.
    #[verifier::when_used_as_spec(spec_with_owned)]
    pub fn with_owned(self) -> (r: VmFlags)
        ensures
            r == self.spec_with_owned(),
    {
        VmFlags { owned: true, ..self }
    }
}

/// Protection bits of the memory-mapping syscalls: bit 0 read,
/// bit 1 write, bit 2 execute.
pub const PROT_READ: usize = 1;

/// Write bit of the mapping syscalls' protection mask.
pub const PROT_WRITE: usize = 2;

/// Execute bit of the mapping syscalls' protection mask.
pub const PROT_EXEC: usize = 4;

} // verus!
