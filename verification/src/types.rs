//! Page-size constants, addresses, permission sets and page-table entries.
//!
//! Page numbers (virtual and physical) are plain `usize` indices: an address
//! right-shifted by the page-size exponent. A permission set is a set over
//! {Read, Write, Execute, User}; a page-table entry carries those bits plus
//! an always-set Valid bit.

use vstd::prelude::*;

verus! {

/// Bytes in one page.
pub const PAGE_SIZE: usize = 4096;

/// Highest virtual address of the one-page trampoline: the last page of the
/// address space.
pub const TRAMPOLINE: usize = usize::MAX - 4095;

/// Virtual page number of the trampoline page.
pub const TRAMPOLINE_VPN: usize = (usize::MAX - 4095) / 4096;

/// Virtual address one page below the trampoline, holding the trap context.
pub const TRAP_CONTEXT_BASE: usize = usize::MAX - 4095 - 4096;

/// Bytes of a user stack.
pub const USER_STACK_SIZE: usize = 8192;

/// Bytes of a kernel stack.
pub const KERNEL_STACK_SIZE: usize = 8192;

/// A virtual address in bytes.
#[derive(Clone, Copy, PartialEq, Eq, Structural)]
pub struct VirtAddr(pub usize);

impl VirtAddr {
    /// Page number of the page holding this address.
    pub fn floor(self) -> (r: usize)
        ensures
            r == self.0 as int / PAGE_SIZE as int,
    {
        self.0 / PAGE_SIZE
    }

    /// Page number of the first page boundary at or above this address.
    pub fn ceil(self) -> (r: usize)
        requires
            self.0 + PAGE_SIZE - 1 <= usize::MAX,
        ensures
            r == (self.0 + PAGE_SIZE - 1) as int / PAGE_SIZE as int,
    {
        (self.0 + (PAGE_SIZE - 1)) / PAGE_SIZE
    }
}

/// Page number of the page holding address `a`.
pub open spec fn va_floor(a: usize) -> int {
    a as int / PAGE_SIZE as int
}

/// Page number of the first page boundary at or above address `a`.
pub open spec fn va_ceil(a: usize) -> int {
    (a + PAGE_SIZE - 1) as int / PAGE_SIZE as int
}

/// A permission set over {Read, Write, Execute, User-accessible}, independent
/// of the mapping policy.
#[derive(Clone, Copy, PartialEq, Eq, Structural, Debug)]
pub struct MapPermission {
    pub r: bool,
    pub w: bool,
    pub x: bool,
    pub u: bool,
}

impl MapPermission {
    pub fn new(r: bool, w: bool, x: bool, u: bool) -> (p: MapPermission)
        ensures
            p == (MapPermission { r, w, x, u }),
    {
        MapPermission { r, w, x, u }
    }
}

/// Flag bits of a page-table entry: the permission bits plus the Valid bit.
#[derive(Clone, Copy, PartialEq, Eq, Structural, Debug)]
pub struct PteFlags {
    pub v: bool,
    pub r: bool,
    pub w: bool,
    pub x: bool,
    pub u: bool,
}

/// The flag bits a permission set translates into at mapping time; the Valid
/// bit is always set.
pub open spec fn flags_of(p: MapPermission) -> PteFlags {
    PteFlags { v: true, r: p.r, w: p.w, x: p.x, u: p.u }
}

/// One page-table entry: a physical page number and the flag bits.
#[derive(Clone, Copy, PartialEq, Eq, Structural, Debug)]
pub struct PageTableEntry {
    pub ppn: usize,
    pub flags: PteFlags,
}

impl PageTableEntry {
    pub fn ppn(&self) -> (r: usize)
        ensures
            r == self.ppn,
    {
        self.ppn
    }

    pub fn is_valid(&self) -> (r: bool)
        ensures
            r == self.flags.v,
    {
        self.flags.v
    }

    pub fn readable(&self) -> (r: bool)
        ensures
            r == self.flags.r,
    {
        self.flags.r
    }

    pub fn writable(&self) -> (r: bool)
        ensures
            r == self.flags.w,
    {
        self.flags.w
    }

    pub fn executable(&self) -> (r: bool)
        ensures
            r == self.flags.x,
    {
        self.flags.x
    }

    pub fn user_accessible(&self) -> (r: bool)
        ensures
            r == self.flags.u,
    {
        self.flags.u
    }
}

/// Mapping policy of a segment: identity-mapped (virtual page number equals
/// physical page number, no frame owned) or demand-backed by owned frames.
#[derive(Clone, Copy, PartialEq, Eq, Structural, Debug)]
pub enum MapType {
    Identical,
    Framed,
}

} // verus!
