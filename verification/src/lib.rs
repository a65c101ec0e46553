//! Address-space subsystem of a small kernel: segments (`MapArea`) over a
//! page-table abstraction, gathered into per-process address spaces
//! (`MemorySet`), with a raw mmap/munmap facility and kernel-stack layout.

pub mod types;
pub mod page_table;
pub mod frames;
pub mod area;
pub mod memory_set;
pub mod image;

use vstd::prelude::*;

verus! {

} // verus!
