//! Physical-memory backing of a process's virtual address space: the region
//! listing, the 64-bit page records of each region, and per-object statistics.
//!
//! The library works on values: the text of a region listing and the raw
//! 64-bit records read for each region. Opening and reading the kernel's files
//! is left to the caller.

pub mod listing;
pub mod memory;
pub mod query;
pub mod stats;
