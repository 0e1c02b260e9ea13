//! Core of a small kernel that manages byte-addressable non-volatile memory
//! as named, persistent storage pools: a free-range index over a 1-D address
//! space, a virtual-memory range manager, an NFIT parser, and an on-device
//! pool table with a persistent-memory manager above it.

use vstd::prelude::*;

pub mod acpi;
pub mod bytes;
pub mod nfit;
pub mod pmem;
pub mod ranges;
pub mod vmem;

verus! {

/// Size in bytes of the pages this kernel maps, and of the persistent
/// pool-table header page.
pub const PAGE_SIZE: u64 = 0x1000;

} // verus!
