//! The boot-time view of physical memory: ACPI tables are reached through
//! a linear mapping that offsets every physical address by a constant.

use vstd::prelude::*;

verus! {

/// The physical-memory mapping the boot loader sets up: physical address
/// `p` is visible at virtual address `p` plus the stored offset.
#[derive(Clone, Copy, Debug, PartialEq, Eq, Structural)]
pub struct OffsetMapped(pub u64);

impl OffsetMapped {
    /// The virtual address at which a physical address is mapped; `None`
    /// when the sum leaves the address space.
    pub fn translate(&self, physical_address: u64) -> (r: Option<u64>)
        ensures
            match r {
                Some(v) => v == self.0 + physical_address,
                None => self.0 + physical_address > u64::MAX,
            },
    {
        if physical_address <= u64::MAX - self.0 {
            Some(self.0 + physical_address)
        } else {
            None
        }
    }
}

} // verus!
