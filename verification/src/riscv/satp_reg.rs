//! SATP register fields.
use vstd::prelude::*;

verus! {

/// SATP mode value for Sv39.
pub const MODE_SV39: u64 = 8;
/// SATP mode value for Sv48.
pub const MODE_SV48: u64 = 9;
/// SATP mode value for Sv57.
pub const MODE_SV57: u64 = 10;
/// First bit of the mode field.
pub const MODE_BIT: u64 = 60;
/// Width of the mode field.
pub const MODE_SIZE: u64 = 4;
/// First bit of the ASID field.
pub const ASID_BIT: u64 = 44;
/// Width of the ASID field.
pub const ASID_SIZE: u64 = 16;
/// First bit of the physical page number.
pub const PPN_BIT: u64 = 0;
/// Width of the physical page number.
pub const PPN_SIZE: u64 = 44;

} // verus!
