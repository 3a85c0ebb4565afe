//! Limine memory-map entry types; only usable regions go to the page
//! allocator.
use vstd::prelude::*;

verus! {

pub const USABLE: u64 = 0;
pub const RESERVED: u64 = 1;
pub const ACPI_RECLAIMABLE: u64 = 2;
pub const ACPI_NVS: u64 = 3;
pub const BAD_MEMORY: u64 = 4;
pub const BOOTLOADER_RECLAIMABLE: u64 = 5;
pub const KERNEL_AND_MODULES: u64 = 6;
pub const FRAMEBUFFER: u64 = 7;
pub const RESERVED_MAPPED: u64 = 8;

} // verus!
