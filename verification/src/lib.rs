//! A verified model of the memory, page-table, firmware-table and
//! synchronisation logic of a small RISC-V Sv48 kernel.
use vstd::prelude::*;

pub mod config;
pub mod riscv;
pub mod mem;
pub mod limine;
pub mod sv48;
pub mod memory_image;
pub mod acpi;
pub mod sbi;
pub mod sync;
pub mod data;
pub mod print;
pub mod symbols;
pub mod startup;

verus! {

} // verus!
