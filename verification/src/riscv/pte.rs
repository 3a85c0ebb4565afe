//! Sv48 page-table-entry bit positions and values.
use vstd::prelude::*;

verus! {

/// Entry is valid.
pub const VALID: u64 = 0x1;
/// Read permission.
pub const READ: u64 = 0x2;
/// Write permission.
pub const WRITE: u64 = 0x4;
/// Execute permission.
pub const EXECUTE: u64 = 0x8;
/// User-mode access.
pub const USER: u64 = 0x10;
/// Global mapping.
pub const GLOBAL: u64 = 0x20;
/// Accessed.
pub const ACCESSED: u64 = 0x40;
/// Dirty.
pub const DIRTY: u64 = 0x80;

/// First bit of the software-reserved field.
pub const RSW_BIT: u64 = 8;
/// First bit of the physical page number.
pub const PPN_0_BIT: u64 = 10;
/// First bit of PPN[1].
pub const PPN_1_BIT: u64 = 19;
/// First bit of PPN[2].
pub const PPN_2_BIT: u64 = 28;
/// First bit of PPN[3].
pub const PPN_3_BIT: u64 = 37;
/// First bit of PPN[4].
pub const PPN_4_BIT: u64 = 48;
/// First bit of the page-based memory type field (bits 61..63).
pub const PBMT_BIT: u64 = 61;
/// NAPOT bit.
pub const N_BIT: u64 = 63;

/// PBMT value: no special attributes (cacheable main memory).
pub const PBMT_NONE: u64 = 0;
/// PBMT value: non-cacheable, idempotent, weakly ordered main memory.
pub const PBMT_MAIN: u64 = 1;
/// PBMT value: non-cacheable, non-idempotent, strongly ordered I/O.
pub const PBMT_IO: u64 = 2;

} // verus!
