//! Fields of the machine and supervisor status registers.
use vstd::prelude::*;

verus! {

pub const SIE_BIT: u64 = 1;
pub const MIE_BIT: u64 = 3;
pub const SPIE_BIT: u64 = 5;
pub const MPIE_BIT: u64 = 7;
pub const SPP_BIT: u64 = 8;
pub const MPP_BIT: u64 = 11;
pub const FS_BIT: u64 = 13;

pub const MPIE: u64 = 0x80;
pub const MIE: u64 = 0x8;
pub const SPIE: u64 = 0x20;
pub const SIE: u64 = 0x2;

pub const MPP_MACHINE: u64 = 0x1800;
pub const MPP_SUPERVISOR: u64 = 0x800;
pub const MPP_USER: u64 = 0;

pub const SPP_SUPERVISOR: u64 = 0x100;
pub const SPP_USER: u64 = 0;

pub const FS_OFF: u64 = 0;
pub const FS_INITIAL: u64 = 0x2000;
pub const FS_DIRTY: u64 = 0x4000;
pub const FS_CLEAN: u64 = 0x6000;

} // verus!
