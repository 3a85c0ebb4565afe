//! Fields of the interrupt-enable and interrupt-pending registers.
use vstd::prelude::*;

verus! {

pub const SSIP_BIT: u64 = 1;
pub const SSIE_BIT: u64 = 1;
pub const MSIP_BIT: u64 = 3;
pub const MSIE_BIT: u64 = 3;
pub const STIP_BIT: u64 = 5;
pub const STIE_BIT: u64 = 5;
pub const MTIP_BIT: u64 = 7;
pub const MTIE_BIT: u64 = 7;
pub const SEIP_BIT: u64 = 9;
pub const SEIE_BIT: u64 = 9;
pub const MEIP_BIT: u64 = 11;
pub const MEIE_BIT: u64 = 11;

pub const SSIP: u64 = 0x2;
pub const SSIE: u64 = 0x2;
pub const MSIP: u64 = 0x8;
pub const MSIE: u64 = 0x8;
pub const STIP: u64 = 0x20;
pub const STIE: u64 = 0x20;
pub const MTIP: u64 = 0x80;
pub const MTIE: u64 = 0x80;
pub const SEIP: u64 = 0x200;
pub const SEIE: u64 = 0x200;
pub const MEIP: u64 = 0x800;
pub const MEIE: u64 = 0x800;

pub const MEDELEG_ALL: u64 = 0xb1f7;

} // verus!
