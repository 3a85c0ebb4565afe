//! RISC-V register layouts: page-table-entry bits, SATP and status fields,
//! and the SATP value builder.
use vstd::prelude::*;

pub mod interrupt_reg;
pub mod pte;
pub mod satp_reg;
pub mod status_reg;

verus! {

/// Number of floating-point registers.
pub const NUM_FREGS: usize = 32;
/// Number of integer registers.
pub const NUM_XREGS: usize = 32;

/// The SATP value for `mode`, `asid` and the page-table address `addr`:
/// the mode in bits 60..64, the ASID in bits 44..60 and the physical page
/// number of `addr` (its bits 12..56) in bits 0..44.
pub open spec fn satp_value(mode: u64, asid: u16, addr: u64) -> u64 {
    ((mode << 60u64) | ((asid as u64) << 44u64) | ((addr >> 12u64) & 0xFFF_FFFF_FFFFu64)) as u64
}

/// Build a SATP value from a mode, an ASID and the full address of the root
/// page table; the address is turned into its physical page number.
pub fn build_satp(mode: u64, asid: u16, addr: u64) -> (r: u64)
    ensures
        r == satp_value(mode, asid, addr),
        r % 0x1000_0000_0000 == (addr / 4096) % 0x1000_0000_0000,
        (r / 0x1000_0000_0000) % 0x10000 == asid,
        mode < 16 ==> r / 0x1000_0000_0000_0000 == mode,
{
    let asid_bits: u64 = (asid as u64) & 0xFFFF;
    let ppn: u64 = (addr >> 12) & 0xFFF_FFFF_FFFF;
    let r = (mode << 60) | (asid_bits << 44) | ppn;
    proof {
        let a = asid as u64;
        assert(a & 0xFFFF == a) by (bit_vector) requires a < 0x10000;
        assert(r % 0x1000_0000_0000 == (addr / 4096) % 0x1000_0000_0000) by (bit_vector)
            requires r == (mode << 60u64) | (a << 44u64) | ((addr >> 12u64) & 0xFFF_FFFF_FFFFu64), a < 0x10000;
        assert((r / 0x1000_0000_0000) % 0x10000 == a) by (bit_vector)
            requires r == (mode << 60u64) | (a << 44u64) | ((addr >> 12u64) & 0xFFF_FFFF_FFFFu64), a < 0x10000;
        assert(mode < 16 ==> r / 0x1000_0000_0000_0000 == mode) by (bit_vector)
            requires r == (mode << 60u64) | (a << 44u64) | ((addr >> 12u64) & 0xFFF_FFFF_FFFFu64), a < 0x10000;
    }
    r
}

} // verus!
