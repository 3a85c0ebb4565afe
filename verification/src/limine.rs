//! The Limine boot protocol: request identifiers, the boot-time address
//! layout it reports, and the address conversions built on that layout.
use vstd::prelude::*;
use crate::config::{KERNEL_HEAP_ADDR, KERNEL_IO_ADDR};

pub mod memmap;
pub mod paging_modes;

verus! {

/// First half of every Limine request identifier.
pub const COMMON_MAGIC_0: u64 = 0xc7b1dd30df4c8b88;
/// Second half of every Limine request identifier.
pub const COMMON_MAGIC_1: u64 = 0x0a82e883a194f07b;

/// Request-specific identifier halves.
pub const HHDM_ID: [u64; 2] = [0x48dcf1cb8ad2b852, 0x63984e959a98244b];
pub const MEMMAP_ID: [u64; 2] = [0x67cf3d9d378a806f, 0xe304acdfc50c3c62];
pub const RSDP_ID: [u64; 2] = [0xc5e77b6b397e7b43, 0x27637845accdcf3c];
pub const DTB_ID: [u64; 2] = [0xb40ddb48fb54bac7, 0x545081493f81ffb7];
pub const EXE_ADDR_ID: [u64; 2] = [0x71ba76863cc55f63, 0xb2644a48c516a487];
pub const STACK_SIZE_ID: [u64; 2] = [0x224ef0460a8e8926, 0xe1cb0fc25f46ea3d];
pub const BSP_HARTID_ID: [u64; 2] = [0x1369359f025525f9, 0x2ff2a56178391bb6];
pub const FW_TYPE_ID: [u64; 2] = [0x8c2f75d90bef28a8, 0x7045a4688eac00c3];
pub const PAGING_MODE_ID: [u64; 2] = [0x95c1a0edab0944cb, 0xa4e5cb3842f7488a];
pub const DATE_ID: [u64; 2] = [0x502746e184c088aa, 0xfbc5ec83e6327893];
pub const SMBIOS_ID: [u64; 2] = [0x9e9046f11e095391, 0xaa4a520fefbde5ee];
pub const CMD_LINE_ID: [u64; 2] = [0x4b161536e598651e, 0xb390ad4a2f1f303a];

/// Stack size requested for each hart: 8 KiB.
pub const LIMINE_STACK_SIZE: u64 = 8192;

/// A full request identifier: the common magic followed by the
/// request-specific halves.
pub fn make_id(specific: [u64; 2]) -> (r: [u64; 4])
    ensures
        r@ == seq![COMMON_MAGIC_0, COMMON_MAGIC_1, specific@[0], specific@[1]],
{
    let r = [COMMON_MAGIC_0, COMMON_MAGIC_1, specific[0], specific[1]];
    proof {
        assert(r@ =~= seq![COMMON_MAGIC_0, COMMON_MAGIC_1, specific@[0], specific@[1]]);
    }
    r
}


/// Mask of the bits that mark a kernel-image virtual address.
pub const KERNEL_IMAGE_MASK: u64 = 0xFFFF_FFFF_0000_0000;
/// Mask of the bits that mark a higher-half virtual address.
pub const HIGHER_HALF_MASK: u64 = 0xFFFF_8000_0000_0000;
/// Physical addresses below this are device (MMIO) addresses.
pub const MMIO_LIMIT: u64 = 0x8000_0000;

/// What Limine reports about the address space at boot: the offset of the
/// higher-half direct map (HHDM) and where the kernel image was loaded.
#[derive(Clone, Copy, Debug, PartialEq, Eq, Structural)]
pub struct BootInfo {
    /// Virtual offset of the direct map of physical memory.
    pub hhdm_offset: u64,
    /// Physical address where the kernel image was loaded.
    pub kernel_phys_base: u64,
    /// Virtual address where the kernel image is mapped.
    pub kernel_virt_base: u64,
}

/// `addr` carries every bit of `mask`.
pub open spec fn has_prefix(addr: u64, mask: u64) -> bool {
    addr & mask == mask
}

/// `a + b`, saturated at the maximum of `u64`.
pub open spec fn sat_add(a: u64, b: u64) -> u64 {
    if a + b > u64::MAX { u64::MAX } else { (a + b) as u64 }
}

/// `a - b`, saturated at zero.
pub open spec fn sat_sub(a: u64, b: u64) -> u64 {
    if a < b { 0 } else { (a - b) as u64 }
}

/// Physical address of a kernel virtual address, by its region: the kernel
/// image is shifted by the load bases; I/O and heap addresses drop their
/// prefix; other higher-half addresses drop the HHDM offset; lower-half
/// addresses are already physical.
pub open spec fn spec_va_to_pa(boot: BootInfo, addr: u64) -> u64 {
    if has_prefix(addr, KERNEL_IMAGE_MASK) {
        (boot.kernel_phys_base + (addr - boot.kernel_virt_base)) as u64
    } else if has_prefix(addr, KERNEL_IO_ADDR) {
        sat_sub(addr, KERNEL_IO_ADDR)
    } else if has_prefix(addr, KERNEL_HEAP_ADDR) {
        sat_sub(addr, KERNEL_HEAP_ADDR)
    } else if has_prefix(addr, HIGHER_HALF_MASK) {
        sat_sub(addr, boot.hhdm_offset)
    } else {
        addr
    }
}

/// Kernel virtual address of a physical address: higher-half values are
/// already virtual; device addresses move under the I/O prefix; other
/// physical memory is reached through the HHDM.
pub open spec fn spec_pa_to_va(boot: BootInfo, addr: u64) -> u64 {
    if has_prefix(addr, HIGHER_HALF_MASK) {
        addr
    } else if addr < MMIO_LIMIT {
        (KERNEL_IO_ADDR + addr) as u64
    } else {
        sat_add(boot.hhdm_offset, addr)
    }
}

/// The conversion of `addr` does not overflow: a kernel-image address lies
/// at or above the image's virtual base, and its physical address fits.
pub open spec fn va_to_pa_defined(boot: BootInfo, addr: u64) -> bool {
    has_prefix(addr, KERNEL_IMAGE_MASK) ==> {
        &&& addr >= boot.kernel_virt_base
        &&& boot.kernel_phys_base + (addr - boot.kernel_virt_base) <= u64::MAX
    }
}

impl BootInfo {
    /// Bundle the values Limine reported.
    pub fn new(hhdm_offset: u64, kernel_phys_base: u64, kernel_virt_base: u64) -> (r: Self)
        ensures
            r.hhdm_offset == hhdm_offset,
            r.kernel_phys_base == kernel_phys_base,
            r.kernel_virt_base == kernel_virt_base,
    {
        BootInfo { hhdm_offset, kernel_phys_base, kernel_virt_base }
    }

    /// `v` is a direct-map address that converts to physical memory and back
    /// to itself: a higher-half address outside the kernel-image, I/O and
    /// heap regions, at or above the HHDM offset, whose physical address is
    /// neither a device address nor itself a higher-half value.
    pub open spec fn is_direct_map_va(self, v: u64) -> bool {
        &&& has_prefix(v, HIGHER_HALF_MASK)
        &&& !has_prefix(v, KERNEL_IMAGE_MASK)
        &&& !has_prefix(v, KERNEL_IO_ADDR)
        &&& !has_prefix(v, KERNEL_HEAP_ADDR)
        &&& v >= self.hhdm_offset
        &&& (v - self.hhdm_offset) >= MMIO_LIMIT
        &&& !has_prefix((v - self.hhdm_offset) as u64, HIGHER_HALF_MASK)
    }
}

/// Virtual address of a physical address in the HHDM: the offset added,
/// saturated at the top of the address space.
pub fn hhdm_phys_to_virt(boot: &BootInfo, paddr: u64) -> (r: u64)
    ensures
        r == sat_add(boot.hhdm_offset, paddr),
{
    boot.hhdm_offset.saturating_add(paddr)
}

/// Physical address of an HHDM virtual address: the offset removed,
/// saturated at zero.
pub fn hhdm_virt_to_phys(boot: &BootInfo, vaddr: u64) -> (r: u64)
    ensures
        r == sat_sub(vaddr, boot.hhdm_offset),
{
    vaddr.saturating_sub(boot.hhdm_offset)
}

/// Convert a kernel virtual address to its physical address.
pub fn va_to_pa(boot: &BootInfo, addr: u64) -> (r: u64)
    requires
        va_to_pa_defined(*boot, addr),
    ensures
        r == spec_va_to_pa(*boot, addr),
        addr & 0xFFFF_FFFF_0000_0000u64 == 0xFFFF_FFFF_0000_0000u64
            ==> r == boot.kernel_phys_base + (addr - boot.kernel_virt_base),
        addr & 0xFFFF_FFFF_0000_0000u64 != 0xFFFF_FFFF_0000_0000u64
            && addr & 0xFFFF_BEEF_0000_0000u64 == 0xFFFF_BEEF_0000_0000u64
            ==> r == addr - 0xFFFF_BEEF_0000_0000u64,
        addr & 0xFFFF_FFFF_0000_0000u64 != 0xFFFF_FFFF_0000_0000u64
            && addr & 0xFFFF_BEEF_0000_0000u64 != 0xFFFF_BEEF_0000_0000u64
            && addr & 0xFFFF_CAFE_0000_0000u64 == 0xFFFF_CAFE_0000_0000u64
            ==> r == addr - 0xFFFF_CAFE_0000_0000u64,
        addr & 0xFFFF_FFFF_0000_0000u64 != 0xFFFF_FFFF_0000_0000u64
            && addr & 0xFFFF_BEEF_0000_0000u64 != 0xFFFF_BEEF_0000_0000u64
            && addr & 0xFFFF_CAFE_0000_0000u64 != 0xFFFF_CAFE_0000_0000u64
            && addr & 0xFFFF_8000_0000_0000u64 == 0xFFFF_8000_0000_0000u64
            ==> r == if addr >= boot.hhdm_offset { addr - boot.hhdm_offset } else { 0 },
        addr & 0xFFFF_8000_0000_0000u64 != 0xFFFF_8000_0000_0000u64 ==> r == addr,
{
    proof { lemma_prefix_bounds(addr); }
    if addr & KERNEL_IMAGE_MASK == KERNEL_IMAGE_MASK {
        boot.kernel_phys_base + (addr - boot.kernel_virt_base)
    } else if addr & KERNEL_IO_ADDR == KERNEL_IO_ADDR {
        addr.saturating_sub(KERNEL_IO_ADDR)
    } else if addr & KERNEL_HEAP_ADDR == KERNEL_HEAP_ADDR {
        addr.saturating_sub(KERNEL_HEAP_ADDR)
    } else if addr & HIGHER_HALF_MASK == HIGHER_HALF_MASK {
        hhdm_virt_to_phys(boot, addr)
    } else {
        addr
    }
}

/// Convert a physical address to a kernel virtual address.
pub fn pa_to_va(boot: &BootInfo, addr: u64) -> (r: u64)
    ensures
        r == spec_pa_to_va(*boot, addr),
        addr & 0xFFFF_8000_0000_0000u64 == 0xFFFF_8000_0000_0000u64 ==> r == addr,
        addr & 0xFFFF_8000_0000_0000u64 != 0xFFFF_8000_0000_0000u64 && addr < 0x8000_0000
            ==> r == 0xFFFF_BEEF_0000_0000u64 + addr,
        addr & 0xFFFF_8000_0000_0000u64 != 0xFFFF_8000_0000_0000u64 && addr >= 0x8000_0000
            ==> r == if boot.hhdm_offset + addr <= u64::MAX { boot.hhdm_offset + addr } else { u64::MAX as int },
{
    if addr & HIGHER_HALF_MASK == HIGHER_HALF_MASK {
        return addr;
    }
    if addr < MMIO_LIMIT {
        return KERNEL_IO_ADDR + addr;
    }
    hhdm_phys_to_virt(boot, addr)
}

/// An address that carries every bit of one of the region prefixes is at
/// least that prefix.
proof fn lemma_prefix_bounds(addr: u64)
    ensures
        addr & 0xFFFF_BEEF_0000_0000u64 == 0xFFFF_BEEF_0000_0000u64 ==> addr >= 0xFFFF_BEEF_0000_0000u64,
        addr & 0xFFFF_CAFE_0000_0000u64 == 0xFFFF_CAFE_0000_0000u64 ==> addr >= 0xFFFF_CAFE_0000_0000u64,
        addr & 0xFFFF_8000_0000_0000u64 != 0xFFFF_8000_0000_0000u64 ==> (
            addr & 0xFFFF_FFFF_0000_0000u64 != 0xFFFF_FFFF_0000_0000u64
            && addr & 0xFFFF_BEEF_0000_0000u64 != 0xFFFF_BEEF_0000_0000u64
            && addr & 0xFFFF_CAFE_0000_0000u64 != 0xFFFF_CAFE_0000_0000u64),
{
    assert((addr & 0xFFFF_BEEF_0000_0000u64 == 0xFFFF_BEEF_0000_0000u64 ==> addr >= 0xFFFF_BEEF_0000_0000u64)
        && (addr & 0xFFFF_CAFE_0000_0000u64 == 0xFFFF_CAFE_0000_0000u64 ==> addr >= 0xFFFF_CAFE_0000_0000u64)
        && (addr & 0xFFFF_8000_0000_0000u64 != 0xFFFF_8000_0000_0000u64 ==> (
        addr & 0xFFFF_FFFF_0000_0000u64 != 0xFFFF_FFFF_0000_0000u64
        && addr & 0xFFFF_BEEF_0000_0000u64 != 0xFFFF_BEEF_0000_0000u64
        && addr & 0xFFFF_CAFE_0000_0000u64 != 0xFFFF_CAFE_0000_0000u64))) by (bit_vector);
}

/// A direct-map virtual address converts to physical memory and back to
/// itself.
pub proof fn lemma_direct_map_round_trip(boot: BootInfo, v: u64)
    requires
        boot.is_direct_map_va(v),
    ensures
        va_to_pa_defined(boot, v),
        spec_va_to_pa(boot, v) == v - boot.hhdm_offset,
        spec_pa_to_va(boot, spec_va_to_pa(boot, v)) == v,
{
}

/// A device address moves under the I/O prefix and converts back to itself.
pub proof fn lemma_mmio_round_trip(boot: BootInfo, p: u64)
    requires
        p < MMIO_LIMIT,
    ensures
        spec_pa_to_va(boot, p) == KERNEL_IO_ADDR + p,
        va_to_pa_defined(boot, spec_pa_to_va(boot, p)),
        spec_va_to_pa(boot, spec_pa_to_va(boot, p)) == p,
{
    let v = (KERNEL_IO_ADDR + p) as u64;
    assert(!has_prefix(p, HIGHER_HALF_MASK)) by (bit_vector) requires p < 0x8000_0000u64;
    assert(!has_prefix(v, KERNEL_IMAGE_MASK) && has_prefix(v, KERNEL_IO_ADDR)) by (bit_vector)
        requires p < 0x8000_0000u64, v == 0xffff_beef_0000_0000u64 + p;
}

/// Physical memory above the device range whose direct-map address is a
/// direct-map address converts to it and back to itself.
pub proof fn lemma_physical_round_trip(boot: BootInfo, p: u64)
    requires
        p >= MMIO_LIMIT,
        !has_prefix(p, HIGHER_HALF_MASK),
        boot.hhdm_offset + p <= u64::MAX,
        boot.is_direct_map_va((boot.hhdm_offset + p) as u64),
    ensures
        spec_pa_to_va(boot, p) == boot.hhdm_offset + p,
        va_to_pa_defined(boot, spec_pa_to_va(boot, p)),
        spec_va_to_pa(boot, spec_pa_to_va(boot, p)) == p,
{
}

/// One physical memory region and its Limine-defined type.
#[derive(Clone, Copy, Debug, PartialEq, Eq, Structural)]
pub struct MemoryMapEntry {
    pub base: u64,
    pub length: u64,
    pub entry_type: u64,
}

/// The `(base, length)` of each usable region, in map order.
pub open spec fn usable_regions(entries: Seq<MemoryMapEntry>) -> Seq<(u64, u64)>
    decreases entries.len(),
{
    if entries.len() == 0 {
        Seq::empty()
    } else {
        let rest = usable_regions(entries.drop_last());
        let e = entries.last();
        if e.entry_type == memmap::USABLE { rest.push((e.base, e.length)) } else { rest }
    }
}

/// Whether the kernel may use the region of `entry` for its own pages.
pub fn is_usable(entry: &MemoryMapEntry) -> (r: bool)
    ensures
        r == (entry.entry_type == memmap::USABLE),
{
    entry.entry_type == memmap::USABLE
}

/// The usable regions of a memory map, as `(base, length)` pairs in map
/// order.
pub fn usable_memory_regions(entries: &[MemoryMapEntry]) -> (r: Vec<(u64, u64)>)
    ensures
        r@ == usable_regions(entries@),
{
    let mut r: Vec<(u64, u64)> = Vec::new();
    let mut i: usize = 0;
    while i < entries.len()
        invariant
            i <= entries@.len(),
            r@ == usable_regions(entries@.take(i as int)),
        decreases entries.len() - i,
    {
        proof {
            assert(entries@.take(i + 1).drop_last() =~= entries@.take(i as int));
        }
        let e = entries[i];
        if is_usable(&e) {
            r.push((e.base, e.length));
        }
        i += 1;
    }
    proof {
        assert(entries@.take(i as int) =~= entries@);
    }
    r
}

/// The boot hart's ID from Limine's response, or `0` without a response.
pub fn bsp_hartid(response: Option<u64>) -> (r: u64)
    ensures
        r == match response { Some(id) => id, None => 0 },
{
    match response {
        Some(id) => id,
        None => 0,
    }
}

/// The boot time as a UNIX timestamp from Limine's response, if any.
pub fn date_at_boot(response: Option<u64>) -> (r: Option<u64>)
    ensures
        r == response,
{
    match response {
        Some(t) => Some(t),
        None => None,
    }
}

/// The RSDP address from Limine's response: `None` without a response or
/// when the reported address is zero (ACPI unavailable).
pub fn rsdp_virt(response: Option<u64>) -> (r: Option<u64>)
    ensures
        r == match response {
            Some(a) => if a == 0 { None } else { Some(a) },
            None => None,
        },
{
    match response {
        Some(addr) => if addr == 0 { None } else { Some(addr) },
        None => None,
    }
}
} // verus!
