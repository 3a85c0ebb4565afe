//! Sv48 page tables: requested-mapping flags, page-table entries and pages,
//! and a page-table root with map, unmap, translate and access.
use vstd::prelude::*;
use crate::riscv::pte;
use crate::riscv::satp_reg;
use crate::limine::{BootInfo, pa_to_va, va_to_pa, spec_pa_to_va, spec_va_to_pa, lemma_direct_map_round_trip};
use crate::mem::{PageAllocator, PageAllocation};

verus! {

/// Page-table pages are 4 KiB.
pub const PAGE_SIZE: u64 = 4096;
/// Entries in one page-table page.
pub const ENTRIES_PER_TABLE: usize = 512;
/// Bits of an entry that hold the physical page number (bits 10..54).
pub const PPN_MASK: u64 = 0x003F_FFFF_FFFF_FC00;

/// Flag indexes of a requested mapping.
pub const MEM_VALID: u64 = 0;
pub const MEM_READ: u64 = 1;
pub const MEM_WRITE: u64 = 2;
pub const MEM_EXECUTE: u64 = 3;
pub const MEM_USER: u64 = 4;
pub const MEM_GLOBAL: u64 = 5;
pub const MEM_ACCESSED: u64 = 6;
pub const MEM_DIRTY: u64 = 7;
pub const MEM_SUPER: u64 = 8;
pub const MEM_HUGE: u64 = 9;
pub const MEM_ENORMOUS: u64 = 10;
pub const MEM_IO: u64 = 11;
/// Number of defined mapping flags.
pub const NUM_FLAGS: u64 = 12;

/// Bit `k` of `x` is set.
pub open spec fn bit_set(x: u64, k: u64) -> bool {
    (x >> k) & 1u64 == 1u64
}

/// A kernel virtual address used by the page-table code.
#[derive(Debug, Clone, Copy, PartialEq, Eq, Structural)]
pub struct VirtualAddress {
    pub address: u64,
}

impl VirtualAddress {
    /// Wrap a virtual address without changing its value.
    pub fn new(address: u64) -> (r: Self)
        ensures
            r.address == address,
    {
        Self { address }
    }

    /// The wrapped address.
    pub fn as_usize(self) -> (r: u64)
        ensures
            r == self.address,
    {
        self.address
    }
}

impl From<u64> for VirtualAddress {
    /// Wrap a virtual address without changing its value.
    fn from(address: u64) -> (r: Self) {
        Self::new(address)
    }
}

impl vstd::std_specs::convert::FromSpecImpl<u64> for VirtualAddress {
    open spec fn obeys_from_spec() -> bool {
        true
    }

    open spec fn from_spec(v: u64) -> Self {
        VirtualAddress { address: v }
    }
}

/// The flags of a requested mapping, one bit per flag index.
#[derive(Debug, Clone, Copy, PartialEq, Eq, Structural)]
pub struct MemFlags {
    pub flags: u64,
}

proof fn lemma_or_bit(x: u64, k: u64)
    requires
        k < 64,
    ensures
        forall|g: u64| g < 64 ==> #[trigger] bit_set(x | (1u64 << k), g) == (bit_set(x, g) || g == k),
        x < 4096 && k < 12 ==> (x | (1u64 << k)) < 4096,
{
    assert(forall|g: u64| g < 64 ==> #[trigger] bit_set(x | (1u64 << k), g) == (bit_set(x, g) || g == k)) by (bit_vector)
        requires k < 64;
    assert(x < 4096 && k < 12 ==> (x | (1u64 << k)) < 4096) by (bit_vector);
}

impl MemFlags {
    /// Flag `f` is set.
    pub open spec fn has(self, f: u64) -> bool {
        f < NUM_FLAGS && bit_set(self.flags, f)
    }

    /// A mapping with no flags.
    pub fn new() -> (r: Self)
        ensures
            r.flags == 0,
            forall|f: u64| !r.has(f),
    {
        proof {
            assert(forall|f: u64| #[trigger] bit_set(0u64, f) == false) by (bit_vector);
        }
        Self { flags: 0 }
    }

    /// Add flag `flag`.
    pub fn set(&mut self, flag: u64)
        requires
            flag < NUM_FLAGS,
        ensures
            final(self).flags == old(self).flags | (1u64 << flag),
            forall|f: u64| f < 64 ==> #[trigger] final(self).has(f) == (old(self).has(f) || f == flag),
            old(self).flags < 4096 ==> final(self).flags < 4096,
    {
        proof { lemma_or_bit(self.flags, flag); }
        self.flags = self.flags | (1u64 << flag);
    }

    /// The stored flag bits.
    pub fn get(&self) -> (r: u64)
        ensures
            r == self.flags,
    {
        self.flags
    }

    /// Check flag `flag`; `false` for an index past the defined flags.
    pub fn is_set(&self, flag: u64) -> (r: bool)
        ensures
            r == self.has(flag),
    {
        proof {
            let x = self.flags;
            assert(flag < 64 ==> ((x & (1u64 << flag) != 0) == bit_set(x, flag))) by (bit_vector);
        }
        flag < NUM_FLAGS && self.flags & (1u64 << flag) != 0
    }
}


impl MemFlags {
    /// Add the valid flag.
    pub fn valid(self) -> (r: Self)
        ensures
            r.flags == self.flags | (1u64 << MEM_VALID),
            forall|f: u64| f < 64 ==> #[trigger] r.has(f) == (self.has(f) || f == MEM_VALID),
            self.flags < 4096 ==> r.flags < 4096,
    {
        let mut m = self;
        m.set(MEM_VALID);
        m
    }

    /// Add read permission.
    pub fn read(self) -> (r: Self)
        ensures
            r.flags == self.flags | (1u64 << MEM_READ),
            forall|f: u64| f < 64 ==> #[trigger] r.has(f) == (self.has(f) || f == MEM_READ),
            self.flags < 4096 ==> r.flags < 4096,
    {
        let mut m = self;
        m.set(MEM_READ);
        m
    }

    /// Add write permission.
    pub fn write(self) -> (r: Self)
        ensures
            r.flags == self.flags | (1u64 << MEM_WRITE),
            forall|f: u64| f < 64 ==> #[trigger] r.has(f) == (self.has(f) || f == MEM_WRITE),
            self.flags < 4096 ==> r.flags < 4096,
    {
        let mut m = self;
        m.set(MEM_WRITE);
        m
    }

    /// Add execute permission.
    pub fn execute(self) -> (r: Self)
        ensures
            r.flags == self.flags | (1u64 << MEM_EXECUTE),
            forall|f: u64| f < 64 ==> #[trigger] r.has(f) == (self.has(f) || f == MEM_EXECUTE),
            self.flags < 4096 ==> r.flags < 4096,
    {
        let mut m = self;
        m.set(MEM_EXECUTE);
        m
    }

    /// Allow user-mode access.
    pub fn user(self) -> (r: Self)
        ensures
            r.flags == self.flags | (1u64 << MEM_USER),
            forall|f: u64| f < 64 ==> #[trigger] r.has(f) == (self.has(f) || f == MEM_USER),
            self.flags < 4096 ==> r.flags < 4096,
    {
        let mut m = self;
        m.set(MEM_USER);
        m
    }

    /// Mark the mapping global.
    pub fn global(self) -> (r: Self)
        ensures
            r.flags == self.flags | (1u64 << MEM_GLOBAL),
            forall|f: u64| f < 64 ==> #[trigger] r.has(f) == (self.has(f) || f == MEM_GLOBAL),
            self.flags < 4096 ==> r.flags < 4096,
    {
        let mut m = self;
        m.set(MEM_GLOBAL);
        m
    }

    /// Mark the mapping accessed.
    pub fn accessed(self) -> (r: Self)
        ensures
            r.flags == self.flags | (1u64 << MEM_ACCESSED),
            forall|f: u64| f < 64 ==> #[trigger] r.has(f) == (self.has(f) || f == MEM_ACCESSED),
            self.flags < 4096 ==> r.flags < 4096,
    {
        let mut m = self;
        m.set(MEM_ACCESSED);
        m
    }

    /// Mark the mapping dirty.
    pub fn dirty(self) -> (r: Self)
        ensures
            r.flags == self.flags | (1u64 << MEM_DIRTY),
            forall|f: u64| f < 64 ==> #[trigger] r.has(f) == (self.has(f) || f == MEM_DIRTY),
            self.flags < 4096 ==> r.flags < 4096,
    {
        let mut m = self;
        m.set(MEM_DIRTY);
        m
    }

    /// Request a 2 MiB leaf at level 1.
    pub fn super_page(self) -> (r: Self)
        ensures
            r.flags == self.flags | (1u64 << MEM_SUPER),
            forall|f: u64| f < 64 ==> #[trigger] r.has(f) == (self.has(f) || f == MEM_SUPER),
            self.flags < 4096 ==> r.flags < 4096,
    {
        let mut m = self;
        m.set(MEM_SUPER);
        m
    }

    /// Request a 1 GiB leaf at level 2.
    pub fn huge_page(self) -> (r: Self)
        ensures
            r.flags == self.flags | (1u64 << MEM_HUGE),
            forall|f: u64| f < 64 ==> #[trigger] r.has(f) == (self.has(f) || f == MEM_HUGE),
            self.flags < 4096 ==> r.flags < 4096,
    {
        let mut m = self;
        m.set(MEM_HUGE);
        m
    }

    /// Request a 512 GiB leaf at level 3.
    pub fn enormous_page(self) -> (r: Self)
        ensures
            r.flags == self.flags | (1u64 << MEM_ENORMOUS),
            forall|f: u64| f < 64 ==> #[trigger] r.has(f) == (self.has(f) || f == MEM_ENORMOUS),
            self.flags < 4096 ==> r.flags < 4096,
    {
        let mut m = self;
        m.set(MEM_ENORMOUS);
        m
    }

    /// Request I/O memory attributes.
    pub fn io(self) -> (r: Self)
        ensures
            r.flags == self.flags | (1u64 << MEM_IO),
            forall|f: u64| f < 64 ==> #[trigger] r.has(f) == (self.has(f) || f == MEM_IO),
            self.flags < 4096 ==> r.flags < 4096,
    {
        let mut m = self;
        m.set(MEM_IO);
        m
    }

    /// Flag `MEM_VALID` is set.
    pub fn is_valid(&self) -> (r: bool)
        ensures
            r == self.has(MEM_VALID),
    {
        self.is_set(MEM_VALID)
    }

    /// Flag `MEM_READ` is set.
    pub fn is_readable(&self) -> (r: bool)
        ensures
            r == self.has(MEM_READ),
    {
        self.is_set(MEM_READ)
    }

    /// Flag `MEM_WRITE` is set.
    pub fn is_writeable(&self) -> (r: bool)
        ensures
            r == self.has(MEM_WRITE),
    {
        self.is_set(MEM_WRITE)
    }

    /// Flag `MEM_EXECUTE` is set.
    pub fn is_executable(&self) -> (r: bool)
        ensures
            r == self.has(MEM_EXECUTE),
    {
        self.is_set(MEM_EXECUTE)
    }

    /// Flag `MEM_USER` is set.
    pub fn is_user(&self) -> (r: bool)
        ensures
            r == self.has(MEM_USER),
    {
        self.is_set(MEM_USER)
    }

    /// Flag `MEM_GLOBAL` is set.
    pub fn is_global(&self) -> (r: bool)
        ensures
            r == self.has(MEM_GLOBAL),
    {
        self.is_set(MEM_GLOBAL)
    }

    /// Flag `MEM_ACCESSED` is set.
    pub fn is_accessed(&self) -> (r: bool)
        ensures
            r == self.has(MEM_ACCESSED),
    {
        self.is_set(MEM_ACCESSED)
    }

    /// Flag `MEM_DIRTY` is set.
    pub fn is_dirty(&self) -> (r: bool)
        ensures
            r == self.has(MEM_DIRTY),
    {
        self.is_set(MEM_DIRTY)
    }

    /// Flag `MEM_SUPER` is set.
    pub fn is_super_page(&self) -> (r: bool)
        ensures
            r == self.has(MEM_SUPER),
    {
        self.is_set(MEM_SUPER)
    }

    /// Flag `MEM_HUGE` is set.
    pub fn is_huge_page(&self) -> (r: bool)
        ensures
            r == self.has(MEM_HUGE),
    {
        self.is_set(MEM_HUGE)
    }

    /// Flag `MEM_ENORMOUS` is set.
    pub fn is_enormous_page(&self) -> (r: bool)
        ensures
            r == self.has(MEM_ENORMOUS),
    {
        self.is_set(MEM_ENORMOUS)
    }

    /// Flag `MEM_IO` is set.
    pub fn is_io(&self) -> (r: bool)
        ensures
            r == self.has(MEM_IO),
    {
        self.is_set(MEM_IO)
    }
}

/// The entry bits mark a valid entry.
pub open spec fn pte_valid(b: u64) -> bool {
    b & pte::VALID != 0
}

/// The entry bits grant read, write or execute access: a valid entry with
/// any of them maps memory instead of pointing to a table.
pub open spec fn pte_leaf(b: u64) -> bool {
    b & pte::READ != 0 || b & pte::WRITE != 0 || b & pte::EXECUTE != 0
}

/// The page-aligned physical address held in the entry bits.
pub open spec fn pte_phys(b: u64) -> u64 {
    ((b & PPN_MASK) >> 10u64) << 12u64
}

/// The entry bits select the I/O memory type.
pub open spec fn pte_io(b: u64) -> bool {
    (b >> pte::PBMT_BIT) & 3u64 == pte::PBMT_IO
}

/// The entry bits with the physical address replaced by `paddr`.
pub open spec fn pte_with_phys(b: u64, paddr: u64) -> u64 {
    (b & !PPN_MASK) | ((paddr >> 12u64) << 10u64)
}

/// The physical address read back from an entry equals the page-aligned
/// address written into it, and the other bits are kept.
pub proof fn lemma_pte_with_phys(b: u64, paddr: u64)
    requires
        paddr % 4096 == 0,
        paddr < 0x0100_0000_0000_0000,
    ensures
        pte_phys(pte_with_phys(b, paddr)) == paddr,
        pte_with_phys(b, paddr) & !PPN_MASK == b & !PPN_MASK,
        pte_phys(b) % 4096 == 0,
        pte_phys(b) < 0x0100_0000_0000_0000,
{
    assert(pte_phys(pte_with_phys(b, paddr)) == paddr
        && pte_with_phys(b, paddr) & !PPN_MASK == b & !PPN_MASK
        && pte_phys(b) % 4096 == 0 && pte_phys(b) < 0x0100_0000_0000_0000u64) by (bit_vector)
        requires paddr % 4096 == 0, paddr < 0x0100_0000_0000_0000u64;
}

/// One Sv48 page-table entry.
#[derive(Debug, Clone, Copy)]
pub struct PageTableEntry {
    entry: u64,
}

impl View for PageTableEntry {
    type V = u64;

    /// The raw entry bits.
    closed spec fn view(&self) -> u64 {
        self.entry
    }
}

impl PageTableEntry {
    /// An invalid entry with no flags and no physical page.
    pub fn new_empty() -> (r: Self)
        ensures
            r@ == 0,
    {
        Self { entry: 0 }
    }

    /// All raw bits of the entry.
    pub fn bits(&self) -> (r: u64)
        ensures
            r == self@,
    {
        self.entry
    }

    /// The raw 64-bit entry.
    pub fn raw(&self) -> (r: u64)
        ensures
            r == self@,
    {
        self.entry
    }

    /// Replace all bits of the entry.
    pub fn set_bits(&mut self, bits: u64)
        ensures
            final(self)@ == bits,
    {
        self.entry = bits;
    }

    /// Overwrite the raw 64-bit entry.
    pub fn set_raw(&mut self, value: u64)
        ensures
            final(self)@ == value,
    {
        self.entry = value;
    }

    /// The page-aligned physical address in the entry.
    pub fn physical_address(&self) -> (r: u64)
        ensures
            r == pte_phys(self@),
    {
        ((self.entry & PPN_MASK) >> pte::PPN_0_BIT) << 12
    }

    /// The physical address of the entry's next table or leaf.
    pub fn next_paddr(&self) -> (r: u64)
        ensures
            r == pte_phys(self@),
    {
        self.physical_address()
    }

    /// Replace the physical address and keep the other bits. The address must
    /// be page-aligned and fit the 44-bit page number.
    pub fn set_physical_address(&mut self, paddr: u64)
        requires
            paddr % 4096 == 0,
            paddr < 0x0100_0000_0000_0000,
        ensures
            final(self)@ == pte_with_phys(old(self)@, paddr),
            pte_phys(final(self)@) == paddr,
            final(self)@ & !PPN_MASK == old(self)@ & !PPN_MASK,
    {
        proof { lemma_pte_with_phys(self.entry, paddr); }
        let encoded_ppn = (paddr >> 12) << pte::PPN_0_BIT;
        self.entry = (self.entry & !PPN_MASK) | encoded_ppn;
    }

    /// The valid bit is set.
    pub fn is_valid(&self) -> (r: bool)
        ensures
            r == pte_valid(self@),
    {
        self.entry & pte::VALID != 0
    }

    /// The read bit is set.
    pub fn is_readable(&self) -> (r: bool)
        ensures
            r == (self@ & pte::READ != 0),
    {
        self.entry & pte::READ != 0
    }

    /// The write bit is set.
    pub fn is_writeable(&self) -> (r: bool)
        ensures
            r == (self@ & pte::WRITE != 0),
    {
        self.entry & pte::WRITE != 0
    }

    /// The execute bit is set.
    pub fn is_executable(&self) -> (r: bool)
        ensures
            r == (self@ & pte::EXECUTE != 0),
    {
        self.entry & pte::EXECUTE != 0
    }

    /// The user bit is set.
    pub fn is_user(&self) -> (r: bool)
        ensures
            r == (self@ & pte::USER != 0),
    {
        self.entry & pte::USER != 0
    }

    /// The global bit is set.
    pub fn is_global(&self) -> (r: bool)
        ensures
            r == (self@ & pte::GLOBAL != 0),
    {
        self.entry & pte::GLOBAL != 0
    }

    /// The accessed bit is set.
    pub fn is_accessed(&self) -> (r: bool)
        ensures
            r == (self@ & pte::ACCESSED != 0),
    {
        self.entry & pte::ACCESSED != 0
    }

    /// The dirty bit is set.
    pub fn is_dirty(&self) -> (r: bool)
        ensures
            r == (self@ & pte::DIRTY != 0),
    {
        self.entry & pte::DIRTY != 0
    }

    /// A valid entry with any access bit maps memory instead of a table.
    pub fn is_leaf(&self) -> (r: bool)
        ensures
            r == pte_leaf(self@),
    {
        self.is_readable() || self.is_writeable() || self.is_executable()
    }

    /// The entry requests I/O memory attributes.
    pub fn is_io(&self) -> (r: bool)
        ensures
            r == pte_io(self@),
    {
        (self.entry >> pte::PBMT_BIT) & 3 == pte::PBMT_IO
    }
}

/// One page-table page of 512 entries.
pub struct PageTable {
    entries: Vec<PageTableEntry>,
}

impl View for PageTable {
    type V = Seq<u64>;

    /// The raw bits of each entry.
    closed spec fn view(&self) -> Seq<u64> {
        self.entries@.map_values(|e: PageTableEntry| e@)
    }
}

impl PageTable {
    /// The page table holds exactly 512 entries.
    pub closed spec fn wf(&self) -> bool {
        self.entries@.len() == 512
    }

    /// A page table with 512 invalid entries.
    pub fn new_empty() -> (r: Self)
        ensures
            r.wf(),
            r@ == Seq::new(512, |i: int| 0u64),
    {
        let mut entries: Vec<PageTableEntry> = Vec::new();
        while entries.len() < ENTRIES_PER_TABLE
            invariant
                entries.len() <= 512,
                forall|j: int| 0 <= j < entries@.len() ==> #[trigger] entries@[j]@ == 0,
            decreases 512 - entries.len(),
        {
            entries.push(PageTableEntry::new_empty());
        }
        let r = Self { entries };
        proof {
            assert(r@ =~= Seq::new(512, |i: int| 0u64));
        }
        r
    }

    /// One entry; the index must be below 512.
    pub fn get_ref(&self, index: usize) -> (r: &PageTableEntry)
        requires
            self.wf(),
            index < 512,
        ensures
            r@ == self@[index as int],
    {
        &self.entries[index]
    }

    /// One entry, for update; the index must be below 512.
    pub fn get_mut(&mut self, index: usize) -> (r: &mut PageTableEntry)
        requires
            old(self).wf(),
            index < 512,
        ensures
            r@ == old(self)@[index as int],
            final(self).wf(),
            final(self)@ == old(self)@.update(index as int, final(r)@),
    {
        let r = &mut self.entries[index];
        r
    }
}

/// The index into the level-`level` table that `vaddr` selects: its
/// virtual page number field `level` (nine bits from bit `12 + 9 * level`).
pub open spec fn vpn(vaddr: u64, level: int) -> int {
    if level == 0 {
        ((vaddr >> 12u64) & 0x1ffu64) as int
    } else if level == 1 {
        ((vaddr >> 21u64) & 0x1ffu64) as int
    } else if level == 2 {
        ((vaddr >> 30u64) & 0x1ffu64) as int
    } else {
        ((vaddr >> 39u64) & 0x1ffu64) as int
    }
}

/// Bytes mapped by one leaf at `level`: 4 KiB, 2 MiB, 1 GiB or 512 GiB.
pub open spec fn page_size(level: int) -> int {
    if level == 0 {
        0x1000
    } else if level == 1 {
        0x20_0000
    } else if level == 2 {
        0x4000_0000
    } else {
        0x80_0000_0000
    }
}

/// Sv48 address translation reads the virtual address in nine-bit table
/// indexes above a twelve-bit page offset: the index at level `l` is the
/// address divided by 2^(12 + 9l), modulo 512; a leaf at level 0 maps a
/// 4 KiB page and each level up maps 512 times more.
pub proof fn lemma_sv48_address_layout(v: u64)
    ensures
        vpn(v, 0) == (v / 0x1000) % 512,
        vpn(v, 1) == (v / 0x20_0000) % 512,
        vpn(v, 2) == (v / 0x4000_0000) % 512,
        vpn(v, 3) == (v / 0x80_0000_0000) % 512,
        page_size(0) == 4096,
        page_size(1) == 512 * page_size(0),
        page_size(2) == 512 * page_size(1),
        page_size(3) == 512 * page_size(2),
{
    assert((v >> 12u64) & 0x1ffu64 == (v / 0x1000u64) % 512u64
        && (v >> 21u64) & 0x1ffu64 == (v / 0x20_0000u64) % 512u64
        && (v >> 30u64) & 0x1ffu64 == (v / 0x4000_0000u64) % 512u64
        && (v >> 39u64) & 0x1ffu64 == (v / 0x80_0000_0000u64) % 512u64) by (bit_vector);
}

/// The physical address an Sv48 entry holds is its physical page number,
/// bits 10 to 53, times the 4 KiB page size.
pub proof fn lemma_entry_physical_address(b: u64)
    ensures
        pte_phys(b) == ((b & 0x003F_FFFF_FFFF_FC00u64) / 1024) * 4096,
{
    assert(((b & 0x003F_FFFF_FFFF_FC00u64) >> 10u64) << 12u64
        == ((b & 0x003F_FFFF_FFFF_FC00u64) / 1024u64) * 4096u64) by (bit_vector);
}

/// An Sv48 entry is valid when its V bit (bit 0) is set, and a valid entry
/// is a leaf when any of its R, W, X bits (bits 1 to 3) is set, a pointer
/// to the next table otherwise.
pub proof fn lemma_entry_kind(b: u64)
    ensures
        pte_valid(b) == (b & 0x1u64 == 0x1u64),
        pte_leaf(b) == (b & 0xEu64 != 0u64),
{
    assert((b & 1u64 != 0) == (b & 0x1u64 == 0x1u64)
        && (b & 2u64 != 0 || b & 4u64 != 0 || b & 8u64 != 0) == (b & 0xEu64 != 0u64)) by (bit_vector);
}

/// Split an Sv48 virtual address into its four table indexes, level 0
/// first.
fn split_vpn(vaddr: u64) -> (r: [u64; 4])
    ensures
        forall|l: int| 0 <= l < 4 ==> r@[l] == vpn(vaddr, l) && #[trigger] r@[l] < 512,
{
    proof {
        assert(forall|k: u64| #[trigger] ((vaddr >> k) & 0x1ffu64) < 512) by (bit_vector);
    }
    let r = [
        (vaddr >> 12) & 0x1ff,
        (vaddr >> 21) & 0x1ff,
        (vaddr >> 30) & 0x1ff,
        (vaddr >> 39) & 0x1ff,
    ];
    proof {
        assert(r@[0] == vpn(vaddr, 0) && r@[1] == vpn(vaddr, 1) && r@[2] == vpn(vaddr, 2) && r@[3] == vpn(vaddr, 3));
    }
    r
}

/// The number of page-size flags among super, huge and enormous.
pub open spec fn page_size_flag_count(flags: MemFlags) -> int {
    (if flags.has(MEM_SUPER) { 1int } else { 0int })
        + (if flags.has(MEM_HUGE) { 1int } else { 0int })
        + (if flags.has(MEM_ENORMOUS) { 1int } else { 0int })
}

/// The leaf level the flags select: 3 for enormous, 2 for huge, 1 for super
/// pages, 0 otherwise.
pub open spec fn level_of_flags(flags: MemFlags) -> int {
    if flags.has(MEM_ENORMOUS) {
        3
    } else if flags.has(MEM_HUGE) {
        2
    } else if flags.has(MEM_SUPER) {
        1
    } else {
        0
    }
}

/// The leaf level selected by the flags; at most one page-size flag may be
/// set.
fn level_from_flags(flags: MemFlags) -> (r: u64)
    requires
        page_size_flag_count(flags) <= 1,
    ensures
        r == level_of_flags(flags),
{
    let page_sizes = (if flags.is_super_page() { 1u64 } else { 0u64 })
        + (if flags.is_huge_page() { 1u64 } else { 0u64 })
        + (if flags.is_enormous_page() { 1u64 } else { 0u64 });
    if flags.is_enormous_page() {
        3
    } else if flags.is_huge_page() {
        2
    } else if flags.is_super_page() {
        1
    } else {
        0
    }
}

/// Bytes mapped by one leaf at a level below 4.
fn page_size_for_level(level: u64) -> (r: u64)
    requires
        level < 4,
    ensures
        r == page_size(level as int),
{
    proof {
        assert(level < 4 ==> (4096u64 << (level * 9)) == (if level == 0 { 0x1000u64 } else if level == 1 {
            0x20_0000u64 } else if level == 2 { 0x4000_0000u64 } else { 0x80_0000_0000u64 })) by (bit_vector);
    }
    PAGE_SIZE << (level * 9)
}

/// The bits of a leaf entry for the requested flags: valid, the access,
/// user, global, accessed and dirty bits that are requested, and the I/O
/// memory type when requested.
pub open spec fn leaf_bits(m: MemFlags) -> u64 {
    pte::VALID
        | (if m.has(MEM_READ) { pte::READ } else { 0u64 })
        | (if m.has(MEM_WRITE) { pte::WRITE } else { 0u64 })
        | (if m.has(MEM_EXECUTE) { pte::EXECUTE } else { 0u64 })
        | (if m.has(MEM_USER) { pte::USER } else { 0u64 })
        | (if m.has(MEM_GLOBAL) { pte::GLOBAL } else { 0u64 })
        | (if m.has(MEM_ACCESSED) { pte::ACCESSED } else { 0u64 })
        | (if m.has(MEM_DIRTY) { pte::DIRTY } else { 0u64 })
        | (if m.has(MEM_IO) { 0x4000_0000_0000_0000u64 } else { 0u64 })
}

/// Convert requested mapping flags to leaf-entry bits.
fn mem_flags_to_pte_flags(mflags: &MemFlags) -> (r: u64)
    ensures
        r == leaf_bits(*mflags),
{
    proof {
        assert(2u64 << 61u64 == 0x4000_0000_0000_0000u64) by (bit_vector);
    }
    pte::VALID
        | (if mflags.is_readable() { pte::READ } else { 0 })
        | (if mflags.is_writeable() { pte::WRITE } else { 0 })
        | (if mflags.is_executable() { pte::EXECUTE } else { 0 })
        | (if mflags.is_user() { pte::USER } else { 0 })
        | (if mflags.is_global() { pte::GLOBAL } else { 0 })
        | (if mflags.is_accessed() { pte::ACCESSED } else { 0 })
        | (if mflags.is_dirty() { pte::DIRTY } else { 0 })
        | (if mflags.is_io() { pte::PBMT_IO << pte::PBMT_BIT } else { 0 })
}

/// Whether flag `f` describes a leaf entry with bits `b` found at `level`:
/// always valid; the entry's access, user, global, accessed, dirty and I/O
/// attributes; and the page-size flag of its level.
pub open spec fn entry_flag(b: u64, level: int, f: u64) -> bool {
    if f == MEM_VALID {
        true
    } else if f == MEM_READ {
        b & pte::READ != 0
    } else if f == MEM_WRITE {
        b & pte::WRITE != 0
    } else if f == MEM_EXECUTE {
        b & pte::EXECUTE != 0
    } else if f == MEM_USER {
        b & pte::USER != 0
    } else if f == MEM_GLOBAL {
        b & pte::GLOBAL != 0
    } else if f == MEM_ACCESSED {
        b & pte::ACCESSED != 0
    } else if f == MEM_DIRTY {
        b & pte::DIRTY != 0
    } else if f == MEM_SUPER {
        level == 1
    } else if f == MEM_HUGE {
        level == 2
    } else if f == MEM_ENORMOUS {
        level == 3
    } else if f == MEM_IO {
        pte_io(b)
    } else {
        false
    }
}

impl MemFlags {
    /// The flags describing a leaf entry found at `level`.
    fn from_entry(entry: &PageTableEntry, level: u64) -> (r: Self)
        ensures
            forall|f: u64| f < 64 ==> #[trigger] r.has(f) == entry_flag(entry@, level as int, f),
            r.flags < 4096,
    {
        let mut flags = Self::new().valid();
        if entry.is_readable() { flags = flags.read(); }
        if entry.is_writeable() { flags = flags.write(); }
        if entry.is_executable() { flags = flags.execute(); }
        if entry.is_user() { flags = flags.user(); }
        if entry.is_global() { flags = flags.global(); }
        if entry.is_accessed() { flags = flags.accessed(); }
        if entry.is_dirty() { flags = flags.dirty(); }
        if entry.is_io() { flags = flags.io(); }
        if level == 1 { flags = flags.super_page(); }
        if level == 2 { flags = flags.huge_page(); }
        if level == 3 { flags = flags.enormous_page(); }
        flags
    }
}

/// Page-table pages by virtual address, stored flat: the table at
/// `addrs[i]` holds the entries `512 * i .. 512 * i + 512`.
struct TableStore {
    addrs: Vec<u64>,
    entries: Vec<PageTableEntry>,
    map: Ghost<Map<u64, Seq<u64>>>,
}

impl TableStore {
    spec fn wf(&self) -> bool {
        &&& self.entries@.len() == 512 * self.addrs@.len()
        &&& self.addrs@.no_duplicates()
        &&& forall|a: u64| #[trigger] self.map@.contains_key(a) <==> self.addrs@.contains(a)
        &&& forall|a: u64| #[trigger] self.map@.contains_key(a) ==> self.map@[a].len() == 512
        &&& forall|i: int, j: int| 0 <= i < self.addrs@.len() && 0 <= j < 512
            ==> #[trigger] self.map@[self.addrs@[i]][j] == self.entries@[512 * i + j]@
    }

    fn new() -> (r: Self)
        ensures
            r.wf(),
            r.map@ == Map::<u64, Seq<u64>>::empty(),
            r.addrs@ == Seq::<u64>::empty(),
    {
        TableStore { addrs: Vec::new(), entries: Vec::new(), map: Ghost(Map::empty()) }
    }

    fn find(&self, a: u64) -> (r: Option<usize>)
        requires
            self.wf(),
        ensures
            r.is_some() == self.map@.contains_key(a),
            r.is_some() ==> r.unwrap() < self.addrs@.len() && self.addrs@[r.unwrap() as int] == a,
    {
        let mut i: usize = 0;
        while i < self.addrs.len()
            invariant
                self.wf(),
                i <= self.addrs@.len(),
                forall|k: int| 0 <= k < i ==> self.addrs@[k] != a,
            decreases self.addrs.len() - i,
        {
            if self.addrs[i] == a {
                proof {
                    assert(self.addrs@.contains(a));
                }
                return Some(i);
            }
            i += 1;
        }
        proof {
            assert(!self.addrs@.contains(a));
        }
        None
    }

    fn read(&self, i: usize, j: usize) -> (r: PageTableEntry)
        requires
            self.wf(),
            i < self.addrs@.len(),
            j < 512,
        ensures
            r@ == self.map@[self.addrs@[i as int]][j as int],
    {
        proof {
            assert(self.map@[self.addrs@[i as int]][j as int] == self.entries@[512 * i + j]@);
            assert(512 * i + j < 512 * self.addrs@.len()) by (nonlinear_arith)
                requires i < self.addrs@.len(), j < 512;
        }
        let _len = self.entries.len();
        self.entries[512 * i + j]
    }

    fn write(&mut self, i: usize, j: usize, e: PageTableEntry)
        requires
            old(self).wf(),
            i < old(self).addrs@.len(),
            j < 512,
        ensures
            final(self).wf(),
            final(self).addrs@ == old(self).addrs@,
            final(self).map@ == old(self).map@.insert(
                old(self).addrs@[i as int],
                old(self).map@[old(self).addrs@[i as int]].update(j as int, e@),
            ),
    {
        proof {
            assert(512 * i + j < 512 * self.addrs@.len()) by (nonlinear_arith)
                requires i < self.addrs@.len(), j < 512;
            assert(self.addrs@.contains(self.addrs@[i as int]));
            assert(self.map@.contains_key(self.addrs@[i as int]));
        }
        let _len = self.entries.len();
        let pos = 512 * i + j;
        self.entries.set(pos, e);
        let ghost a = self.addrs@[i as int];
        proof {
            self.map@ = self.map@.insert(a, self.map@[a].update(j as int, e@));
            assert forall|i2: int, j2: int| 0 <= i2 < self.addrs@.len() && 0 <= j2 < 512
                implies #[trigger] self.map@[self.addrs@[i2]][j2] == self.entries@[512 * i2 + j2]@ by {
                assert(old(self).map@.contains_key(old(self).addrs@[i2]) && old(self).addrs@.contains(old(self).addrs@[i2]));
                if i2 != i {
                    assert(self.addrs@[i2] != a);
                    assert(512 * i2 + j2 != pos);
                    assert(old(self).map@[old(self).addrs@[i2]][j2] == old(self).entries@[512 * i2 + j2]@);
                } else if j2 != j {
                    assert(512 * i2 + j2 != pos);
                    assert(old(self).map@[old(self).addrs@[i2]][j2] == old(self).entries@[512 * i2 + j2]@);
                }
            }
            assert forall|a2: u64| #[trigger] self.map@.contains_key(a2) implies self.map@[a2].len() == 512 by {
                assert(old(self).map@.contains_key(a2));
            }
        }
    }

    fn push_table(&mut self, a: u64) -> (r: usize)
        requires
            old(self).wf(),
            !old(self).map@.contains_key(a),
        ensures
            final(self).wf(),
            r == old(self).addrs@.len(),
            final(self).addrs@ == old(self).addrs@.push(a),
            final(self).map@ == old(self).map@.insert(a, Seq::new(512, |k: int| 0u64)),
    {
        let r = self.addrs.len();
        let mut k: usize = 0;
        while k < ENTRIES_PER_TABLE
            invariant
                self.wf() || k > 0,
                self.addrs@ == old(self).addrs@,
                self.map@ == old(self).map@,
                self.entries@.len() == 512 * r + k,
                k <= 512,
                r == self.addrs@.len(),
                forall|q: int| 0 <= q < 512 * r ==> #[trigger] self.entries@[q] == old(self).entries@[q],
                forall|q: int| 512 * r <= q < 512 * r + k ==> #[trigger] self.entries@[q]@ == 0,
                old(self).wf(),
            decreases 512 - k,
        {
            self.entries.push(PageTableEntry::new_empty());
            k += 1;
        }
        self.addrs.push(a);
        proof {
            self.map@ = self.map@.insert(a, Seq::new(512, |k: int| 0u64));
            assert forall|a2: u64| #[trigger] self.map@.contains_key(a2) <==> self.addrs@.contains(a2) by {
                if self.addrs@.contains(a2) && a2 != a {
                    let q = choose|q: int| 0 <= q < self.addrs@.len() && self.addrs@[q] == a2;
                    assert(old(self).addrs@[q] == a2);
                }
                if old(self).addrs@.contains(a2) {
                    let q = choose|q: int| 0 <= q < old(self).addrs@.len() && old(self).addrs@[q] == a2;
                    assert(self.addrs@[q] == a2);
                }
                if a2 == a {
                    assert(self.addrs@[r as int] == a);
                }
            }
            assert forall|i2: int, j2: int| 0 <= i2 < self.addrs@.len() && 0 <= j2 < 512
                implies #[trigger] self.map@[self.addrs@[i2]][j2] == self.entries@[512 * i2 + j2]@ by {
                if i2 < r {
                    assert(self.addrs@[i2] == old(self).addrs@[i2]);
                    assert(old(self).addrs@.contains(self.addrs@[i2]));
                    assert(self.addrs@[i2] != a);
                    assert(512 * i2 + j2 < 512 * r) by (nonlinear_arith) requires i2 < r, j2 < 512;
                    assert(old(self).map@[old(self).addrs@[i2]][j2] == old(self).entries@[512 * i2 + j2]@);
                } else {
                    assert(i2 == r);
                }
            }
            assert(self.addrs@.no_duplicates()) by {
                assert forall|x: int, y: int| 0 <= x < self.addrs@.len() && 0 <= y < self.addrs@.len() && x != y
                    implies self.addrs@[x] != self.addrs@[y] by {
                    if x < r && y < r {
                    } else if x < r {
                        assert(old(self).addrs@.contains(self.addrs@[x]));
                    } else {
                        assert(old(self).addrs@.contains(self.addrs@[y]));
                    }
                }
            }
            assert(512 * (r + 1) == 512 * r + 512) by (nonlinear_arith);
        }
        r
    }
}

/// Table memory: page-table pages by virtual address, 512 raw entries each.
pub type TableMap = Map<u64, Seq<u64>>;

/// The virtual address of the table an entry with bits `b` points to.
pub open spec fn child_table(boot: BootInfo, b: u64) -> u64 {
    spec_pa_to_va(boot, pte_phys(b))
}

/// Entry `j` of table `a` is valid and points to a further table.
pub open spec fn is_branch(t: TableMap, a: u64, j: int) -> bool {
    &&& t.contains_key(a)
    &&& 0 <= j < 512
    &&& pte_valid(t[a][j])
    &&& !pte_leaf(t[a][j])
}

/// Walk the tables for `v` from `table` at `level` down: the table and level
/// of the valid leaf entry that maps `v`, or `None` when the walk meets an
/// invalid entry, a table that is not present, or a branch at level 0.
pub open spec fn walk_to(t: TableMap, boot: BootInfo, table: u64, level: int, v: u64) -> Option<(u64, int)>
    decreases level,
{
    if level < 0 || !t.contains_key(table) {
        None
    } else {
        let b = t[table][vpn(v, level)];
        if !pte_valid(b) {
            None
        } else if pte_leaf(b) {
            Some((table, level))
        } else if level == 0 {
            None
        } else {
            walk_to(t, boot, child_table(boot, b), level - 1, v)
        }
    }
}

/// A walk ends at a present table whose entry for `v` is a valid leaf, at
/// a level between 0 and the starting level.
pub proof fn lemma_walk_to_leaf(t: TableMap, boot: BootInfo, table: u64, level: int, v: u64)
    ensures
        walk_to(t, boot, table, level, v) matches Some((x, l)) ==> {
            &&& t.contains_key(x)
            &&& 0 <= l <= level
            &&& pte_valid(t[x][vpn(v, l)])
            &&& pte_leaf(t[x][vpn(v, l)])
        },
    decreases level,
{
    if level >= 0 && t.contains_key(table) {
        let b = t[table][vpn(v, level)];
        if pte_valid(b) && !pte_leaf(b) && level > 0 {
            lemma_walk_to_leaf(t, boot, child_table(boot, b), level - 1, v);
        }
    }
}

/// The leaf entry that maps `v` from the root, with its level.
pub open spec fn leaf_of(t: TableMap, boot: BootInfo, root: u64, v: u64) -> Option<(u64, int)> {
    match walk_to(t, boot, root, 3, v) {
        Some((x, l)) => Some((t[x][vpn(v, l)], l)),
        None => None,
    }
}

/// The physical address `v` translates to: the leaf's physical page plus
/// the offset of `v` within a page of the leaf's size.
pub open spec fn spec_translate(t: TableMap, boot: BootInfo, root: u64, v: u64) -> Option<u64> {
    match leaf_of(t, boot, root, v) {
        Some((b, l)) => Some((pte_phys(b) + v % (page_size(l) as u64)) as u64),
        None => None,
    }
}

/// The top-level page table of one Sv48 address space, with the table
/// memory it owns.
pub struct PageTableRoot {
    addr: VirtualAddress,
    boot: BootInfo,
    store: TableStore,
    levels: Ghost<Map<u64, int>>,
}

impl PageTableRoot {
    /// The table memory: every page-table page by its virtual address.
    pub closed spec fn tables(&self) -> TableMap {
        self.store.map@
    }

    /// The virtual address of the root table.
    pub closed spec fn root(&self) -> u64 {
        self.addr.address
    }

    /// The boot-time address layout used to follow physical addresses.
    pub closed spec fn boot(&self) -> BootInfo {
        self.boot
    }

    /// The tables form a tree of four levels below the root: each branch
    /// entry of a table at level `l > 0` points to a present table at level
    /// `l - 1`, level-0 tables hold no branches, and no two branch entries
    /// point to the same table.
    pub open spec fn tree(t: TableMap, boot: BootInfo, lv: Map<u64, int>, root: u64) -> bool {
        &&& t.contains_key(root)
        &&& lv.dom() == t.dom()
        &&& lv[root] == 3
        &&& forall|a: u64| #[trigger] t.contains_key(a) ==> 0 <= lv[a] <= 3 && t[a].len() == 512
        &&& forall|a: u64, j: int| #[trigger] is_branch(t, a, j) ==> {
            &&& lv[a] >= 1
            &&& t.contains_key(child_table(boot, t[a][j]))
            &&& lv[child_table(boot, t[a][j])] == lv[a] - 1
        }
        &&& forall|a1: u64, j1: int, a2: u64, j2: int|
            #[trigger] is_branch(t, a1, j1) && #[trigger] is_branch(t, a2, j2)
            && child_table(boot, t[a1][j1]) == child_table(boot, t[a2][j2]) ==> a1 == a2 && j1 == j2
    }

    /// The root's invariant: its table memory is consistent and forms a tree
    /// under the root.
    pub closed spec fn wf(&self) -> bool {
        &&& self.store.wf()
        &&& Self::tree(self.tables(), self.boot, self.levels@, self.root())
    }

    /// Wrap the page-aligned virtual address of a root table whose page
    /// holds no mapping: the root starts as an empty table, and no address
    /// is mapped. A root table that is in use, with the tables below it, is
    /// read in with [`PageTableRoot::load`] instead.
    pub fn wrap_vaddr(virtual_address: u64, boot: BootInfo) -> (r: Self)
        requires
            virtual_address % 4096 == 0,
        ensures
            r.wf(),
            r.root() == virtual_address,
            r.boot() == boot,
            r.tables() == Map::<u64, Seq<u64>>::empty().insert(virtual_address, Seq::new(512, |k: int| 0u64)),
            forall|v: u64| #[trigger] leaf_of(r.tables(), boot, virtual_address, v) is None,
    {
        let mut store = TableStore::new();
        store.push_table(virtual_address);
        let ghost lv = Map::<u64, int>::empty().insert(virtual_address, 3int);
        let r = PageTableRoot { addr: VirtualAddress::new(virtual_address), boot, store, levels: Ghost(lv) };
        proof {
            let t = r.tables();
            assert(lv.dom() =~= t.dom());
            assert forall|a: u64, j: int| #[trigger] is_branch(t, a, j) implies false by {
                assert(a == virtual_address);
                assert(t[a][j] == 0u64);
                lemma_zero_invalid();
            }
            assert forall|v: u64| #[trigger] leaf_of(t, boot, virtual_address, v) is None by {
                lemma_vpn_bound(v, 3);
                assert(t[virtual_address][vpn(v, 3)] == 0u64);
                lemma_zero_invalid();
            }
        }
        r
    }

    /// The virtual address of the root table.
    pub fn virtual_address(&self) -> (r: u64)
        ensures
            r == self.root(),
    {
        self.addr.as_usize()
    }
}

/// The virtual address of the root table named by a SATP value: its
/// physical page number turned into an address and then into a kernel
/// virtual address. The mode must be Sv48.
pub fn root_vaddr_from_satp(boot: &BootInfo, satp: u64) -> (r: u64)
    requires
        (satp >> 60u64) & 0xfu64 == satp_reg::MODE_SV48,
    ensures
        r == spec_pa_to_va(*boot, (satp & 0xFFF_FFFF_FFFFu64) << 12u64),
{
    proof {
        assert((1u64 << 44u64) == 0x1000_0000_0000u64) by (bit_vector);
    }
    let root_paddr = (satp & ((1u64 << satp_reg::PPN_SIZE) - 1)) << 12;
    pa_to_va(boot, root_paddr)
}

impl PageTableRoot {
    /// Walk the tables for `vaddr`: the store index of the table holding
    /// the leaf entry and the leaf's level.
    fn walk(&self, vaddr: u64) -> (r: Option<(usize, u64)>)
        requires
            self.wf(),
        ensures
            match walk_to(self.tables(), self.boot(), self.root(), 3, vaddr) {
                Some((x, l)) => r.is_some() && r.unwrap().0 < self.store.addrs@.len()
                    && self.store.addrs@[r.unwrap().0 as int] == x && r.unwrap().1 == l,
                None => r.is_none(),
            },
            r.is_some() ==> r.unwrap().1 < 4,
    {
        let vpns = split_vpn(vaddr);
        let mut cur: usize = match self.store.find(self.addr.address) {
            Some(i) => i,
            None => return None,
        };
        let mut level: u64 = 4;
        while level > 0
            invariant
                self.wf(),
                0 < level <= 4,
                cur < self.store.addrs@.len(),
                forall|l: int| 0 <= l < 4 ==> vpns@[l] == vpn(vaddr, l) && #[trigger] vpns@[l] < 512,
                walk_to(self.tables(), self.boot(), self.root(), 3, vaddr)
                    == walk_to(self.tables(), self.boot(), self.store.addrs@[cur as int], level - 1, vaddr),
            decreases level,
        {
            level -= 1;
            let entry = self.store.read(cur, vpns[level as usize] as usize);
            proof {
                assert(self.tables().contains_key(self.store.addrs@[cur as int])) by {
                    assert(self.store.addrs@.contains(self.store.addrs@[cur as int]));
                }
            }
            if !entry.is_valid() {
                return None;
            }
            if entry.is_leaf() {
                return Some((cur, level));
            }
            if level == 0 {
                return None;
            }
            let child = pa_to_va(&self.boot, entry.physical_address());
            proof {
                assert(is_branch(self.tables(), self.store.addrs@[cur as int], vpn(vaddr, level as int)));
            }
            match self.store.find(child) {
                Some(i) => cur = i,
                None => return None,
            }
        }
        None
    }

    /// The flags of the leaf entry that maps `vaddr`: always valid, the
    /// entry's attributes and the page-size flag of its level; `None` when
    /// the walk finds no valid leaf.
    pub fn access(&self, vaddr: u64) -> (r: Option<MemFlags>)
        requires
            self.wf(),
        ensures
            r.is_some() == leaf_of(self.tables(), self.boot(), self.root(), vaddr).is_some(),
            r.is_some() ==> {
                let (b, l) = leaf_of(self.tables(), self.boot(), self.root(), vaddr).unwrap();
                &&& forall|f: u64| f < 64 ==> #[trigger] r.unwrap().has(f) == entry_flag(b, l, f)
                &&& r.unwrap().flags < 4096
                &&& sv48_leaf_decodes(b, l, r.unwrap())
            },
    {
        match self.walk(vaddr) {
            None => None,
            Some((cur, level)) => {
                let vpns = split_vpn(vaddr);
                let entry = self.store.read(cur, vpns[level as usize] as usize);
                let r = MemFlags::from_entry(&entry, level);
                proof {
                    lemma_entry_flag_decoding(entry@, level as int);
                    assert(r.has(MEM_VALID) == entry_flag(entry@, level as int, MEM_VALID));
                    assert(r.has(MEM_READ) == entry_flag(entry@, level as int, MEM_READ));
                    assert(r.has(MEM_WRITE) == entry_flag(entry@, level as int, MEM_WRITE));
                    assert(r.has(MEM_EXECUTE) == entry_flag(entry@, level as int, MEM_EXECUTE));
                    assert(r.has(MEM_USER) == entry_flag(entry@, level as int, MEM_USER));
                    assert(r.has(MEM_GLOBAL) == entry_flag(entry@, level as int, MEM_GLOBAL));
                    assert(r.has(MEM_ACCESSED) == entry_flag(entry@, level as int, MEM_ACCESSED));
                    assert(r.has(MEM_DIRTY) == entry_flag(entry@, level as int, MEM_DIRTY));
                    assert(r.has(MEM_SUPER) == entry_flag(entry@, level as int, MEM_SUPER));
                    assert(r.has(MEM_HUGE) == entry_flag(entry@, level as int, MEM_HUGE));
                    assert(r.has(MEM_ENORMOUS) == entry_flag(entry@, level as int, MEM_ENORMOUS));
                    assert(r.has(MEM_IO) == entry_flag(entry@, level as int, MEM_IO));
                    assert forall|f: u64| 12 <= f < 64 implies !#[trigger] r.has(f) by {
                        assert(r.has(f) == entry_flag(entry@, level as int, f));
                    }
                }
                Some(r)
            }
        }
    }

    /// Translate a virtual address to its physical address: the leaf's page
    /// plus the offset of `vaddr` within a page of the leaf's size.
    pub fn translate(&self, vaddr: u64) -> (r: Option<u64>)
        requires
            self.wf(),
        ensures
            r == spec_translate(self.tables(), self.boot(), self.root(), vaddr),
    {
        match self.walk(vaddr) {
            None => None,
            Some((cur, level)) => {
                let vpns = split_vpn(vaddr);
                let entry = self.store.read(cur, vpns[level as usize] as usize);
                let size = page_size_for_level(level);
                let offset = vaddr & (size - 1);
                proof {
                    lemma_pte_with_phys(entry@, 0);
                    assert(vaddr & 0xfffu64 == vaddr % 0x1000u64 && vaddr % 0x1000u64 < 0x1000u64
                        && vaddr & 0x1f_ffffu64 == vaddr % 0x20_0000u64 && vaddr % 0x20_0000u64 < 0x20_0000u64
                        && vaddr & 0x3fff_ffffu64 == vaddr % 0x4000_0000u64 && vaddr % 0x4000_0000u64 < 0x4000_0000u64
                        && vaddr & 0x7f_ffff_ffffu64 == vaddr % 0x80_0000_0000u64
                        && vaddr % 0x80_0000_0000u64 < 0x80_0000_0000u64) by (bit_vector);
                }
                Some(entry.physical_address() + offset)
            }
        }
    }

    /// Clear the leaf entry that maps `vaddr`, if any. (Flushing the TLB is
    /// left to the caller.) Afterwards `vaddr` has no leaf, and
    /// the leaf of every address outside the page of the cleared leaf is
    /// unchanged.
    pub fn unmap(&mut self, vaddr: u64)
        requires
            old(self).wf(),
        ensures
            final(self).wf(),
            final(self).root() == old(self).root(),
            final(self).boot() == old(self).boot(),
            final(self).tables() == match walk_to(old(self).tables(), old(self).boot(), old(self).root(), 3, vaddr) {
                Some((x, l)) => old(self).tables().insert(x, old(self).tables()[x].update(vpn(vaddr, l), 0u64)),
                None => old(self).tables(),
            },
            leaf_of(final(self).tables(), final(self).boot(), final(self).root(), vaddr).is_none(),
            leaf_of(old(self).tables(), old(self).boot(), old(self).root(), vaddr) matches Some((_, l)) ==>
                forall|v: u64| !same_page(v, vaddr, l)
                    ==> #[trigger] leaf_of(final(self).tables(), final(self).boot(), final(self).root(), v)
                        == leaf_of(old(self).tables(), old(self).boot(), old(self).root(), v),
    {
        match self.walk(vaddr) {
            None => {},
            Some((cur, level)) => {
                let vpns = split_vpn(vaddr);
                let idx = vpns[level as usize] as usize;
                let ghost x = self.store.addrs@[cur as int];
                let ghost t0 = self.tables();
                proof {
                    assert(t0.contains_key(x)) by { assert(self.store.addrs@.contains(x)); }
                    lemma_walk_to_leaf(t0, self.boot, self.root(), 3, vaddr);
                    lemma_walk_on_path(t0, self.boot, self.root(), vaddr);
                }
                self.store.write(cur, idx, PageTableEntry::new_empty());
                proof {
                    lemma_zero_invalid();
                    lemma_entry_write(t0, self.tables(), self.boot, self.levels@, self.root(), x, 0u64, vaddr, level as int);
                    lemma_vpn_bound(vaddr, level as int);
                    assert(self.tables()[x][vpn(vaddr, level as int)] == 0u64);
                }
            }
        }
    }
}

/// The table that the walk for `v` reaches at `level`, following branch
/// entries down from the root at level 3; `None` when the walk stops above
/// that level.
pub open spec fn path(t: TableMap, boot: BootInfo, root: u64, v: u64, level: int) -> Option<u64>
    decreases 3 - level,
{
    if level >= 3 {
        if t.contains_key(root) { Some(root) } else { None }
    } else {
        match path(t, boot, root, v, level + 1) {
            Some(p) => if is_branch(t, p, vpn(v, level + 1)) {
                Some(child_table(boot, t[p][vpn(v, level + 1)]))
            } else {
                None
            },
            None => None,
        }
    }
}

/// `v` and `w` select the same entries in the tables of levels `level` to 3,
/// so they lie in the same page of the size mapped at `level`.
pub open spec fn same_page(v: u64, w: u64, level: int) -> bool {
    forall|l: int| level <= l <= 3 ==> #[trigger] vpn(v, l) == vpn(w, l)
}

/// Table indexes are below 512.
proof fn lemma_vpn_bound(v: u64, l: int)
    ensures
        0 <= vpn(v, l) < 512,
{
    assert(forall|k: u64| #[trigger] ((v >> k) & 0x1ffu64) < 512) by (bit_vector);
}

/// The walk from the root reaches the table on the path at `level` and
/// continues from there.
proof fn lemma_walk_via_path(t: TableMap, boot: BootInfo, root: u64, v: u64, level: int)
    requires
        0 <= level <= 3,
        path(t, boot, root, v, level).is_some(),
    ensures
        walk_to(t, boot, root, 3, v) == walk_to(t, boot, path(t, boot, root, v, level).unwrap(), level, v),
    decreases 3 - level,
{
    if level < 3 {
        lemma_walk_via_path(t, boot, root, v, level + 1);
    }
}

/// A walk that starts on the path ends at the path's table of its level.
proof fn lemma_walk_result_on_path(t: TableMap, boot: BootInfo, root: u64, v: u64, level: int)
    requires
        0 <= level <= 3,
        path(t, boot, root, v, level).is_some(),
    ensures
        walk_to(t, boot, path(t, boot, root, v, level).unwrap(), level, v) matches Some((x, l))
            ==> path(t, boot, root, v, l) == Some(x),
    decreases level,
{
    let y = path(t, boot, root, v, level).unwrap();
    lemma_vpn_bound(v, level);
    if t.contains_key(y) {
        let b = t[y][vpn(v, level)];
        if pte_valid(b) && !pte_leaf(b) && level > 0 {
            assert(is_branch(t, y, vpn(v, level)));
            assert(path(t, boot, root, v, level - 1) == Some(child_table(boot, b)));
            lemma_walk_result_on_path(t, boot, root, v, level - 1);
        }
    }
}

/// The walk from the root ends on the path.
proof fn lemma_walk_on_path(t: TableMap, boot: BootInfo, root: u64, v: u64)
    ensures
        walk_to(t, boot, root, 3, v) matches Some((x, l)) ==> path(t, boot, root, v, l) == Some(x),
{
    if t.contains_key(root) {
        lemma_walk_result_on_path(t, boot, root, v, 3);
    }
}

/// In a tree, the table on the path at `level` is present and sits at that
/// level.
proof fn lemma_path_level(t: TableMap, boot: BootInfo, lv: Map<u64, int>, root: u64, v: u64, level: int)
    requires
        PageTableRoot::tree(t, boot, lv, root),
        level <= 3,
        path(t, boot, root, v, level).is_some(),
    ensures
        t.contains_key(path(t, boot, root, v, level).unwrap()),
        lv[path(t, boot, root, v, level).unwrap()] == level,
        level >= 0,
    decreases 3 - level,
{
    if level < 3 {
        lemma_path_level(t, boot, lv, root, v, level + 1);
        let p = path(t, boot, root, v, level + 1).unwrap();
        assert(is_branch(t, p, vpn(v, level + 1)));
    }
}

/// In a tree, two addresses whose paths meet at a table agree on every
/// index above it.
proof fn lemma_unique_path(t: TableMap, boot: BootInfo, lv: Map<u64, int>, root: u64, v: u64, w: u64, level: int)
    requires
        PageTableRoot::tree(t, boot, lv, root),
        level <= 3,
        path(t, boot, root, v, level).is_some(),
        path(t, boot, root, v, level) == path(t, boot, root, w, level),
    ensures
        forall|l: int| level < l <= 3 ==> #[trigger] vpn(v, l) == vpn(w, l),
    decreases 3 - level,
{
    if level < 3 {
        let p = path(t, boot, root, v, level + 1).unwrap();
        let q = path(t, boot, root, w, level + 1).unwrap();
        assert(is_branch(t, p, vpn(v, level + 1)));
        assert(is_branch(t, q, vpn(w, level + 1)));
        assert(p == q && vpn(v, level + 1) == vpn(w, level + 1));
        lemma_unique_path(t, boot, lv, root, v, w, level + 1);
    }
}

/// The contents of a freshly cleared page-table page.
pub open spec fn empty_table() -> Seq<u64> {
    Seq::new(512, |k: int| 0u64)
}

proof fn lemma_zero_invalid()
    ensures
        !pte_valid(0u64),
        !pte_leaf(0u64),
{
    assert(!pte_valid(0u64) && !pte_leaf(0u64)) by (bit_vector);
}

/// Pointing an invalid entry to a fresh empty table changes no walk that
/// starts at a table already present.
proof fn lemma_branch_step_walk(
    t: TableMap, t1: TableMap, boot: BootInfo, lv: Map<u64, int>, root: u64,
    x: u64, i: int, new: u64, bnew: u64, a: u64, l: int, v: u64,
)
    requires
        PageTableRoot::tree(t, boot, lv, root),
        t.contains_key(x),
        0 <= i < 512,
        !pte_valid(t[x][i]),
        !t.contains_key(new),
        pte_valid(bnew),
        !pte_leaf(bnew),
        child_table(boot, bnew) == new,
        t1 == t.insert(new, empty_table()).insert(x, t[x].update(i, bnew)),
        t.contains_key(a),
    ensures
        walk_to(t1, boot, a, l, v) == walk_to(t, boot, a, l, v),
    decreases l,
{
    lemma_zero_invalid();
    lemma_vpn_bound(v, l);
    assert(x != new && a != new);
    assert(t1[new] == empty_table());
    assert(t[a].len() == 512 && t[x].len() == 512);
    if l >= 0 {
        let b = t[a][vpn(v, l)];
        if a == x && vpn(v, l) == i {
            assert(t1[a][vpn(v, l)] == bnew);
            if l > 0 {
                assert(t1[new][vpn(v, l - 1)] == 0u64) by { lemma_vpn_bound(v, l - 1); }
                assert(walk_to(t1, boot, new, l - 1, v) == None::<(u64, int)>);
                assert(walk_to(t1, boot, a, l, v) == walk_to(t1, boot, new, l - 1, v));
            }
            assert(walk_to(t, boot, a, l, v) == None::<(u64, int)>);
        } else {
            assert(t1[a][vpn(v, l)] == b);
            if pte_valid(b) && !pte_leaf(b) && l > 0 {
                assert(is_branch(t, a, vpn(v, l)));
                lemma_branch_step_walk(t, t1, boot, lv, root, x, i, new, bnew, child_table(boot, b), l - 1, v);
            }
        }
    }
}

/// Pointing an invalid entry of a table at level `lv[x] >= 1` to a fresh
/// empty table keeps the tree, with the new table one level down, and
/// changes no leaf.
proof fn lemma_branch_step(
    t: TableMap, t1: TableMap, boot: BootInfo, lv: Map<u64, int>, root: u64,
    x: u64, i: int, new: u64, bnew: u64,
)
    requires
        PageTableRoot::tree(t, boot, lv, root),
        t.contains_key(x),
        lv[x] >= 1,
        0 <= i < 512,
        !pte_valid(t[x][i]),
        !t.contains_key(new),
        pte_valid(bnew),
        !pte_leaf(bnew),
        child_table(boot, bnew) == new,
        t1 == t.insert(new, empty_table()).insert(x, t[x].update(i, bnew)),
    ensures
        PageTableRoot::tree(t1, boot, lv.insert(new, lv[x] - 1), root),
        forall|v: u64| #[trigger] leaf_of(t1, boot, root, v) == leaf_of(t, boot, root, v),
{
    lemma_zero_invalid();
    let lv1 = lv.insert(new, lv[x] - 1);
    assert(lv1.dom() =~= t1.dom());
    assert forall|a: u64, j: int| #[trigger] is_branch(t1, a, j) implies
        (a == x && j == i) || (is_branch(t, a, j) && t1[a][j] == t[a][j]) by {
        if a == new {
            assert(t1[a][j] == 0u64);
        }
    }
    assert forall|a: u64| #[trigger] t1.contains_key(a) implies 0 <= lv1[a] <= 3 && t1[a].len() == 512 by {
        if a != new && a != x {
            assert(t.contains_key(a));
        }
    }
    assert forall|a: u64, j: int| #[trigger] is_branch(t1, a, j) implies {
        &&& lv1[a] >= 1
        &&& t1.contains_key(child_table(boot, t1[a][j]))
        &&& lv1[child_table(boot, t1[a][j])] == lv1[a] - 1
    } by {
        if !(a == x && j == i) {
            assert(is_branch(t, a, j));
            assert(t.contains_key(child_table(boot, t[a][j])));
        }
    }
    assert forall|a1: u64, j1: int, a2: u64, j2: int|
        #[trigger] is_branch(t1, a1, j1) && #[trigger] is_branch(t1, a2, j2)
        && child_table(boot, t1[a1][j1]) == child_table(boot, t1[a2][j2]) implies a1 == a2 && j1 == j2 by {
        if a1 == x && j1 == i && !(a2 == x && j2 == i) {
            assert(is_branch(t, a2, j2));
        } else if a2 == x && j2 == i && !(a1 == x && j1 == i) {
            assert(is_branch(t, a1, j1));
        } else if !(a1 == x && j1 == i) && !(a2 == x && j2 == i) {
            assert(is_branch(t, a1, j1) && is_branch(t, a2, j2));
        }
    }
    assert forall|v: u64| #[trigger] leaf_of(t1, boot, root, v) == leaf_of(t, boot, root, v) by {
        lemma_branch_step_walk(t, t1, boot, lv, root, x, i, new, bnew, root, 3, v);
        lemma_walk_to_leaf(t, boot, root, 3, v);
        if let Some((y, l)) = walk_to(t, boot, root, 3, v) {
            assert(y != new);
            assert(!(y == x && vpn(v, l) == i));
            lemma_vpn_bound(v, l);
            assert(t[y].len() == 512 && t[x].len() == 512);
            assert(t1[y][vpn(v, l)] == t[y][vpn(v, l)]);
        }
    }
}

/// Changing one entry of a level-`lvl` table leaves the path above that
/// level unchanged.
proof fn lemma_path_above_unchanged(
    t1: TableMap, t2: TableMap, boot: BootInfo, lv: Map<u64, int>, root: u64,
    x: u64, i: int, e: u64, v: u64, level: int,
)
    requires
        PageTableRoot::tree(t1, boot, lv, root),
        t1.contains_key(x),
        0 <= i < 512,
        t2 == t1.insert(x, t1[x].update(i, e)),
        lv[x] <= level <= 3,
    ensures
        path(t2, boot, root, v, level) == path(t1, boot, root, v, level),
    decreases 3 - level,
{
    if level < 3 {
        lemma_path_above_unchanged(t1, t2, boot, lv, root, x, i, e, v, level + 1);
        if let Some(p) = path(t1, boot, root, v, level + 1) {
            lemma_path_level(t1, boot, lv, root, v, level + 1);
            assert(p != x);
            assert(t2[p] == t1[p]);
        }
    }
}

/// Changing an entry that the walk for `v` never reads leaves that walk
/// unchanged, from every table on its path.
proof fn lemma_leaf_step_walk(
    t1: TableMap, t2: TableMap, boot: BootInfo, lv: Map<u64, int>, root: u64,
    x: u64, i: int, e: u64, level: int, v: u64, l0: int,
)
    requires
        PageTableRoot::tree(t1, boot, lv, root),
        t1.contains_key(x),
        lv[x] == level,
        0 <= i < 512,
        t2 == t1.insert(x, t1[x].update(i, e)),
        !(path(t1, boot, root, v, level) == Some(x) && vpn(v, level) == i),
        0 <= l0 <= 3,
        path(t1, boot, root, v, l0).is_some(),
    ensures
        walk_to(t2, boot, path(t1, boot, root, v, l0).unwrap(), l0, v)
            == walk_to(t1, boot, path(t1, boot, root, v, l0).unwrap(), l0, v),
    decreases l0,
{
    let y = path(t1, boot, root, v, l0).unwrap();
    lemma_path_level(t1, boot, lv, root, v, l0);
    lemma_vpn_bound(v, l0);
    assert(t1[y].len() == 512 && t1[x].len() == 512);
    if y == x {
        assert(l0 == level);
        assert(vpn(v, l0) != i);
    }
    assert(t2[y][vpn(v, l0)] == t1[y][vpn(v, l0)]);
    let b = t1[y][vpn(v, l0)];
    if pte_valid(b) && !pte_leaf(b) && l0 > 0 {
        assert(is_branch(t1, y, vpn(v, l0)));
        assert(path(t1, boot, root, v, l0 - 1) == Some(child_table(boot, b)));
        lemma_leaf_step_walk(t1, t2, boot, lv, root, x, i, e, level, v, l0 - 1);
    }
}

/// Replacing an entry that is no branch, at the table the walk for `vaddr`
/// reaches at `level`, by another entry that is no branch keeps the tree
/// and the path down to that level, and changes the leaf of no address
/// outside the page of `vaddr` at that level.
proof fn lemma_entry_write(
    t1: TableMap, t2: TableMap, boot: BootInfo, lv: Map<u64, int>, root: u64,
    x: u64, e: u64, vaddr: u64, level: int,
)
    requires
        PageTableRoot::tree(t1, boot, lv, root),
        0 <= level <= 3,
        path(t1, boot, root, vaddr, level) == Some(x),
        !(pte_valid(t1[x][vpn(vaddr, level)]) && !pte_leaf(t1[x][vpn(vaddr, level)])),
        !(pte_valid(e) && !pte_leaf(e)),
        t2 == t1.insert(x, t1[x].update(vpn(vaddr, level), e)),
    ensures
        PageTableRoot::tree(t2, boot, lv, root),
        t1.contains_key(x),
        lv[x] == level,
        path(t2, boot, root, vaddr, level) == Some(x),
        walk_to(t2, boot, root, 3, vaddr) == walk_to(t2, boot, x, level, vaddr),
        forall|v: u64| !same_page(v, vaddr, level) ==> #[trigger] leaf_of(t2, boot, root, v) == leaf_of(t1, boot, root, v),
{
    let i = vpn(vaddr, level);
    lemma_vpn_bound(vaddr, level);
    lemma_path_level(t1, boot, lv, root, vaddr, level);
    assert(t1[x].len() == 512);
    // The tree is kept: neither entry is a branch, so the branches are those of before.
    assert(lv.dom() =~= t2.dom());
    assert forall|a: u64, j: int| #[trigger] is_branch(t2, a, j) implies is_branch(t1, a, j) && t2[a][j] == t1[a][j] by {
        if a == x && j == i {
        }
    }
    assert forall|a: u64| #[trigger] t2.contains_key(a) implies 0 <= lv[a] <= 3 && t2[a].len() == 512 by {
        assert(t1.contains_key(a));
    }
    assert forall|a: u64, j: int| #[trigger] is_branch(t2, a, j) implies {
        &&& lv[a] >= 1
        &&& t2.contains_key(child_table(boot, t2[a][j]))
        &&& lv[child_table(boot, t2[a][j])] == lv[a] - 1
    } by {
        assert(is_branch(t1, a, j));
    }
    assert forall|a1: u64, j1: int, a2: u64, j2: int|
        #[trigger] is_branch(t2, a1, j1) && #[trigger] is_branch(t2, a2, j2)
        && child_table(boot, t2[a1][j1]) == child_table(boot, t2[a2][j2]) implies a1 == a2 && j1 == j2 by {
        assert(is_branch(t1, a1, j1) && is_branch(t1, a2, j2));
    }
    lemma_path_above_unchanged(t1, t2, boot, lv, root, x, i, e, vaddr, level);
    lemma_walk_via_path(t2, boot, root, vaddr, level);
    // Other pages keep their leaves.
    assert forall|v: u64| !same_page(v, vaddr, level) implies #[trigger] leaf_of(t2, boot, root, v) == leaf_of(t1, boot, root, v) by {
        if path(t1, boot, root, v, level) == Some(x) && vpn(v, level) == i {
            lemma_unique_path(t1, boot, lv, root, v, vaddr, level);
            assert(same_page(v, vaddr, level));
        }
        assert(path(t1, boot, root, v, 3) == Some(root));
        lemma_leaf_step_walk(t1, t2, boot, lv, root, x, i, e, level, v, 3);
        lemma_walk_on_path(t1, boot, root, v);
        lemma_walk_to_leaf(t1, boot, root, 3, v);
        if let Some((y, l)) = walk_to(t1, boot, root, 3, v) {
            lemma_path_level(t1, boot, lv, root, v, l);
            lemma_vpn_bound(v, l);
            assert(t1[y].len() == 512);
            assert(t2[y][vpn(v, l)] == t1[y][vpn(v, l)]);
        }
    }
}

/// Writing a valid leaf into the invalid entry that the walk for `vaddr`
/// reaches at `level` keeps the tree, makes that entry the leaf for
/// `vaddr`, and changes the leaf of no address outside its page.
proof fn lemma_leaf_step(
    t1: TableMap, t2: TableMap, boot: BootInfo, lv: Map<u64, int>, root: u64,
    x: u64, e: u64, vaddr: u64, level: int,
)
    requires
        PageTableRoot::tree(t1, boot, lv, root),
        0 <= level <= 3,
        path(t1, boot, root, vaddr, level) == Some(x),
        !pte_valid(t1[x][vpn(vaddr, level)]),
        pte_valid(e),
        pte_leaf(e),
        t2 == t1.insert(x, t1[x].update(vpn(vaddr, level), e)),
    ensures
        PageTableRoot::tree(t2, boot, lv, root),
        walk_to(t2, boot, root, 3, vaddr) == Some((x, level)),
        leaf_of(t2, boot, root, vaddr) == Some((e, level)),
        forall|v: u64| !same_page(v, vaddr, level) ==> #[trigger] leaf_of(t2, boot, root, v) == leaf_of(t1, boot, root, v),
{
    lemma_entry_write(t1, t2, boot, lv, root, x, e, vaddr, level);
    lemma_vpn_bound(vaddr, level);
    assert(t2[x][vpn(vaddr, level)] == e);
}

/// A mapping at `level` can be made for `v` from `table` at level `l`: the
/// walk down to `level` meets only branch entries or an invalid entry (which
/// then gets a new table below it), and the entry at `level` is invalid.
pub open spec fn can_map(t: TableMap, boot: BootInfo, table: u64, l: int, level: int, v: u64) -> bool
    decreases l,
{
    &&& t.contains_key(table)
    &&& 0 <= level <= l <= 3
    &&& if l == level {
        !pte_valid(t[table][vpn(v, l)])
    } else {
        let b = t[table][vpn(v, l)];
        !pte_valid(b) || (!pte_leaf(b) && can_map(t, boot, child_table(boot, b), l - 1, level, v))
    }
}

/// The number of new tables a mapping at `level` for `v` needs below
/// `table` at level `l`: one per level between the first invalid entry on
/// the walk and the leaf level.
pub open spec fn tables_needed(t: TableMap, boot: BootInfo, table: u64, l: int, level: int, v: u64) -> nat
    decreases l,
{
    if l <= level || level < 0 || !t.contains_key(table) {
        0
    } else {
        let b = t[table][vpn(v, l)];
        if !pte_valid(b) {
            (l - level) as nat
        } else {
            tables_needed(t, boot, child_table(boot, b), l - 1, level, v)
        }
    }
}

/// A page that can become a page table: a direct-map address that holds no
/// table yet, whose physical address is page-aligned and fits an entry.
pub open spec fn fresh_page(t: TableMap, boot: BootInfo, p: u64) -> bool {
    &&& boot.is_direct_map_va(p)
    &&& !t.contains_key(p)
    &&& (p - boot.hhdm_offset) % 4096 == 0
    &&& p - boot.hhdm_offset < 0x0100_0000_0000_0000
}

/// The bits of the branch entry that points to the table page at physical
/// address `pa`.
pub open spec fn branch_bits(pa: u64) -> u64 {
    pte_with_phys(pte::VALID, pa)
}

proof fn lemma_branch_bits(pa: u64)
    requires
        pa % 4096 == 0,
        pa < 0x0100_0000_0000_0000,
    ensures
        pte_valid(branch_bits(pa)),
        !pte_leaf(branch_bits(pa)),
        pte_phys(branch_bits(pa)) == pa,
{
    lemma_pte_with_phys(pte::VALID, pa);
    assert(pte_valid(pte_with_phys(1u64, pa)) && !pte_leaf(pte_with_phys(1u64, pa))) by (bit_vector)
        requires pa < 0x0100_0000_0000_0000u64;
}

proof fn lemma_or_of_choices(r: u64, w: u64, x: u64, u: u64, g: u64, c: u64, d: u64, io: u64)
    requires
        r == 0 || r == 2,
        w == 0 || w == 4,
        x == 0 || x == 8,
        u == 0 || u == 0x10,
        g == 0 || g == 0x20,
        c == 0 || c == 0x40,
        d == 0 || d == 0x80,
        io == 0 || io == 0x4000_0000_0000_0000,
    ensures
        (1u64 | r | w | x | u | g | c | d | io) & 1u64 != 0,
        (r == 2 || w == 4 || x == 8) ==> ({
            let b = 1u64 | r | w | x | u | g | c | d | io;
            b & 2u64 != 0 || b & 4u64 != 0 || b & 8u64 != 0
        }),
{
    assert((1u64 | r | w | x | u | g | c | d | io) & 1u64 != 0 && ((r == 2 || w == 4 || x == 8) ==> ({
        let b = 1u64 | r | w | x | u | g | c | d | io;
        b & 2u64 != 0 || b & 4u64 != 0 || b & 8u64 != 0
    }))) by (bit_vector)
        requires
            r == 0 || r == 2,
            w == 0 || w == 4,
            x == 0 || x == 8;
}

proof fn lemma_leaf_entry_bits(m: MemFlags, paddr: u64)
    requires
        paddr < 0x0100_0000_0000_0000,
        m.has(MEM_READ) || m.has(MEM_WRITE) || m.has(MEM_EXECUTE),
    ensures
        pte_valid(pte_with_phys(leaf_bits(m), paddr)),
        pte_leaf(pte_with_phys(leaf_bits(m), paddr)),
{
    let b = leaf_bits(m);
    let r: u64 = if m.has(MEM_READ) { 2u64 } else { 0u64 };
    let w: u64 = if m.has(MEM_WRITE) { 4u64 } else { 0u64 };
    let x: u64 = if m.has(MEM_EXECUTE) { 8u64 } else { 0u64 };
    let u: u64 = if m.has(MEM_USER) { 0x10u64 } else { 0u64 };
    let g: u64 = if m.has(MEM_GLOBAL) { 0x20u64 } else { 0u64 };
    let c: u64 = if m.has(MEM_ACCESSED) { 0x40u64 } else { 0u64 };
    let d: u64 = if m.has(MEM_DIRTY) { 0x80u64 } else { 0u64 };
    let io: u64 = if m.has(MEM_IO) { 0x4000_0000_0000_0000u64 } else { 0u64 };
    assert(b == 1u64 | r | w | x | u | g | c | d | io);
    lemma_or_of_choices(r, w, x, u, g, c, d, io);
    assert((b & 1u64 != 0 ==> pte_valid(pte_with_phys(b, paddr)))
        && ((b & 2u64 != 0 || b & 4u64 != 0 || b & 8u64 != 0) ==> pte_leaf(pte_with_phys(b, paddr)))) by (bit_vector)
        requires paddr < 0x0100_0000_0000_0000u64;
}


/// Adding a branch to a fresh table in a table at level `lv[x]` leaves the
/// path down to that level unchanged.
proof fn lemma_branch_step_path(
    t: TableMap, t1: TableMap, boot: BootInfo, lv: Map<u64, int>, root: u64,
    x: u64, i: int, new: u64, bnew: u64, v: u64, level: int,
)
    requires
        PageTableRoot::tree(t, boot, lv, root),
        t.contains_key(x),
        0 <= i < 512,
        !t.contains_key(new),
        t1 == t.insert(new, empty_table()).insert(x, t[x].update(i, bnew)),
        lv[x] <= level <= 3,
    ensures
        path(t1, boot, root, v, level) == path(t, boot, root, v, level),
    decreases 3 - level,
{
    if level < 3 {
        lemma_branch_step_path(t, t1, boot, lv, root, x, i, new, bnew, v, level + 1);
        if let Some(p) = path(t, boot, root, v, level + 1) {
            lemma_path_level(t, boot, lv, root, v, level + 1);
            assert(p != x && p != new);
            assert(t1[p] == t[p]);
        }
    }
}

/// Entry `j` of table `a` is one the walk for `v` reads at a level from
/// `level` up to 3.
#[verifier::opaque]
pub open spec fn on_walk(t: TableMap, boot: BootInfo, root: u64, v: u64, level: int, a: u64, j: int) -> bool {
    exists|l: int| level <= l <= 3 && #[trigger] path(t, boot, root, v, l) == Some(a) && j == vpn(v, l)
}

/// Every entry of `t1` that the walk for `v` does not read at a level from
/// `level` up keeps its value from `t0`, and is zero in a table new in `t1`.
#[verifier::opaque]
pub open spec fn off_walk_kept(t0: TableMap, t1: TableMap, boot: BootInfo, root: u64, v: u64, level: int) -> bool {
    forall|a: u64, j: int| #![trigger t1[a][j]]
        t1.contains_key(a) && 0 <= j < 512 && !on_walk(t1, boot, root, v, level, a, j)
            ==> t1[a][j] == (if t0.contains_key(a) { t0[a][j] } else { 0u64 })
}

/// At each level `l` from `from` up to 3 the walk for `v` in `t1` reaches a
/// table and passes to one below it. Where the table below was in `t0`, the
/// entry followed is the one `t0` held; where it is new, the entry is a
/// branch entry with only its valid bit set, holding the new table's
/// physical page.
#[verifier::opaque]
pub open spec fn walk_branches(t0: TableMap, t1: TableMap, boot: BootInfo, root: u64, v: u64, from: int) -> bool {
    forall|l: int| from <= l <= 3 ==> {
        &&& #[trigger] path(t1, boot, root, v, l) is Some
        &&& path(t1, boot, root, v, l - 1) is Some
        &&& {
            let x = path(t1, boot, root, v, l)->0;
            let c = path(t1, boot, root, v, l - 1)->0;
            if t0.contains_key(c) {
                t0.contains_key(x) && t1[x][vpn(v, l)] == t0[x][vpn(v, l)]
            } else {
                t1[x][vpn(v, l)] == branch_bits(spec_va_to_pa(boot, c))
            }
        }
    }
}

/// The tables a mapping of `v` at `level` leaves, from `t0` to `t1`, having
/// taken the pages `fresh` for new tables: the new tables are exactly those
/// pages; the walk passes, level by level, to the leaf level, through the
/// branch entries that were there or new valid-only ones to the new
/// tables; and no other entry changes (the new tables are otherwise empty).
pub open spec fn map_writes(t0: TableMap, t1: TableMap, boot: BootInfo, root: u64, v: u64, level: int, fresh: Set<u64>) -> bool {
    &&& t1.dom() == t0.dom() + fresh
    &&& off_walk_kept(t0, t1, boot, root, v, level)
    &&& walk_branches(t0, t1, boot, root, v, level + 1)
}

/// In a tree, the tables a walk reaches at two different levels differ.
proof fn lemma_path_levels_differ(t: TableMap, boot: BootInfo, lv: Map<u64, int>, root: u64, v: u64, l1: int, l2: int)
    requires
        PageTableRoot::tree(t, boot, lv, root),
        l1 <= 3,
        l2 <= 3,
        l1 != l2,
        path(t, boot, root, v, l1) is Some,
        path(t, boot, root, v, l2) is Some,
    ensures
        path(t, boot, root, v, l1) != path(t, boot, root, v, l2),
{
    lemma_path_level(t, boot, lv, root, v, l1);
    lemma_path_level(t, boot, lv, root, v, l2);
}

/// The walk reads entry `vpn(v, l)` of the table it reaches at level `l`.
proof fn lemma_on_walk_at(t: TableMap, boot: BootInfo, root: u64, v: u64, level: int, l: int)
    requires
        level <= l <= 3,
        path(t, boot, root, v, l) is Some,
    ensures
        on_walk(t, boot, root, v, level, path(t, boot, root, v, l)->0, vpn(v, l)),
{
    reveal(on_walk);
    assert(path(t, boot, root, v, l) == Some(path(t, boot, root, v, l)->0));
}

/// Before any write, every entry is kept and no level is passed yet.
proof fn lemma_walk_writes_start(t0: TableMap, boot: BootInfo, root: u64, v: u64)
    ensures
        off_walk_kept(t0, t0, boot, root, v, 4),
        walk_branches(t0, t0, boot, root, v, 4),
{
    reveal(off_walk_kept);
    reveal(walk_branches);
}

/// Passing level `tl` through a branch entry that is already there keeps
/// the record of what the mapping wrote.
proof fn lemma_walk_step_existing(
    t0: TableMap, t: TableMap, boot: BootInfo, lv0: Map<u64, int>, lv: Map<u64, int>, root: u64, v: u64, tl: int,
)
    requires
        PageTableRoot::tree(t0, boot, lv0, root),
        PageTableRoot::tree(t, boot, lv, root),
        1 <= tl <= 3,
        off_walk_kept(t0, t, boot, root, v, tl + 1),
        walk_branches(t0, t, boot, root, v, tl + 1),
        path(t, boot, root, v, tl) is Some,
        is_branch(t, path(t, boot, root, v, tl)->0, vpn(v, tl)),
    ensures
        off_walk_kept(t0, t, boot, root, v, tl),
        walk_branches(t0, t, boot, root, v, tl),
{
    let x = path(t, boot, root, v, tl)->0;
    let i = vpn(v, tl);
    lemma_vpn_bound(v, tl);
    lemma_zero_invalid();
    assert(!on_walk(t, boot, root, v, tl + 1, x, i)) by {
        reveal(on_walk);
        if on_walk(t, boot, root, v, tl + 1, x, i) {
            let l = choose|l: int| tl + 1 <= l <= 3 && #[trigger] path(t, boot, root, v, l) == Some(x) && i == vpn(v, l);
            lemma_path_levels_differ(t, boot, lv, root, v, l, tl);
        }
    }
    assert(t0.contains_key(x) && t[x][i] == t0[x][i]) by {
        reveal(off_walk_kept);
        assert(t.contains_key(x));
    }
    assert(is_branch(t0, x, i));
    assert(path(t, boot, root, v, tl - 1) == Some(child_table(boot, t[x][i])));
    assert(t0.contains_key(child_table(boot, t[x][i])));
    assert(off_walk_kept(t0, t, boot, root, v, tl)) by {
        reveal(off_walk_kept);
        assert forall|a: u64, j: int| #![trigger t[a][j]]
            t.contains_key(a) && 0 <= j < 512 && !on_walk(t, boot, root, v, tl, a, j)
                implies t[a][j] == (if t0.contains_key(a) { t0[a][j] } else { 0u64 }) by {
            reveal(on_walk);
            if on_walk(t, boot, root, v, tl + 1, a, j) {
                let l = choose|l: int| tl + 1 <= l <= 3 && #[trigger] path(t, boot, root, v, l) == Some(a) && j == vpn(v, l);
                assert(tl <= l <= 3 && path(t, boot, root, v, l) == Some(a) && j == vpn(v, l));
            }
        }
    }
    assert(walk_branches(t0, t, boot, root, v, tl)) by {
        reveal(walk_branches);
    }
}

/// Passing level `tl` through a new branch entry to a new, empty table keeps
/// the record of what the mapping wrote.
proof fn lemma_walk_step_new(
    t0: TableMap, t: TableMap, t1: TableMap, boot: BootInfo, lv0: Map<u64, int>, lv: Map<u64, int>, root: u64,
    v: u64, tl: int, page: u64, bnew: u64,
)
    requires
        PageTableRoot::tree(t, boot, lv, root),
        1 <= tl <= 3,
        off_walk_kept(t0, t, boot, root, v, tl + 1),
        walk_branches(t0, t, boot, root, v, tl + 1),
        path(t, boot, root, v, tl) is Some,
        !t.contains_key(page),
        !t0.contains_key(page),
        pte_valid(bnew),
        !pte_leaf(bnew),
        child_table(boot, bnew) == page,
        bnew == branch_bits(spec_va_to_pa(boot, page)),
        t1 == t.insert(page, empty_table()).insert(
            path(t, boot, root, v, tl)->0, t[path(t, boot, root, v, tl)->0].update(vpn(v, tl), bnew)),
    ensures
        off_walk_kept(t0, t1, boot, root, v, tl),
        walk_branches(t0, t1, boot, root, v, tl),
        path(t1, boot, root, v, tl - 1) == Some(page),
{
    let x = path(t, boot, root, v, tl)->0;
    let i = vpn(v, tl);
    lemma_vpn_bound(v, tl);
    lemma_path_level(t, boot, lv, root, v, tl);
    assert(t[x].len() == 512);
    assert forall|l: int| tl <= l <= 3 implies #[trigger] path(t1, boot, root, v, l) == path(t, boot, root, v, l) by {
        lemma_branch_step_path(t, t1, boot, lv, root, x, i, page, bnew, v, l);
    }
    assert(path(t1, boot, root, v, tl) == Some(x));
    assert(t1[x][i] == bnew);
    assert(is_branch(t1, x, i));
    assert(path(t1, boot, root, v, tl - 1) == Some(page));
    assert(off_walk_kept(t0, t1, boot, root, v, tl)) by {
        reveal(off_walk_kept);
        assert forall|a: u64, j: int| #![trigger t1[a][j]]
            t1.contains_key(a) && 0 <= j < 512 && !on_walk(t1, boot, root, v, tl, a, j)
                implies t1[a][j] == (if t0.contains_key(a) { t0[a][j] } else { 0u64 }) by {
            if a == page {
                assert(t1[a][j] == 0u64);
            } else if a == x && j == i {
                lemma_on_walk_at(t1, boot, root, v, tl, tl);
            } else {
                assert(t1[a][j] == t[a][j]);
                assert(!on_walk(t, boot, root, v, tl + 1, a, j)) by {
                    reveal(on_walk);
                    if on_walk(t, boot, root, v, tl + 1, a, j) {
                        let l = choose|l: int| tl + 1 <= l <= 3 && #[trigger] path(t, boot, root, v, l) == Some(a) && j == vpn(v, l);
                        assert(path(t1, boot, root, v, l) == path(t, boot, root, v, l));
                        assert(tl <= l <= 3 && path(t1, boot, root, v, l) == Some(a) && j == vpn(v, l));
                    }
                }
                assert(t.contains_key(a));
            }
        }
    }
    assert(walk_branches(t0, t1, boot, root, v, tl)) by {
        reveal(walk_branches);
        assert forall|l: int| tl <= l <= 3 implies {
            &&& #[trigger] path(t1, boot, root, v, l) is Some
            &&& path(t1, boot, root, v, l - 1) is Some
            &&& {
                let x2 = path(t1, boot, root, v, l)->0;
                let c = path(t1, boot, root, v, l - 1)->0;
                if t0.contains_key(c) {
                    t0.contains_key(x2) && t1[x2][vpn(v, l)] == t0[x2][vpn(v, l)]
                } else {
                    t1[x2][vpn(v, l)] == branch_bits(spec_va_to_pa(boot, c))
                }
            }
        } by {
            if l > tl {
                assert(path(t1, boot, root, v, l) == path(t, boot, root, v, l));
                assert(path(t1, boot, root, v, l - 1) == path(t, boot, root, v, l - 1));
                let x2 = path(t, boot, root, v, l)->0;
                lemma_path_levels_differ(t, boot, lv, root, v, l, tl);
                lemma_path_level(t, boot, lv, root, v, l);
                assert(x2 != x && x2 != page);
                assert(t1[x2] == t[x2]);
            }
        }
    }
}

/// Writing the leaf entry at the leaf level completes the record of what
/// the mapping wrote.
proof fn lemma_walk_leaf_write(
    t0: TableMap, t1: TableMap, t2: TableMap, boot: BootInfo, lv: Map<u64, int>, root: u64,
    v: u64, level: int, e: u64,
)
    requires
        PageTableRoot::tree(t1, boot, lv, root),
        0 <= level <= 3,
        off_walk_kept(t0, t1, boot, root, v, level + 1),
        walk_branches(t0, t1, boot, root, v, level + 1),
        path(t1, boot, root, v, level) is Some,
        t2 == t1.insert(path(t1, boot, root, v, level)->0, t1[path(t1, boot, root, v, level)->0].update(vpn(v, level), e)),
    ensures
        off_walk_kept(t0, t2, boot, root, v, level),
        walk_branches(t0, t2, boot, root, v, level + 1),
{
    let x = path(t1, boot, root, v, level)->0;
    let i = vpn(v, level);
    lemma_vpn_bound(v, level);
    lemma_path_level(t1, boot, lv, root, v, level);
    assert(t1[x].len() == 512);
    assert forall|l: int| level <= l <= 3 implies #[trigger] path(t2, boot, root, v, l) == path(t1, boot, root, v, l) by {
        lemma_path_above_unchanged(t1, t2, boot, lv, root, x, i, e, v, l);
    }
    assert(off_walk_kept(t0, t2, boot, root, v, level)) by {
        reveal(off_walk_kept);
        assert forall|a: u64, j: int| #![trigger t2[a][j]]
            t2.contains_key(a) && 0 <= j < 512 && !on_walk(t2, boot, root, v, level, a, j)
                implies t2[a][j] == (if t0.contains_key(a) { t0[a][j] } else { 0u64 }) by {
            if a == x && j == i {
                assert(path(t2, boot, root, v, level) == Some(x));
                lemma_on_walk_at(t2, boot, root, v, level, level);
            } else {
                assert(t2[a][j] == t1[a][j]);
                assert(!on_walk(t1, boot, root, v, level + 1, a, j)) by {
                    reveal(on_walk);
                    if on_walk(t1, boot, root, v, level + 1, a, j) {
                        let l = choose|l: int| level + 1 <= l <= 3 && #[trigger] path(t1, boot, root, v, l) == Some(a) && j == vpn(v, l);
                        assert(path(t2, boot, root, v, l) == path(t1, boot, root, v, l));
                        assert(level <= l <= 3 && path(t2, boot, root, v, l) == Some(a) && j == vpn(v, l));
                    }
                }
                assert(t1.contains_key(a));
            }
        }
    }
    assert(walk_branches(t0, t2, boot, root, v, level + 1)) by {
        reveal(walk_branches);
        assert forall|l: int| level + 1 <= l <= 3 implies {
            &&& #[trigger] path(t2, boot, root, v, l) is Some
            &&& path(t2, boot, root, v, l - 1) is Some
            &&& {
                let x2 = path(t2, boot, root, v, l)->0;
                let c = path(t2, boot, root, v, l - 1)->0;
                if t0.contains_key(c) {
                    t0.contains_key(x2) && t2[x2][vpn(v, l)] == t0[x2][vpn(v, l)]
                } else {
                    t2[x2][vpn(v, l)] == branch_bits(spec_va_to_pa(boot, c))
                }
            }
        } by {
            assert(path(t2, boot, root, v, l) == path(t1, boot, root, v, l));
            assert(path(t2, boot, root, v, l - 1) == path(t1, boot, root, v, l - 1));
            let x2 = path(t1, boot, root, v, l)->0;
            lemma_path_levels_differ(t1, boot, lv, root, v, l, level);
            assert(x2 != x);
            assert(t2[x2] == t1[x2]);
        }
    }
}

impl PageTableRoot {
    /// The requirements of a mapping of `paddr` at `vaddr` with `mflags`:
    /// at most one page-size flag; both addresses aligned to the page size
    /// of the selected level; write only with read; an access bit set, so
    /// that the entry is a leaf; a physical address that fits an entry; a
    /// walk that meets no leaf above the level and an invalid entry at it
    /// (all of which a mapping must meet).
    pub open spec fn can_map_at(&self, vaddr: u64, paddr: u64, mflags: MemFlags) -> bool {
        let level = level_of_flags(mflags);
        &&& page_size_flag_count(mflags) <= 1
        &&& vaddr % (page_size(level) as u64) == 0
        &&& paddr % (page_size(level) as u64) == 0
        &&& (!mflags.has(MEM_WRITE) || mflags.has(MEM_READ))
        &&& (mflags.has(MEM_READ) || mflags.has(MEM_WRITE) || mflags.has(MEM_EXECUTE))
        &&& paddr < 0x0100_0000_0000_0000
        &&& can_map(self.tables(), self.boot(), self.root(), 3, level, vaddr)
    }

    /// The allocator can supply the new tables a mapping needs: enough free
    /// pages, and the ones at the head of its list that the mapping takes
    /// each fit to become a table.
    pub open spec fn pages_available(&self, allocator: &PageAllocator, vaddr: u64, mflags: MemFlags) -> bool {
        &&& allocator.wf()
        &&& allocator.free_list().len()
            >= tables_needed(self.tables(), self.boot(), self.root(), 3, level_of_flags(mflags), vaddr)
        &&& forall|q: int| allocator.free_list().len()
            - tables_needed(self.tables(), self.boot(), self.root(), 3, level_of_flags(mflags), vaddr) <= q
            < allocator.free_list().len()
            ==> #[trigger] fresh_page(self.tables(), self.boot(), allocator.free_list()[q])
    }

    /// Map `vaddr` to `paddr` with the requested flags, at the leaf level
    /// the flags select. Walking down from the root, each invalid entry
    /// above that level gets a new, cleared table page from `allocator`; the
    /// leaf entry gets the flag bits and `paddr`. (Flushing the TLB is left
    /// to the caller.)
    ///
    /// Afterwards `vaddr` is mapped by that leaf, the leaf of every address
    /// outside its page is unchanged, and the allocator has handed out
    /// exactly the new tables, from the head of its list. Each new table is
    /// empty but for the entry the walk follows, and is linked by a branch
    /// entry with only its valid bit set, holding the table's physical page;
    /// no entry off the walk changes.
    pub fn map_unmanaged(&mut self, vaddr: u64, paddr: u64, mflags: MemFlags, allocator: &mut PageAllocator)
        requires
            old(self).wf(),
            old(self).can_map_at(vaddr, paddr, mflags),
            old(self).pages_available(old(allocator), vaddr, mflags),
        ensures
            final(self).wf(),
            final(self).root() == old(self).root(),
            final(self).boot() == old(self).boot(),
            leaf_of(final(self).tables(), final(self).boot(), final(self).root(), vaddr)
                == Some((pte_with_phys(leaf_bits(mflags), paddr), level_of_flags(mflags))),
            sv48_leaf_encodes((leaf_of(final(self).tables(), final(self).boot(), final(self).root(), vaddr)->0).0,
                mflags, paddr),
            forall|v: u64| !same_page(v, vaddr, level_of_flags(mflags))
                ==> #[trigger] leaf_of(final(self).tables(), final(self).boot(), final(self).root(), v)
                    == leaf_of(old(self).tables(), old(self).boot(), old(self).root(), v),
            final(allocator).wf(),
            final(allocator).blocks() == old(allocator).blocks(),
            final(allocator).total() == old(allocator).total(),
            final(allocator).free_list() == old(allocator).free_list().take(
                old(allocator).free_list().len() - tables_needed(
                    old(self).tables(), old(self).boot(), old(self).root(), 3, level_of_flags(mflags), vaddr),
            ),
            forall|q: int| 0 <= q < final(allocator).free_list().len()
                ==> #[trigger] fresh_page(final(self).tables(), final(self).boot(), final(allocator).free_list()[q])
                    == fresh_page(old(self).tables(), old(self).boot(), final(allocator).free_list()[q]),
            map_writes(old(self).tables(), final(self).tables(), final(self).boot(), final(self).root(), vaddr,
                level_of_flags(mflags), old(allocator).free_list().subrange(
                    final(allocator).free_list().len() as int, old(allocator).free_list().len() as int).to_set()),
    {
        let level = level_from_flags(mflags);
        let ghost lv0 = self.levels@;
        let ghost lvl = level as int;
        let ghost t0 = self.tables();
        let ghost boot = self.boot;
        let ghost root = self.root();
        let ghost a0 = allocator.free_list();
        let ghost need = tables_needed(t0, boot, root, 3, lvl, vaddr);
        let vpns = split_vpn(vaddr);
        let mut cur: usize = match self.store.find(self.addr.address) {
            Some(i) => i,
            None => {
                proof { assert(false); }
                return;
            },
        };
        let mut table_level: u64 = 3;
        proof {
            allocator.lemma_free_list_facts();
            assert(path(t0, boot, root, vaddr, 3) == Some(root));
            assert(t0.dom() =~= t0.dom() + a0.subrange(a0.len() as int, a0.len() as int).to_set());
            lemma_walk_writes_start(t0, boot, root, vaddr);
        }
        while table_level > level
            invariant
                self.store.wf(),
                Self::tree(self.tables(), boot, self.levels@, root),
                self.boot == boot,
                self.root() == root,
                level == lvl,
                0 <= lvl <= table_level <= 3,
                forall|l: int| 0 <= l < 4 ==> vpns@[l] == vpn(vaddr, l) && #[trigger] vpns@[l] < 512,
                cur < self.store.addrs@.len(),
                path(self.tables(), boot, root, vaddr, table_level as int) == Some(self.store.addrs@[cur as int]),
                can_map(self.tables(), boot, self.store.addrs@[cur as int], table_level as int, lvl, vaddr),
                allocator.wf(),
                allocator.blocks() == old(allocator).blocks(),
                allocator.total() == old(allocator).total(),
                allocator.free_list().len() <= a0.len(),
                allocator.free_list() == a0.take(allocator.free_list().len() as int),
                tables_needed(self.tables(), boot, self.store.addrs@[cur as int], table_level as int, lvl, vaddr)
                    + (a0.len() - allocator.free_list().len()) == need,
                a0.len() >= need,
                forall|q: int| a0.len() - need <= q < allocator.free_list().len()
                    ==> #[trigger] fresh_page(self.tables(), boot, allocator.free_list()[q]),
                forall|q: int| 0 <= q < allocator.free_list().len()
                    ==> #[trigger] fresh_page(self.tables(), boot, allocator.free_list()[q])
                        == fresh_page(t0, boot, allocator.free_list()[q]),
                forall|v: u64| #[trigger] leaf_of(self.tables(), boot, root, v) == leaf_of(t0, boot, root, v),
                Self::tree(t0, boot, lv0, root),
                self.tables().dom() == t0.dom() + a0.subrange(allocator.free_list().len() as int, a0.len() as int).to_set(),
                off_walk_kept(t0, self.tables(), boot, root, vaddr, table_level + 1),
                walk_branches(t0, self.tables(), boot, root, vaddr, table_level + 1),
            decreases table_level,
        {
            let idx = vpns[table_level as usize] as usize;
            let ghost x = self.store.addrs@[cur as int];
            let ghost tl = table_level as int;
            proof {
                assert(self.tables().contains_key(x)) by { assert(self.store.addrs@.contains(x)); }
                lemma_path_level(self.tables(), boot, self.levels@, root, vaddr, tl);
                allocator.lemma_free_list_facts();
            }
            let entry = self.store.read(cur, idx);
            if !entry.is_valid() {
                proof {
                    assert(tables_needed(self.tables(), boot, x, tl, lvl, vaddr) == (tl - lvl) as nat);
                }
                let new_page = match allocator.alloc_block() {
                    Some(p) => p,
                    None => {
                        proof { assert(false); }
                        return;
                    },
                };
                let page_va = new_page.start_addr();
                let ghost t = self.tables();
                proof {
                    let n = allocator.free_list().len();
                    assert(fresh_page(t, boot, page_va)) by {
                        let prev = a0.take((n + 1) as int);
                        assert(prev.last() == page_va);
                        assert(n >= a0.len() - need);
                    }
                    lemma_direct_map_round_trip(boot, page_va);
                }
                let pa = va_to_pa(&self.boot, page_va);
                let mut branch = PageTableEntry::new_empty();
                branch.set_bits(pte::VALID);
                branch.set_physical_address(pa);
                proof { lemma_branch_bits(pa); }
                let _new_idx = self.store.push_table(page_va);
                self.store.write(cur, idx, branch);
                proof {
                    let t1 = self.tables();
                    assert(t1 == t.insert(page_va, empty_table()).insert(x, t[x].update(idx as int, branch@)));
                    assert(child_table(boot, branch@) == page_va);
                    lemma_branch_step(t, t1, boot, self.levels@, root, x, idx as int, page_va, branch@);
                    let n = allocator.free_list().len();
                    assert(a0[n as int] == page_va) by {
                        let prev = a0.take((n + 1) as int);
                        assert(prev.last() == page_va);
                    }
                    let sub0 = a0.subrange(n as int, a0.len() as int);
                    let sub1 = a0.subrange((n + 1) as int, a0.len() as int);
                    assert(t1.dom() =~= t0.dom() + sub0.to_set()) by {
                        assert forall|a: u64| t1.dom().contains(a) <==> (t0.dom() + sub0.to_set()).contains(a) by {
                            if a == page_va {
                                assert(sub0[0] == page_va);
                            }
                            if sub0.to_set().contains(a) && a != page_va {
                                let k = choose|k: int| 0 <= k < sub0.len() && #[trigger] sub0[k] == a;
                                assert(k > 0);
                                assert(sub1[k - 1] == a);
                                assert(sub1.to_set().contains(a));
                            }
                            if sub1.to_set().contains(a) {
                                let k = choose|k: int| 0 <= k < sub1.len() && #[trigger] sub1[k] == a;
                                assert(sub0[k + 1] == a);
                            }
                        }
                    }
                    assert(!t0.contains_key(page_va));
                    assert(branch@ == branch_bits(spec_va_to_pa(boot, page_va)));
                    lemma_walk_step_new(t0, t, t1, boot, lv0, self.levels@, root, vaddr, tl, page_va, branch@);
                    lemma_branch_step_path(t, t1, boot, self.levels@, root, x, idx as int, page_va, branch@, vaddr, tl);
                    self.levels@ = self.levels@.insert(page_va, tl - 1);
                    assert forall|q: int| 0 <= q < allocator.free_list().len()
                        implies #[trigger] fresh_page(t1, boot, allocator.free_list()[q])
                            == fresh_page(t, boot, allocator.free_list()[q]) by {
                        assert(allocator.free_list()[q] == a0[q]);
                        let prev = a0.take((allocator.free_list().len() + 1) as int);
                        assert(prev[q] == allocator.free_list()[q]);
                        assert(prev.last() == page_va);
                        assert(allocator.free_list()[q] != page_va);
                    }
                    assert forall|q: int| 0 <= q < allocator.free_list().len()
                        implies #[trigger] fresh_page(t1, boot, allocator.free_list()[q])
                            == fresh_page(t0, boot, allocator.free_list()[q]) by {
                        let prev = a0.take((allocator.free_list().len() + 1) as int);
                        assert(prev[q] == allocator.free_list()[q]);
                        assert(fresh_page(t, boot, prev[q]) == fresh_page(t0, boot, prev[q]));
                    }
                    assert(allocator.free_list() =~= a0.take(allocator.free_list().len() as int));
                    lemma_zero_invalid();
                    assert(t1[page_va] == empty_table());
                    lemma_vpn_bound(vaddr, tl - 1);
                    assert(t1[page_va][vpn(vaddr, tl - 1)] == 0u64);
                    assert(can_map(t1, boot, page_va, tl - 1, lvl, vaddr));
                    assert(tables_needed(t1, boot, page_va, tl - 1, lvl, vaddr) == (tl - 1 - lvl) as nat);
                    assert(t1[x][idx as int] == branch@);
                    assert(tables_needed(t1, boot, x, tl, lvl, vaddr) == tables_needed(t1, boot, page_va, tl - 1, lvl, vaddr));
                    assert(can_map(t1, boot, x, tl, lvl, vaddr));
                }
            } else {
                proof {
                    let t = self.tables();
                    lemma_vpn_bound(vaddr, tl);
                    assert(is_branch(t, x, vpn(vaddr, tl)));
                    lemma_walk_step_existing(t0, t, boot, lv0, self.levels@, root, vaddr, tl);
                }
            }
            let entry = self.store.read(cur, idx);
            let child = pa_to_va(&self.boot, entry.physical_address());
            proof {
                let t = self.tables();
                assert(is_branch(t, x, idx as int));
                assert(path(t, boot, root, vaddr, tl - 1) == Some(child));
            }
            cur = match self.store.find(child) {
                Some(i) => i,
                None => {
                    proof { assert(false); }
                    return;
                },
            };
            table_level -= 1;
        }
        let ghost x = self.store.addrs@[cur as int];
        let ghost t1 = self.tables();
        let idx = vpns[level as usize] as usize;
        let mut leaf = PageTableEntry::new_empty();
        leaf.set_bits(mem_flags_to_pte_flags(&mflags));
        proof {
            assert(paddr % 4096 == 0) by {
                vstd::arithmetic::div_mod::lemma_mod_mod(paddr as int, 4096, page_size(lvl) / 4096);
            }
        }
        leaf.set_physical_address(paddr);
        proof { lemma_leaf_entry_bits(mflags, paddr); }
        self.store.write(cur, idx, leaf);
        proof {
            let t2 = self.tables();
            assert(t1.contains_key(x)) by { assert(self.store.addrs@.contains(x)); }
            lemma_leaf_step(t1, t2, boot, self.levels@, root, x, leaf@, vaddr, lvl);
            lemma_walk_leaf_write(t0, t1, t2, boot, self.levels@, root, vaddr, lvl, leaf@);
            lemma_leaf_entry_encoding(mflags, paddr);
            assert(allocator.free_list().len() == a0.len() - need);
            assert forall|q: int| 0 <= q < allocator.free_list().len()
                implies #[trigger] fresh_page(t2, boot, allocator.free_list()[q])
                    == fresh_page(t0, boot, allocator.free_list()[q]) by {
                assert(fresh_page(t1, boot, allocator.free_list()[q]) == fresh_page(t0, boot, allocator.free_list()[q]));
            }
        }
    }
}

impl PageTableRoot {
    /// Map with the kernel's page allocator; see
    /// [`PageTableRoot::map_unmanaged`].
    pub fn map(&mut self, vaddr: u64, paddr: u64, flags: MemFlags, allocator: &mut PageAllocator)
        requires
            old(self).wf(),
            old(self).can_map_at(vaddr, paddr, flags),
            old(self).pages_available(old(allocator), vaddr, flags),
        ensures
            final(self).wf(),
            final(self).root() == old(self).root(),
            final(self).boot() == old(self).boot(),
            leaf_of(final(self).tables(), final(self).boot(), final(self).root(), vaddr)
                == Some((pte_with_phys(leaf_bits(flags), paddr), level_of_flags(flags))),
            sv48_leaf_encodes((leaf_of(final(self).tables(), final(self).boot(), final(self).root(), vaddr)->0).0,
                flags, paddr),
            forall|v: u64| !same_page(v, vaddr, level_of_flags(flags))
                ==> #[trigger] leaf_of(final(self).tables(), final(self).boot(), final(self).root(), v)
                    == leaf_of(old(self).tables(), old(self).boot(), old(self).root(), v),
            final(allocator).wf(),
            final(allocator).blocks() == old(allocator).blocks(),
            final(allocator).total() == old(allocator).total(),
            final(allocator).free_list() == old(allocator).free_list().take(
                old(allocator).free_list().len() - tables_needed(
                    old(self).tables(), old(self).boot(), old(self).root(), 3, level_of_flags(flags), vaddr),
            ),
            forall|q: int| 0 <= q < final(allocator).free_list().len()
                ==> #[trigger] fresh_page(final(self).tables(), final(self).boot(), final(allocator).free_list()[q])
                    == fresh_page(old(self).tables(), old(self).boot(), final(allocator).free_list()[q]),
            map_writes(old(self).tables(), final(self).tables(), final(self).boot(), final(self).root(), vaddr,
                level_of_flags(flags), old(allocator).free_list().subrange(
                    final(allocator).free_list().len() as int, old(allocator).free_list().len() as int).to_set()),
    {
        self.map_unmanaged(vaddr, paddr, flags, allocator);
    }
}

/// An address within `size` bytes after a `size`-aligned address keeps its
/// table indexes at the levels whose pages are at least that large.
proof fn lemma_same_page_offset(vaddr: u64, off: u64, level: int)
    requires
        0 <= level <= 3,
        vaddr % (page_size(level) as u64) == 0,
        off < page_size(level),
        vaddr + off <= u64::MAX,
    ensures
        same_page((vaddr + off) as u64, vaddr, level),
        ((vaddr + off) as u64) % (page_size(level) as u64) == off,
{
    let w = (vaddr + off) as u64;
    assert((forall|s: u64| 12 <= s < 64 && vaddr % 0x1000u64 == 0 && off < 0x1000u64 && w == vaddr + off
        ==> #[trigger] (w >> s) == vaddr >> s)
        && (forall|s: u64| 21 <= s < 64 && vaddr % 0x20_0000u64 == 0 && off < 0x20_0000u64 && w == vaddr + off
        ==> #[trigger] (w >> s) == vaddr >> s)
        && (forall|s: u64| 30 <= s < 64 && vaddr % 0x4000_0000u64 == 0 && off < 0x4000_0000u64 && w == vaddr + off
        ==> #[trigger] (w >> s) == vaddr >> s)
        && (forall|s: u64| 39 <= s < 64 && vaddr % 0x80_0000_0000u64 == 0 && off < 0x80_0000_0000u64 && w == vaddr + off
        ==> #[trigger] (w >> s) == vaddr >> s)) by (bit_vector);
    assert(w >> 12u64 == vaddr >> 12u64 || level > 0);
    assert(w >> 21u64 == vaddr >> 21u64 || level > 1);
    assert(w >> 30u64 == vaddr >> 30u64 || level > 2);
    assert(w >> 39u64 == vaddr >> 39u64);
    vstd::arithmetic::div_mod::lemma_mod_add_multiples_vanish(off as int, page_size(level));
    assert(w % (page_size(level) as u64) == off) by {
        vstd::arithmetic::div_mod::lemma_fundamental_div_mod(vaddr as int, page_size(level));
        vstd::arithmetic::div_mod::lemma_mod_multiples_vanish(vaddr as int / page_size(level), off as int, page_size(level));
        vstd::arithmetic::div_mod::lemma_small_mod(off as nat, page_size(level) as nat);
    }
}

/// Addresses in the same page at `level` walk alike down to that level.
proof fn lemma_walk_same_page(t: TableMap, boot: BootInfo, table: u64, l: int, v: u64, w: u64, level: int)
    requires
        same_page(v, w, level),
        walk_to(t, boot, table, l, w) matches Some((_, k)) && k >= level,
        l <= 3,
    ensures
        walk_to(t, boot, table, l, v) == walk_to(t, boot, table, l, w),
    decreases l,
{
    lemma_walk_to_leaf(t, boot, table, l, w);
    assert(vpn(v, l) == vpn(w, l));
    if l >= 0 && t.contains_key(table) {
        let b = t[table][vpn(w, l)];
        if pte_valid(b) && !pte_leaf(b) && l > 0 {
            lemma_walk_same_page(t, boot, child_table(boot, b), l - 1, v, w, level);
        }
    }
}

/// After `vaddr` is mapped to `paddr` with `flags`, each address within the
/// mapped page translates to the same offset within `paddr`'s page.
pub proof fn lemma_translate_after_map(
    t: TableMap, boot: BootInfo, root: u64, vaddr: u64, paddr: u64, flags: MemFlags, off: u64,
)
    requires
        leaf_of(t, boot, root, vaddr) == Some((pte_with_phys(leaf_bits(flags), paddr), level_of_flags(flags))),
        vaddr % (page_size(level_of_flags(flags)) as u64) == 0,
        paddr % (page_size(level_of_flags(flags)) as u64) == 0,
        paddr < 0x0100_0000_0000_0000,
        off < page_size(level_of_flags(flags)),
        vaddr + off <= u64::MAX,
    ensures
        spec_translate(t, boot, root, (vaddr + off) as u64) == Some((paddr + off) as u64),
{
    let level = level_of_flags(flags);
    let w = (vaddr + off) as u64;
    lemma_same_page_offset(vaddr, off, level);
    lemma_walk_same_page(t, boot, root, 3, w, vaddr, level);
    assert(paddr % 4096 == 0) by {
        vstd::arithmetic::div_mod::lemma_mod_mod(paddr as int, 4096, page_size(level) / 4096);
    }
    lemma_pte_with_phys(leaf_bits(flags), paddr);
    assert(same_page(w, vaddr, level));
    assert(vpn(w, level) == vpn(vaddr, level));
}

proof fn lemma_choice_bits(r: u64, w: u64, x: u64, u: u64, g: u64, c: u64, d: u64, io: u64, paddr: u64)
    requires
        r == 0 || r == 2,
        w == 0 || w == 4,
        x == 0 || x == 8,
        u == 0 || u == 0x10,
        g == 0 || g == 0x20,
        c == 0 || c == 0x40,
        d == 0 || d == 0x80,
        io == 0 || io == 0x4000_0000_0000_0000,
        paddr < 0x0100_0000_0000_0000,
    ensures
        ({
            let e = pte_with_phys(1u64 | r | w | x | u | g | c | d | io, paddr);
            &&& (e & 2u64 != 0) == (r == 2)
            &&& (e & 4u64 != 0) == (w == 4)
            &&& (e & 8u64 != 0) == (x == 8)
            &&& (e & 0x10u64 != 0) == (u == 0x10)
            &&& (e & 0x20u64 != 0) == (g == 0x20)
            &&& (e & 0x40u64 != 0) == (c == 0x40)
            &&& (e & 0x80u64 != 0) == (d == 0x80)
            &&& ((e >> 61u64) & 3u64 == 2u64) == (io != 0)
        }),
{
    assert({
        let e = pte_with_phys(1u64 | r | w | x | u | g | c | d | io, paddr);
        &&& (e & 2u64 != 0) == (r == 2)
        &&& (e & 4u64 != 0) == (w == 4)
        &&& (e & 8u64 != 0) == (x == 8)
        &&& (e & 0x10u64 != 0) == (u == 0x10)
        &&& (e & 0x20u64 != 0) == (g == 0x20)
        &&& (e & 0x40u64 != 0) == (c == 0x40)
        &&& (e & 0x80u64 != 0) == (d == 0x80)
        &&& ((e >> 61u64) & 3u64 == 2u64) == (io != 0)
    }) by (bit_vector)
        requires
            r == 0 || r == 2,
            w == 0 || w == 4,
            x == 0 || x == 8,
            u == 0 || u == 0x10,
            g == 0 || g == 0x20,
            c == 0 || c == 0x40,
            d == 0 || d == 0x80,
            io == 0 || io == 0x4000_0000_0000_0000,
            paddr < 0x0100_0000_0000_0000u64;
}

/// The Sv48 leaf entry `b` for a mapping of `paddr` with the flags `m`,
/// bit by bit as the RISC-V privileged specification lays it out: V
/// (bit 0) set; R, W, X, U, G, A, D (bits 1 to 7) set exactly when read,
/// write, execute, user, global, accessed and dirty are requested; the
/// reserved-for-software bits 8 and 9 clear; the physical page number of
/// `paddr` in bits 10 to 53; bits 54 to 60 clear; the memory type in bits
/// 61 and 62, I/O (2) when requested and none (0) otherwise; bit 63 clear.
pub open spec fn sv48_leaf_encodes(b: u64, m: MemFlags, paddr: u64) -> bool {
    &&& b & 0x1u64 == 0x1u64
    &&& (b & 0x2u64 == 0x2u64) == m.has(MEM_READ)
    &&& (b & 0x4u64 == 0x4u64) == m.has(MEM_WRITE)
    &&& (b & 0x8u64 == 0x8u64) == m.has(MEM_EXECUTE)
    &&& (b & 0x10u64 == 0x10u64) == m.has(MEM_USER)
    &&& (b & 0x20u64 == 0x20u64) == m.has(MEM_GLOBAL)
    &&& (b & 0x40u64 == 0x40u64) == m.has(MEM_ACCESSED)
    &&& (b & 0x80u64 == 0x80u64) == m.has(MEM_DIRTY)
    &&& b & 0x300u64 == 0u64
    &&& b & 0x003F_FFFF_FFFF_FC00u64 == (paddr / 4096) * 1024
    &&& b & 0x1FC0_0000_0000_0000u64 == 0u64
    &&& b & 0x6000_0000_0000_0000u64 == if m.has(MEM_IO) { 0x4000_0000_0000_0000u64 } else { 0u64 }
    &&& b & 0x8000_0000_0000_0000u64 == 0u64
}

/// The flags `fl` read back from the Sv48 leaf entry `b` found at
/// `level`, bit by bit as the RISC-V privileged specification lays the
/// entry out: valid always; read, write, execute, user, global, accessed
/// and dirty exactly when bits 1 to 7 (R, W, X, U, G, A, D) are set; I/O
/// exactly when the memory type in bits 61 and 62 is I/O (2); the page-size
/// flag of the level (super at 1, huge at 2, enormous at 3); no other flag.
pub open spec fn sv48_leaf_decodes(b: u64, level: int, fl: MemFlags) -> bool {
    &&& fl.has(MEM_VALID)
    &&& fl.has(MEM_READ) == (b & 0x2u64 == 0x2u64)
    &&& fl.has(MEM_WRITE) == (b & 0x4u64 == 0x4u64)
    &&& fl.has(MEM_EXECUTE) == (b & 0x8u64 == 0x8u64)
    &&& fl.has(MEM_USER) == (b & 0x10u64 == 0x10u64)
    &&& fl.has(MEM_GLOBAL) == (b & 0x20u64 == 0x20u64)
    &&& fl.has(MEM_ACCESSED) == (b & 0x40u64 == 0x40u64)
    &&& fl.has(MEM_DIRTY) == (b & 0x80u64 == 0x80u64)
    &&& fl.has(MEM_IO) == (b & 0x6000_0000_0000_0000u64 == 0x4000_0000_0000_0000u64)
    &&& fl.has(MEM_SUPER) == (level == 1)
    &&& fl.has(MEM_HUGE) == (level == 2)
    &&& fl.has(MEM_ENORMOUS) == (level == 3)
    &&& forall|f: u64| 12 <= f < 64 ==> !#[trigger] fl.has(f)
}

/// The leaf entry a mapping writes is the Sv48 leaf entry for its flags
/// and physical page: every requested attribute in its own RISC-V bit.
pub proof fn lemma_leaf_entry_encoding(m: MemFlags, paddr: u64)
    requires
        paddr % 4096 == 0,
        paddr < 0x0100_0000_0000_0000,
    ensures
        sv48_leaf_encodes(pte_with_phys(leaf_bits(m), paddr), m, paddr),
{
    let r: u64 = if m.has(MEM_READ) { 2u64 } else { 0u64 };
    let w: u64 = if m.has(MEM_WRITE) { 4u64 } else { 0u64 };
    let x: u64 = if m.has(MEM_EXECUTE) { 8u64 } else { 0u64 };
    let u: u64 = if m.has(MEM_USER) { 0x10u64 } else { 0u64 };
    let g: u64 = if m.has(MEM_GLOBAL) { 0x20u64 } else { 0u64 };
    let c: u64 = if m.has(MEM_ACCESSED) { 0x40u64 } else { 0u64 };
    let d: u64 = if m.has(MEM_DIRTY) { 0x80u64 } else { 0u64 };
    let io: u64 = if m.has(MEM_IO) { 0x4000_0000_0000_0000u64 } else { 0u64 };
    let lb = leaf_bits(m);
    assert(lb == 1u64 | r | w | x | u | g | c | d | io);
    let e = pte_with_phys(lb, paddr);
    let ppn = ((paddr >> 12u64) << 10u64);
    assert(ppn == (paddr / 4096) * 1024) by (bit_vector)
        requires paddr < 0x0100_0000_0000_0000u64, ppn == ((paddr >> 12u64) << 10u64);
    assert({
        &&& e & 0x1u64 == 0x1u64
        &&& (e & 0x2u64 == 0x2u64) == (r == 2)
        &&& (e & 0x4u64 == 0x4u64) == (w == 4)
        &&& (e & 0x8u64 == 0x8u64) == (x == 8)
        &&& (e & 0x10u64 == 0x10u64) == (u == 0x10)
        &&& (e & 0x20u64 == 0x20u64) == (g == 0x20)
        &&& (e & 0x40u64 == 0x40u64) == (c == 0x40)
        &&& (e & 0x80u64 == 0x80u64) == (d == 0x80)
        &&& e & 0x300u64 == 0u64
        &&& e & 0x003F_FFFF_FFFF_FC00u64 == ppn
        &&& e & 0x1FC0_0000_0000_0000u64 == 0u64
        &&& e & 0x6000_0000_0000_0000u64 == io
        &&& e & 0x8000_0000_0000_0000u64 == 0u64
    }) by (bit_vector)
        requires
            r == 0 || r == 2,
            w == 0 || w == 4,
            x == 0 || x == 8,
            u == 0 || u == 0x10,
            g == 0 || g == 0x20,
            c == 0 || c == 0x40,
            d == 0 || d == 0x80,
            io == 0 || io == 0x4000_0000_0000_0000,
            paddr < 0x0100_0000_0000_0000u64,
            paddr % 4096 == 0,
            lb == 1u64 | r | w | x | u | g | c | d | io,
            e == (lb & !0x003F_FFFF_FFFF_FC00u64) | ((paddr >> 12u64) << 10u64),
            ppn == ((paddr >> 12u64) << 10u64);
}

/// The flags read back from a leaf entry `b` found at `level`, bit by bit
/// as the RISC-V privileged specification lays the entry out: read, write,
/// execute, user, global, accessed and dirty exactly when bits 1 to 7 (R,
/// W, X, U, G, A, D) are set, I/O exactly when the memory type in bits 61
/// and 62 is I/O (2), valid always, the page-size flag of the level, and no
/// other flag.
pub proof fn lemma_entry_flag_decoding(b: u64, level: int)
    ensures
        entry_flag(b, level, MEM_VALID),
        entry_flag(b, level, MEM_READ) == (b & 0x2u64 == 0x2u64),
        entry_flag(b, level, MEM_WRITE) == (b & 0x4u64 == 0x4u64),
        entry_flag(b, level, MEM_EXECUTE) == (b & 0x8u64 == 0x8u64),
        entry_flag(b, level, MEM_USER) == (b & 0x10u64 == 0x10u64),
        entry_flag(b, level, MEM_GLOBAL) == (b & 0x20u64 == 0x20u64),
        entry_flag(b, level, MEM_ACCESSED) == (b & 0x40u64 == 0x40u64),
        entry_flag(b, level, MEM_DIRTY) == (b & 0x80u64 == 0x80u64),
        entry_flag(b, level, MEM_IO) == (b & 0x6000_0000_0000_0000u64 == 0x4000_0000_0000_0000u64),
        entry_flag(b, level, MEM_SUPER) == (level == 1),
        entry_flag(b, level, MEM_HUGE) == (level == 2),
        entry_flag(b, level, MEM_ENORMOUS) == (level == 3),
        forall|f: u64| 12 <= f < 64 ==> !#[trigger] entry_flag(b, level, f),
{
    assert((b & 0x2u64 != 0) == (b & 0x2u64 == 0x2u64)
        && (b & 0x4u64 != 0) == (b & 0x4u64 == 0x4u64)
        && (b & 0x8u64 != 0) == (b & 0x8u64 == 0x8u64)
        && (b & 0x10u64 != 0) == (b & 0x10u64 == 0x10u64)
        && (b & 0x20u64 != 0) == (b & 0x20u64 == 0x20u64)
        && (b & 0x40u64 != 0) == (b & 0x40u64 == 0x40u64)
        && (b & 0x80u64 != 0) == (b & 0x80u64 == 0x80u64)
        && ((b >> 61u64) & 3u64 == 2u64) == (b & 0x6000_0000_0000_0000u64 == 0x4000_0000_0000_0000u64)) by (bit_vector);
}

/// After `vaddr` is mapped with `flags`, the flags that access reports for
/// it are the requested ones plus valid.
pub proof fn lemma_access_after_map(t: TableMap, boot: BootInfo, root: u64, vaddr: u64, paddr: u64, flags: MemFlags)
    requires
        leaf_of(t, boot, root, vaddr) == Some((pte_with_phys(leaf_bits(flags), paddr), level_of_flags(flags))),
        page_size_flag_count(flags) <= 1,
        paddr < 0x0100_0000_0000_0000,
    ensures
        forall|f: u64| f < 64 ==> #[trigger] entry_flag(pte_with_phys(leaf_bits(flags), paddr), level_of_flags(flags), f)
            == (flags.has(f) || f == MEM_VALID),
{
    let m = flags;
    let r: u64 = if m.has(MEM_READ) { 2u64 } else { 0u64 };
    let w: u64 = if m.has(MEM_WRITE) { 4u64 } else { 0u64 };
    let x: u64 = if m.has(MEM_EXECUTE) { 8u64 } else { 0u64 };
    let u: u64 = if m.has(MEM_USER) { 0x10u64 } else { 0u64 };
    let g: u64 = if m.has(MEM_GLOBAL) { 0x20u64 } else { 0u64 };
    let c: u64 = if m.has(MEM_ACCESSED) { 0x40u64 } else { 0u64 };
    let d: u64 = if m.has(MEM_DIRTY) { 0x80u64 } else { 0u64 };
    let io: u64 = if m.has(MEM_IO) { 0x4000_0000_0000_0000u64 } else { 0u64 };
    assert(leaf_bits(m) == 1u64 | r | w | x | u | g | c | d | io);
    lemma_choice_bits(r, w, x, u, g, c, d, io, paddr);
}

impl PageTableRoot {
    /// The number of new tables that mapping `vaddr` at `level` takes: the
    /// levels between the first invalid entry on the path and `level`.
    pub fn tables_needed_for(&self, vaddr: u64, level: u64) -> (r: u64)
        requires
            self.wf(),
            level <= 3,
        ensures
            r == tables_needed(self.tables(), self.boot(), self.root(), 3, level as int, vaddr),
            r <= 3,
    {
        let vpns = split_vpn(vaddr);
        let mut cur: usize = match self.store.find(self.addr.address) {
            Some(i) => i,
            None => return 0,
        };
        let mut l: u64 = 3;
        while l > level
            invariant
                self.wf(),
                level <= l <= 3,
                cur < self.store.addrs@.len(),
                forall|k: int| 0 <= k < 4 ==> vpns@[k] == vpn(vaddr, k) && #[trigger] vpns@[k] < 512,
                tables_needed(self.tables(), self.boot(), self.root(), 3, level as int, vaddr)
                    == tables_needed(self.tables(), self.boot(), self.store.addrs@[cur as int], l as int, level as int, vaddr),
            decreases l,
        {
            let entry = self.store.read(cur, vpns[l as usize] as usize);
            proof {
                assert(self.tables().contains_key(self.store.addrs@[cur as int])) by {
                    assert(self.store.addrs@.contains(self.store.addrs@[cur as int]));
                }
            }
            if !entry.is_valid() {
                return l - level;
            }
            let child = pa_to_va(&self.boot, entry.physical_address());
            proof {
                let a = self.store.addrs@[cur as int];
                assert(child == child_table(self.boot(), self.tables()[a][vpn(vaddr, l as int)]));
                assert(tables_needed(self.tables(), self.boot(), a, l as int, level as int, vaddr)
                    == tables_needed(self.tables(), self.boot(), child, l - 1, level as int, vaddr));
            }
            match self.store.find(child) {
                Some(i) => cur = i,
                None => {
                    proof {
                        assert(!self.tables().contains_key(child));
                    }
                    return 0;
                },
            }
            l -= 1;
        }
        0
    }

    /// With the tree's levels, a walk from a table at its own level that
    /// finds no leaf leaves room for a 4 KiB mapping.
    proof fn lemma_walk_none_can_map(t: TableMap, boot: BootInfo, lv: Map<u64, int>, root: u64, a: u64, l: int, v: u64)
        requires
            Self::tree(t, boot, lv, root),
            t.contains_key(a),
            lv[a] == l,
            0 <= l <= 3,
            walk_to(t, boot, a, l, v) is None,
        ensures
            can_map(t, boot, a, l, 0, v),
        decreases l,
    {
        lemma_vpn_bound(v, l);
        let b = t[a][vpn(v, l)];
        if pte_valid(b) && !pte_leaf(b) {
            assert(is_branch(t, a, vpn(v, l)));
            if l > 0 {
                Self::lemma_walk_none_can_map(t, boot, lv, root, child_table(boot, b), l - 1, v);
            }
        }
    }

    /// An address with no mapping can take a 4 KiB one.
    pub proof fn lemma_unmapped_can_map(&self, v: u64)
        requires
            self.wf(),
            leaf_of(self.tables(), self.boot(), self.root(), v) is None,
        ensures
            can_map(self.tables(), self.boot(), self.root(), 3, 0, v),
    {
        Self::lemma_walk_none_can_map(self.tables(), self.boot(), self.levels@, self.root(), self.root(), 3, v);
    }
}

/// An address whose leaf was cleared (as `unmap` leaves it) translates to
/// nothing.
pub proof fn lemma_translate_after_unmap(t: TableMap, boot: BootInfo, root: u64, vaddr: u64)
    requires
        leaf_of(t, boot, root, vaddr) is None,
    ensures
        spec_translate(t, boot, root, vaddr) is None,
{
}

/// Some branch entry of `t` points to the table at `c`.
pub open spec fn referenced(t: TableMap, boot: BootInfo, c: u64) -> bool {
    exists|a: u64, j: int| #[trigger] is_branch(t, a, j) && child_table(boot, t[a][j]) == c
}

/// Clearing one entry keeps the tree, and every branch afterwards was a
/// branch before, with the same entry.
proof fn lemma_clear_entry(t1: TableMap, t2: TableMap, boot: BootInfo, lv: Map<u64, int>, root: u64, x: u64, i: int)
    requires
        PageTableRoot::tree(t1, boot, lv, root),
        t1.contains_key(x),
        0 <= i < 512,
        t2 == t1.insert(x, t1[x].update(i, 0u64)),
    ensures
        PageTableRoot::tree(t2, boot, lv, root),
        t2.dom() == t1.dom(),
        forall|a: u64, j: int| #[trigger] is_branch(t2, a, j) ==> is_branch(t1, a, j) && t2[a][j] == t1[a][j] && !(a == x && j == i),
{
    assert(t2.dom() =~= t1.dom());
    lemma_zero_invalid();
    assert forall|a: u64, j: int| #[trigger] is_branch(t2, a, j) implies is_branch(t1, a, j) && t2[a][j] == t1[a][j] && !(a == x && j == i) by {
        if a == x && j == i {
            assert(t2[x][i] == 0u64);
        }
    }
    assert forall|a: u64| #[trigger] t2.contains_key(a) implies 0 <= lv[a] <= 3 && t2[a].len() == 512 by {
        assert(t1.contains_key(a));
    }
    assert forall|a: u64, j: int| #[trigger] is_branch(t2, a, j) implies {
        &&& lv[a] >= 1
        &&& t2.contains_key(child_table(boot, t2[a][j]))
        &&& lv[child_table(boot, t2[a][j])] == lv[a] - 1
    } by {
        assert(is_branch(t1, a, j));
    }
    assert forall|a1: u64, j1: int, a2: u64, j2: int|
        #[trigger] is_branch(t2, a1, j1) && #[trigger] is_branch(t2, a2, j2)
        && child_table(boot, t2[a1][j1]) == child_table(boot, t2[a2][j2]) implies a1 == a2 && j1 == j2 by {
        assert(is_branch(t1, a1, j1) && is_branch(t1, a2, j2));
    }
}

/// `c` was handed back to the allocator after its free list was `before`.
pub open spec fn pushed_since(free: Seq<u64>, before: Seq<u64>, c: u64) -> bool {
    free.contains(c) && !before.contains(c)
}

/// A prefix of a sequence stays a prefix after a push.
proof fn lemma_prefix_push(s: Seq<u64>, c: u64)
    ensures
        s.len() <= s.push(c).len(),
        s.push(c).take(s.len() as int) == s,
{
    assert(s.push(c).take(s.len() as int) =~= s);
}

/// A prefix of a prefix is a prefix.
proof fn lemma_prefix_trans(a: Seq<u64>, b: Seq<u64>, c: Seq<u64>)
    requires
        a.len() <= b.len(),
        b.take(a.len() as int) == a,
        b.len() <= c.len(),
        c.take(b.len() as int) == b,
    ensures
        a.len() <= c.len(),
        c.take(a.len() as int) == a,
{
    assert forall|i: int| 0 <= i < a.len() implies c.take(a.len() as int)[i] == a[i] by {
        assert(c[i] == c.take(b.len() as int)[i]);
        assert(b[i] == b.take(a.len() as int)[i]);
    }
    assert(c.take(a.len() as int) =~= a);
}

/// What a prefix holds, the whole sequence holds.
proof fn lemma_prefix_contains(a: Seq<u64>, b: Seq<u64>)
    requires
        a.len() <= b.len(),
        b.take(a.len() as int) == a,
    ensures
        forall|c: u64| #[trigger] a.contains(c) ==> b.contains(c),
{
    assert forall|c: u64| #[trigger] a.contains(c) implies b.contains(c) by {
        let k = choose|k: int| 0 <= k < a.len() && a[k] == c;
        assert(b[k] == b.take(a.len() as int)[k]);
    }
}

impl PageTableRoot {
    /// The free list `free` grew from `init` only by table pages of this
    /// tree other than the root that no branch points to any more.
    spec fn freed_unreferenced(&self, free: Seq<u64>, init: Seq<u64>) -> bool {
        &&& init.len() <= free.len()
        &&& free.take(init.len() as int) == init
        &&& forall|c: u64| #[trigger] pushed_since(free, init, c) ==> {
            &&& self.tables().contains_key(c)
            &&& c != self.root()
            &&& !referenced(self.tables(), self.boot, c)
        }
    }

    /// Clear every valid entry of the table at store index `xi` (at
    /// `level`), first freeing, depth first, each table a branch entry
    /// points to and handing its page back to `allocator`.
    fn free_children(&mut self, xi: usize, level: u64, allocator: &mut PageAllocator, Ghost(init): Ghost<Seq<u64>>)
        requires
            old(self).wf(),
            xi < old(self).store.addrs@.len(),
            level <= 3,
            old(self).levels@[old(self).store.addrs@[xi as int]] == level,
            old(self).store.addrs@[xi as int] == old(self).root()
                || referenced(old(self).tables(), old(self).boot, old(self).store.addrs@[xi as int]),
            old(allocator).wf(),
            forall|a: u64| old(self).tables().contains_key(a) && a != old(self).root()
                ==> #[trigger] old(allocator).blocks().contains(a) && !init.contains(a),
            old(self).freed_unreferenced(old(allocator).free_list(), init),
        ensures
            final(self).wf(),
            final(self).store.addrs@ == old(self).store.addrs@,
            final(self).levels@ == old(self).levels@,
            final(self).boot == old(self).boot,
            final(self).addr == old(self).addr,
            final(self).tables().dom() == old(self).tables().dom(),
            forall|j: int| 0 <= j < 512 ==> #[trigger] final(self).tables()[old(self).store.addrs@[xi as int]][j]
                == if pte_valid(old(self).tables()[old(self).store.addrs@[xi as int]][j]) { 0u64 }
                    else { old(self).tables()[old(self).store.addrs@[xi as int]][j] },
            forall|a: u64| #[trigger] final(self).tables().contains_key(a) && a != old(self).store.addrs@[xi as int]
                && !pushed_since(final(allocator).free_list(), old(allocator).free_list(), a)
                ==> final(self).tables()[a] == old(self).tables()[a],
            forall|a: u64| #[trigger] pushed_since(final(allocator).free_list(), old(allocator).free_list(), a)
                ==> old(self).levels@[a] < level,
            final(allocator).wf(),
            final(allocator).blocks() == old(allocator).blocks(),
            final(allocator).total() == old(allocator).total(),
            old(allocator).free_list().len() <= final(allocator).free_list().len(),
            final(allocator).free_list().take(old(allocator).free_list().len() as int) == old(allocator).free_list(),
            final(self).freed_unreferenced(final(allocator).free_list(), init),
            forall|a: u64, j: int| #[trigger] is_branch(old(self).tables(), a, j)
                && (a == old(self).store.addrs@[xi as int] || pushed_since(final(allocator).free_list(), old(allocator).free_list(), a))
                ==> pushed_since(final(allocator).free_list(), old(allocator).free_list(), child_table(old(self).boot, old(self).tables()[a][j])),
        decreases level,
    {
        let ghost x = self.store.addrs@[xi as int];
        let ghost t0 = self.tables();
        let ghost f0 = allocator.free_list();
        proof {
            assert forall|a: u64| t0.contains_key(a) && a != self.root()
                implies #[trigger] allocator.blocks().contains(a) && !init.contains(a) by {
                assert(old(allocator).blocks().contains(a));
            }
        }
        let mut idx: usize = 0;
        while idx < ENTRIES_PER_TABLE
            invariant
                self.wf(),
                self.store.addrs@ == old(self).store.addrs@,
                self.levels@ == old(self).levels@,
                self.boot == old(self).boot,
                self.addr == old(self).addr,
                x == old(self).store.addrs@[xi as int],
                t0 == old(self).tables(),
                f0 == old(allocator).free_list(),
                xi < self.store.addrs@.len(),
                level <= 3,
                self.levels@[x] == level,
                x == self.root() || referenced(self.tables(), self.boot, x),
                self.tables().dom() == t0.dom(),
                idx <= 512,
                forall|j: int| 0 <= j < idx ==> #[trigger] self.tables()[x][j]
                    == if pte_valid(t0[x][j]) { 0u64 } else { t0[x][j] },
                forall|j: int| idx <= j < 512 ==> #[trigger] self.tables()[x][j] == t0[x][j],
                forall|a: u64| #[trigger] self.tables().contains_key(a) && a != x && !pushed_since(allocator.free_list(), f0, a)
                    ==> self.tables()[a] == t0[a],
                forall|a: u64| #[trigger] pushed_since(allocator.free_list(), f0, a) ==> t0.contains_key(a) && self.levels@[a] < level,
                allocator.wf(),
                allocator.blocks() == old(allocator).blocks(),
                allocator.total() == old(allocator).total(),
                f0.len() <= allocator.free_list().len(),
                allocator.free_list().take(f0.len() as int) == f0,
                forall|a: u64| t0.contains_key(a) && a != self.root()
                    ==> #[trigger] allocator.blocks().contains(a) && !init.contains(a),
                self.freed_unreferenced(allocator.free_list(), init),
                forall|a: u64, j: int| #[trigger] is_branch(t0, a, j) && ((a == x && j < idx) || pushed_since(allocator.free_list(), f0, a))
                    ==> pushed_since(allocator.free_list(), f0, child_table(self.boot, t0[a][j])),
            decreases 512 - idx,
        {
            let entry = self.store.read(xi, idx);
            proof {
                assert(self.tables().contains_key(x)) by {
                    assert(self.store.addrs@.contains(x));
                }
            }
            if !entry.is_valid() {
                idx += 1;
                continue;
            }
            if entry.is_leaf() || level == 0 {
                let ghost t1 = self.tables();
                self.store.write(xi, idx, PageTableEntry::new_empty());
                proof {
                    lemma_clear_entry(t1, self.tables(), self.boot, self.levels@, self.root(), x, idx as int);
                    lemma_zero_invalid();
                    if level == 0 {
                        assert(!is_branch(t0, x, idx as int)) by {
                            if is_branch(t0, x, idx as int) {
                                assert(is_branch(t1, x, idx as int));
                            }
                        }
                    } else {
                        assert(!is_branch(t0, x, idx as int));
                    }
                    assert(x == self.root() || referenced(self.tables(), self.boot, x)) by {
                        if x != self.root() {
                            let (pa, pj) = choose|pa: u64, pj: int| #[trigger] is_branch(t1, pa, pj) && child_table(self.boot, t1[pa][pj]) == x;
                            assert(!(pa == x && pj == idx)) by {
                                assert(self.levels@[child_table(self.boot, t1[pa][pj])] == self.levels@[pa] - 1);
                            }
                            assert(is_branch(self.tables(), pa, pj));
                        }
                    }
                    assert forall|c: u64| #[trigger] pushed_since(allocator.free_list(), init, c) implies
                        !referenced(self.tables(), self.boot, c) by {
                        if referenced(self.tables(), self.boot, c) {
                            let (pa, pj) = choose|pa: u64, pj: int| #[trigger] is_branch(self.tables(), pa, pj) && child_table(self.boot, self.tables()[pa][pj]) == c;
                            assert(is_branch(t1, pa, pj));
                        }
                    }
                }
                idx += 1;
                continue;
            }
            let child = pa_to_va(&self.boot, entry.physical_address());
            let ghost t1 = self.tables();
            let ghost f1 = allocator.free_list();
            proof {
                assert(is_branch(t1, x, idx as int));
                assert(child == child_table(self.boot, t1[x][idx as int]));
                assert(referenced(t1, self.boot, child));
            }
            let ci = match self.store.find(child) {
                Some(i) => i,
                None => {
                    proof { assert(false); }
                    return;
                },
            };
            self.free_children(ci, level - 1, allocator, Ghost(init));
            let ghost t2 = self.tables();
            proof {
                // The entry that points to the child is still there.
                assert(!pushed_since(allocator.free_list(), f1, x));
                assert(t2[x] == t1[x]);
                assert(is_branch(t2, x, idx as int));
                assert(referenced(t2, self.boot, child));
                assert(child != self.root());
                assert(t0.contains_key(child));
                assert(allocator.blocks().contains(child));
                assert(!init.contains(child));
                allocator.lemma_free_list_facts();
                assert(!allocator.free_list().contains(child)) by {
                    if allocator.free_list().contains(child) {
                        assert(pushed_since(allocator.free_list(), init, child));
                        assert(!referenced(t2, self.boot, child));
                    }
                }
            }
            let ghost f2 = allocator.free_list();
            let mut page = PageAllocation::new(child);
            allocator.dealloc(&mut page);
            self.store.write(xi, idx, PageTableEntry::new_empty());
            proof {
                let t3 = self.tables();
                let f3 = allocator.free_list();
                let lv = self.levels@;
                lemma_clear_entry(t2, t3, self.boot, lv, self.root(), x, idx as int);
                lemma_zero_invalid();
                lemma_prefix_push(f2, child);
                lemma_prefix_trans(f0, f1, f2);
                lemma_prefix_trans(f0, f2, f3);
                lemma_prefix_trans(f1, f2, f3);
                lemma_prefix_trans(init, f2, f3);
                lemma_prefix_contains(f0, f1);
                lemma_prefix_contains(f1, f2);
                lemma_prefix_contains(f2, f3);
                assert(f3.contains(child)) by {
                    assert(f3[f3.len() - 1] == child);
                }
                // Only the cleared entry pointed to the child.
                assert(!referenced(t3, self.boot, child)) by {
                    if referenced(t3, self.boot, child) {
                        let (pa, pj) = choose|pa: u64, pj: int| #[trigger] is_branch(t3, pa, pj) && child_table(self.boot, t3[pa][pj]) == child;
                        assert(is_branch(t2, pa, pj) && t3[pa][pj] == t2[pa][pj]);
                        assert(is_branch(t2, x, idx as int));
                    }
                }
                // The table's own parent entry is kept.
                assert(x == self.root() || referenced(t3, self.boot, x)) by {
                    if x != self.root() {
                        let (pa, pj) = choose|pa: u64, pj: int| #[trigger] is_branch(t1, pa, pj) && child_table(self.boot, t1[pa][pj]) == x;
                        assert(!pushed_since(f2, f1, pa)) by {
                            if pushed_since(f2, f1, pa) {
                                assert(referenced(t1, self.boot, pa) || pa == self.root());
                            }
                        }
                        assert(lv[x] == lv[pa] - 1);
                        assert(pa != child);
                        assert(t2[pa] == t1[pa]);
                        assert(is_branch(t2, pa, pj));
                        assert(!(pa == x && pj == idx));
                        assert(t3[pa][pj] == t2[pa][pj]);
                        assert(is_branch(t3, pa, pj));
                    }
                }
                assert forall|j: int| 0 <= j < idx + 1 implies !pte_valid(#[trigger] t3[x][j]) by {
                    if j < idx {
                        assert(t3[x][j] == t2[x][j]);
                        assert(t2[x][j] == t1[x][j]);
                    }
                }
                assert forall|j: int| idx + 1 <= j < 512 implies #[trigger] t3[x][j] == t0[x][j] by {
                    assert(t3[x][j] == t2[x][j]);
                }
                assert forall|a: u64| #[trigger] t3.contains_key(a) && a != x && !pushed_since(f3, f0, a)
                    implies t3[a] == t0[a] by {
                    assert(!pushed_since(f2, f1, a));
                    assert(a != child);
                    assert(!pushed_since(f1, f0, a));
                }
                assert forall|a: u64| #[trigger] pushed_since(f3, f0, a) implies t0.contains_key(a) && lv[a] < level by {
                    if a != child && !pushed_since(f1, f0, a) {
                        assert(pushed_since(f2, f1, a)) by {
                            if !f2.contains(a) {
                                let k = choose|k: int| 0 <= k < f3.len() && f3[k] == a;
                                assert(k < f2.len() ==> f3[k] == f2[k]);
                                if k < f2.len() {
                                    assert(f2.contains(a));
                                }
                            }
                        }
                        assert(pushed_since(f2, init, a)) by {
                            lemma_prefix_contains(init, f1);
                        }
                    }
                }
                assert forall|c: u64| #[trigger] pushed_since(f3, init, c) implies {
                    &&& t3.contains_key(c)
                    &&& c != self.root()
                    &&& !referenced(t3, self.boot, c)
                } by {
                    if c != child {
                        assert(f2.contains(c)) by {
                            let k = choose|k: int| 0 <= k < f3.len() && f3[k] == c;
                            if k < f2.len() {
                                assert(f3[k] == f2[k]);
                            }
                        }
                        assert(pushed_since(f2, init, c));
                        if referenced(t3, self.boot, c) {
                            let (pa, pj) = choose|pa: u64, pj: int| #[trigger] is_branch(t3, pa, pj) && child_table(self.boot, t3[pa][pj]) == c;
                            assert(is_branch(t2, pa, pj) && t3[pa][pj] == t2[pa][pj]);
                        }
                    }
                }
                assert forall|a: u64, j: int| #[trigger] is_branch(t0, a, j) && ((a == x && j < idx + 1) || pushed_since(f3, f0, a))
                    implies pushed_since(f3, f0, child_table(self.boot, t0[a][j])) by {
                    let g = child_table(self.boot, t0[a][j]);
                    if a == x && j == idx {
                        assert(t0[x][j] == t1[x][j]);
                        assert(!f0.contains(child));
                    } else if a == x && j < idx {
                        assert(pushed_since(f1, f0, g));
                    } else if pushed_since(f1, f0, a) {
                        assert(pushed_since(f1, f0, g));
                    } else {
                        // `a` was freed below the child, or is the child.
                        assert(t0[a] == t1[a]);
                        assert(is_branch(t1, a, j));
                        if a != child {
                            assert(f2.contains(a)) by {
                                let k = choose|k: int| 0 <= k < f3.len() && f3[k] == a;
                                if k < f2.len() {
                                    assert(f3[k] == f2[k]);
                                }
                            }
                            assert(pushed_since(f2, f1, a));
                        }
                        assert(pushed_since(f2, f1, g));
                    }
                }
            }
            idx += 1;
        }
    }
}

impl PageTableRoot {
    /// Free the page tables below the root: every table that a branch entry
    /// of the root, or of a table freed here, points to goes back to
    /// `allocator`, depth first, and every valid entry is cleared. The
    /// root's own page stays with its owner; its 512 entries as they end,
    /// to be written back to that page, are returned: each valid entry
    /// cleared, the others as they were. Each table below the root must be
    /// a page handed out by `allocator`.
    pub fn free(self, allocator: &mut PageAllocator) -> (r: Vec<u64>)
        requires
            self.wf(),
            old(allocator).wf(),
            forall|a: u64| self.tables().contains_key(a) && a != self.root()
                ==> #[trigger] old(allocator).is_outstanding(a),
        ensures
            final(allocator).wf(),
            final(allocator).blocks() == old(allocator).blocks(),
            final(allocator).total() == old(allocator).total(),
            old(allocator).free_list().len() <= final(allocator).free_list().len(),
            final(allocator).free_list().take(old(allocator).free_list().len() as int) == old(allocator).free_list(),
            forall|c: u64| #[trigger] pushed_since(final(allocator).free_list(), old(allocator).free_list(), c)
                ==> self.tables().contains_key(c) && c != self.root(),
            forall|a: u64, j: int| #[trigger] is_branch(self.tables(), a, j)
                && (a == self.root() || pushed_since(final(allocator).free_list(), old(allocator).free_list(), a))
                ==> pushed_since(final(allocator).free_list(), old(allocator).free_list(), child_table(self.boot(), self.tables()[a][j])),
            r@ == Seq::new(512, |j: int| if pte_valid(self.tables()[self.root()][j]) { 0u64 } else { self.tables()[self.root()][j] }),
    {
        let mut me = self;
        let ghost init = allocator.free_list();
        let ri = match me.store.find(me.addr.address) {
            Some(i) => i,
            None => {
                proof { assert(false); }
                return Vec::new();
            },
        };
        proof {
            assert(init.take(init.len() as int) =~= init);
            assert forall|a: u64| me.tables().contains_key(a) && a != me.root()
                implies #[trigger] allocator.blocks().contains(a) && !init.contains(a) by {
                assert(allocator.is_outstanding(a));
            }
        }
        let ghost t0 = me.tables();
        let ghost x = me.root();
        proof {
            assert(t0.contains_key(x) && t0[x].len() == 512);
        }
        me.free_children(ri, 3, allocator, Ghost(init));
        let mut out: Vec<u64> = Vec::new();
        let mut j: usize = 0;
        while j < ENTRIES_PER_TABLE
            invariant
                me.store.wf(),
                ri < me.store.addrs@.len(),
                me.store.addrs@[ri as int] == x,
                j <= 512,
                out@.len() == j,
                forall|k: int| 0 <= k < 512 ==> #[trigger] me.tables()[x][k]
                    == if pte_valid(t0[x][k]) { 0u64 } else { t0[x][k] },
                forall|k: int| 0 <= k < j ==> #[trigger] out@[k]
                    == if pte_valid(t0[x][k]) { 0u64 } else { t0[x][k] },
            decreases 512 - j,
        {
            let e = me.store.read(ri, j);
            let ghost before = out@;
            out.push(e.raw());
            proof {
                assert(out@[j as int] == me.tables()[x][j as int]);
                assert forall|k: int| 0 <= k < j + 1 implies #[trigger] out@[k]
                    == if pte_valid(t0[x][k]) { 0u64 } else { t0[x][k] } by {
                    if k < j {
                        assert(out@[k] == before[k]);
                    }
                }
            }
            j += 1;
        }
        proof {
            assert(out@ =~= Seq::new(512, |k: int| if pte_valid(t0[x][k]) { 0u64 } else { t0[x][k] }));
        }
        out
    }
}

/// A branch entry `j` of table `a` points to a present table one level
/// down.
pub open spec fn entry_fits(t: TableMap, boot: BootInfo, lv: Map<u64, int>, a: u64, j: int) -> bool {
    is_branch(t, a, j) ==> {
        &&& lv[a] >= 1
        &&& t.contains_key(child_table(boot, t[a][j]))
        &&& lv[child_table(boot, t[a][j])] == lv[a] - 1
    }
}

/// Tables being read in: the root is present at level 3, every table has
/// a level and 512 entries, each checked entry fits the tree, no two
/// checked branch entries point to the same table, and every table but
/// the root was reached through a checked branch entry.
pub open spec fn loading(t: TableMap, boot: BootInfo, lv: Map<u64, int>, root: u64, s: Set<(u64, int)>) -> bool {
    &&& t.contains_key(root)
    &&& lv.dom() == t.dom()
    &&& lv[root] == 3
    &&& forall|a: u64| #[trigger] t.contains_key(a) ==> 0 <= lv[a] <= 3 && t[a].len() == 512
    &&& forall|a: u64, j: int| #[trigger] s.contains((a, j)) ==> t.contains_key(a) && 0 <= j < 512 && entry_fits(t, boot, lv, a, j)
    &&& forall|a1: u64, j1: int, a2: u64, j2: int|
        #[trigger] s.contains((a1, j1)) && #[trigger] s.contains((a2, j2))
        && is_branch(t, a1, j1) && is_branch(t, a2, j2)
        && child_table(boot, t[a1][j1]) == child_table(boot, t[a2][j2]) ==> a1 == a2 && j1 == j2
    &&& forall|c: u64| #[trigger] t.contains_key(c) && c != root ==> exists|a: u64, j: int|
        #[trigger] s.contains((a, j)) && is_branch(t, a, j) && child_table(boot, t[a][j]) == c
}

/// Every table of `t` hangs from the root: the root is at level 3, and
/// each other table is the target of a branch entry of a table of `t` one
/// level up.
pub open spec fn reached_from_root(t: TableMap, boot: BootInfo, lv: Map<u64, int>, root: u64) -> bool {
    &&& t.contains_key(root)
    &&& lv.dom() == t.dom()
    &&& lv[root] == 3
    &&& forall|a: u64| #[trigger] t.contains_key(a) ==> 0 <= lv[a] <= 3
    &&& forall|c: u64| #[trigger] t.contains_key(c) && c != root ==> exists|a: u64, j: int|
        #[trigger] is_branch(t, a, j) && child_table(boot, t[a][j]) == c && lv[c] == lv[a] - 1
}

/// Two branch entries of `t` point to the same table.
pub open spec fn shared_target(t: TableMap, boot: BootInfo, a: u64, j: int) -> bool {
    exists|a2: u64, j2: int| #[trigger] is_branch(t, a2, j2) && (a2 != a || j2 != j)
        && child_table(boot, t[a2][j2]) == child_table(boot, t[a][j])
}

/// Some branch entry of `t` breaks the tree: it sits in a table at level 0,
/// points back to the root, or points to the same table as another branch
/// entry.
pub open spec fn breaks_tree(t: TableMap, boot: BootInfo, lv: Map<u64, int>, root: u64) -> bool {
    exists|a: u64, j: int| #[trigger] is_branch(t, a, j) && {
        ||| lv[a] == 0
        ||| child_table(boot, t[a][j]) == root
        ||| shared_target(t, boot, a, j)
    }
}

/// Tables being read in hang from the root.
proof fn lemma_loading_reached(t: TableMap, boot: BootInfo, lv: Map<u64, int>, root: u64, s: Set<(u64, int)>)
    requires
        loading(t, boot, lv, root, s),
    ensures
        reached_from_root(t, boot, lv, root),
{
    assert forall|c: u64| #[trigger] t.contains_key(c) && c != root implies exists|a: u64, j: int|
        #[trigger] is_branch(t, a, j) && child_table(boot, t[a][j]) == c && lv[c] == lv[a] - 1 by {
        let (a, j) = choose|a: u64, j: int| #[trigger] s.contains((a, j)) && is_branch(t, a, j) && child_table(boot, t[a][j]) == c;
        assert(entry_fits(t, boot, lv, a, j));
        assert(is_branch(t, a, j));
    }
}

/// Once every entry of every table is checked, the tables form a tree.
proof fn lemma_loaded_tree(t: TableMap, boot: BootInfo, lv: Map<u64, int>, root: u64, s: Set<(u64, int)>)
    requires
        loading(t, boot, lv, root, s),
        forall|a: u64, j: int| t.contains_key(a) && 0 <= j < 512 ==> #[trigger] s.contains((a, j)),
    ensures
        PageTableRoot::tree(t, boot, lv, root),
{
    assert forall|a: u64, j: int| #[trigger] is_branch(t, a, j) implies {
        &&& lv[a] >= 1
        &&& t.contains_key(child_table(boot, t[a][j]))
        &&& lv[child_table(boot, t[a][j])] == lv[a] - 1
    } by {
        assert(s.contains((a, j)));
    }
    assert forall|a1: u64, j1: int, a2: u64, j2: int|
        #[trigger] is_branch(t, a1, j1) && #[trigger] is_branch(t, a2, j2)
        && child_table(boot, t[a1][j1]) == child_table(boot, t[a2][j2]) implies a1 == a2 && j1 == j2 by {
        assert(s.contains((a1, j1)) && s.contains((a2, j2)));
    }
}

impl TableStore {
    /// Write `values` into the table at index `i`.
    fn fill(&mut self, i: usize, values: &[u64; 512])
        requires
            old(self).wf(),
            i < old(self).addrs@.len(),
        ensures
            final(self).wf(),
            final(self).addrs@ == old(self).addrs@,
            final(self).map@ == old(self).map@.insert(old(self).addrs@[i as int], values@),
    {
        let ghost a = self.addrs@[i as int];
        proof {
            assert(self.addrs@.contains(a));
            assert(self.map@.contains_key(a));
        }
        let mut k: usize = 0;
        while k < ENTRIES_PER_TABLE
            invariant
                self.wf(),
                self.addrs@ == old(self).addrs@,
                i < self.addrs@.len(),
                a == self.addrs@[i as int],
                k <= 512,
                values@.len() == 512,
                self.map@.dom() == old(self).map@.dom(),
                forall|b: u64| #[trigger] self.map@.contains_key(b) && b != a ==> self.map@[b] == old(self).map@[b],
                self.map@[a].len() == 512,
                forall|q: int| 0 <= q < k ==> #[trigger] self.map@[a][q] == values@[q],
            decreases 512 - k,
        {
            let mut e = PageTableEntry::new_empty();
            e.set_raw(values[k]);
            self.write(i, k, e);
            k += 1;
        }
        proof {
            assert(self.map@[a] =~= values@);
            assert(self.map@ =~= old(self).map@.insert(a, values@));
        }
    }
}

impl PageTableRoot {
    /// Read in the tables below the table at store index `xi` (at
    /// `level`), depth first: each branch entry must point, one level
    /// down, to a table not read in yet, which `read` supplies. `false`
    /// when an entry does not fit the tree; what was read in is then
    /// partial, hangs from the root, and holds the entry that broke it.
    fn load_table<F: Fn(u64) -> [u64; 512]>(&mut self, xi: usize, level: u64, read: &F, Ghost(s): Ghost<Set<(u64, int)>>)
        -> (r: (bool, Ghost<Set<(u64, int)>>))
        requires
            old(self).store.wf(),
            loading(old(self).tables(), old(self).boot, old(self).levels@, old(self).root(), s),
            xi < old(self).store.addrs@.len(),
            level <= 3,
            old(self).levels@[old(self).store.addrs@[xi as int]] == level,
            forall|j: int| !s.contains((old(self).store.addrs@[xi as int], j)),
            forall|a: u64| read.requires((a,)),
        ensures
            final(self).store.wf(),
            final(self).addr == old(self).addr,
            final(self).boot == old(self).boot,
            final(self).store.addrs@.len() >= old(self).store.addrs@.len(),
            forall|i: int| 0 <= i < old(self).store.addrs@.len() ==> #[trigger] final(self).store.addrs@[i] == old(self).store.addrs@[i],
            forall|a: u64| old(self).tables().contains_key(a) ==> #[trigger] final(self).tables().contains_key(a)
                && final(self).tables()[a] == old(self).tables()[a] && final(self).levels@[a] == old(self).levels@[a],
            forall|a: u64| #[trigger] final(self).tables().contains_key(a) && !old(self).tables().contains_key(a)
                ==> exists|v: [u64; 512]| read.ensures((a,), v) && v@ == final(self).tables()[a],
            !r.0 ==> reached_from_root(final(self).tables(), final(self).boot, final(self).levels@, final(self).root())
                && breaks_tree(final(self).tables(), final(self).boot, final(self).levels@, final(self).root()),
            r.0 ==> {
                &&& loading(final(self).tables(), final(self).boot, final(self).levels@, final(self).root(), r.1@)
                &&& forall|a: u64, j: int| #[trigger] r.1@.contains((a, j)) <==> s.contains((a, j))
                    || ((a == old(self).store.addrs@[xi as int] || (final(self).tables().contains_key(a) && !old(self).tables().contains_key(a)))
                        && 0 <= j < 512)
                &&& forall|a: u64, j: int| #[trigger] r.1@.contains((a, j)) && !s.contains((a, j)) && is_branch(final(self).tables(), a, j)
                    ==> !old(self).tables().contains_key(child_table(final(self).boot, final(self).tables()[a][j]))
            },
        decreases level,
    {
        let ghost x = self.store.addrs@[xi as int];
        let ghost t0 = self.tables();
        let ghost mut cur: Set<(u64, int)> = s;
        proof {
            assert(self.store.addrs@.contains(x));
        }
        let mut idx: usize = 0;
        while idx < ENTRIES_PER_TABLE
            invariant
                self.store.wf(),
                self.addr == old(self).addr,
                self.boot == old(self).boot,
                x == old(self).store.addrs@[xi as int],
                t0 == old(self).tables(),
                xi < self.store.addrs@.len(),
                self.store.addrs@[xi as int] == x,
                self.store.addrs@.len() >= old(self).store.addrs@.len(),
                forall|i: int| 0 <= i < old(self).store.addrs@.len() ==> #[trigger] self.store.addrs@[i] == old(self).store.addrs@[i],
                level <= 3,
                self.levels@[x] == level,
                t0.contains_key(x),
                forall|j: int| !s.contains((x, j)),
                idx <= 512,
                forall|a: u64| read.requires((a,)),
                forall|a: u64| t0.contains_key(a) ==> #[trigger] self.tables().contains_key(a)
                    && self.tables()[a] == t0[a] && self.levels@[a] == old(self).levels@[a],
                forall|a: u64| #[trigger] self.tables().contains_key(a) && !t0.contains_key(a)
                    ==> exists|v: [u64; 512]| read.ensures((a,), v) && v@ == self.tables()[a],
                loading(self.tables(), self.boot, self.levels@, self.root(), cur),
                forall|a: u64, j: int| #[trigger] cur.contains((a, j)) <==> s.contains((a, j))
                    || ((a == x && j < idx) || (self.tables().contains_key(a) && !t0.contains_key(a))) && 0 <= j < 512,
                forall|a: u64, j: int| #[trigger] cur.contains((a, j)) && !s.contains((a, j)) && is_branch(self.tables(), a, j)
                    ==> !t0.contains_key(child_table(self.boot, self.tables()[a][j])),
            decreases 512 - idx,
        {
            let ghost t1 = self.tables();
            let entry = self.store.read(xi, idx);
            proof {
                assert(t1.contains_key(x)) by {
                    assert(self.store.addrs@.contains(x));
                }
            }
            if entry.is_valid() && !entry.is_leaf() {
                if level == 0 {
                    proof {
                        assert forall|a: u64| t0.contains_key(a) implies #[trigger] self.tables().contains_key(a)
                            && self.tables()[a] == t0[a] && self.levels@[a] == old(self).levels@[a] by {
                            assert(t1.contains_key(a));
                        }
                        lemma_loading_reached(t1, self.boot, self.levels@, self.root(), cur);
                        assert(is_branch(t1, x, idx as int) && self.levels@[x] == 0);
                    }
                    return (false, Ghost(cur));
                }
                let child = pa_to_va(&self.boot, entry.physical_address());
                if self.store.find(child).is_some() {
                    proof {
                        assert forall|a: u64| t0.contains_key(a) implies #[trigger] self.tables().contains_key(a)
                            && self.tables()[a] == t0[a] && self.levels@[a] == old(self).levels@[a] by {
                            assert(t1.contains_key(a));
                        }
                        lemma_loading_reached(t1, self.boot, self.levels@, self.root(), cur);
                        assert(is_branch(t1, x, idx as int));
                        assert(child == child_table(self.boot, t1[x][idx as int]));
                        if child != self.root() {
                            let (a2, j2) = choose|a2: u64, j2: int| #[trigger] cur.contains((a2, j2))
                                && is_branch(t1, a2, j2) && child_table(self.boot, t1[a2][j2]) == child;
                            assert(!cur.contains((x, idx as int)));
                            assert(shared_target(t1, self.boot, x, idx as int));
                        }
                    }
                    return (false, Ghost(cur));
                }
                let ghost lv1 = self.levels@;
                let ghost cur2 = cur.insert((x, idx as int));
                let ci = self.store.push_table(child);
                let values = read(child);
                self.store.fill(ci, &values);
                proof {
                    self.levels@ = lv1.insert(child, (level - 1) as int);
                    let lv2 = self.levels@;
                    let t2 = self.tables();
                    assert(t2 =~= t1.insert(child, values@));
                    assert(!t1.contains_key(child));
                    assert(is_branch(t1, x, idx as int));
                    assert(child == child_table(self.boot, t1[x][idx as int]));
                    assert forall|a: u64| #[trigger] t2.contains_key(a) && !t0.contains_key(a)
                        implies exists|v: [u64; 512]| read.ensures((a,), v) && v@ == t2[a] by {
                        if a == child {
                            assert(read.ensures((child,), values) && values@ == t2[child]);
                        } else {
                            assert(t1.contains_key(a));
                        }
                    }
                    assert forall|a: u64| t0.contains_key(a) implies #[trigger] t2.contains_key(a)
                        && t2[a] == t0[a] && lv2[a] == old(self).levels@[a] by {
                        assert(t1.contains_key(a));
                    }
                    assert(lv2.dom() =~= t2.dom());
                    assert forall|a: u64| #[trigger] t2.contains_key(a) implies 0 <= lv2[a] <= 3 && t2[a].len() == 512 by {
                        if a != child {
                            assert(t1.contains_key(a));
                        }
                    }
                    assert forall|a: u64, j: int| #[trigger] cur.contains((a, j))
                        implies t2.contains_key(a) && 0 <= j < 512 && entry_fits(t2, self.boot, lv2, a, j) by {
                        assert(t1.contains_key(a) && entry_fits(t1, self.boot, lv1, a, j));
                        assert(a != child);
                        if is_branch(t2, a, j) {
                            assert(is_branch(t1, a, j));
                        }
                    }
                    assert(is_branch(t2, x, idx as int) && t2[x][idx as int] == t1[x][idx as int]);
                    assert forall|a: u64, j: int| #[trigger] cur2.contains((a, j))
                        implies t2.contains_key(a) && 0 <= j < 512 && entry_fits(t2, self.boot, lv2, a, j) by {
                        if !(a == x && j == idx) {
                            assert(cur.contains((a, j)));
                        }
                    }
                    assert forall|a1: u64, j1: int, a2: u64, j2: int|
                        #[trigger] cur2.contains((a1, j1)) && #[trigger] cur2.contains((a2, j2))
                        && is_branch(t2, a1, j1) && is_branch(t2, a2, j2)
                        && child_table(self.boot, t2[a1][j1]) == child_table(self.boot, t2[a2][j2]) implies a1 == a2 && j1 == j2 by {
                        if (a1 == x && j1 == idx) != (a2 == x && j2 == idx) {
                            let (b, k) = if a1 == x && j1 == idx { (a2, j2) } else { (a1, j1) };
                            assert(cur.contains((b, k)));
                            assert(t1.contains_key(b) && entry_fits(t1, self.boot, lv1, b, k));
                            assert(is_branch(t1, b, k));
                            assert(t1.contains_key(child_table(self.boot, t1[b][k])));
                        } else if !(a1 == x && j1 == idx) {
                            assert(cur.contains((a1, j1)) && cur.contains((a2, j2)));
                            assert(t1.contains_key(a1) && t1.contains_key(a2));
                            assert(is_branch(t1, a1, j1) && is_branch(t1, a2, j2));
                        }
                    }
                    assert forall|c: u64| #[trigger] t2.contains_key(c) && c != self.root() implies exists|a: u64, j: int|
                        #[trigger] cur2.contains((a, j)) && is_branch(t2, a, j) && child_table(self.boot, t2[a][j]) == c by {
                        if c == child {
                            assert(cur2.contains((x, idx as int)));
                        } else {
                            assert(t1.contains_key(c));
                            let (a, j) = choose|a: u64, j: int| #[trigger] cur.contains((a, j))
                                && is_branch(t1, a, j) && child_table(self.boot, t1[a][j]) == c;
                            assert(cur2.contains((a, j)));
                            assert(t1.contains_key(a) && a != child);
                            assert(is_branch(t2, a, j));
                        }
                    }
                    assert(loading(t2, self.boot, lv2, self.root(), cur2));
                    assert forall|j: int| !cur2.contains((child, j)) by {
                        if cur2.contains((child, j)) {
                            assert(cur.contains((child, j)));
                            assert(t1.contains_key(child));
                        }
                    }
                }
                let ghost t2 = self.tables();
                let ghost lv2 = self.levels@;
                let ghost addrs2 = self.store.addrs@;
                proof {
                    assert(t2.contains_key(x));
                    assert forall|a: u64| t0.contains_key(a) implies #[trigger] t2.contains_key(a)
                        && t2[a] == t0[a] && lv2[a] == old(self).levels@[a] by {
                        assert(t1.contains_key(a));
                    }
                }
                let (ok, Ghost(next)) = self.load_table(ci, level - 1, read, Ghost(cur2));
                proof {
                    let t3 = self.tables();
                    assert forall|a: u64| t0.contains_key(a) implies #[trigger] t3.contains_key(a)
                        && t3[a] == t0[a] && self.levels@[a] == old(self).levels@[a] by {
                        assert(t2.contains_key(a));
                    }
                    assert forall|a: u64| #[trigger] t3.contains_key(a) && !t0.contains_key(a)
                        implies exists|v: [u64; 512]| read.ensures((a,), v) && v@ == t3[a] by {
                        if t2.contains_key(a) {
                            assert(t3[a] == t2[a]);
                        }
                    }
                    assert forall|i: int| 0 <= i < old(self).store.addrs@.len() implies #[trigger] self.store.addrs@[i] == old(self).store.addrs@[i] by {
                        assert(self.store.addrs@[i] == addrs2[i]);
                    }
                }
                if !ok {
                    return (false, Ghost(next));
                }
                proof {
                    let t3 = self.tables();
                    assert(addrs2[ci as int] == child);
                    assert(t2.contains_key(x) && x != child);
                    assert(t3.contains_key(x));
                    assert(self.levels@[x] == level);
                    assert forall|a: u64, j: int| #[trigger] next.contains((a, j)) <==> s.contains((a, j))
                        || ((a == x && j < idx + 1) || (t3.contains_key(a) && !t0.contains_key(a))) && 0 <= j < 512 by {
                        if t2.contains_key(a) && !t0.contains_key(a) && a != child {
                            assert(t1.contains_key(a));
                        }
                        if t3.contains_key(a) && !t2.contains_key(a) {
                            assert(a != x && !t0.contains_key(a));
                        }
                        if a == child {
                            assert(!t0.contains_key(a));
                        }
                    }
                    assert forall|a: u64, j: int| #[trigger] next.contains((a, j)) && !s.contains((a, j)) && is_branch(t3, a, j)
                        implies !t0.contains_key(child_table(self.boot, t3[a][j])) by {
                        if a == x && j == idx {
                            assert(t3[x] == t2[x] && t2[x] == t1[x]);
                            assert(!t1.contains_key(child));
                        } else if cur.contains((a, j)) {
                            assert(t1.contains_key(a) && t2.contains_key(a) && t3[a] == t2[a] && t2[a] == t1[a]);
                            assert(is_branch(t1, a, j));
                        } else {
                            assert(!cur2.contains((a, j)));
                            assert(!t2.contains_key(child_table(self.boot, t3[a][j])));
                        }
                    }
                    cur = next;
                }
            } else {
                proof {
                    assert(!is_branch(t1, x, idx as int));
                    let c2 = cur.insert((x, idx as int));
                    assert forall|a1: u64, j1: int, a2: u64, j2: int|
                        #[trigger] c2.contains((a1, j1)) && #[trigger] c2.contains((a2, j2))
                        && is_branch(t1, a1, j1) && is_branch(t1, a2, j2)
                        && child_table(self.boot, t1[a1][j1]) == child_table(self.boot, t1[a2][j2]) implies a1 == a2 && j1 == j2 by {
                        assert(cur.contains((a1, j1)) && cur.contains((a2, j2)));
                    }
                    assert forall|c: u64| #[trigger] t1.contains_key(c) && c != self.root() implies exists|a: u64, j: int|
                        #[trigger] c2.contains((a, j)) && is_branch(t1, a, j) && child_table(self.boot, t1[a][j]) == c by {
                        let (a, j) = choose|a: u64, j: int| #[trigger] cur.contains((a, j))
                            && is_branch(t1, a, j) && child_table(self.boot, t1[a][j]) == c;
                        assert(c2.contains((a, j)));
                    }
                    cur = c2;
                }
            }
            idx += 1;
        }
        (true, Ghost(cur))
    }
}

impl PageTableRoot {
    /// Read in the page tables under the root table at `root_va`: `read`
    /// supplies the 512 entries of the table at a virtual address, and the
    /// tables are followed from the root, depth first, through the branch
    /// entries. `None` when they do not form a tree: the tables read in,
    /// each hanging from the root, hold a branch entry in a last-level
    /// table, a branch back to the root, or two branch entries to one table.
    pub fn load<F: Fn(u64) -> [u64; 512]>(root_va: u64, boot: BootInfo, read: F) -> (r: Option<Self>)
        requires
            forall|a: u64| read.requires((a,)),
        ensures
            r matches Some(p) ==> {
                &&& p.wf()
                &&& p.root() == root_va
                &&& p.boot() == boot
                &&& forall|a: u64| #[trigger] p.tables().contains_key(a)
                    ==> exists|v: [u64; 512]| read.ensures((a,), v) && v@ == p.tables()[a]
                &&& exists|lv: Map<u64, int>| reached_from_root(p.tables(), boot, lv, root_va)
            },
            r is None ==> exists|t: TableMap, lv: Map<u64, int>| {
                &&& #[trigger] reached_from_root(t, boot, lv, root_va)
                &&& breaks_tree(t, boot, lv, root_va)
                &&& forall|a: u64| #[trigger] t.contains_key(a)
                    ==> exists|v: [u64; 512]| read.ensures((a,), v) && v@ == t[a]
            },
    {
        let mut store = TableStore::new();
        store.push_table(root_va);
        let values = read(root_va);
        store.fill(0, &values);
        let ghost lv = Map::<u64, int>::empty().insert(root_va, 3int);
        let mut me = PageTableRoot { addr: VirtualAddress::new(root_va), boot, store, levels: Ghost(lv) };
        let ghost t0 = me.tables();
        proof {
            assert(t0 =~= Map::<u64, Seq<u64>>::empty().insert(root_va, values@));
            assert(lv.dom() =~= t0.dom());
            assert(loading(t0, boot, lv, root_va, Set::empty()));
        }
        let (ok, Ghost(done)) = me.load_table(0, 3, &read, Ghost(Set::empty()));
        proof {
            let t = me.tables();
            assert forall|a: u64| #[trigger] t.contains_key(a)
                implies exists|v: [u64; 512]| read.ensures((a,), v) && v@ == t[a] by {
                if a == root_va {
                    assert(t0.contains_key(a));
                    assert(read.ensures((root_va,), values) && values@ == t[a]);
                }
            }
        }
        if !ok {
            proof {
                assert(reached_from_root(me.tables(), boot, me.levels@, root_va));
            }
            return None;
        }
        proof {
            let t = me.tables();
            assert forall|a: u64, j: int| t.contains_key(a) && 0 <= j < 512 implies #[trigger] done.contains((a, j)) by {
                if a != root_va {
                    assert(!t0.contains_key(a));
                }
            }
            lemma_loaded_tree(t, boot, me.levels@, root_va, done);
            lemma_loading_reached(t, boot, me.levels@, root_va, done);
        }
        Some(me)
    }

    /// Every page-table page with its 512 entries, to be written to the
    /// page it lives in.
    pub fn table_pages(&self) -> (r: Vec<(u64, Vec<u64>)>)
        requires
            self.wf(),
        ensures
            forall|i: int| 0 <= i < r@.len() ==> #[trigger] self.tables().contains_key(r@[i].0)
                && r@[i].1@ == self.tables()[r@[i].0],
            forall|a: u64| #[trigger] self.tables().contains_key(a) ==> exists|i: int| 0 <= i < r@.len() && r@[i].0 == a,
    {
        let mut out: Vec<(u64, Vec<u64>)> = Vec::new();
        let mut i: usize = 0;
        while i < self.store.addrs.len()
            invariant
                self.wf(),
                i <= self.store.addrs@.len(),
                out@.len() == i,
                forall|k: int| 0 <= k < i ==> (#[trigger] out@[k]).0 == self.store.addrs@[k]
                    && out@[k].1@ == self.tables()[self.store.addrs@[k]],
            decreases self.store.addrs@.len() - i,
        {
            let a = self.store.addrs[i];
            let mut entries: Vec<u64> = Vec::new();
            let mut j: usize = 0;
            proof {
                assert(self.store.addrs@.contains(a));
            }
            while j < ENTRIES_PER_TABLE
                invariant
                    self.wf(),
                    i < self.store.addrs@.len(),
                    a == self.store.addrs@[i as int],
                    self.tables().contains_key(a),
                    j <= 512,
                    entries@ == self.tables()[a].take(j as int),
                decreases 512 - j,
            {
                let e = self.store.read(i, j);
                entries.push(e.raw());
                proof {
                    assert(entries@ =~= self.tables()[a].take(j + 1));
                }
                j += 1;
            }
            proof {
                assert(self.tables()[a].len() == 512);
                assert(entries@ =~= self.tables()[a]);
            }
            out.push((a, entries));
            i += 1;
        }
        proof {
            assert forall|a: u64| #[trigger] self.tables().contains_key(a) implies exists|i: int| 0 <= i < out@.len() && out@[i].0 == a by {
                assert(self.store.addrs@.contains(a));
                let k = choose|k: int| 0 <= k < self.store.addrs@.len() && self.store.addrs@[k] == a;
                assert(out@[k].0 == a);
            }
            assert forall|k: int| 0 <= k < out@.len() implies #[trigger] self.tables().contains_key(out@[k].0)
                && out@[k].1@ == self.tables()[out@[k].0] by {
                assert(self.store.addrs@.contains(self.store.addrs@[k]));
            }
        }
        out
    }
}
} // verus!
