//! ACPI tables: the RSDP, the XSDT and the MADT, MCFG, SPCR and RHCT
//! readers, over a captured image of the memory that holds them.
use vstd::prelude::*;
use crate::limine::{BootInfo, pa_to_va, spec_pa_to_va, va_to_pa, spec_va_to_pa, va_to_pa_defined};
use crate::memory_image::{MemoryImage, pow256};

verus! {

/// Virtual prefix under which device physical addresses are mapped.
pub const KERNEL_IO_ADDR: u64 = 0xffff_beef_0000_0000;

/// The RSDP signature, "RSD PTR " (with the final space).
pub const RSDP_SIGNATURE: [u8; 8] = [0x52, 0x53, 0x44, 0x20, 0x50, 0x54, 0x52, 0x20];
/// Table signatures: "BGRT", "FACP", "RHCT", "APIC" (the MADT), "SPCR",
/// "MCFG" and "XSDT".
pub const SIG_BGRT: [u8; 4] = [0x42, 0x47, 0x52, 0x54];
pub const SIG_FACP: [u8; 4] = [0x46, 0x41, 0x43, 0x50];
pub const SIG_RHCT: [u8; 4] = [0x52, 0x48, 0x43, 0x54];
pub const SIG_APIC: [u8; 4] = [0x41, 0x50, 0x49, 0x43];
pub const SIG_SPCR: [u8; 4] = [0x53, 0x50, 0x43, 0x52];
pub const SIG_MCFG: [u8; 4] = [0x4d, 0x43, 0x46, 0x47];
pub const SIG_XSDT: [u8; 4] = [0x58, 0x53, 0x44, 0x54];

/// The `n` bytes of the image from virtual address `a`.
pub open spec fn bytes_at(mem: MemoryImage, a: int, n: nat) -> Seq<u8> {
    Seq::new(n, |i: int| mem.byte_at(a + i))
}

/// RSDP fields used by ACPI version 1 (20 bytes).
pub struct RsdtRawV1 {
    pub signature: [u8; 8],
    pub checksum: u8,
    pub oem_id: [u8; 6],
    pub revision: u8,
    pub rsdt_addr: u32,
}

/// RSDP fields of ACPI version 2 or later (36 bytes): the version-1 prefix,
/// then the table length, the XSDT address at byte 24, the extended
/// checksum and reserved bytes.
pub struct RsdtRawV2 {
    pub rawv1: RsdtRawV1,
    pub length: u32,
    pub xsdt_addr: u64,
    pub extended_checksum: u8,
    pub reservedd: [u8; 3],
}

/// Header at the start of each ACPI description table (36 bytes).
pub struct DescriptionHeader {
    pub signature: [u8; 4],
    pub length: u32,
    pub revision: u8,
    pub checksum: u8,
    pub oem_id: [u8; 6],
    pub oem_table_id: u64,
    pub oem_revision: u32,
    pub creator_id: u32,
    pub creator_revision: u32,
}

/// The XSDT: its header, followed by 64-bit physical table addresses.
pub struct XsdtRaw {
    pub header: DescriptionHeader,
}

/// An ACPI table address after physical-to-virtual conversion.
#[derive(Clone, Copy, Debug, PartialEq, Eq, Structural)]
pub struct VirtualAddress {
    pub virtual_address: u64,
}

impl VirtualAddress {
    /// The kernel virtual address of an ACPI physical address.
    fn new_from_phys(boot: &BootInfo, physical_address: u64) -> (r: Self)
        ensures
            r.virtual_address == spec_pa_to_va(*boot, physical_address),
    {
        Self { virtual_address: pa_to_va(boot, physical_address) }
    }

    /// This address plus a byte offset, which must not overflow.
    fn add(&self, offset: u64) -> (r: Self)
        requires
            self.virtual_address + offset <= u64::MAX,
        ensures
            r.virtual_address == self.virtual_address + offset,
    {
        Self { virtual_address: self.virtual_address + offset }
    }

    /// The byte at `offset` from this address.
    fn read_u8(&self, mem: &MemoryImage, offset: u64) -> (r: u8)
        requires
            mem.wf(),
            self.virtual_address + offset <= u64::MAX,
        ensures
            r == mem.le(self.virtual_address + offset, 1),
    {
        mem.read_u8(self.virtual_address + offset)
    }

    /// The 16-bit value at `offset` from this address.
    fn read_u16(&self, mem: &MemoryImage, offset: u64) -> (r: u16)
        requires
            mem.wf(),
            self.virtual_address + offset <= u64::MAX,
        ensures
            r == mem.le(self.virtual_address + offset, 2),
    {
        mem.read_u16(self.virtual_address + offset)
    }

    /// The 32-bit value at `offset` from this address.
    fn read_u32(&self, mem: &MemoryImage, offset: u64) -> (r: u32)
        requires
            mem.wf(),
            self.virtual_address + offset <= u64::MAX,
        ensures
            r == mem.le(self.virtual_address + offset, 4),
    {
        mem.read_u32(self.virtual_address + offset)
    }

    /// The 64-bit value at `offset` from this address.
    fn read_u64(&self, mem: &MemoryImage, offset: u64) -> (r: u64)
        requires
            mem.wf(),
            self.virtual_address + offset <= u64::MAX,
        ensures
            r == mem.le(self.virtual_address + offset, 8),
    {
        mem.read_u64(self.virtual_address + offset)
    }
}

/// The `N` bytes at `addr` equal `expected`.
fn bytes_equal<const N: usize>(mem: &MemoryImage, addr: u64, expected: &[u8; N]) -> (r: bool)
    requires
        mem.wf(),
    ensures
        r == (bytes_at(*mem, addr as int, N as nat) == expected@),
{
    let mut i: usize = 0;
    while i < N
        invariant
            mem.wf(),
            i <= N,
            expected@.len() == N,
            forall|k: int| 0 <= k < i ==> mem.byte_at(addr + k) == expected@[k],
        decreases N - i,
    {
        let b: u8 = match addr.checked_add(i as u64) {
            Some(a) => mem.byte(a),
            None => 0,
        };
        proof {
            if addr + i > u64::MAX {
                assert(mem.byte_at(addr + i) == 0) by {
                    assert(mem.base() + mem.contents().len() <= u64::MAX + 1) by {
                        assert(mem.wf());
                        mem.lemma_wf_bound();
                    }
                }
            }
        }
        if b != expected[i] {
            proof {
                assert(bytes_at(*mem, addr as int, N as nat)[i as int] != expected@[i as int]);
            }
            return false;
        }
        i += 1;
    }
    proof {
        assert(bytes_at(*mem, addr as int, N as nat) =~= expected@);
    }
    true
}


/// The 4 bytes at `addr`.
fn read_bytes4(mem: &MemoryImage, addr: u64) -> (r: [u8; 4])
    requires
        mem.wf(),
        addr + 3 <= u64::MAX,
    ensures
        r@ == bytes_at(*mem, addr as int, 4),
{
    let r = [mem.byte(addr), mem.byte(addr + 1), mem.byte(addr + 2), mem.byte(addr + 3)];
    proof { assert(r@ =~= bytes_at(*mem, addr as int, 4)); }
    r
}

/// The 6 bytes at `addr`.
fn read_bytes6(mem: &MemoryImage, addr: u64) -> (r: [u8; 6])
    requires
        mem.wf(),
        addr + 5 <= u64::MAX,
    ensures
        r@ == bytes_at(*mem, addr as int, 6),
{
    let r = [
        mem.byte(addr), mem.byte(addr + 1), mem.byte(addr + 2),
        mem.byte(addr + 3), mem.byte(addr + 4), mem.byte(addr + 5),
    ];
    proof { assert(r@ =~= bytes_at(*mem, addr as int, 6)); }
    r
}

/// The 8 bytes at `addr`.
fn read_bytes8(mem: &MemoryImage, addr: u64) -> (r: [u8; 8])
    requires
        mem.wf(),
        addr + 7 <= u64::MAX,
    ensures
        r@ == bytes_at(*mem, addr as int, 8),
{
    let r = [
        mem.byte(addr), mem.byte(addr + 1), mem.byte(addr + 2), mem.byte(addr + 3),
        mem.byte(addr + 4), mem.byte(addr + 5), mem.byte(addr + 6), mem.byte(addr + 7),
    ];
    proof { assert(r@ =~= bytes_at(*mem, addr as int, 8)); }
    r
}

impl DescriptionHeader {
    /// Read the header stored at `addr`.
    pub fn read(mem: &MemoryImage, addr: u64) -> (r: Self)
        requires
            mem.wf(),
            addr + 36 <= u64::MAX,
        ensures
            r.signature@ == bytes_at(*mem, addr as int, 4),
            r.length == mem.le(addr + 4, 4),
            r.revision == mem.le(addr + 8, 1),
            r.checksum == mem.le(addr + 9, 1),
            r.oem_id@ == bytes_at(*mem, addr + 10, 6),
            r.oem_table_id == mem.le(addr + 16, 8),
            r.oem_revision == mem.le(addr + 24, 4),
            r.creator_id == mem.le(addr + 28, 4),
            r.creator_revision == mem.le(addr + 32, 4),
    {
        DescriptionHeader {
            signature: read_bytes4(mem, addr),
            length: mem.read_u32(addr + 4),
            revision: mem.read_u8(addr + 8),
            checksum: mem.read_u8(addr + 9),
            oem_id: read_bytes6(mem, addr + 10),
            oem_table_id: mem.read_u64(addr + 16),
            oem_revision: mem.read_u32(addr + 24),
            creator_id: mem.read_u32(addr + 28),
            creator_revision: mem.read_u32(addr + 32),
        }
    }
}

/// Number of 64-bit entries in a table of `length` bytes after its header.
pub open spec fn xsdt_entry_count(length: int) -> int {
    (if length < 36 { 0 } else { length - 36 }) / 8
}

/// The kind of an ACPI table, by its signature, at virtual address `va`.
pub open spec fn table_type_at(mem: MemoryImage, va: u64) -> SystemTableType {
    let sig = bytes_at(mem, va as int, 4);
    let v = VirtualAddress { virtual_address: va };
    if sig == SIG_BGRT@ {
        SystemTableType::Bgrt(v)
    } else if sig == SIG_FACP@ {
        SystemTableType::Facs(v)
    } else if sig == SIG_RHCT@ {
        SystemTableType::Rhct(v)
    } else if sig == SIG_APIC@ {
        SystemTableType::Madt(v)
    } else if sig == SIG_SPCR@ {
        SystemTableType::Spcr(v)
    } else if sig == SIG_MCFG@ {
        SystemTableType::Mcfg(v)
    } else {
        SystemTableType::Unknown(v)
    }
}

/// A table is read by its ACPI signature, the four ASCII bytes at its
/// start: "BGRT", "FACP", "RHCT", "APIC" (the MADT), "SPCR" and "MCFG" name
/// those tables and any other signature an unknown one; the reader keeps
/// the table's address.
pub proof fn lemma_table_kinds(mem: MemoryImage, va: u64)
    ensures
        (table_type_at(mem, va) == SystemTableType::Bgrt(VirtualAddress { virtual_address: va }))
            == (bytes_at(mem, va as int, 4) == seq![0x42u8, 0x47u8, 0x52u8, 0x54u8]),
        (table_type_at(mem, va) == SystemTableType::Facs(VirtualAddress { virtual_address: va }))
            == (bytes_at(mem, va as int, 4) == seq![0x46u8, 0x41u8, 0x43u8, 0x50u8]),
        (table_type_at(mem, va) == SystemTableType::Rhct(VirtualAddress { virtual_address: va }))
            == (bytes_at(mem, va as int, 4) == seq![0x52u8, 0x48u8, 0x43u8, 0x54u8]),
        (table_type_at(mem, va) == SystemTableType::Madt(VirtualAddress { virtual_address: va }))
            == (bytes_at(mem, va as int, 4) == seq![0x41u8, 0x50u8, 0x49u8, 0x43u8]),
        (table_type_at(mem, va) == SystemTableType::Spcr(VirtualAddress { virtual_address: va }))
            == (bytes_at(mem, va as int, 4) == seq![0x53u8, 0x50u8, 0x43u8, 0x52u8]),
        (table_type_at(mem, va) == SystemTableType::Mcfg(VirtualAddress { virtual_address: va }))
            == (bytes_at(mem, va as int, 4) == seq![0x4du8, 0x43u8, 0x46u8, 0x47u8]),
        table_type_at(mem, va) is Unknown ==> table_type_at(mem, va) == SystemTableType::Unknown(VirtualAddress { virtual_address: va }),
{
    let sig = bytes_at(mem, va as int, 4);
    assert(SIG_BGRT@ =~= seq![0x42u8, 0x47u8, 0x52u8, 0x54u8]);
    assert(SIG_FACP@ =~= seq![0x46u8, 0x41u8, 0x43u8, 0x50u8]);
    assert(SIG_RHCT@ =~= seq![0x52u8, 0x48u8, 0x43u8, 0x54u8]);
    assert(SIG_APIC@ =~= seq![0x41u8, 0x50u8, 0x49u8, 0x43u8]);
    assert(SIG_SPCR@ =~= seq![0x53u8, 0x50u8, 0x43u8, 0x52u8]);
    assert(SIG_MCFG@ =~= seq![0x4du8, 0x43u8, 0x46u8, 0x47u8]);
    let sigs = seq![SIG_BGRT@, SIG_FACP@, SIG_RHCT@, SIG_APIC@, SIG_SPCR@, SIG_MCFG@];
    assert forall|i: int, j: int| 0 <= i < 6 && 0 <= j < 6 && i != j implies sigs[i] != sigs[j] by {
        assert(sigs[i][0] != sigs[j][0] || sigs[i][1] != sigs[j][1] || sigs[i][2] != sigs[j][2]);
    }
    assert(sigs[0] != sigs[1] && sigs[0] != sigs[2] && sigs[0] != sigs[3] && sigs[0] != sigs[4] && sigs[0] != sigs[5]);
    assert(sigs[1] != sigs[2] && sigs[1] != sigs[3] && sigs[1] != sigs[4] && sigs[1] != sigs[5]);
    assert(sigs[2] != sigs[3] && sigs[2] != sigs[4] && sigs[2] != sigs[5]);
    assert(sigs[3] != sigs[4] && sigs[3] != sigs[5] && sigs[4] != sigs[5]);
}

/// An ACPI table found through the XSDT, by its signature./// An ACPI table found through the XSDT, by its signature.
#[derive(Clone, Copy, Debug, PartialEq, Eq, Structural)]
pub enum SystemTableType {
    Bgrt(VirtualAddress),
    Facs(VirtualAddress),
    Rhct(VirtualAddress),
    Madt(VirtualAddress),
    Spcr(VirtualAddress),
    Mcfg(VirtualAddress),
    Unknown(VirtualAddress),
}

/// XSDT reader.
#[derive(Clone, Copy, Debug)]
pub struct Xsdt {
    vaddr: VirtualAddress,
}

impl Xsdt {
    /// Virtual address of the XSDT.
    pub closed spec fn table(&self) -> u64 {
        self.vaddr.virtual_address
    }

    /// The XSDT named by the RSDP at `rsdp_vaddr`: `None` unless the RSDP
    /// has the "RSD PTR " signature, revision 2 or later and a non-zero XSDT
    /// address.
    pub fn from_rsdp(boot: &BootInfo, mem: &MemoryImage, rsdp_vaddr: u64) -> (r: Option<Self>)
        requires
            mem.wf(),
            rsdp_vaddr + 24 <= u64::MAX,
        ensures
            r.is_some() == (bytes_at(*mem, rsdp_vaddr as int, 8) == RSDP_SIGNATURE@
                && mem.le(rsdp_vaddr + 15, 1) >= 2 && mem.le(rsdp_vaddr + 24, 8) != 0),
            r.is_some() ==> r.unwrap().table() == spec_pa_to_va(*boot, mem.le(rsdp_vaddr + 24, 8) as u64),
    {
        let rsdp = VirtualAddress { virtual_address: rsdp_vaddr };
        let signature_ok = bytes_equal(mem, rsdp_vaddr, &RSDP_SIGNATURE);
        let revision = rsdp.read_u8(mem, 15);
        if !signature_ok || revision < 2 {
            return None;
        }
        let xsdt_paddr = rsdp.read_u64(mem, 24);
        if xsdt_paddr == 0 {
            return None;
        }
        Some(Self { vaddr: VirtualAddress::new_from_phys(boot, xsdt_paddr) })
    }

    /// An iterator over the tables of this XSDT, from the first entry.
    pub fn iter(&self) -> (r: XsdtIter)
        ensures
            r.xsdt.table() == self.table(),
            r.next_entry == 0,
    {
        XsdtIter::new(self)
    }

    /// The number of entries: the table length after the 36-byte header,
    /// in 8-byte units.
    pub fn num_entries(&self, mem: &MemoryImage) -> (r: usize)
        requires
            mem.wf(),
            self.table() + 36 <= u64::MAX,
        ensures
            r == xsdt_entry_count(mem.le(self.table() + 4, 4) as int),
    {
        let header = DescriptionHeader::read(mem, self.vaddr.virtual_address);
        let table_length = header.length as u64;
        (table_length.saturating_sub(36) / 8) as usize
    }

    /// Entry `which`: the table at the physical address stored there, by
    /// its signature; `None` past the last entry.
    pub fn get_entry(&self, boot: &BootInfo, mem: &MemoryImage, which: usize) -> (r: Option<SystemTableType>)
        requires
            mem.wf(),
            self.table() + 36 <= u64::MAX,
            which < xsdt_entry_count(mem.le(self.table() + 4, 4) as int)
                ==> self.table() + 36 + 8 * which <= u64::MAX,
        ensures
            r == xsdt_entry(*mem, *boot, self.table(), which as int),
    {
        if which >= self.num_entries(mem) {
            return None;
        }
        let addr = self.vaddr.read_u64(mem, 36 + which as u64 * 8);
        let structure = VirtualAddress::new_from_phys(boot, addr);
        let va = structure.virtual_address;
        if bytes_equal(mem, va, &SIG_BGRT) {
            Some(SystemTableType::Bgrt(structure))
        } else if bytes_equal(mem, va, &SIG_FACP) {
            Some(SystemTableType::Facs(structure))
        } else if bytes_equal(mem, va, &SIG_RHCT) {
            Some(SystemTableType::Rhct(structure))
        } else if bytes_equal(mem, va, &SIG_APIC) {
            Some(SystemTableType::Madt(structure))
        } else if bytes_equal(mem, va, &SIG_SPCR) {
            Some(SystemTableType::Spcr(structure))
        } else if bytes_equal(mem, va, &SIG_MCFG) {
            Some(SystemTableType::Mcfg(structure))
        } else {
            Some(SystemTableType::Unknown(structure))
        }
    }
}

/// Walks the entries of an XSDT in order.
pub struct XsdtIter {
    pub xsdt: Xsdt,
    /// Index of the next entry.
    pub next_entry: usize,
}

impl XsdtIter {
    /// An iterator positioned at the first entry of `xsdt`.
    pub fn new(xsdt: &Xsdt) -> (r: Self)
        ensures
            r.xsdt.table() == xsdt.table(),
            r.next_entry == 0,
    {
        Self { xsdt: *xsdt, next_entry: 0 }
    }

    /// The next table, advancing past it; `None` after the last entry.
    pub fn next(&mut self, boot: &BootInfo, mem: &MemoryImage) -> (r: Option<SystemTableType>)
        requires
            mem.wf(),
            old(self).xsdt.table() + 36 <= u64::MAX,
            old(self).next_entry < xsdt_entry_count(mem.le(old(self).xsdt.table() + 4, 4) as int)
                ==> old(self).xsdt.table() + 36 + 8 * old(self).next_entry <= u64::MAX,
        ensures
            final(self).xsdt.table() == old(self).xsdt.table(),
            r == xsdt_entry(*mem, *boot, old(self).xsdt.table(), old(self).next_entry as int),
            final(self).next_entry == if r.is_some() { old(self).next_entry + 1 } else { old(self).next_entry as int },
    {
        let entry = match self.xsdt.get_entry(boot, mem, self.next_entry) {
            Some(e) => e,
            None => return None,
        };
        proof {
            mem.lemma_le_bound(self.xsdt.table() + 4, 4);
            reveal_with_fuel(pow256, 5);
            assert(pow256(4) == 0x1_0000_0000);
        }
        self.next_entry += 1;
        Some(entry)
    }
}

/// Entry `which` of the XSDT at `table`: the table at the physical address
/// stored there, by its signature; `None` past the last entry.
pub open spec fn xsdt_entry(mem: MemoryImage, boot: BootInfo, table: u64, which: int) -> Option<SystemTableType> {
    if 0 <= which < xsdt_entry_count(mem.le(table + 4, 4) as int) {
        Some(table_type_at(mem, spec_pa_to_va(boot, mem.le(table + 36 + 8 * which, 8) as u64)))
    } else {
        None
    }
}

/// Entry `w` of an XSDT is the 8-byte physical address stored at byte
/// `36 + 8 * w`, after the 36-byte table header, when those 8 bytes lie
/// within the table's length (the 4 bytes at byte 4); it names the table
/// at that address's kernel virtual address, read by its signature.
pub proof fn lemma_xsdt_entry_layout(mem: MemoryImage, boot: BootInfo, table: u64, w: int)
    ensures
        xsdt_entry(mem, boot, table, w) == if 0 <= w && 36 + 8 * w + 8 <= mem.le(table + 4, 4) {
            Some(table_type_at(mem, spec_pa_to_va(boot, mem.le(table + 36 + 8 * w, 8) as u64)))
        } else {
            None::<SystemTableType>
        },
{
    let len = mem.le(table + 4, 4) as int;
    if len >= 36 {
        vstd::arithmetic::div_mod::lemma_fundamental_div_mod(len - 36, 8);
        vstd::arithmetic::div_mod::lemma_mod_bound(len - 36, 8);
        let q = (len - 36) / 8;
        if 0 <= w {
            assert((w < q) == (36 + 8 * w + 8 <= len)) by (nonlinear_arith)
                requires len - 36 == 8 * q + (len - 36) % 8, 0 <= (len - 36) % 8 < 8, w >= 0;
        }
    } else {
        assert(xsdt_entry_count(len) == 0);
    }
}

/// The index of an XSDT walk with `n` entries after `k` calls of
/// `XsdtIter::next` from the first entry: one step per call that finds an
/// entry, none once the entries are used up.
pub open spec fn xsdt_index_after(n: int, k: nat) -> int
    decreases k,
{
    if k == 0 {
        0
    } else {
        let i = xsdt_index_after(n, (k - 1) as nat);
        if i < n { i + 1 } else { i }
    }
}

/// A walk from the first entry visits the entries in order, once each: call
/// `k` (from 0) starts at index `k` and finds entry `k` while `k < n`; every
/// later call starts at `n` and finds nothing.
pub proof fn lemma_xsdt_walk_in_order(n: int, k: nat)
    requires
        n >= 0,
    ensures
        xsdt_index_after(n, k) == if k < n { k as int } else { n },
    decreases k,
{
    if k > 0 {
        lemma_xsdt_walk_in_order(n, (k - 1) as nat);
    }
}

/// A walk over the XSDT at `table`, from `Xsdt::iter` and one `next` call
/// after another, yields on call `k` entry `k` (what `get_entry(k)` gives)
/// for each `k` below the entry count `num_entries`, so exactly that many
/// items, in order, and `None` on every call after them.
pub proof fn lemma_xsdt_walk(mem: MemoryImage, boot: BootInfo, table: u64, k: nat)
    ensures
        xsdt_entry(mem, boot, table, xsdt_index_after(xsdt_entry_count(mem.le(table + 4, 4) as int), k))
            == if k < xsdt_entry_count(mem.le(table + 4, 4) as int) {
                xsdt_entry(mem, boot, table, k as int)
            } else {
                None::<SystemTableType>
            },
        k < xsdt_entry_count(mem.le(table + 4, 4) as int) <==> xsdt_entry(mem, boot, table, k as int) is Some,
{
    let n = xsdt_entry_count(mem.le(table + 4, 4) as int);
    assert(n >= 0);
    lemma_xsdt_walk_in_order(n, k);
}

impl SystemTableType {
    /// The MADT reader, when this entry is the MADT.
    pub fn madt(&self) -> (r: Option<Madt>)
        ensures
            r.is_some() == (*self is Madt),
            r.is_some() ==> r.unwrap().table() == self->Madt_0.virtual_address,
    {
        match self {
            SystemTableType::Madt(vaddr) => Some(Madt::new(*vaddr)),
            _ => None,
        }
    }

    /// The MCFG reader, when this entry is the MCFG.
    pub fn mcfg(&self) -> (r: Option<Mcfg>)
        ensures
            r.is_some() == (*self is Mcfg),
            r.is_some() ==> r.unwrap().table() == self->Mcfg_0.virtual_address,
    {
        match self {
            SystemTableType::Mcfg(vaddr) => Some(Mcfg::new(*vaddr)),
            _ => None,
        }
    }

    /// The SPCR reader, when this entry is the SPCR.
    pub fn spcr(&self) -> (r: Option<Spcr>)
        ensures
            r.is_some() == (*self is Spcr),
            r.is_some() ==> r.unwrap().table() == self->Spcr_0.virtual_address,
    {
        match self {
            SystemTableType::Spcr(vaddr) => Some(Spcr::new(*vaddr)),
            _ => None,
        }
    }

    /// The RHCT reader, when this entry is the RHCT.
    pub fn rhct(&self) -> (r: Option<Rhct>)
        ensures
            r.is_some() == (*self is Rhct),
            r.is_some() ==> r.unwrap().table() == self->Rhct_0.virtual_address,
    {
        match self {
            SystemTableType::Rhct(vaddr) => Some(Rhct::new(*vaddr)),
            _ => None,
        }
    }
}

/// MADT fixed fields; the interrupt-controller entries follow them.
pub struct MadtRaw {
    pub header: DescriptionHeader,
    pub local_controller_addr: u32,
    pub flags: u32,
}

/// Header of a variable-length MADT entry: its type and its length.
#[derive(Clone, Copy, Debug, PartialEq, Eq, Structural)]
pub struct MadtStructureHeader {
    pub mtype: u8,
    pub length: u8,
}

/// MADT entry type of a RISC-V hart's interrupt controller.
pub const MADT_TYPE_RINTC: u8 = 24;
/// MADT entry type of the incoming MSI controller.
pub const MADT_TYPE_IMSIC: u8 = 25;
/// MADT entry type of the advanced platform-level interrupt controller.
pub const MADT_TYPE_APLIC: u8 = 26;

/// RINTC entry for one RISC-V hart (36 bytes).
#[derive(Clone, Copy, Debug, PartialEq, Eq, Structural)]
pub struct Rintc {
    pub header: MadtStructureHeader,
    pub version: u8,
    pub reserved: u8,
    pub flags: u32,
    pub hart_id: u64,
    pub acpi_processor_uid: u32,
    pub external_interrupt_controller_id: u32,
    pub imsic_base_address: u64,
    pub imsic_size: u32,
}

impl Rintc {
    /// The hardware hart ID.
    pub fn hart_id(&self) -> (r: u64)
        ensures
            r == self.hart_id,
    {
        self.hart_id
    }

    /// The IMSIC base address of this hart.
    pub fn imsic_base_address(&self) -> (r: u64)
        ensures
            r == self.imsic_base_address,
    {
        self.imsic_base_address
    }
}

/// IMSIC configuration in the MADT (16 bytes).
#[derive(Clone, Copy, Debug, PartialEq, Eq, Structural)]
pub struct Imsic {
    pub header: MadtStructureHeader,
    pub version: u8,
    pub reserved: u8,
    pub flags: u32,
    pub num_sup_interrupt_ids: u16,
    pub num_guest_interrupt_ids: u16,
    pub guest_index_bits: u8,
    pub hart_index_bits: u8,
    pub group_index_bits: u8,
    pub group_index_shift: u8,
}

impl Imsic {
    /// The IMSIC version.
    pub fn version(&self) -> (r: u8)
        ensures
            r == self.version,
    {
        self.version
    }

    /// The number of supervisor interrupt identities.
    pub fn num_sup_interrupt_ids(&self) -> (r: u16)
        ensures
            r == self.num_sup_interrupt_ids,
    {
        self.num_sup_interrupt_ids
    }

    /// The number of guest interrupt identities.
    pub fn num_guest_interrupt_ids(&self) -> (r: u16)
        ensures
            r == self.num_guest_interrupt_ids,
    {
        self.num_guest_interrupt_ids
    }

    /// The number of hart index bits.
    pub fn hart_index_bits(&self) -> (r: u8)
        ensures
            r == self.hart_index_bits,
    {
        self.hart_index_bits
    }
}

/// APLIC configuration in the MADT (36 bytes).
#[derive(Clone, Copy, Debug)]
pub struct Aplic {
    pub header: MadtStructureHeader,
    pub version: u8,
    pub aplic_id: u8,
    pub flags: u32,
    pub hardware_id: [u8; 8],
    pub num_idcs: u16,
    pub total_external_sources: u16,
    pub global_system_irq_base: u32,
    pub aplic_address: u64,
    pub aplic_size: u32,
}

impl Aplic {
    /// The APLIC MMIO address.
    pub fn aplic_address(&self) -> (r: u64)
        ensures
            r == self.aplic_address,
    {
        self.aplic_address
    }
}

/// A MADT interrupt-controller entry; `Unknown` keeps the type of any
/// other entry.
#[derive(Clone, Copy, Debug)]
pub enum MadtStructure {
    Rintc(Rintc),
    Imsic(Imsic),
    Aplic(Aplic),
    Unknown(u8),
}

/// `h` is the entry header stored at `a`.
pub open spec fn header_at(mem: MemoryImage, a: int, h: MadtStructureHeader) -> bool {
    h.mtype == mem.le(a, 1) && h.length == mem.le(a + 1, 1)
}

/// `x` holds the fields of the RINTC entry stored at `a`.
pub open spec fn rintc_at(mem: MemoryImage, a: int, x: Rintc) -> bool {
    &&& header_at(mem, a, x.header)
    &&& x.version == mem.le(a + 2, 1)
    &&& x.reserved == mem.le(a + 3, 1)
    &&& x.flags == mem.le(a + 4, 4)
    &&& x.hart_id == mem.le(a + 8, 8)
    &&& x.acpi_processor_uid == mem.le(a + 16, 4)
    &&& x.external_interrupt_controller_id == mem.le(a + 20, 4)
    &&& x.imsic_base_address == mem.le(a + 24, 8)
    &&& x.imsic_size == mem.le(a + 32, 4)
}

/// `x` holds the fields of the IMSIC entry stored at `a`.
pub open spec fn imsic_at(mem: MemoryImage, a: int, x: Imsic) -> bool {
    &&& header_at(mem, a, x.header)
    &&& x.version == mem.le(a + 2, 1)
    &&& x.reserved == mem.le(a + 3, 1)
    &&& x.flags == mem.le(a + 4, 4)
    &&& x.num_sup_interrupt_ids == mem.le(a + 8, 2)
    &&& x.num_guest_interrupt_ids == mem.le(a + 10, 2)
    &&& x.guest_index_bits == mem.le(a + 12, 1)
    &&& x.hart_index_bits == mem.le(a + 13, 1)
    &&& x.group_index_bits == mem.le(a + 14, 1)
    &&& x.group_index_shift == mem.le(a + 15, 1)
}

/// `x` holds the fields of the APLIC entry stored at `a`.
pub open spec fn aplic_at(mem: MemoryImage, a: int, x: Aplic) -> bool {
    &&& header_at(mem, a, x.header)
    &&& x.version == mem.le(a + 2, 1)
    &&& x.aplic_id == mem.le(a + 3, 1)
    &&& x.flags == mem.le(a + 4, 4)
    &&& x.hardware_id@ == bytes_at(mem, a + 8, 8)
    &&& x.num_idcs == mem.le(a + 16, 2)
    &&& x.total_external_sources == mem.le(a + 18, 2)
    &&& x.global_system_irq_base == mem.le(a + 20, 4)
    &&& x.aplic_address == mem.le(a + 24, 8)
    &&& x.aplic_size == mem.le(a + 32, 4)
}

/// `s` is the MADT entry stored at `a`, decoded by its type byte.
pub open spec fn madt_structure_at(mem: MemoryImage, a: int, s: MadtStructure) -> bool {
    let t = mem.byte_at(a);
    if t == MADT_TYPE_RINTC {
        s matches MadtStructure::Rintc(x) && rintc_at(mem, a, x)
    } else if t == MADT_TYPE_IMSIC {
        s matches MadtStructure::Imsic(x) && imsic_at(mem, a, x)
    } else if t == MADT_TYPE_APLIC {
        s matches MadtStructure::Aplic(x) && aplic_at(mem, a, x)
    } else {
        s == MadtStructure::Unknown(t)
    }
}

/// The MADT entry `s` read from address `a`, field by field at the byte
/// offsets of the RISC-V interrupt-controller structures of ACPI 6.5
/// (section 5.2.12.28 to 5.2.12.30), little-endian: type 24 is a RINTC
/// (version at 2, reserved 3, flags 4..8, hart ID 8..16, ACPI processor UID
/// 16..20, external interrupt controller ID 20..24, IMSIC base 24..32,
/// IMSIC size 32..36); type 25 an IMSIC (version 2, reserved 3, flags
/// 4..8, supported interrupt identities 8..10, guest interrupt identities
/// 10..12, guest index bits 12, hart index bits 13, group index bits 14,
/// group index shift 15); type 26 an APLIC (version 2, APLIC ID 3, flags
/// 4..8, hardware ID 8..16, number of IDCs 16..18, total external interrupt
/// sources 18..20, global system interrupt base 20..24, APLIC address
/// 24..32, APLIC size 32..36); any other type is unknown, with its type.
/// Every structure starts with its type at 0 and its length at 1.
pub open spec fn acpi_madt_fields(mem: MemoryImage, a: int, s: MadtStructure) -> bool {
    match s {
        MadtStructure::Rintc(x) => {
            &&& mem.le(a, 1) == 24
            &&& x.header.mtype == 24 && x.header.length == mem.le(a + 1, 1)
            &&& x.version == mem.le(a + 2, 1) && x.reserved == mem.le(a + 3, 1)
            &&& x.flags == mem.le(a + 4, 4)
            &&& x.hart_id == mem.le(a + 8, 8)
            &&& x.acpi_processor_uid == mem.le(a + 16, 4)
            &&& x.external_interrupt_controller_id == mem.le(a + 20, 4)
            &&& x.imsic_base_address == mem.le(a + 24, 8)
            &&& x.imsic_size == mem.le(a + 32, 4)
        },
        MadtStructure::Imsic(x) => {
            &&& mem.le(a, 1) == 25
            &&& x.header.mtype == 25 && x.header.length == mem.le(a + 1, 1)
            &&& x.version == mem.le(a + 2, 1) && x.reserved == mem.le(a + 3, 1)
            &&& x.flags == mem.le(a + 4, 4)
            &&& x.num_sup_interrupt_ids == mem.le(a + 8, 2)
            &&& x.num_guest_interrupt_ids == mem.le(a + 10, 2)
            &&& x.guest_index_bits == mem.le(a + 12, 1)
            &&& x.hart_index_bits == mem.le(a + 13, 1)
            &&& x.group_index_bits == mem.le(a + 14, 1)
            &&& x.group_index_shift == mem.le(a + 15, 1)
        },
        MadtStructure::Aplic(x) => {
            &&& mem.le(a, 1) == 26
            &&& x.header.mtype == 26 && x.header.length == mem.le(a + 1, 1)
            &&& x.version == mem.le(a + 2, 1) && x.aplic_id == mem.le(a + 3, 1)
            &&& x.flags == mem.le(a + 4, 4)
            &&& forall|i: int| 0 <= i < 8 ==> #[trigger] x.hardware_id[i] == mem.le(a + 8 + i, 1)
            &&& x.num_idcs == mem.le(a + 16, 2)
            &&& x.total_external_sources == mem.le(a + 18, 2)
            &&& x.global_system_irq_base == mem.le(a + 20, 4)
            &&& x.aplic_address == mem.le(a + 24, 8)
            &&& x.aplic_size == mem.le(a + 32, 4)
        },
        MadtStructure::Unknown(t) => {
            &&& t == mem.le(a, 1)
            &&& t != 24 && t != 25 && t != 26
        },
    }
}

/// Offset, from the start of the MADT at `t` whose length is `len`, of
/// entry `k`: the entries start after the 44 fixed bytes and each is as
/// long as its length byte. `None` where one of the first `k` entries does
/// not fit in the table or is shorter than its 2-byte header.
pub open spec fn madt_entry_offset(mem: MemoryImage, t: int, len: int, k: nat) -> Option<int>
    decreases k,
{
    if k == 0 {
        Some(44)
    } else {
        match madt_entry_offset(mem, t, len, (k - 1) as nat) {
            None => None,
            Some(off) => {
                let l = mem.byte_at(t + off + 1) as int;
                if off + 2 > len || l < 2 || off + l > len {
                    None
                } else {
                    Some(off + l)
                }
            },
        }
    }
}

/// Once an entry on the way does not fit, no later entry is found.
proof fn lemma_madt_offset_stays_none(mem: MemoryImage, t: int, len: int, j: nat, k: nat)
    requires
        madt_entry_offset(mem, t, len, j) is None,
        j <= k,
    ensures
        madt_entry_offset(mem, t, len, k) is None,
    decreases k - j,
{
    if j < k {
        lemma_madt_offset_stays_none(mem, t, len, j, (k - 1) as nat);
    }
}

/// The MADT at `t` whose length is `len` has an entry `k`: its offset is
/// defined and its header fits in the table.
pub open spec fn madt_has_entry(mem: MemoryImage, t: int, len: int, k: nat) -> bool {
    madt_entry_offset(mem, t, len, k) matches Some(off) && off + 2 <= len
}

/// Offset of entry `k` of the MADT at `t` when every entry before it is
/// stepped over by its length byte, starting after the 44 fixed bytes.
pub open spec fn madt_step(mem: MemoryImage, t: int, k: nat) -> int
    decreases k,
{
    if k == 0 {
        44
    } else {
        let o = madt_step(mem, t, (k - 1) as nat);
        o + mem.byte_at(t + o + 1) as int
    }
}

/// Entry `j`, reached by stepping, fits in a table of length `len`: its
/// header and all of its bytes lie within the table, and it is at least as
/// long as its 2-byte header.
pub open spec fn madt_step_fits(mem: MemoryImage, t: int, len: int, j: nat) -> bool {
    let o = madt_step(mem, t, j);
    let l = mem.byte_at(t + o + 1) as int;
    o + 2 <= len && l >= 2 && o + l <= len
}

/// Entry `k` is found exactly when every entry before it fits and its own
/// header lies within the table; it then sits at the offset reached by
/// stepping over the entries before it.
pub proof fn lemma_madt_entry_by_steps(mem: MemoryImage, t: int, len: int, k: nat)
    ensures
        madt_entry_offset(mem, t, len, k) == if forall|j: nat| j < k ==> #[trigger] madt_step_fits(mem, t, len, j) {
            Some(madt_step(mem, t, k))
        } else {
            None::<int>
        },
        madt_has_entry(mem, t, len, k) <==> (forall|j: nat| j < k ==> #[trigger] madt_step_fits(mem, t, len, j))
            && madt_step(mem, t, k) + 2 <= len,
    decreases k,
{
    if k > 0 {
        let k1 = (k - 1) as nat;
        lemma_madt_entry_by_steps(mem, t, len, k1);
        if forall|j: nat| j < k1 ==> #[trigger] madt_step_fits(mem, t, len, j) {
            if !madt_step_fits(mem, t, len, k1) {
                assert(!(forall|j: nat| j < k ==> #[trigger] madt_step_fits(mem, t, len, j)));
            } else {
                assert forall|j: nat| j < k implies #[trigger] madt_step_fits(mem, t, len, j) by {
                    if j < k1 {
                    }
                }
            }
        } else {
            let w = choose|j: nat| j < k1 && !#[trigger] madt_step_fits(mem, t, len, j);
            assert(!madt_step_fits(mem, t, len, w));
            assert(!(forall|j: nat| j < k ==> #[trigger] madt_step_fits(mem, t, len, j)));
        }
    }
}

/// Read the RINTC entry at `a`.
fn read_rintc(mem: &MemoryImage, a: u64) -> (r: Rintc)
    requires
        mem.wf(),
        a + 36 <= u64::MAX,
    ensures
        rintc_at(*mem, a as int, r),
{
    Rintc {
        header: MadtStructureHeader { mtype: mem.read_u8(a), length: mem.read_u8(a + 1) },
        version: mem.read_u8(a + 2),
        reserved: mem.read_u8(a + 3),
        flags: mem.read_u32(a + 4),
        hart_id: mem.read_u64(a + 8),
        acpi_processor_uid: mem.read_u32(a + 16),
        external_interrupt_controller_id: mem.read_u32(a + 20),
        imsic_base_address: mem.read_u64(a + 24),
        imsic_size: mem.read_u32(a + 32),
    }
}

/// Read the IMSIC entry at `a`.
fn read_imsic(mem: &MemoryImage, a: u64) -> (r: Imsic)
    requires
        mem.wf(),
        a + 16 <= u64::MAX,
    ensures
        imsic_at(*mem, a as int, r),
{
    Imsic {
        header: MadtStructureHeader { mtype: mem.read_u8(a), length: mem.read_u8(a + 1) },
        version: mem.read_u8(a + 2),
        reserved: mem.read_u8(a + 3),
        flags: mem.read_u32(a + 4),
        num_sup_interrupt_ids: mem.read_u16(a + 8),
        num_guest_interrupt_ids: mem.read_u16(a + 10),
        guest_index_bits: mem.read_u8(a + 12),
        hart_index_bits: mem.read_u8(a + 13),
        group_index_bits: mem.read_u8(a + 14),
        group_index_shift: mem.read_u8(a + 15),
    }
}

/// Read the APLIC entry at `a`.
fn read_aplic(mem: &MemoryImage, a: u64) -> (r: Aplic)
    requires
        mem.wf(),
        a + 36 <= u64::MAX,
    ensures
        aplic_at(*mem, a as int, r),
{
    Aplic {
        header: MadtStructureHeader { mtype: mem.read_u8(a), length: mem.read_u8(a + 1) },
        version: mem.read_u8(a + 2),
        aplic_id: mem.read_u8(a + 3),
        flags: mem.read_u32(a + 4),
        hardware_id: read_bytes8(mem, a + 8),
        num_idcs: mem.read_u16(a + 16),
        total_external_sources: mem.read_u16(a + 18),
        global_system_irq_base: mem.read_u32(a + 20),
        aplic_address: mem.read_u64(a + 24),
        aplic_size: mem.read_u32(a + 32),
    }
}

/// MADT reader.
#[derive(Clone, Copy, Debug)]
pub struct Madt {
    vaddr: VirtualAddress,
}

impl Madt {
    /// Virtual address of the MADT.
    pub closed spec fn table(&self) -> u64 {
        self.vaddr.virtual_address
    }

    /// A reader of the MADT at `vaddr`.
    fn new(vaddr: VirtualAddress) -> (r: Self)
        ensures
            r.vaddr == vaddr,
    {
        Self { vaddr }
    }

    /// Entry `which`, found by stepping over the entries before it;
    /// `None` where an entry on the way, or this one's header, does not
    /// fit in the table, or an entry on the way is shorter than 2 bytes.
    pub fn get_entry(&self, mem: &MemoryImage, which: usize) -> (r: Option<MadtStructure>)
        requires
            mem.wf(),
            self.table() + 8 <= u64::MAX,
            self.table() + mem.le(self.table() + 4, 4) + 36 <= u64::MAX,
        ensures
            r.is_some() == madt_has_entry(*mem, self.table() as int, mem.le(self.table() + 4, 4) as int, which as nat),
            r.is_some() ==> madt_structure_at(*mem,
                self.table() + madt_entry_offset(*mem, self.table() as int, mem.le(self.table() + 4, 4) as int, which as nat)->0,
                r.unwrap()),
            r.is_some() ==> acpi_madt_fields(*mem,
                self.table() + madt_entry_offset(*mem, self.table() as int, mem.le(self.table() + 4, 4) as int, which as nat)->0,
                r.unwrap()),
    {
        let ghost t: int = self.table() as int;
        let len: u64 = self.vaddr.read_u32(mem, 4) as u64;
        let mut offset: u64 = 44;
        let mut i: usize = 0;
        while i < which
            invariant
                mem.wf(),
                t == self.table(),
                len == mem.le(t + 4, 4),
                len <= 0xffff_ffff,
                t + len + 36 <= u64::MAX,
                i <= which,
                offset <= len || offset == 44,
                madt_entry_offset(*mem, t, len as int, i as nat) == Some(offset as int),
            decreases which - i,
        {
            if offset + 2 > len {
                proof { lemma_madt_offset_stays_none(*mem, t, len as int, (i + 1) as nat, which as nat); }
                return None;
            }
            let addr = self.vaddr.add(offset);
            let length: u64 = addr.read_u8(mem, 1) as u64;
            proof { mem.lemma_le_one(t + offset + 1); }
            if length < 2 || offset + length > len {
                proof { lemma_madt_offset_stays_none(*mem, t, len as int, (i + 1) as nat, which as nat); }
                return None;
            }
            offset += length;
            i += 1;
        }
        if offset + 2 > len {
            return None;
        }
        let addr = self.vaddr.add(offset);
        let a = addr.virtual_address;
        let mtype = addr.read_u8(mem, 0);
        proof { mem.lemma_le_one(a as int); }
        let s = if mtype == MADT_TYPE_RINTC {
            MadtStructure::Rintc(read_rintc(mem, a))
        } else if mtype == MADT_TYPE_IMSIC {
            MadtStructure::Imsic(read_imsic(mem, a))
        } else if mtype == MADT_TYPE_APLIC {
            MadtStructure::Aplic(read_aplic(mem, a))
        } else {
            MadtStructure::Unknown(mtype)
        };
        proof { lemma_madt_fields(*mem, a as int, s); }
        Some(s)
    }
}

/// An entry decoded by its type byte holds the fields of its ACPI
/// structure at their ACPI byte offsets.
pub proof fn lemma_madt_fields(mem: MemoryImage, a: int, s: MadtStructure)
    requires
        madt_structure_at(mem, a, s),
    ensures
        acpi_madt_fields(mem, a, s),
{
    mem.lemma_le_one(a);
    if let MadtStructure::Aplic(x) = s {
        assert forall|i: int| 0 <= i < 8 implies #[trigger] x.hardware_id[i] == mem.le(a + 8 + i, 1) by {
            mem.lemma_le_one(a + 8 + i);
            assert(x.hardware_id@[i] == bytes_at(mem, a + 8, 8)[i]);
        }
    }
}


/// MCFG fixed fields; the PCI ECAM allocation entries follow them.
pub struct McfgRaw {
    pub header: DescriptionHeader,
    pub reserved: u64,
}

/// Number of 16-byte entries in an MCFG of `length` bytes after its 44
/// fixed bytes.
pub open spec fn mcfg_entry_count(length: int) -> int {
    (if length < 44 { 0 } else { length - 44 }) / 16
}

/// One PCI ECAM allocation entry (16 bytes).
#[derive(Clone, Copy, Debug, PartialEq, Eq, Structural)]
pub struct McfgEntry {
    pub base: u64,
    pub pci_seg_group: u16,
    pub start_bus: u8,
    pub end_bus: u8,
    pub reserved: u32,
}

/// `e` holds the fields of the ECAM entry stored at `a`.
pub open spec fn mcfg_entry_at(mem: MemoryImage, a: int, e: McfgEntry) -> bool {
    &&& e.base == mem.le(a, 8)
    &&& e.pci_seg_group == mem.le(a + 8, 2)
    &&& e.start_bus == mem.le(a + 10, 1)
    &&& e.end_bus == mem.le(a + 11, 1)
    &&& e.reserved == mem.le(a + 12, 4)
}

/// MCFG reader.
#[derive(Clone, Copy, Debug)]
pub struct Mcfg {
    vaddr: VirtualAddress,
}

impl Mcfg {
    /// Virtual address of the MCFG.
    pub closed spec fn table(&self) -> u64 {
        self.vaddr.virtual_address
    }

    /// A reader of the MCFG at `vaddr`.
    fn new(vaddr: VirtualAddress) -> (r: Self)
        ensures
            r.vaddr == vaddr,
    {
        Self { vaddr }
    }

    /// The number of ECAM allocation entries.
    pub fn num_entries(&self, mem: &MemoryImage) -> (r: usize)
        requires
            mem.wf(),
            self.table() + 8 <= u64::MAX,
        ensures
            r == mcfg_entry_count(mem.le(self.table() + 4, 4) as int),
    {
        let length: u64 = self.vaddr.read_u32(mem, 4) as u64;
        (length.saturating_sub(44) / 16) as usize
    }

    /// ECAM entry `which`; `None` past the last entry.
    pub fn get_entry(&self, mem: &MemoryImage, which: usize) -> (r: Option<McfgEntry>)
        requires
            mem.wf(),
            self.table() + 8 <= u64::MAX,
            self.table() + mem.le(self.table() + 4, 4) <= u64::MAX,
        ensures
            r.is_some() == (which < mcfg_entry_count(mem.le(self.table() + 4, 4) as int)),
            r.is_some() ==> mcfg_entry_at(*mem, self.table() + 44 + 16 * which, r.unwrap()),
            r matches Some(e) ==> {
                let a = self.table() + 44 + 16 * which;
                &&& e.base == mem.le(a, 8)
                &&& e.pci_seg_group == mem.le(a + 8, 2)
                &&& e.start_bus == mem.le(a + 10, 1)
                &&& e.end_bus == mem.le(a + 11, 1)
                &&& e.reserved == mem.le(a + 12, 4)
            },
    {
        if which >= self.num_entries(mem) {
            return None;
        }
        let addr = self.vaddr.add(44 + which as u64 * 16);
        let a = addr.virtual_address;
        Some(McfgEntry {
            base: mem.read_u64(a),
            pci_seg_group: mem.read_u16(a + 8),
            start_bus: mem.read_u8(a + 10),
            end_bus: mem.read_u8(a + 11),
            reserved: mem.read_u32(a + 12),
        })
    }
}

/// ACPI Generic Address Structure.
#[derive(Clone, Copy, Debug, PartialEq, Eq, Structural)]
pub struct GenericAddress {
    pub address_space_id: u8,
    pub register_bit_width: u8,
    pub register_bit_offset: u8,
    pub access_size: u8,
    pub address: u64,
}

/// SPCR table fields.
pub struct SpcrRaw {
    pub header: DescriptionHeader,
    /// 0 for a full 16550, 1 for a 16450.
    pub interface_type: u8,
    pub reserved1: [u8; 3],
    pub base_address: GenericAddress,
    /// Bit 4 set where the interrupt is supported.
    pub interrupt_type: u8,
    pub irq: u8,
    pub global_system_interrupt: u32,
    /// 7 for 115200 baud.
    pub configured_baud_rate: u8,
    pub parity: u8,
    pub stop_bits: u8,
    pub flow_control: u8,
    pub terminal_type: u8,
    pub language: u8,
    pub pci_dev_id: u16,
    pub pci_ven_id: u16,
    pub pci_bus_num: u8,
    pub pci_dev_num: u8,
    pub pci_func_num: u8,
    pub pci_flags: u32,
    pub pci_seg: u8,
    pub uart_freq: u32,
    pub precise_baud: u32,
    /// Namespace string length, NUL included.
    pub namespace_str_len: u16,
    /// Namespace string offset from the start of the table.
    pub namespace_str_off: u16,
}

/// SPCR reader.
#[derive(Clone, Copy, Debug)]
pub struct Spcr {
    vaddr: VirtualAddress,
}

impl Spcr {
    /// Virtual address of the SPCR.
    pub closed spec fn table(&self) -> u64 {
        self.vaddr.virtual_address
    }

    /// A reader of the SPCR at `vaddr`.
    fn new(vaddr: VirtualAddress) -> (r: Self)
        ensures
            r.vaddr == vaddr,
    {
        Self { vaddr }
    }

    /// The UART base address (byte 44).
    pub fn base_address(&self, mem: &MemoryImage) -> (r: u64)
        requires
            mem.wf(),
            self.table() + 52 <= u64::MAX,
        ensures
            r == mem.le(self.table() + 44, 8),
    {
        self.vaddr.read_u64(mem, 44)
    }

    /// The UART address-space ID (byte 40).
    pub fn address_space_id(&self, mem: &MemoryImage) -> (r: u8)
        requires
            mem.wf(),
            self.table() + 41 <= u64::MAX,
        ensures
            r == mem.le(self.table() + 40, 1),
    {
        self.vaddr.read_u8(mem, 40)
    }

    /// The UART interrupt type flags (byte 52).
    pub fn interrupt_type(&self, mem: &MemoryImage) -> (r: u8)
        requires
            mem.wf(),
            self.table() + 53 <= u64::MAX,
        ensures
            r == mem.le(self.table() + 52, 1),
    {
        self.vaddr.read_u8(mem, 52)
    }

    /// The UART IRQ number (byte 53).
    pub fn irq(&self, mem: &MemoryImage) -> (r: u8)
        requires
            mem.wf(),
            self.table() + 54 <= u64::MAX,
        ensures
            r == mem.le(self.table() + 53, 1),
    {
        self.vaddr.read_u8(mem, 53)
    }

    /// The UART clock frequency in hertz (byte 76).
    pub fn uart_frequency(&self, mem: &MemoryImage) -> (r: u32)
        requires
            mem.wf(),
            self.table() + 80 <= u64::MAX,
        ensures
            r == mem.le(self.table() + 76, 4),
    {
        self.vaddr.read_u32(mem, 76)
    }
}

/// RHCT table fields; the nodes follow them.
pub struct RhctRaw {
    pub header: DescriptionHeader,
    pub flags: u32,
    pub time_base_freq: u64,
    pub num_nodes: u32,
    pub offset_to_nodes: u32,
}

/// Header of one variable-length RHCT node.
#[derive(Clone, Copy, Debug, PartialEq, Eq, Structural)]
pub struct RhctNodeHeader {
    pub node_type: u16,
    pub length: u16,
    pub revision: u16,
}

/// RHCT reader.
#[derive(Clone, Copy, Debug)]
pub struct Rhct {
    vaddr: VirtualAddress,
}

impl Rhct {
    /// Virtual address of the RHCT.
    pub closed spec fn table(&self) -> u64 {
        self.vaddr.virtual_address
    }

    /// A reader of the RHCT at `vaddr`.
    fn new(vaddr: VirtualAddress) -> (r: Self)
        ensures
            r.vaddr == vaddr,
    {
        Self { vaddr }
    }

    /// The RISC-V timer frequency in hertz (byte 40).
    pub fn time_base_freq(&self, mem: &MemoryImage) -> (r: u64)
        requires
            mem.wf(),
            self.table() + 48 <= u64::MAX,
        ensures
            r == mem.le(self.table() + 40, 8),
    {
        self.vaddr.read_u64(mem, 40)
    }

    /// The number of RHCT nodes (byte 48).
    pub fn num_nodes(&self, mem: &MemoryImage) -> (r: u32)
        requires
            mem.wf(),
            self.table() + 52 <= u64::MAX,
        ensures
            r == mem.le(self.table() + 48, 4),
    {
        self.vaddr.read_u32(mem, 48)
    }

    /// The virtual address of the RHCT.
    pub fn virtual_address(&self) -> (r: u64)
        ensures
            r == self.table(),
    {
        self.vaddr.virtual_address
    }

    /// The physical address of the RHCT.
    pub fn physical_address(&self, boot: &BootInfo) -> (r: u64)
        requires
            va_to_pa_defined(*boot, self.table()),
        ensures
            r == spec_va_to_pa(*boot, self.table()),
    {
        va_to_pa(boot, self.virtual_address())
    }
}

/// RHCT MMU capability node.
pub struct RhctMmuNode {
    pub header: RhctNodeHeader,
    pub reserved: u8,
    pub mmu_type: u8,
}

/// RHCT ISA string node; the string starts at byte 8.
pub struct RhctIsaNode {
    pub header: RhctNodeHeader,
    /// String length, NUL included.
    pub isa_length: u16,
}

/// RHCT hart capability node; a 32-bit offset follows for each node it
/// refers to.
pub struct RhctHartNode {
    pub header: RhctNodeHeader,
    pub num_offsets: u16,
    pub acpi_uid: u32,
}


/// The hardware values gathered from the ACPI tables at boot: the first
/// hart's IMSIC and the first APLIC found in the MADT entries, the PCI ECAM
/// base of the MCFG's first entry, the UART of an SPCR in system memory,
/// and the RHCT's timer frequency. Later MCFG, SPCR and RHCT tables replace
/// what earlier ones gave.
#[derive(Clone, Copy, Debug, PartialEq, Eq, Structural)]
pub struct AcpiFindings {
    pub aplic_address: Option<u64>,
    pub imsic_address: Option<u64>,
    pub ecam_address: Option<u64>,
    pub uart_address: Option<u64>,
    pub timer_frequency: Option<u64>,
}

impl AcpiFindings {
    /// Nothing found yet.
    pub fn new() -> (r: Self)
        ensures
            r.aplic_address is None,
            r.imsic_address is None,
            r.ecam_address is None,
            r.uart_address is None,
            r.timer_frequency is None,
    {
        AcpiFindings {
            aplic_address: None,
            imsic_address: None,
            ecam_address: None,
            uart_address: None,
            timer_frequency: None,
        }
    }

    /// Take in one MADT entry: a hart's IMSIC base when none is known yet,
    /// an APLIC's address when none is known yet. Returns whether the entry
    /// gave the APLIC address.
    pub fn observe_madt_entry(&mut self, entry: &MadtStructure) -> (r: bool)
        ensures
            final(self).imsic_address == match *entry {
                MadtStructure::Rintc(x) => if old(self).imsic_address is None {
                    Some(x.imsic_base_address)
                } else {
                    old(self).imsic_address
                },
                _ => old(self).imsic_address,
            },
            r == (*entry is Aplic && old(self).aplic_address is None),
            final(self).aplic_address == if r { Some(entry->Aplic_0.aplic_address) } else { old(self).aplic_address },
            final(self).ecam_address == old(self).ecam_address,
            final(self).uart_address == old(self).uart_address,
            final(self).timer_frequency == old(self).timer_frequency,
    {
        match entry {
            MadtStructure::Rintc(rintc) => {
                if self.imsic_address.is_none() {
                    self.imsic_address = Some(rintc.imsic_base_address());
                }
                false
            },
            MadtStructure::Aplic(aplic) => {
                if self.aplic_address.is_none() {
                    self.aplic_address = Some(aplic.aplic_address());
                    true
                } else {
                    false
                }
            },
            _ => false,
        }
    }

    /// Take in an MCFG whose first ECAM entry is `first`: its base, or no
    /// address when the table has no entry.
    pub fn observe_mcfg(&mut self, first: Option<McfgEntry>)
        ensures
            final(self).ecam_address == match first {
                Some(e) => Some(e.base),
                None => None::<u64>,
            },
            final(self).aplic_address == old(self).aplic_address,
            final(self).imsic_address == old(self).imsic_address,
            final(self).uart_address == old(self).uart_address,
            final(self).timer_frequency == old(self).timer_frequency,
    {
        self.ecam_address = match first {
            Some(e) => Some(e.base),
            None => None,
        };
    }

    /// Take in an SPCR whose UART lies in address space `address_space_id`
    /// at `base_address`: the UART is kept only in system memory (space 0).
    /// Returns whether it was kept.
    pub fn observe_spcr(&mut self, address_space_id: u8, base_address: u64) -> (r: bool)
        ensures
            r == (address_space_id == 0),
            final(self).uart_address == if r { Some(base_address) } else { old(self).uart_address },
            final(self).aplic_address == old(self).aplic_address,
            final(self).imsic_address == old(self).imsic_address,
            final(self).ecam_address == old(self).ecam_address,
            final(self).timer_frequency == old(self).timer_frequency,
    {
        if address_space_id == 0 {
            self.uart_address = Some(base_address);
            true
        } else {
            false
        }
    }

    /// Take in an RHCT whose timer runs at `time_base_freq` hertz.
    pub fn observe_rhct(&mut self, time_base_freq: u64)
        ensures
            final(self).timer_frequency == Some(time_base_freq),
            final(self).aplic_address == old(self).aplic_address,
            final(self).imsic_address == old(self).imsic_address,
            final(self).ecam_address == old(self).ecam_address,
            final(self).uart_address == old(self).uart_address,
    {
        self.timer_frequency = Some(time_base_freq);
    }
}
} // verus!
