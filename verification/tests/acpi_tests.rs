use lib::acpi::{AcpiFindings, DescriptionHeader, MadtStructure, SystemTableType, VirtualAddress, Xsdt};
use lib::limine::BootInfo;
use lib::memory_image::MemoryImage;

const HHDM: u64 = 0xffff_8000_0000_0000;
/// Physical address where the test tables start.
const PHYS: u64 = 0x8000_0000;
/// Virtual address of the same bytes.
const VIRT: u64 = HHDM + PHYS;

fn boot() -> BootInfo {
    BootInfo::new(HHDM, 0x8020_0000, 0xffff_ffff_8000_0000)
}

fn put(bytes: &mut Vec<u8>, at: usize, data: &[u8]) {
    bytes[at..at + data.len()].copy_from_slice(data);
}

fn put_u16(bytes: &mut Vec<u8>, at: usize, v: u16) {
    put(bytes, at, &v.to_le_bytes());
}

fn put_u32(bytes: &mut Vec<u8>, at: usize, v: u32) {
    put(bytes, at, &v.to_le_bytes());
}

fn put_u64(bytes: &mut Vec<u8>, at: usize, v: u64) {
    put(bytes, at, &v.to_le_bytes());
}

/// RSDP at 0, XSDT at 0x40, MADT at 0x100, MCFG at 0x200, SPCR at 0x280,
/// RHCT at 0x300 and a FACP at 0x380.
fn tables() -> Vec<u8> {
    let mut b = vec![0u8; 0x400];
    put(&mut b, 0, b"RSD PTR ");
    b[15] = 2;
    put_u64(&mut b, 24, PHYS + 0x40);
    // XSDT with five entries.
    put(&mut b, 0x40, b"XSDT");
    put_u32(&mut b, 0x44, 36 + 5 * 8);
    for (i, off) in [0x100u64, 0x200, 0x280, 0x300, 0x380].iter().enumerate() {
        put_u64(&mut b, 0x40 + 36 + 8 * i, PHYS + off);
    }
    // MADT: two RINTC entries, an IMSIC and an APLIC.
    put(&mut b, 0x100, b"APIC");
    put_u32(&mut b, 0x104, 44 + 36 + 36 + 16 + 36);
    let r0 = 0x100 + 44;
    b[r0] = 24;
    b[r0 + 1] = 36;
    put_u64(&mut b, r0 + 8, 0);
    put_u64(&mut b, r0 + 24, 0x2800_0000);
    let r1 = r0 + 36;
    b[r1] = 24;
    b[r1 + 1] = 36;
    put_u64(&mut b, r1 + 8, 1);
    put_u64(&mut b, r1 + 24, 0x2800_1000);
    let im = r1 + 36;
    b[im] = 25;
    b[im + 1] = 16;
    b[im + 2] = 1;
    put_u16(&mut b, im + 8, 255);
    put_u16(&mut b, im + 10, 7);
    b[im + 13] = 2;
    let ap = im + 16;
    b[ap] = 26;
    b[ap + 1] = 36;
    b[ap + 3] = 5;
    put_u64(&mut b, ap + 24, 0xc00_0000);
    put_u32(&mut b, ap + 32, 0x8000);
    // MCFG with one entry.
    put(&mut b, 0x200, b"MCFG");
    put_u32(&mut b, 0x204, 44 + 16);
    put_u64(&mut b, 0x200 + 44, 0x3000_0000);
    b[0x200 + 44 + 11] = 0xff;
    // SPCR.
    put(&mut b, 0x280, b"SPCR");
    put_u32(&mut b, 0x284, 80);
    b[0x280 + 40] = 0;
    put_u64(&mut b, 0x280 + 44, 0x1000_0000);
    b[0x280 + 52] = 0x10;
    b[0x280 + 53] = 10;
    put_u32(&mut b, 0x280 + 76, 3_686_400);
    // RHCT.
    put(&mut b, 0x300, b"RHCT");
    put_u32(&mut b, 0x304, 56);
    put_u64(&mut b, 0x300 + 40, 10_000_000);
    put_u32(&mut b, 0x300 + 48, 3);
    // FACP.
    put(&mut b, 0x380, b"FACP");
    b
}

fn image() -> MemoryImage {
    MemoryImage::new(VIRT, tables())
}

fn va(off: u64) -> VirtualAddress {
    VirtualAddress { virtual_address: VIRT + off }
}

#[test]
fn rsdp_names_the_xsdt() {
    let mem = image();
    let x = Xsdt::from_rsdp(&boot(), &mem, VIRT).unwrap();
    assert_eq!(x.num_entries(&mem), 5);
}

#[test]
fn rsdp_is_refused_without_signature_revision_or_address() {
    let b = boot();
    let mut t = tables();
    t[0] = b'X';
    assert!(Xsdt::from_rsdp(&b, &MemoryImage::new(VIRT, t), VIRT).is_none());
    let mut t = tables();
    t[15] = 1;
    assert!(Xsdt::from_rsdp(&b, &MemoryImage::new(VIRT, t), VIRT).is_none());
    let mut t = tables();
    put_u64(&mut t, 24, 0);
    assert!(Xsdt::from_rsdp(&b, &MemoryImage::new(VIRT, t), VIRT).is_none());
}

#[test]
fn xsdt_entries_are_routed_by_signature() {
    let b = boot();
    let mem = image();
    let x = Xsdt::from_rsdp(&b, &mem, VIRT).unwrap();
    assert_eq!(x.get_entry(&b, &mem, 0), Some(SystemTableType::Madt(va(0x100))));
    assert_eq!(x.get_entry(&b, &mem, 1), Some(SystemTableType::Mcfg(va(0x200))));
    assert_eq!(x.get_entry(&b, &mem, 2), Some(SystemTableType::Spcr(va(0x280))));
    assert_eq!(x.get_entry(&b, &mem, 3), Some(SystemTableType::Rhct(va(0x300))));
    assert_eq!(x.get_entry(&b, &mem, 4), Some(SystemTableType::Facs(va(0x380))));
    assert_eq!(x.get_entry(&b, &mem, 5), None);
}

#[test]
fn iterator_walks_every_entry_once() {
    let b = boot();
    let mem = image();
    let x = Xsdt::from_rsdp(&b, &mem, VIRT).unwrap();
    let mut it = x.iter();
    let mut n = 0;
    while let Some(_) = it.next(&b, &mem) {
        n += 1;
    }
    assert_eq!(n, 5);
    assert_eq!(it.next_entry, 5);
    assert!(it.next(&b, &mem).is_none());
}

#[test]
fn description_header_fields() {
    let mem = image();
    let h = DescriptionHeader::read(&mem, VIRT + 0x40);
    assert_eq!(&h.signature, b"XSDT");
    assert_eq!(h.length, 76);
}

#[test]
fn madt_entries_are_stepped_over_by_length() {
    let b = boot();
    let mem = image();
    let x = Xsdt::from_rsdp(&b, &mem, VIRT).unwrap();
    let madt = x.get_entry(&b, &mem, 0).unwrap().madt().unwrap();
    match madt.get_entry(&mem, 0) {
        Some(MadtStructure::Rintc(r)) => {
            assert_eq!(r.hart_id(), 0);
            assert_eq!(r.imsic_base_address(), 0x2800_0000);
        },
        _ => panic!("entry 0 is a RINTC"),
    }
    match madt.get_entry(&mem, 1) {
        Some(MadtStructure::Rintc(r)) => {
            assert_eq!(r.hart_id(), 1);
            assert_eq!(r.imsic_base_address(), 0x2800_1000);
        },
        _ => panic!("entry 1 is a RINTC"),
    }
    match madt.get_entry(&mem, 2) {
        Some(MadtStructure::Imsic(i)) => {
            assert_eq!(i.version(), 1);
            assert_eq!(i.num_sup_interrupt_ids(), 255);
            assert_eq!(i.num_guest_interrupt_ids(), 7);
            assert_eq!(i.hart_index_bits(), 2);
        },
        _ => panic!("entry 2 is an IMSIC"),
    }
    match madt.get_entry(&mem, 3) {
        Some(MadtStructure::Aplic(a)) => {
            assert_eq!(a.aplic_address(), 0xc00_0000);
            assert_eq!(a.aplic_id, 5);
            assert_eq!(a.aplic_size, 0x8000);
        },
        _ => panic!("entry 3 is an APLIC"),
    }
    assert!(madt.get_entry(&mem, 4).is_none());
}

#[test]
fn madt_stops_at_an_entry_shorter_than_its_header() {
    let b = boot();
    let mut t = tables();
    t[0x100 + 44 + 36 + 1] = 1;
    let mem = MemoryImage::new(VIRT, t);
    let x = Xsdt::from_rsdp(&b, &mem, VIRT).unwrap();
    let madt = x.get_entry(&b, &mem, 0).unwrap().madt().unwrap();
    assert!(madt.get_entry(&mem, 1).is_some());
    assert!(madt.get_entry(&mem, 2).is_none());
    assert!(madt.get_entry(&mem, 3).is_none());
}

#[test]
fn unknown_madt_entries_keep_their_type() {
    let b = boot();
    let mut t = tables();
    t[0x100 + 44] = 0x7f;
    let mem = MemoryImage::new(VIRT, t);
    let x = Xsdt::from_rsdp(&b, &mem, VIRT).unwrap();
    let madt = x.get_entry(&b, &mem, 0).unwrap().madt().unwrap();
    assert!(matches!(madt.get_entry(&mem, 0), Some(MadtStructure::Unknown(0x7f))));
}

#[test]
fn mcfg_entries_are_sixteen_bytes() {
    let b = boot();
    let mem = image();
    let x = Xsdt::from_rsdp(&b, &mem, VIRT).unwrap();
    let table = x.get_entry(&b, &mem, 1).unwrap();
    assert!(table.madt().is_none());
    let mcfg = table.mcfg().unwrap();
    assert_eq!(mcfg.num_entries(&mem), 1);
    let e = mcfg.get_entry(&mem, 0).unwrap();
    assert_eq!(e.base, 0x3000_0000);
    assert_eq!(e.start_bus, 0);
    assert_eq!(e.end_bus, 0xff);
    assert!(mcfg.get_entry(&mem, 1).is_none());
}

#[test]
fn spcr_fields() {
    let b = boot();
    let mem = image();
    let x = Xsdt::from_rsdp(&b, &mem, VIRT).unwrap();
    let spcr = x.get_entry(&b, &mem, 2).unwrap().spcr().unwrap();
    assert_eq!(spcr.address_space_id(&mem), 0);
    assert_eq!(spcr.base_address(&mem), 0x1000_0000);
    assert_eq!(spcr.interrupt_type(&mem), 0x10);
    assert_eq!(spcr.irq(&mem), 10);
    assert_eq!(spcr.uart_frequency(&mem), 3_686_400);
}

#[test]
fn rhct_fields_and_addresses() {
    let b = boot();
    let mem = image();
    let x = Xsdt::from_rsdp(&b, &mem, VIRT).unwrap();
    let rhct = x.get_entry(&b, &mem, 3).unwrap().rhct().unwrap();
    assert_eq!(rhct.time_base_freq(&mem), 10_000_000);
    assert_eq!(rhct.num_nodes(&mem), 3);
    assert_eq!(rhct.virtual_address(), VIRT + 0x300);
    assert_eq!(rhct.physical_address(&b), PHYS + 0x300);
}

#[test]
fn findings_keep_the_first_controllers_and_the_last_tables() {
    let b = boot();
    let mem = image();
    let x = Xsdt::from_rsdp(&b, &mem, VIRT).unwrap();
    let mut found = AcpiFindings::new();
    let madt = x.get_entry(&b, &mem, 0).unwrap().madt().unwrap();
    let mut i = 0;
    let mut aplic_seen = 0;
    while let Some(entry) = madt.get_entry(&mem, i) {
        if found.observe_madt_entry(&entry) {
            aplic_seen += 1;
        }
        i += 1;
    }
    assert_eq!(found.imsic_address, Some(0x2800_0000));
    assert_eq!(found.aplic_address, Some(0xc00_0000));
    assert_eq!(aplic_seen, 1);
    let mcfg = x.get_entry(&b, &mem, 1).unwrap().mcfg().unwrap();
    found.observe_mcfg(mcfg.get_entry(&mem, 0));
    assert_eq!(found.ecam_address, Some(0x3000_0000));
    found.observe_mcfg(None);
    assert_eq!(found.ecam_address, None);
    assert!(found.observe_spcr(0, 0x1000_0000));
    assert!(!found.observe_spcr(1, 0x2000_0000));
    assert_eq!(found.uart_address, Some(0x1000_0000));
    found.observe_rhct(10_000_000);
    assert_eq!(found.timer_frequency, Some(10_000_000));
}
