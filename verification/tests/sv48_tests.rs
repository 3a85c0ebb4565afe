use lib::limine::BootInfo;
use lib::mem::{FreeListAllocator, PageAllocator};
use lib::riscv::build_satp;
use lib::sv48::{root_vaddr_from_satp, MemFlags, PageTable, PageTableEntry, PageTableRoot, VirtualAddress};

const HHDM: u64 = 0xffff_8000_0000_0000;

fn boot() -> BootInfo {
    BootInfo::new(HHDM, 0x8020_0000, 0xffff_ffff_8000_0000)
}

fn pages(count: u64) -> PageAllocator {
    let mut a: PageAllocator = FreeListAllocator::new();
    a.add_region(HHDM + 0x8100_0000, HHDM + 0x8100_0000 + count * 4096);
    a
}

#[test]
fn mem_flags_builders_set_their_bits() {
    let f = MemFlags::new().read().write().accessed().dirty();
    assert!(f.is_readable() && f.is_writeable() && f.is_accessed() && f.is_dirty());
    assert!(!f.is_executable() && !f.is_user() && !f.is_global() && !f.is_io());
    assert!(!f.is_super_page() && !f.is_huge_page() && !f.is_enormous_page());
    assert_eq!(f.get(), 0b1100_0110);
    let g = MemFlags::new().valid().execute().user().global().super_page().huge_page().enormous_page().io();
    assert!(g.is_valid() && g.is_executable() && g.is_user() && g.is_global());
    assert!(g.is_super_page() && g.is_huge_page() && g.is_enormous_page() && g.is_io());
    assert!(g.is_set(11));
    assert!(!g.is_set(12));
    let mut h = MemFlags::new();
    h.set(3);
    assert!(h.is_executable());
}

#[test]
fn page_table_entry_fields() {
    let mut e = PageTableEntry::new_empty();
    assert!(!e.is_valid());
    e.set_bits(0b1111);
    e.set_physical_address(0x8765_4000);
    assert!(e.is_valid() && e.is_readable() && e.is_writeable() && e.is_executable());
    assert!(e.is_leaf());
    assert_eq!(e.physical_address(), 0x8765_4000);
    assert_eq!(e.next_paddr(), 0x8765_4000);
    assert_eq!(e.raw(), (0x87654u64 << 10) | 0b1111);
    e.set_raw(1);
    assert!(e.is_valid() && !e.is_leaf());
    assert_eq!(e.bits(), 1);
}

#[test]
fn page_table_holds_512_entries() {
    let mut t = PageTable::new_empty();
    assert!(!t.get_ref(511).is_valid());
    t.get_mut(7).set_raw(1);
    assert!(t.get_ref(7).is_valid());
    assert!(!t.get_ref(6).is_valid());
}

#[test]
fn virtual_address_wraps_its_value() {
    let v = VirtualAddress::new(0x1234_5000);
    assert_eq!(v.as_usize(), 0x1234_5000);
    assert_eq!(VirtualAddress::from(0x77u64), VirtualAddress::new(0x77));
}

#[test]
fn satp_names_the_root_table() {
    let satp = build_satp(9, 3, 0x8020_5000);
    assert_eq!(satp, (9u64 << 60) | (3u64 << 44) | 0x80205);
    assert_eq!(root_vaddr_from_satp(&boot(), satp), HHDM + 0x8020_5000);
}

#[test]
fn map_then_translate_and_access() {
    let b = boot();
    let mut root = PageTableRoot::wrap_vaddr(HHDM + 0x8000_0000, b);
    assert_eq!(root.virtual_address(), HHDM + 0x8000_0000);
    let mut a = pages(8);
    let flags = MemFlags::new().read().write();
    let va = 0x0000_0040_0020_3000;
    assert_eq!(root.tables_needed_for(va, 0), 3);
    root.map(va, 0x9000_0000, flags, &mut a);
    // Three new tables came from the allocator.
    assert_eq!(a.free_count(), 5);
    assert_eq!(root.translate(va + 0x123), Some(0x9000_0123));
    assert_eq!(root.translate(va + 0x1000), None);
    let got = root.access(va).unwrap();
    assert!(got.is_valid() && got.is_readable() && got.is_writeable());
    assert!(!got.is_executable() && !got.is_super_page());
    // A neighbour in the same last-level table needs no new table.
    assert_eq!(root.tables_needed_for(va + 0x1000, 0), 0);
}

#[test]
fn super_page_maps_two_megabytes() {
    let b = boot();
    let mut root = PageTableRoot::wrap_vaddr(HHDM + 0x8000_0000, b);
    let mut a = pages(4);
    let flags = MemFlags::new().read().execute().super_page();
    root.map_unmanaged(0x4000_0000, 0x8040_0000, flags, &mut a);
    assert_eq!(a.free_count(), 2);
    assert_eq!(root.translate(0x4000_0000 + 0x1f_fff0), Some(0x8040_0000 + 0x1f_fff0));
    let got = root.access(0x4000_1000).unwrap();
    assert!(got.is_super_page() && got.is_executable() && !got.is_writeable());
}

#[test]
fn unmap_clears_only_that_page() {
    let b = boot();
    let mut root = PageTableRoot::wrap_vaddr(HHDM + 0x8000_0000, b);
    let mut a = pages(8);
    let flags = MemFlags::new().read().write().io();
    root.map(0x7000_0000, 0x1000_0000, flags, &mut a);
    root.map(0x7000_1000, 0x1000_1000, flags, &mut a);
    assert!(root.access(0x7000_0000).unwrap().is_io());
    root.unmap(0x7000_0000);
    assert_eq!(root.translate(0x7000_0000), None);
    assert_eq!(root.access(0x7000_0000), None);
    assert_eq!(root.translate(0x7000_1008), Some(0x1000_1008));
    // Unmapping an address with no mapping changes nothing.
    root.unmap(0x7100_0000);
    assert_eq!(root.translate(0x7000_1000), Some(0x1000_1000));
}

#[test]
fn free_returns_every_table_below_the_root() {
    let b = boot();
    let mut root = PageTableRoot::wrap_vaddr(HHDM + 0x8000_0000, b);
    let mut a = pages(16);
    let flags = MemFlags::new().read().write();
    root.map(0x0000_0040_0020_3000, 0x9000_0000, flags, &mut a);
    root.map(0x0000_0080_0000_0000, 0x9000_1000, flags, &mut a);
    // Two paths of three tables each.
    assert_eq!(a.free_count(), 10);
    let root_entries = root.free(&mut a);
    assert_eq!(root_entries, vec![0u64; 512]);
    assert_eq!(a.free_count(), 16);
    assert_eq!(a.total_count(), 16);
}

#[test]
fn tables_read_back_as_written() {
    let b = boot();
    let mut root = PageTableRoot::wrap_vaddr(HHDM + 0x8000_0000, b);
    let mut a = pages(8);
    root.map(0x0000_0040_0020_3000, 0x9000_0000, MemFlags::new().read(), &mut a);
    let written = root.table_pages();
    assert_eq!(written.len(), 4);
    let lookup = |va: u64| -> [u64; 512] {
        let mut t = [0u64; 512];
        for (addr, entries) in &written {
            if *addr == va {
                t.copy_from_slice(entries);
            }
        }
        t
    };
    let again = PageTableRoot::load(HHDM + 0x8000_0000, b, lookup).unwrap();
    assert_eq!(again.translate(0x0000_0040_0020_3abc), Some(0x9000_0abc));
    assert_eq!(again.table_pages().len(), 4);
}

#[test]
fn load_refuses_tables_that_are_not_a_tree() {
    let b = boot();
    let root_va = HHDM + 0x8000_0000;
    // Two root entries point to the same table.
    let child_pa: u64 = 0x8100_0000;
    let reader = |va: u64| -> [u64; 512] {
        let mut t = [0u64; 512];
        if va == root_va {
            t[0] = ((child_pa >> 12) << 10) | 1;
            t[1] = ((child_pa >> 12) << 10) | 1;
        }
        t
    };
    assert!(PageTableRoot::load(root_va, b, reader).is_none());
}

#[test]
fn load_refuses_a_branch_back_to_the_root() {
    let b = boot();
    let root_va = HHDM + 0x8000_0000;
    let reader = |va: u64| -> [u64; 512] {
        let mut t = [0u64; 512];
        if va == root_va {
            t[5] = ((0x8000_0000u64 >> 12) << 10) | 1;
        }
        t
    };
    assert!(PageTableRoot::load(root_va, b, reader).is_none());
}

#[test]
fn load_refuses_a_branch_in_a_last_level_table() {
    let b = boot();
    let root_va = HHDM + 0x8000_0000;
    // Each table's first entry points to the next page, four levels down.
    let reader = |va: u64| -> [u64; 512] {
        let mut t = [0u64; 512];
        let pa = va.wrapping_sub(HHDM);
        if pa >= 0x8000_0000 && pa < 0x8000_4000 {
            t[0] = (((pa + 0x1000) >> 12) << 10) | 1;
        }
        t
    };
    assert!(PageTableRoot::load(root_va, b, reader).is_none());
    // Three levels of branches end in an empty last-level table: a tree.
    let shallow = |va: u64| -> [u64; 512] {
        let mut t = [0u64; 512];
        let pa = va.wrapping_sub(HHDM);
        if pa >= 0x8000_0000 && pa < 0x8000_3000 {
            t[0] = (((pa + 0x1000) >> 12) << 10) | 1;
        }
        t
    };
    let p = PageTableRoot::load(root_va, b, shallow).unwrap();
    assert_eq!(p.table_pages().len(), 4);
}
