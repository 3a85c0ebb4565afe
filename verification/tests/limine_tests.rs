use lib::limine::{
    bsp_hartid, date_at_boot, is_usable, hhdm_phys_to_virt, hhdm_virt_to_phys, make_id, memmap, pa_to_va, rsdp_virt,
    usable_memory_regions, va_to_pa, BootInfo, MemoryMapEntry, COMMON_MAGIC_0, COMMON_MAGIC_1, HHDM_ID,
};

const HHDM: u64 = 0xffff_8000_0000_0000;

fn boot() -> BootInfo {
    BootInfo::new(HHDM, 0x8020_0000, 0xffff_ffff_8000_0000)
}

#[test]
fn request_id_starts_with_the_common_magic() {
    let id = make_id(HHDM_ID);
    assert_eq!(id, [COMMON_MAGIC_0, COMMON_MAGIC_1, 0x48dcf1cb8ad2b852, 0x63984e959a98244b]);
}

#[test]
fn physical_memory_goes_through_the_hhdm() {
    let b = boot();
    assert_eq!(pa_to_va(&b, 0x8000_1000), HHDM + 0x8000_1000);
    assert_eq!(va_to_pa(&b, HHDM + 0x8000_1000), 0x8000_1000);
    assert_eq!(hhdm_phys_to_virt(&b, 0x10), HHDM + 0x10);
    assert_eq!(hhdm_virt_to_phys(&b, 0x10), 0);
    assert_eq!(hhdm_phys_to_virt(&b, u64::MAX), u64::MAX);
}

#[test]
fn device_addresses_go_under_the_io_prefix() {
    let b = boot();
    assert_eq!(pa_to_va(&b, 0x1000_0000), 0xffff_beef_1000_0000);
    assert_eq!(va_to_pa(&b, 0xffff_beef_1000_0000), 0x1000_0000);
    assert_eq!(pa_to_va(&b, 0x7fff_ffff), 0xffff_beef_7fff_ffff);
}

#[test]
fn kernel_heap_and_lower_half_addresses() {
    let b = boot();
    assert_eq!(va_to_pa(&b, 0xffff_ffff_8000_1234), 0x8020_1234);
    assert_eq!(va_to_pa(&b, 0xffff_cafe_0000_1000), 0x1000);
    assert_eq!(va_to_pa(&b, 0x1234), 0x1234);
    assert_eq!(pa_to_va(&b, 0xffff_8000_0000_0010), 0xffff_8000_0000_0010);
}

#[test]
fn only_usable_regions_are_listed() {
    let entries = [
        MemoryMapEntry { base: 0x8000_0000, length: 0x20_0000, entry_type: memmap::RESERVED },
        MemoryMapEntry { base: 0x8020_0000, length: 0x100_0000, entry_type: memmap::USABLE },
        MemoryMapEntry { base: 0x9000_0000, length: 0x1000, entry_type: memmap::ACPI_RECLAIMABLE },
        MemoryMapEntry { base: 0xa000_0000, length: 0x4000, entry_type: memmap::USABLE },
    ];
    assert_eq!(usable_memory_regions(&entries), vec![(0x8020_0000, 0x100_0000), (0xa000_0000, 0x4000)]);
    assert_eq!(usable_memory_regions(&[]), vec![]);
}

#[test]
fn response_readers_handle_missing_data() {
    assert_eq!(bsp_hartid(Some(3)), 3);
    assert_eq!(bsp_hartid(None), 0);
    assert_eq!(date_at_boot(Some(1_700_000_000)), Some(1_700_000_000));
    assert_eq!(date_at_boot(None), None);
    assert_eq!(rsdp_virt(Some(0xffff_8000_8000_0000)), Some(0xffff_8000_8000_0000));
    assert_eq!(rsdp_virt(Some(0)), None);
    assert_eq!(rsdp_virt(None), None);
}

#[test]
fn usable_entries_are_recognized() {
    assert!(is_usable(&MemoryMapEntry { base: 0, length: 1, entry_type: memmap::USABLE }));
    assert!(!is_usable(&MemoryMapEntry { base: 0, length: 1, entry_type: memmap::BOOTLOADER_RECLAIMABLE }));
}
