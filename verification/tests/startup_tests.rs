use lib::config::{KERNEL_HEAP_ADDR, NUM_HEAP_PAGES};
use lib::data::KernelData;
use lib::limine::BootInfo;
use lib::mem::{ChunkAllocator, FreeListAllocator, HeapAllocator, PageAllocator};
use lib::memory_image::MemoryImage;
use lib::startup::{add_usable_regions, initialize_memory, map_and_clear_bss, map_io_page, StartupError};
use lib::sv48::PageTableRoot;
use lib::symbols::LinkerSection;

const HHDM: u64 = 0xffff_8000_0000_0000;
const KERNEL_VIRT: u64 = 0xffff_ffff_8000_0000;

fn boot() -> BootInfo {
    BootInfo::new(HHDM, 0x8020_0000, KERNEL_VIRT)
}

fn root() -> PageTableRoot {
    PageTableRoot::wrap_vaddr(HHDM + 0x8000_0000, boot())
}

#[test]
fn usable_regions_become_free_pages() {
    let b = boot();
    let regions = [(0x8100_0000u64, 3 * 4096u64), (0x8200_0800, 2 * 4096)];
    let a = add_usable_regions(&b, &regions);
    // The second region starts mid-page and holds one whole page.
    assert_eq!(a.free_count(), 4);
    assert_eq!(a.total_count(), 4);
    assert_eq!(a.head_addr(), HHDM + 0x8200_1000);
}

#[test]
fn memory_comes_up_with_heap_and_bss_mapped() {
    let b = boot();
    let regions = [(0x8100_0000u64, 2048 * 4096u64)];
    let bss = LinkerSection::new(KERNEL_VIRT + 0x10_0000, KERNEL_VIRT + 0x10_2100);
    let mut mem = MemoryImage::new(KERNEL_VIRT + 0x10_0000, vec![0xee; 0x3000]);
    let mut kd = match initialize_memory(&b, &regions, root(), &mut mem, &bss) {
        Ok(kd) => kd,
        Err(e) => panic!("startup failed: {:?}", e),
    };
    // The BSS bytes are cleared, and the rest of its last page is not.
    assert_eq!(mem.byte(KERNEL_VIRT + 0x10_0000), 0);
    assert_eq!(mem.byte(KERNEL_VIRT + 0x10_20ff), 0);
    assert_eq!(mem.byte(KERNEL_VIRT + 0x10_2100), 0xee);
    // 1024 heap pages, 4 heap tables, 3 BSS pages and 3 BSS tables.
    let free = kd.with_page_allocator(|a: &mut PageAllocator| a.free_count());
    assert_eq!(free, 2048 - 1024 - 4 - 3 - 3);
    let heap_first = kd.with_page_table(|t: &mut PageTableRoot| t.translate(KERNEL_HEAP_ADDR));
    let heap_last = kd.with_page_table(|t: &mut PageTableRoot| t.translate(KERNEL_HEAP_ADDR + (NUM_HEAP_PAGES as u64 - 1) * 4096 + 8));
    assert!(heap_first.is_some());
    assert!(heap_last.is_some());
    assert_eq!(heap_last.unwrap() % 4096, 8);
    let past = kd.with_page_table(|t: &mut PageTableRoot| t.translate(KERNEL_HEAP_ADDR + NUM_HEAP_PAGES as u64 * 4096));
    assert_eq!(past, None);
    let bss_page = kd.with_page_table(|t: &mut PageTableRoot| t.access(KERNEL_VIRT + 0x10_2000)).unwrap();
    assert!(bss_page.is_readable() && bss_page.is_writeable() && bss_page.is_dirty());
    let chunks = kd.with_heap_allocator(|h: &mut HeapAllocator| h.free_chunks());
    assert!(chunks > 0);
}

#[test]
fn startup_stops_when_pages_run_out() {
    let b = boot();
    let regions = [(0x8100_0000u64, 100 * 4096u64)];
    let bss = LinkerSection::new(KERNEL_VIRT + 0x10_0000, KERNEL_VIRT + 0x10_1000);
    let mut mem = MemoryImage::new(KERNEL_VIRT, vec![]);
    assert!(matches!(
        initialize_memory(&b, &regions, root(), &mut mem, &bss),
        Err(StartupError::OutOfHeapPages)
    ));
}

#[test]
fn bss_mapping_reports_missing_table_pages() {
    let b = boot();
    let mut r = root();
    let mut a: PageAllocator = FreeListAllocator::new();
    a.add_region(HHDM + 0x8100_0000, HHDM + 0x8100_0000 + 2 * 4096);
    let mut mem = MemoryImage::new(KERNEL_VIRT, vec![]);
    let bss = LinkerSection::new(KERNEL_VIRT + 0x10_0000, KERNEL_VIRT + 0x10_0010);
    // One page for the BSS page leaves one for the three tables it needs.
    assert_eq!(map_and_clear_bss(&b, &mut r, &mut a, &mut mem, &bss), Err(StartupError::OutOfBssTablePages));
}

#[test]
fn io_page_is_mapped_at_its_device_address() {
    let b = boot();
    let mut r = root();
    let mut a: PageAllocator = FreeListAllocator::new();
    a.add_region(HHDM + 0x8100_0000, HHDM + 0x8100_0000 + 8 * 4096);
    map_io_page(&b, &mut r, &mut a, 0x1000_0123);
    assert_eq!(r.translate(0xffff_beef_1000_0040), Some(0x1000_0040));
    let f = r.access(0xffff_beef_1000_0000).unwrap();
    assert!(f.is_io() && f.is_readable() && f.is_writeable());
}

#[test]
fn kernel_data_runs_actions_under_each_lock() {
    let mut pages: PageAllocator = FreeListAllocator::new();
    pages.add_region(HHDM + 0x8100_0000, HHDM + 0x8100_0000 + 4 * 4096);
    let heap: HeapAllocator = ChunkAllocator::new(KERNEL_HEAP_ADDR, 4096);
    let mut kd = KernelData::new(pages, heap, root());
    let got = kd.with_page_allocator(|a: &mut PageAllocator| a.alloc_block().map(|p| p.start_addr()));
    assert_eq!(got, Some(HHDM + 0x8100_3000));
    assert_eq!(kd.with_page_allocator(|a: &mut PageAllocator| a.free_count()), 3);
    let chunk = kd.with_heap_allocator(|h: &mut HeapAllocator| h.nalloc(2).map(|c| c.start_addr()));
    assert_eq!(chunk, Some(KERNEL_HEAP_ADDR + 64));
    assert_eq!(kd.with_heap_allocator(|h: &mut HeapAllocator| h.allocated_chunks()), 2);
}

#[test]
fn both_locks_are_taken_for_a_mapping() {
    let b = boot();
    let mut pages: PageAllocator = FreeListAllocator::new();
    pages.add_region(HHDM + 0x8100_0000, HHDM + 0x8100_0000 + 8 * 4096);
    let heap: HeapAllocator = ChunkAllocator::new(KERNEL_HEAP_ADDR, 4096);
    let mut kd = KernelData::new(pages, heap, root());
    kd.with_page_table_and_allocator(|t: &mut PageTableRoot, a: &mut PageAllocator| {
        map_io_page(&b, t, a, 0x10_1000);
    });
    assert_eq!(kd.with_page_table(|t: &mut PageTableRoot| t.translate(0xffff_beef_0010_1004)), Some(0x10_1004));
    assert_eq!(kd.with_page_allocator(|a: &mut PageAllocator| a.free_count()), 5);
}

#[test]
fn bss_mapping_succeeds_with_just_the_pages_it_needs() {
    let b = boot();
    let mut r = root();
    let mut a: PageAllocator = FreeListAllocator::new();
    // Two BSS pages share three new tables: five pages in all.
    a.add_region(HHDM + 0x8100_0000, HHDM + 0x8100_0000 + 5 * 4096);
    let mut mem = MemoryImage::new(KERNEL_VIRT + 0x10_0000, vec![0xee; 0x2000]);
    let bss = LinkerSection::new(KERNEL_VIRT + 0x10_0000, KERNEL_VIRT + 0x10_1800);
    assert_eq!(map_and_clear_bss(&b, &mut r, &mut a, &mut mem, &bss), Ok(()));
    assert_eq!(a.free_count(), 0);
    assert_eq!(mem.byte(KERNEL_VIRT + 0x10_17ff), 0);
    assert!(r.translate(KERNEL_VIRT + 0x10_1000).is_some());
    // With one page fewer, the first page takes its page and its three
    // tables, and no page is left for the second.
    let mut r = root();
    let mut a: PageAllocator = FreeListAllocator::new();
    a.add_region(HHDM + 0x8100_0000, HHDM + 0x8100_0000 + 4 * 4096);
    assert_eq!(map_and_clear_bss(&b, &mut r, &mut a, &mut mem, &bss), Err(StartupError::OutOfBssPages));
    assert!(r.translate(KERNEL_VIRT + 0x10_0000).is_some());
}

#[test]
fn kernel_data_comes_apart_into_its_three_parts() {
    let mut pages: PageAllocator = FreeListAllocator::new();
    pages.add_region(HHDM + 0x8100_0000, HHDM + 0x8100_0000 + 4 * 4096);
    let heap: HeapAllocator = ChunkAllocator::new(KERNEL_HEAP_ADDR, 4096);
    let kd = KernelData::new(pages, heap, root());
    let (pages, heap, table) = kd.into_parts();
    assert_eq!(pages.free_count(), 4);
    assert_eq!(heap.allocated_chunks(), 0);
    assert_eq!(table.translate(0x1000), None);
}
