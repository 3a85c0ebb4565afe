use lib::mem::{heap_request_chunks, BumpArena, ChunkAllocation, ChunkAllocator, FreeListAllocation, FreeListAllocator, HeapAllocator, PageAllocator, PAGE_SIZE};
use lib::memory_image::MemoryImage;

const BASE: u64 = 0xffff_8000_8010_0000;

#[test]
fn unaligned_region_adds_only_whole_pages() {
    let mut a: PageAllocator = FreeListAllocator::new();
    // Starts 16 bytes into a page and ends 8 bytes into the fourth page.
    a.add_region(BASE + 16, BASE + 3 * PAGE_SIZE + 8);
    assert_eq!(a.free_count(), 2);
    assert_eq!(a.total_count(), 2);
    // The highest page is handed out first.
    assert_eq!(a.head_addr(), BASE + 2 * PAGE_SIZE);
}

#[test]
fn region_smaller_than_a_page_adds_nothing() {
    let mut a: PageAllocator = FreeListAllocator::new();
    a.add_region(BASE + 8, BASE + PAGE_SIZE - 8);
    assert_eq!(a.free_count(), 0);
    assert_eq!(a.total_count(), 0);
    assert_eq!(a.head_addr(), 0);
}

#[test]
fn empty_allocator_fails_to_allocate() {
    let mut a: PageAllocator = FreeListAllocator::new();
    assert!(a.alloc_block().is_none());
    assert_eq!(a.free_count(), 0);
}

#[test]
fn freed_block_is_handed_out_next() {
    let mut a: PageAllocator = FreeListAllocator::new();
    a.add_region(BASE, BASE + 4 * PAGE_SIZE);
    assert_eq!(a.free_count(), 4);
    let mut first = a.alloc_block().unwrap();
    assert_eq!(first.start_addr(), BASE + 3 * PAGE_SIZE);
    let second = a.alloc_block().unwrap();
    assert_eq!(second.start_addr(), BASE + 2 * PAGE_SIZE);
    assert_eq!(a.free_count(), 2);
    a.dealloc(&mut first);
    assert!(first.is_invalid());
    assert_eq!(a.free_count(), 3);
    let again = a.alloc_block().unwrap();
    assert_eq!(again.start_addr(), BASE + 3 * PAGE_SIZE);
    assert_eq!(a.total_count(), 4);
}

#[test]
fn counts_report_free_and_total_bytes() {
    let mut a: PageAllocator = FreeListAllocator::new();
    a.add_region(BASE, BASE + 8 * PAGE_SIZE);
    let _x = a.alloc_block().unwrap();
    let _y = a.alloc_block().unwrap();
    assert_eq!(a.free_count(), 6);
    assert_eq!(a.total_count(), 8);
    assert_eq!(a.free_bytes(), 6 * 4096);
    assert_eq!(a.total_bytes(), 8 * 4096);
}

#[test]
fn allocation_handle_bounds() {
    let p: FreeListAllocation<4096> = FreeListAllocation::new(BASE);
    assert!(p.is_valid());
    assert_eq!(p.len(), 4096);
    assert_eq!(p.end_addr(), BASE + 4096);
    assert_eq!(p.as_ptr_offset(4095), Some(BASE + 4095));
    assert_eq!(p.as_ptr_offset(4096), None);
    assert_eq!(p.as_mut_ptr_offset(10), Some(BASE + 10));
    let mut q = p;
    q.invalidate();
    assert!(q.is_invalid());
    assert_eq!(q.start_addr(), 0);
}

#[test]
fn alloc_zeroed_clears_the_page() {
    let mut a: PageAllocator = FreeListAllocator::new();
    a.add_region(BASE, BASE + PAGE_SIZE);
    let mut mem = MemoryImage::new(BASE - 16, vec![0xaa; 4096 + 32]);
    let page = a.alloc_zeroed(&mut mem).unwrap();
    assert_eq!(page.start_addr(), BASE);
    assert_eq!(mem.byte(BASE - 1), 0xaa);
    assert_eq!(mem.byte(BASE), 0);
    assert_eq!(mem.byte(BASE + 4095), 0);
    assert_eq!(mem.byte(BASE + 4096), 0xaa);
}

#[test]
fn dealloc_zeroed_clears_then_frees() {
    let mut a: PageAllocator = FreeListAllocator::new();
    a.add_region(BASE, BASE + PAGE_SIZE);
    let mut page = a.alloc_block().unwrap();
    let mut mem = MemoryImage::new(BASE, vec![7; 4096]);
    a.dealloc_zeroed(&mut page, &mut mem);
    assert_eq!(mem.byte(BASE + 100), 0);
    assert_eq!(a.free_count(), 1);
    assert!(page.is_invalid());
}

const HEAP: u64 = 0xffff_cafe_0000_0000;

#[test]
fn chunk_allocator_places_bitmap_before_pool() {
    let h: HeapAllocator = ChunkAllocator::new(HEAP, 4096);
    // 4096 * 8 / 65 = 504 chunks estimated; the 63-byte bitmap rounds up to
    // 64 bytes, and 504 chunks of 8 bytes fit in the remaining 4032 bytes.
    assert_eq!(h.total_chunks(), 504);
    assert_eq!(h.allocated_chunks(), 0);
    assert_eq!(h.free_chunks(), 504);
    assert_eq!(h.total_bytes(), 504 * 8);
    assert_eq!(h.free_bytes(), 504 * 8);
}

#[test]
fn nalloc_takes_the_first_fitting_run() {
    let mut h: HeapAllocator = ChunkAllocator::new(HEAP, 4096);
    let a = h.nalloc(3).unwrap();
    let pool = a.start_addr();
    assert_eq!(pool, HEAP + 64);
    assert_eq!(a.num_chunks(), 3);
    let mut b = h.nalloc(2).unwrap();
    assert_eq!(b.start_addr(), pool + 3 * 8);
    let c = h.nalloc(4).unwrap();
    assert_eq!(c.start_addr(), pool + 5 * 8);
    assert_eq!(h.allocated_chunks(), 9);
    h.dealloc(&mut b);
    assert!(b.is_invalid());
    assert_eq!(b.num_chunks(), 0);
    // A run of two fits in the hole, a run of three does not.
    let d = h.nalloc(2).unwrap();
    assert_eq!(d.start_addr(), pool + 3 * 8);
    let e = h.nalloc(3).unwrap();
    assert_eq!(e.start_addr(), pool + 9 * 8);
    assert_eq!(h.allocated_chunks(), 12);
}

#[test]
fn nalloc_refuses_zero_and_oversized_requests() {
    let mut h: HeapAllocator = ChunkAllocator::new(HEAP, 4096);
    assert!(h.nalloc(0).is_none());
    assert!(h.nalloc(505).is_none());
    let all = h.nalloc(504).unwrap();
    assert_eq!(all.len(), 504 * 8);
    assert!(h.nalloc(1).is_none());
    assert_eq!(h.free_chunks(), 0);
}

#[test]
fn nalloc_zeroed_clears_the_chunks() {
    let mut h: HeapAllocator = ChunkAllocator::new(HEAP, 4096);
    let mut mem = MemoryImage::new(HEAP, vec![0x55; 4096]);
    let a = h.nalloc_zeroed(2, &mut mem).unwrap();
    assert_eq!(a.start_addr(), HEAP + 64);
    for i in 0..16 {
        assert_eq!(mem.byte(HEAP + 64 + i), 0);
    }
    assert_eq!(mem.byte(HEAP + 80), 0x55);
    assert_eq!(mem.byte(HEAP + 63), 0x55);
}

#[test]
fn chunk_allocation_handle() {
    let mut a: ChunkAllocation<8> = ChunkAllocation::new(HEAP + 64, 4);
    assert_eq!(a.len(), 32);
    assert_eq!(a.end_addr(), HEAP + 96);
    assert_eq!(a.as_ptr_offset(31), Some(HEAP + 95));
    assert_eq!(a.as_ptr_offset(32), None);
    a.leak();
    assert_eq!(a.num_chunks(), 4);
    a.invalidate();
    assert!(a.is_invalid());
    assert_eq!(a.as_ptr_offset(0), None);
}

#[test]
fn chunk_counts_round_up() {
    assert_eq!(lib::mem::chunks_for(0), 0);
    assert_eq!(lib::mem::chunks_for(1), 1);
    assert_eq!(lib::mem::chunks_for(8), 1);
    assert_eq!(lib::mem::chunks_for(9), 2);
}

#[test]
fn dealloc_fits_only_allocations_inside_the_pool() {
    let h: HeapAllocator = ChunkAllocator::new(HEAP, 4096);
    let pool = HEAP + 64;
    assert!(h.dealloc_fits(&ChunkAllocation::new(pool, 504)));
    assert!(h.dealloc_fits(&ChunkAllocation::new(pool + 8, 3)));
    assert!(!h.dealloc_fits(&ChunkAllocation::new(pool + 8, 504)));
    assert!(!h.dealloc_fits(&ChunkAllocation::new(pool + 4, 1)));
    assert!(!h.dealloc_fits(&ChunkAllocation::new(HEAP, 1)));
    assert!(!h.dealloc_fits(&ChunkAllocation::new(0, 1)));
}

#[test]
fn arena_hands_out_aligned_runs_in_order() {
    let mut arena = BumpArena::new(0x1000, 0x1100);
    assert_eq!(arena.bump(3, 1), Some(0x1000));
    assert_eq!(arena.bump(8, 8), Some(0x1008));
    assert_eq!(arena.bump(0x100, 16), None);
    assert_eq!(arena.bump(0xe0, 16), Some(0x1010));
    assert_eq!(arena.bump(1, 1), Some(0x10f0));
    assert!(arena.contains(0x1000));
    assert!(arena.contains(0x10ff));
    assert!(!arena.contains(0x1100));
    assert!(!arena.contains(0xfff));
}

#[test]
fn arena_refuses_an_alignment_past_the_address_space() {
    let mut arena = BumpArena::new(u64::MAX - 2, u64::MAX);
    assert_eq!(arena.bump(0, 8), None);
    assert_eq!(arena.bump(1, 1), Some(u64::MAX - 2));
}

#[test]
fn region_at_the_top_of_the_address_space_adds_nothing() {
    let mut a: PageAllocator = FreeListAllocator::new();
    a.add_region(u64::MAX - (PAGE_SIZE - 1), u64::MAX);
    assert_eq!(a.free_count(), 0);
    assert_eq!(a.total_count(), 0);
}

#[test]
fn heap_requests_are_whole_chunks_of_small_alignment() {
    assert_eq!(heap_request_chunks(1, 1), Some(1));
    assert_eq!(heap_request_chunks(8, 8), Some(1));
    assert_eq!(heap_request_chunks(9, 4), Some(2));
    assert_eq!(heap_request_chunks(0, 8), Some(0));
    assert_eq!(heap_request_chunks(16, 16), None);
    assert_eq!(heap_request_chunks(usize::MAX - 6, 1), None);
    assert_eq!(heap_request_chunks(usize::MAX - 7, 1), Some(usize::MAX / 8));
}

#[test]
fn chunk_count_is_the_largest_that_fits() {
    let h: ChunkAllocator<8> = ChunkAllocator::new(0x1000, 64);
    // One bitmap byte rounded up to a chunk, then seven chunks: 8 + 56 = 64.
    assert_eq!(h.total_chunks(), 7);
}
