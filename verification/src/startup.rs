//! Building the kernel's memory services at boot: the page allocator over
//! the usable memory, the kernel heap mapped into the root page table, and
//! the BSS section mapped and cleared.
use vstd::prelude::*;
use crate::limine::{BootInfo, pa_to_va, spec_pa_to_va};
use crate::mem::{PageAllocator, FreeListAllocator, lemma_page_size_is_power_of_two};
use crate::memory_image::MemoryImage;
use crate::symbols::LinkerSection;
use crate::mem::{HeapAllocator, ChunkAllocator, chunk_count_for, chunk_pool_offset, chunk_book_len, chunk_estimate, lemma_chunk_size_is_power_of_two};
use crate::data::KernelData;
use crate::config::{KERNEL_HEAP_ADDR, NUM_HEAP_PAGES};
use crate::limine::{va_to_pa, spec_va_to_pa, lemma_direct_map_round_trip};
use crate::sv48::{
    MemFlags, PageTableRoot, MEM_READ, MEM_WRITE, MEM_ACCESSED, MEM_DIRTY, MEM_SUPER, MEM_HUGE,
    MEM_ENORMOUS, MEM_EXECUTE, MEM_IO, leaf_of, same_page, vpn, pte_with_phys, leaf_bits, fresh_page,
    level_of_flags, page_size_flag_count, tables_needed, TableMap, sv48_leaf_encodes, entry_flag,
    lemma_entry_flag_decoding, MEM_VALID, MEM_USER, MEM_GLOBAL, lemma_leaf_entry_encoding, bit_set,
};

verus! {

/// The blocks the page allocator gains from the usable regions
/// `(base, length)`, in order: each region's physical bounds converted to
/// kernel virtual addresses, then cut into whole pages.
pub open spec fn usable_blocks(boot: BootInfo, regions: Seq<(u64, u64)>) -> Seq<u64>
    decreases regions.len(),
{
    if regions.len() == 0 {
        Seq::empty()
    } else {
        let (base, length) = regions.last();
        usable_blocks(boot, regions.drop_last())
            + PageAllocator::region_blocks(spec_pa_to_va(boot, base), spec_pa_to_va(boot, (base + length) as u64))
    }
}

/// Each region can be handed to the page allocator: its end fits in 64
/// bits, and its first page, at its converted start, fits below the top of
/// the address space (a region converted to address 0 is smaller than a
/// page).
pub open spec fn regions_addable(boot: BootInfo, regions: Seq<(u64, u64)>) -> bool {
    forall|i: int| 0 <= i < regions.len() ==> {
        let (base, length) = #[trigger] regions[i];
        let start = spec_pa_to_va(boot, base);
        let end = spec_pa_to_va(boot, (base + length) as u64);
        &&& base + length <= u64::MAX
        &&& start + 4096 <= u64::MAX
        &&& start == 0 ==> end < 4096
    }
}

/// A page allocator over the usable regions: every whole page of each
/// region, converted to its kernel virtual address, in region order. The
/// regions must not share a page.
pub fn add_usable_regions(boot: &BootInfo, regions: &[(u64, u64)]) -> (r: PageAllocator)
    requires
        regions_addable(*boot, regions@),
        usable_blocks(*boot, regions@).no_duplicates(),
    ensures
        r.wf(),
        r.free_list() == usable_blocks(*boot, regions@),
        r.blocks() == usable_blocks(*boot, regions@).to_set(),
        r.total() == usable_blocks(*boot, regions@).len(),
{
    proof { lemma_page_size_is_power_of_two(); }
    let mut allocator: PageAllocator = FreeListAllocator::new();
    let mut i: usize = 0;
    while i < regions.len()
        invariant
            regions_addable(*boot, regions@),
            usable_blocks(*boot, regions@).no_duplicates(),
            i <= regions@.len(),
            allocator.wf(),
            allocator.free_list() == usable_blocks(*boot, regions@.take(i as int)),
            allocator.blocks() == usable_blocks(*boot, regions@.take(i as int)).to_set(),
            allocator.total() == usable_blocks(*boot, regions@.take(i as int)).len(),
        decreases regions.len() - i,
    {
        let (base, length) = regions[i];
        let ghost prefix = regions@.take(i as int);
        let ghost next = regions@.take(i + 1);
        proof {
            assert(next.drop_last() =~= prefix);
            assert(next.last() == regions@[i as int]);
            let (b, l) = regions@[i as int];
            assert(b + l <= u64::MAX);
            lemma_usable_prefix(*boot, regions@, i + 1);
            let blocks = PageAllocator::region_blocks(spec_pa_to_va(*boot, base), spec_pa_to_va(*boot, (base + length) as u64));
            let before = usable_blocks(*boot, prefix);
            assert(usable_blocks(*boot, next) == before + blocks);
            assert forall|k: int| 0 <= k < blocks.len() implies !allocator.blocks().contains(#[trigger] blocks[k]) by {
                let whole = before + blocks;
                assert(whole.no_duplicates());
                assert(whole[before.len() + k] == blocks[k]);
                if before.contains(blocks[k]) {
                    let j = choose|j: int| 0 <= j < before.len() && before[j] == blocks[k];
                    assert(whole[j] == blocks[k]);
                }
            }
        }
        let end = base + length;
        let start_vaddr = pa_to_va(boot, base);
        let end_vaddr = pa_to_va(boot, end);
        allocator.add_region(start_vaddr, end_vaddr);
        proof {
            let blocks = PageAllocator::region_blocks(start_vaddr, end_vaddr);
            let before = usable_blocks(*boot, prefix);
            assert((before + blocks).to_set() =~= before.to_set() + blocks.to_set()) by {
                assert forall|x: u64| (before + blocks).to_set().contains(x) <==> (before.to_set() + blocks.to_set()).contains(x) by {
                    if (before + blocks).contains(x) {
                        let j = choose|j: int| 0 <= j < (before + blocks).len() && (before + blocks)[j] == x;
                        if j < before.len() {
                            assert(before[j] == x);
                        } else {
                            assert(blocks[j - before.len()] == x);
                        }
                    }
                    if before.contains(x) {
                        let j = choose|j: int| 0 <= j < before.len() && before[j] == x;
                        assert((before + blocks)[j] == x);
                    }
                    if blocks.contains(x) {
                        let j = choose|j: int| 0 <= j < blocks.len() && blocks[j] == x;
                        assert((before + blocks)[before.len() + j] == x);
                    }
                }
            }
        }
        i += 1;
    }
    proof {
        assert(regions@.take(regions@.len() as int) =~= regions@);
    }
    allocator
}

/// The blocks of a prefix of the regions are a prefix of all their blocks,
/// so they hold no duplicates either.
proof fn lemma_usable_prefix(boot: BootInfo, regions: Seq<(u64, u64)>, n: int)
    requires
        0 <= n <= regions.len(),
        usable_blocks(boot, regions).no_duplicates(),
    ensures
        usable_blocks(boot, regions.take(n)).no_duplicates(),
        usable_blocks(boot, regions.take(n)).len() <= usable_blocks(boot, regions).len(),
        usable_blocks(boot, regions).subrange(0, usable_blocks(boot, regions.take(n)).len() as int)
            == usable_blocks(boot, regions.take(n)),
    decreases regions.len() - n,
{
    if n == regions.len() {
        assert(regions.take(n) =~= regions);
        assert(usable_blocks(boot, regions).subrange(0, usable_blocks(boot, regions).len() as int)
            =~= usable_blocks(boot, regions));
    } else {
        lemma_usable_prefix(boot, regions, n + 1);
        let longer = usable_blocks(boot, regions.take(n + 1));
        assert(regions.take(n + 1).drop_last() =~= regions.take(n));
        let shorter = usable_blocks(boot, regions.take(n));
        assert(longer.subrange(0, shorter.len() as int) =~= shorter);
        let all = usable_blocks(boot, regions);
        assert(all.subrange(0, shorter.len() as int) =~= longer.subrange(0, shorter.len() as int));
        assert forall|a: int, b: int| 0 <= a < shorter.len() && 0 <= b < shorter.len() && a != b
            implies shorter[a] != shorter[b] by {
            assert(shorter[a] == all[a] && shorter[b] == all[b]);
        }
    }
}


/// Why building the memory services stopped.
#[derive(Clone, Copy, Debug, PartialEq, Eq, Structural)]
pub enum StartupError {
    /// No free page was left for a page of the kernel heap.
    OutOfHeapPages,
    /// No free page was left for a page table of the kernel heap.
    OutOfHeapTablePages,
    /// No free page was left for a page of the BSS section.
    OutOfBssPages,
    /// No free page was left for a page table of the BSS section.
    OutOfBssTablePages,
}

/// The flags of the kernel's data pages (heap and BSS): readable,
/// writable, accessed and dirty 4 KiB pages.
pub open spec fn data_page_flags() -> MemFlags {
    MemFlags { flags: 0u64 | (1u64 << MEM_READ) | (1u64 << MEM_WRITE) | (1u64 << MEM_ACCESSED) | (1u64 << MEM_DIRTY) }
}

/// The leaf entry of a data page (heap or BSS) maps its physical page with
/// V, R, W, A and D set (bits 0, 1, 2, 6, 7), X, U, G clear, no
/// software bits, the plain memory type and the page's physical page number:
/// a readable, writable kernel page that needs no accessed or dirty update.
pub proof fn lemma_data_page_entry(paddr: u64)
    requires
        paddr % 4096 == 0,
        paddr < 0x0100_0000_0000_0000,
    ensures
        pte_with_phys(leaf_bits(data_page_flags()), paddr) & 0xFFC0_0000_0000_03FFu64 == 0xC7u64,
        pte_with_phys(leaf_bits(data_page_flags()), paddr) & 0x003F_FFFF_FFFF_FC00u64 == (paddr / 4096) * 1024,
{
    let m = data_page_flags();
    let fl = m.flags;
    assert(fl == 0u64 | (1u64 << 1u64) | (1u64 << 2u64) | (1u64 << 6u64) | (1u64 << 7u64));
    assert(fl == 0xC6u64 && 0xC6u64 & 0x2u64 != 0 && 0xC6u64 & 0x4u64 != 0 && 0xC6u64 & 0x8u64 == 0 && 0xC6u64 & 0x10u64 == 0
        && 0xC6u64 & 0x20u64 == 0 && 0xC6u64 & 0x40u64 != 0 && 0xC6u64 & 0x80u64 != 0 && 0xC6u64 & 0x800u64 == 0) by (bit_vector)
        requires fl == 0u64 | (1u64 << 1u64) | (1u64 << 2u64) | (1u64 << 6u64) | (1u64 << 7u64);
    lemma_flag_bits(m, 0xC6u64);
    lemma_leaf_entry_encoding(m, paddr);
    let b = pte_with_phys(leaf_bits(m), paddr);
    assert(b & 0xFFC0_0000_0000_03FFu64 == 0xC7u64) by (bit_vector)
        requires
            b & 0x1u64 == 0x1u64, b & 0x2u64 == 0x2u64, b & 0x4u64 == 0x4u64, b & 0x8u64 != 0x8u64,
            b & 0x10u64 != 0x10u64, b & 0x20u64 != 0x20u64, b & 0x40u64 == 0x40u64, b & 0x80u64 == 0x80u64,
            b & 0x300u64 == 0u64, b & 0x1FC0_0000_0000_0000u64 == 0u64, b & 0x6000_0000_0000_0000u64 == 0u64,
            b & 0x8000_0000_0000_0000u64 == 0u64;
}

/// The leaf entry of a device page maps its physical page with V, R, W, A
/// and D set (bits 0, 1, 2, 6, 7), X, U, G clear, no software bits, the I/O
/// memory type (2 in bits 61 and 62) and the page's physical page number.
pub proof fn lemma_io_page_entry(paddr: u64)
    requires
        paddr % 4096 == 0,
        paddr < 0x0100_0000_0000_0000,
    ensures
        pte_with_phys(leaf_bits(io_page_flags()), paddr) & 0xFFC0_0000_0000_03FFu64 == 0x4000_0000_0000_00C7u64,
        pte_with_phys(leaf_bits(io_page_flags()), paddr) & 0x003F_FFFF_FFFF_FC00u64 == (paddr / 4096) * 1024,
{
    let m = io_page_flags();
    let fl = m.flags;
    assert(fl == 0u64 | (1u64 << 1u64) | (1u64 << 2u64) | (1u64 << 11u64) | (1u64 << 6u64) | (1u64 << 7u64));
    assert(fl == 0x8C6u64 && 0x8C6u64 & 0x2u64 != 0 && 0x8C6u64 & 0x4u64 != 0 && 0x8C6u64 & 0x8u64 == 0 && 0x8C6u64 & 0x10u64 == 0
        && 0x8C6u64 & 0x20u64 == 0 && 0x8C6u64 & 0x40u64 != 0 && 0x8C6u64 & 0x80u64 != 0 && 0x8C6u64 & 0x800u64 != 0) by (bit_vector)
        requires fl == 0u64 | (1u64 << 1u64) | (1u64 << 2u64) | (1u64 << 11u64) | (1u64 << 6u64) | (1u64 << 7u64);
    lemma_flag_bits(m, 0x8C6u64);
    lemma_leaf_entry_encoding(m, paddr);
    let b = pte_with_phys(leaf_bits(m), paddr);
    assert(b & 0xFFC0_0000_0000_03FFu64 == 0x4000_0000_0000_00C7u64) by (bit_vector)
        requires
            b & 0x1u64 == 0x1u64, b & 0x2u64 == 0x2u64, b & 0x4u64 == 0x4u64, b & 0x8u64 != 0x8u64,
            b & 0x10u64 != 0x10u64, b & 0x20u64 != 0x20u64, b & 0x40u64 == 0x40u64, b & 0x80u64 == 0x80u64,
            b & 0x300u64 == 0u64, b & 0x1FC0_0000_0000_0000u64 == 0u64,
            b & 0x6000_0000_0000_0000u64 == 0x4000_0000_0000_0000u64,
            b & 0x8000_0000_0000_0000u64 == 0u64;
}

/// The flags whose bit pattern is `x`: flag `f` is requested exactly when
/// bit `f` of `x` is set.
proof fn lemma_flag_bits(m: MemFlags, x: u64)
    requires
        m.flags == x,
        x < 4096,
    ensures
        m.has(MEM_READ) == (x & 0x2u64 != 0),
        m.has(MEM_WRITE) == (x & 0x4u64 != 0),
        m.has(MEM_EXECUTE) == (x & 0x8u64 != 0),
        m.has(MEM_USER) == (x & 0x10u64 != 0),
        m.has(MEM_GLOBAL) == (x & 0x20u64 != 0),
        m.has(MEM_ACCESSED) == (x & 0x40u64 != 0),
        m.has(MEM_DIRTY) == (x & 0x80u64 != 0),
        m.has(MEM_IO) == (x & 0x800u64 != 0),
{
    assert((x & 0x2u64 != 0) == bit_set(x, 1)
        && (x & 0x4u64 != 0) == bit_set(x, 2)
        && (x & 0x8u64 != 0) == bit_set(x, 3)
        && (x & 0x10u64 != 0) == bit_set(x, 4)
        && (x & 0x20u64 != 0) == bit_set(x, 5)
        && (x & 0x40u64 != 0) == bit_set(x, 6)
        && (x & 0x80u64 != 0) == bit_set(x, 7)
        && (x & 0x800u64 != 0) == bit_set(x, 11)) by (bit_vector);
}

/// The data-page flags, built flag by flag.
fn make_data_page_flags() -> (r: MemFlags)
    ensures
        r == data_page_flags(),
        forall|f: u64| f < 64 ==> #[trigger] r.has(f) == (f == MEM_READ || f == MEM_WRITE || f == MEM_ACCESSED || f == MEM_DIRTY),
        level_of_flags(r) == 0,
        page_size_flag_count(r) == 0,
{
    let r = MemFlags::new().read().write().accessed().dirty();
    proof {
        assert(!r.has(MEM_SUPER) && !r.has(MEM_HUGE) && !r.has(MEM_ENORMOUS));
    }
    r
}

/// Virtual address of page `k` of the range of pages from `base`.
pub open spec fn data_page(base: u64, k: int) -> u64 {
    (base + k * 4096) as u64
}

/// Two different pages of a range of fewer than 2^36 pages are different
/// 4 KiB pages.
proof fn lemma_data_pages_apart(base: u64, count: int, i: int, j: int)
    requires
        base % 4096 == 0,
        base + count * 4096 <= u64::MAX,
        count < 0x10_0000_0000,
        0 <= i < count,
        0 <= j < count,
        i != j,
    ensures
        !same_page(data_page(base, i), data_page(base, j), 0),
{
    let a = i as u64;
    let b = j as u64;
    let va = data_page(base, i);
    let vb = data_page(base, j);
    assert(a * 4096 <= count * 4096 && b * 4096 <= count * 4096) by (nonlinear_arith)
        requires a < count, b < count;
    assert(va == base + a * 4096);
    assert(vb == base + b * 4096);
    assert(((va >> 12u64) & 0x1ffu64) != ((vb >> 12u64) & 0x1ffu64)
        || ((va >> 21u64) & 0x1ffu64) != ((vb >> 21u64) & 0x1ffu64)
        || ((va >> 30u64) & 0x1ffu64) != ((vb >> 30u64) & 0x1ffu64)
        || ((va >> 39u64) & 0x1ffu64) != ((vb >> 39u64) & 0x1ffu64)) by (bit_vector)
        requires
            a < 0x10_0000_0000u64,
            b < 0x10_0000_0000u64,
            a != b,
            base % 4096u64 == 0u64,
            base + a * 4096 <= 0xffff_ffff_ffff_ffffu64,
            base + b * 4096 <= 0xffff_ffff_ffff_ffffu64,
            va == base + a * 4096,
            vb == base + b * 4096;
    assert(vpn(va, 0) != vpn(vb, 0) || vpn(va, 1) != vpn(vb, 1) || vpn(va, 2) != vpn(vb, 2) || vpn(va, 3) != vpn(vb, 3));
}

/// The pages from `base` are mapped: page `k`, for each `k` below `n`,
/// maps with the data-page flags to the physical page of `pages[k]`, a
/// page taken from the allocator.
pub open spec fn pages_mapped(root: PageTableRoot, boot: BootInfo, base: u64, pages: Seq<u64>, n: int) -> bool {
    forall|k: int| 0 <= k < n ==> #[trigger] leaf_of(root.tables(), boot, root.root(), data_page(base, k))
        == Some((pte_with_phys(leaf_bits(data_page_flags()), (pages[k] - boot.hhdm_offset) as u64), 0int))
}

/// Data page `k` was taken from the head of the free list `free`: it lies
/// at some index of `free`, and every page above it was taken before it,
/// as a table of `t`, one of the pages `used`, or one of the data pages
/// before `k`.
pub open spec fn taken_from_head(free: Seq<u64>, t: TableMap, used: Seq<u64>, pages: Seq<u64>, k: int) -> bool {
    exists|i: int| #![trigger free[i]]
        0 <= i < free.len() && free[i] == pages[k] && forall|q: int| i < q < free.len()
            ==> t.contains_key(#[trigger] free[q]) || used.contains(free[q]) || pages.take(k).contains(free[q])
}

/// The first `n` data pages were taken from `free` in order, each from
/// the head of the list as it then stood.
pub open spec fn taken_in_order(free: Seq<u64>, t: TableMap, used: Seq<u64>, pages: Seq<u64>, n: int) -> bool {
    forall|k: int| 0 <= k < n ==> #[trigger] taken_from_head(free, t, used, pages, k)
}

/// Taking one more data page `p` from the head keeps the pages in order,
/// while the tables only grow.
proof fn lemma_taken_in_order_step(
    free: Seq<u64>, t0: TableMap, t1: TableMap, used: Seq<u64>, pages: Seq<u64>, p: u64, i: int,
)
    requires
        taken_in_order(free, t0, used, pages, pages.len() as int),
        forall|a: u64| t0.contains_key(a) ==> #[trigger] t1.contains_key(a),
        0 <= i < free.len(),
        free[i] == p,
        forall|q: int| i < q < free.len() ==> t0.contains_key(#[trigger] free[q]) || used.contains(free[q]) || pages.contains(free[q]),
    ensures
        taken_in_order(free, t1, used, pages.push(p), pages.len() + 1int),
{
    let np = pages.push(p);
    let k0 = pages.len() as int;
    assert forall|k: int| 0 <= k < k0 + 1 implies #[trigger] taken_from_head(free, t1, used, np, k) by {
        assert(np.take(k) =~= pages.take(k));
        if k < k0 {
            assert(taken_from_head(free, t0, used, pages, k));
            let j = choose|j: int| #![trigger free[j]]
                0 <= j < free.len() && free[j] == pages[k] && forall|q: int| j < q < free.len()
                    ==> t0.contains_key(#[trigger] free[q]) || used.contains(free[q]) || pages.take(k).contains(free[q]);
            assert(free[j] == np[k]);
            assert forall|q: int| j < q < free.len() implies t1.contains_key(#[trigger] free[q]) || used.contains(free[q])
                || np.take(k).contains(free[q]) by {
            }
        } else {
            assert(pages.take(k0) =~= pages);
            assert(free[i] == np[k]);
            assert forall|q: int| i < q < free.len() implies t1.contains_key(#[trigger] free[q]) || used.contains(free[q])
                || np.take(k).contains(free[q]) by {
            }
        }
    }
}

/// Pages in order in a prefix of `free` stay in order in the whole list
/// when every page past the prefix is a table of `t` or one of `used`.
proof fn lemma_taken_in_order_extend(free: Seq<u64>, m: int, t0: TableMap, t: TableMap, used: Seq<u64>, pages: Seq<u64>, n: int)
    requires
        0 <= m <= free.len(),
        taken_in_order(free.take(m), t0, Seq::empty(), pages, n),
        forall|a: u64| t0.contains_key(a) ==> #[trigger] t.contains_key(a),
        forall|q: int| m <= q < free.len() ==> t.contains_key(#[trigger] free[q]) || used.contains(free[q]),
    ensures
        taken_in_order(free, t, used, pages, n),
{
    let pre = free.take(m);
    assert forall|k: int| 0 <= k < n implies #[trigger] taken_from_head(free, t, used, pages, k) by {
        assert(taken_from_head(pre, t0, Seq::empty(), pages, k));
        let j = choose|j: int| #![trigger pre[j]]
            0 <= j < pre.len() && pre[j] == pages[k] && forall|q: int| j < q < pre.len()
                ==> t0.contains_key(#[trigger] pre[q]) || Seq::<u64>::empty().contains(pre[q]) || pages.take(k).contains(pre[q]);
        assert(free[j] == pages[k]);
        assert forall|q: int| j < q < free.len() implies t.contains_key(#[trigger] free[q]) || used.contains(free[q])
            || pages.take(k).contains(free[q]) by {
            if q < m {
                assert(pre[q] == free[q]);
                assert(!Seq::<u64>::empty().contains(pre[q]));
            }
        }
    }
}

/// A page taken from the allocator for data pages from `base` is in use:
/// it is now a page table of `root`, or one of the data pages `pages`.
pub open spec fn page_in_use(root: PageTableRoot, pages: Seq<u64>, p: u64) -> bool {
    root.tables().contains_key(p) || pages.contains(p)
}

/// Mapping the data pages from `base` into `root` stopped at page `m`, not
/// yet mapped, for want of pages: the allocator, with `left` pages, had none
/// for page `m` itself (`no_page`), or, page `m`'s page taken, fewer than
/// the tables its mapping needs (`no_table`).
pub open spec fn short_of_pages(
    root: PageTableRoot, boot: BootInfo, base: u64, m: int, left: int,
    e: StartupError, no_page: StartupError, no_table: StartupError,
) -> bool {
    &&& leaf_of(root.tables(), boot, root.root(), data_page(base, m)) is None
    &&& {
        ||| e == no_page && left == 0
        ||| e == no_table && left < tables_needed(root.tables(), boot, root.root(), 3, 0, data_page(base, m))
    }
}

/// Mapping `count` data pages from `base` with the pages of `free` stopped
/// short: the first `m` are mapped, page `m` could not be for want of pages
/// (the allocator holding `left`), and every page taken from `free` is in
/// use, but for page `m`'s own page when the tables ran short.
pub open spec fn stopped_short(
    free: Seq<u64>, root: PageTableRoot, boot: BootInfo, base: u64, count: int, left: int,
    e: StartupError, no_page: StartupError, no_table: StartupError,
) -> bool {
    exists|pages: Seq<u64>, m: int| #![trigger pages_mapped(root, boot, base, pages, m)] {
        &&& 0 <= m < count
        &&& pages.len() == m
        &&& pages_mapped(root, boot, base, pages, m)
        &&& short_of_pages(root, boot, base, m, left, e, no_page, no_table)
        &&& forall|q: int| left <= q < free.len()
            ==> #[trigger] page_in_use(root, pages, free[q]) || (e == no_table && q == left)
    }
}

/// Map the `count` pages from `base`, each to a fresh page from
/// `allocator` that is cleared first; tables the mappings need come from
/// `allocator` too. Stops when the allocator runs out, as the pages are
/// taken one at a time: with `no_page` when no page is left for the next
/// page, with `no_table` when not enough are left for the tables it needs.
fn map_data_pages(
    boot: &BootInfo,
    root: &mut PageTableRoot,
    allocator: &mut PageAllocator,
    mem: &mut MemoryImage,
    base: u64,
    count: u64,
    no_page: StartupError,
    no_table: StartupError,
) -> (r: Result<(), StartupError>)
    requires
        base % 4096 == 0,
        base + count * 4096 <= u64::MAX,
        count < 0x10_0000_0000,
        no_page != no_table,
        old(root).wf(),
        old(root).boot() == *boot,
        old(allocator).wf(),
        old(mem).wf(),
        forall|q: int| 0 <= q < old(allocator).free_list().len()
            ==> #[trigger] fresh_page(old(root).tables(), *boot, old(allocator).free_list()[q]),
        forall|k: int| 0 <= k < count
            ==> #[trigger] leaf_of(old(root).tables(), *boot, old(root).root(), data_page(base, k)) is None,
    ensures
        final(root).wf(),
        final(root).root() == old(root).root(),
        final(root).boot() == *boot,
        final(allocator).wf(),
        final(allocator).blocks() == old(allocator).blocks(),
        final(allocator).total() == old(allocator).total(),
        final(allocator).free_list().len() <= old(allocator).free_list().len(),
        final(allocator).free_list() == old(allocator).free_list().take(final(allocator).free_list().len() as int),
        forall|q: int| 0 <= q < final(allocator).free_list().len()
            ==> #[trigger] fresh_page(final(root).tables(), *boot, final(allocator).free_list()[q]),
        final(mem).wf(),
        forall|a: int| #[trigger] final(mem).byte_at(a) == 0 || final(mem).byte_at(a) == old(mem).byte_at(a),
        old(allocator).free_list().len() >= 4 * count ==> r is Ok,
        r is Ok ==> final(allocator).free_list().len() + 4 * count >= old(allocator).free_list().len(),
        r is Err ==> final(allocator).free_list().len() < 4,
        r is Err ==> r->Err_0 == no_page || r->Err_0 == no_table,
        forall|a: u64| old(root).tables().contains_key(a) ==> #[trigger] final(root).tables().contains_key(a),
        r is Err ==> stopped_short(old(allocator).free_list(), *final(root), *boot, base, count as int,
            final(allocator).free_list().len() as int, r->Err_0, no_page, no_table),
        r is Ok ==> exists|pages: Seq<u64>| #![trigger pages_mapped(*final(root), *boot, base, pages, count as int)] {
            &&& pages.len() == count
            &&& pages.no_duplicates()
            &&& forall|k: int| 0 <= k < count ==> old(allocator).free_list().contains(#[trigger] pages[k])
                && !final(allocator).free_list().contains(pages[k])
            &&& pages_mapped(*final(root), *boot, base, pages, count as int)
            &&& forall|q: int| final(allocator).free_list().len() <= q < old(allocator).free_list().len()
                ==> #[trigger] page_in_use(*final(root), pages, old(allocator).free_list()[q])
            &&& taken_in_order(old(allocator).free_list(), final(root).tables(), Seq::empty(), pages, count as int)
            &&& forall|k: int, a: int| #![trigger final(mem).byte_at(a), pages[k]]
                0 <= k < count && pages[k] <= a < pages[k] + 4096 ==> final(mem).byte_at(a) == 0
        },
        forall|v: u64| (forall|k: int| 0 <= k < count ==> !same_page(v, #[trigger] data_page(base, k), 0))
            ==> #[trigger] leaf_of(final(root).tables(), *boot, final(root).root(), v)
                == leaf_of(old(root).tables(), *boot, old(root).root(), v),
{
    let flags = make_data_page_flags();
    let ghost old_free = allocator.free_list();
    let ghost mut pages: Seq<u64> = Seq::empty();
    let mut k: u64 = 0;
    while k < count
        invariant
            base % 4096 == 0,
            base + count * 4096 <= u64::MAX,
            count < 0x10_0000_0000,
            root.wf(),
            root.root() == old(root).root(),
            root.boot() == *boot,
            flags == data_page_flags(),
            forall|f: u64| f < 64 ==> #[trigger] flags.has(f) == (f == MEM_READ || f == MEM_WRITE || f == MEM_ACCESSED || f == MEM_DIRTY),
            level_of_flags(flags) == 0,
            page_size_flag_count(flags) == 0,
            allocator.wf(),
            allocator.blocks() == old(allocator).blocks(),
            allocator.total() == old(allocator).total(),
            old_free == old(allocator).free_list(),
            allocator.free_list().len() <= old_free.len(),
            allocator.free_list() == old_free.take(allocator.free_list().len() as int),
            allocator.free_list().len() + 4 * k >= old_free.len(),
            mem.wf(),
            forall|a: int| #[trigger] mem.byte_at(a) == 0 || mem.byte_at(a) == old(mem).byte_at(a),
            forall|q: int| 0 <= q < allocator.free_list().len()
                ==> #[trigger] fresh_page(root.tables(), *boot, allocator.free_list()[q]),
            k <= count,
            forall|j: int| k <= j < count
                ==> #[trigger] leaf_of(root.tables(), *boot, root.root(), data_page(base, j)) is None,
            pages.len() == k,
            pages.no_duplicates(),
            forall|j: int| 0 <= j < k ==> old_free.contains(#[trigger] pages[j])
                && !allocator.free_list().contains(pages[j]),
            pages_mapped(*root, *boot, base, pages, k as int),
            forall|j: int, a: int| #![trigger mem.byte_at(a), pages[j]]
                0 <= j < k && pages[j] <= a < pages[j] + 4096 ==> mem.byte_at(a) == 0,
            forall|v: u64| (forall|j: int| 0 <= j < count ==> !same_page(v, #[trigger] data_page(base, j), 0))
                ==> #[trigger] leaf_of(root.tables(), *boot, root.root(), v)
                    == leaf_of(old(root).tables(), *boot, old(root).root(), v),
            forall|q: int| allocator.free_list().len() <= q < old_free.len()
                ==> #[trigger] page_in_use(*root, pages, old_free[q]),
            forall|a: u64| old(root).tables().contains_key(a) ==> #[trigger] root.tables().contains_key(a),
            taken_in_order(old_free, root.tables(), Seq::empty(), pages, k as int),
        decreases count - k,
    {
        proof {
            assert(k * 4096 <= count * 4096) by (nonlinear_arith) requires k < count;
        }
        let vaddr: u64 = base + k * 4096;
        assert(vaddr == data_page(base, k as int));
        let ghost t0 = root.tables();
        let ghost root0 = *root;
        let ghost free_before = allocator.free_list();
        let ghost mem_before = *mem;
        proof {
            allocator.lemma_free_list_facts();
        }
        let page = match allocator.alloc_zeroed(mem) {
            Some(p) => p,
            None => {
                proof {
                    assert(pages_mapped(*root, *boot, base, pages, k as int));
                    assert(short_of_pages(*root, *boot, base, k as int, 0, no_page, no_page, no_table));
                }
                return Err(no_page);
            },
        };
        let p = page.start_addr();
        proof {
            let last = free_before.len() - 1;
            assert(fresh_page(t0, *boot, free_before[last]));
            lemma_direct_map_round_trip(*boot, p);
            assert forall|i: int| 0 <= i < allocator.free_list().len() implies allocator.free_list()[i] == old_free[i] by {
                assert(allocator.free_list()[i] == free_before[i]);
                assert(free_before[i] == old_free.take(free_before.len() as int)[i]);
            }
            assert(allocator.free_list() =~= old_free.take(allocator.free_list().len() as int));
        }
        let paddr = va_to_pa(boot, p);
        let needed = root.tables_needed_for(vaddr, 0);
        if (allocator.free_count() as u64) < needed {
            proof {
                let left = allocator.free_list().len();
                assert(left == free_before.len() - 1);
                assert(pages_mapped(*root, *boot, base, pages, k as int));
                assert(short_of_pages(*root, *boot, base, k as int, left as int, no_table, no_page, no_table));
                assert forall|q: int| left <= q < old_free.len()
                    implies #[trigger] page_in_use(*root, pages, old_free[q]) || q == left by {
                    if q > left {
                        assert(free_before.len() <= q);
                    }
                }
            }
            return Err(no_table);
        }
        proof {
            root.lemma_unmapped_can_map(vaddr);
            let kk = k as u64;
            let va = (base + kk * 4096) as u64;
            assert(va % 4096u64 == 0u64) by (bit_vector)
                requires base % 4096u64 == 0u64, base + kk * 4096u64 <= 0xffff_ffff_ffff_ffffu64, va == base + kk * 4096u64;
        }
        let ghost free_mid = allocator.free_list();
        root.map_unmanaged(vaddr, paddr, flags, allocator);
        proof {
            let fin = allocator.free_list();
            assert forall|i: int| 0 <= i < fin.len() implies fin[i] == old_free[i] by {
                assert(fin[i] == free_mid[i]);
                assert(free_mid[i] == old_free.take(free_mid.len() as int)[i]);
            }
            assert(fin =~= old_free.take(fin.len() as int));
            assert(old_free.contains(p)) by {
                assert(free_before[free_before.len() - 1] == old_free.take(free_before.len() as int)[free_before.len() - 1]);
                assert(old_free[free_before.len() - 1] == p);
            }
            assert forall|x: u64| fin.contains(x) implies free_before.contains(x) && x != p by {
                let i = choose|i: int| 0 <= i < fin.len() && fin[i] == x;
                assert(free_mid[i] == x);
                assert(free_before[i] == x);
                assert(free_before[free_before.len() - 1] == p);
            }
            assert forall|j: int| 0 <= j < k implies pages[j] != p by {
                assert(free_before.contains(p)) by {
                    assert(free_before[free_before.len() - 1] == p);
                }
            }
            let new_pages = pages.push(p);
            assert forall|j: int| 0 <= j <= k implies #[trigger] leaf_of(root.tables(), *boot, root.root(), data_page(base, j))
                == Some((pte_with_phys(leaf_bits(data_page_flags()), (new_pages[j] - boot.hhdm_offset) as u64), 0int)) by {
                if j < k {
                    lemma_data_pages_apart(base, count as int, j, k as int);
                    assert(leaf_of(t0, *boot, root.root(), data_page(base, j))
                        == Some((pte_with_phys(leaf_bits(data_page_flags()), (pages[j] - boot.hhdm_offset) as u64), 0int)));
                }
            }
            assert forall|j: int| k + 1 <= j < count implies
                #[trigger] leaf_of(root.tables(), *boot, root.root(), data_page(base, j)) is None by {
                lemma_data_pages_apart(base, count as int, j, k as int);
                assert(leaf_of(t0, *boot, root.root(), data_page(base, j)) is None);
            }
            assert forall|v: u64| (forall|j: int| 0 <= j < count ==> !same_page(v, #[trigger] data_page(base, j), 0))
                implies #[trigger] leaf_of(root.tables(), *boot, root.root(), v)
                    == leaf_of(old(root).tables(), *boot, old(root).root(), v) by {
                assert(!same_page(v, data_page(base, k as int), 0));
                assert(leaf_of(t0, *boot, root.root(), v) == leaf_of(old(root).tables(), *boot, old(root).root(), v));
            }
            assert forall|a: int| #[trigger] mem.byte_at(a) == 0 || mem.byte_at(a) == old(mem).byte_at(a) by {
                assert(mem_before.byte_at(a) == 0 || mem_before.byte_at(a) == old(mem).byte_at(a));
            }
            assert forall|j: int, a: int| #![trigger mem.byte_at(a), new_pages[j]]
                0 <= j < k + 1 && new_pages[j] <= a < new_pages[j] + 4096 implies mem.byte_at(a) == 0 by {
                if j < k {
                    assert(mem_before.byte_at(a) == 0);
                }
            }
            let t_fin = root.tables();
            let fresh = free_mid.subrange(fin.len() as int, free_mid.len() as int);
            assert(t_fin.dom() == t0.dom() + fresh.to_set());
            assert forall|a: u64| old(root).tables().contains_key(a) implies #[trigger] t_fin.contains_key(a) by {
                assert(t0.contains_key(a));
            }
            assert forall|a: u64| t0.contains_key(a) implies #[trigger] t_fin.contains_key(a) by {
                assert(t_fin.dom().contains(a));
            }
            assert forall|q: int| free_mid.len() < q < old_free.len() implies t0.contains_key(#[trigger] old_free[q])
                || Seq::<u64>::empty().contains(old_free[q]) || pages.contains(old_free[q]) by {
                assert(page_in_use(root0, pages, old_free[q]));
            }
            assert(old_free[free_mid.len() as int] == p) by {
                assert(free_before[free_before.len() - 1] == old_free.take(free_before.len() as int)[free_before.len() - 1]);
            }
            lemma_taken_in_order_step(old_free, t0, t_fin, Seq::empty(), pages, p, free_mid.len() as int);
            assert(free_mid.len() + 1 == free_before.len());
            assert forall|q: int| fin.len() <= q < old_free.len() implies #[trigger] page_in_use(*root, new_pages, old_free[q]) by {
                if q < free_mid.len() {
                    assert(free_mid[q] == free_before[q]);
                    assert(free_before[q] == old_free.take(free_before.len() as int)[q]);
                    assert(fresh[q - fin.len()] == old_free[q]);
                    assert(fresh.to_set().contains(old_free[q]));
                    assert(t_fin.contains_key(old_free[q]));
                } else if q == free_mid.len() {
                    assert(free_before[free_before.len() - 1] == old_free.take(free_before.len() as int)[free_before.len() - 1]);
                    assert(old_free[q] == p);
                    assert(new_pages[k as int] == p);
                    assert(new_pages.contains(p));
                } else {
                    assert(page_in_use(root0, pages, old_free[q]));
                    if t0.contains_key(old_free[q]) {
                        assert(t_fin.contains_key(old_free[q]));
                    } else {
                        assert(pages.contains(old_free[q]));
                        let i = choose|i: int| 0 <= i < pages.len() && pages[i] == old_free[q];
                        assert(new_pages[i] == old_free[q]);
                        assert(new_pages.contains(old_free[q]));
                    }
                }
            }
            pages = new_pages;
        }
        k += 1;
    }
    Ok(())
}

/// The number of pages that hold `size` bytes.
pub open spec fn pages_for(size: int) -> int {
    (size + 4095) / 4096
}

/// The number of pages of the BSS section.
pub open spec fn bss_pages(bss: LinkerSection) -> int {
    pages_for(if bss.end >= bss.start { bss.end - bss.start } else { 0 })
}

/// The BSS section can be mapped: it starts on a page, its page count
/// fits in the address space, and none of its pages is mapped yet.
pub open spec fn bss_mappable(root: PageTableRoot, boot: BootInfo, bss: LinkerSection) -> bool {
    let size = if bss.end >= bss.start { bss.end - bss.start } else { 0 };
    &&& bss.start % 4096 == 0
    &&& size + 4095 <= u64::MAX
    &&& bss.start + bss_pages(bss) * 4096 <= u64::MAX
    &&& bss_pages(bss) < 0x10_0000_0000
    &&& forall|k: int| 0 <= k < bss_pages(bss)
        ==> #[trigger] leaf_of(root.tables(), boot, root.root(), data_page(bss.start, k)) is None
}

/// Map the pages of the BSS section, in order, each to the page then at
/// the head of `allocator`'s list, cleared first, then clear the section's
/// bytes. Stops only when
/// the allocator runs out: with `OutOfBssPages` when no page is left for
/// the next page of the section, with `OutOfBssTablePages` when, that page
/// taken, fewer are left than the tables its mapping needs. Every page
/// taken is then a page table or a mapped page of the section, but for that
/// last one.
pub fn map_and_clear_bss(
    boot: &BootInfo,
    root: &mut PageTableRoot,
    allocator: &mut PageAllocator,
    mem: &mut MemoryImage,
    bss: &LinkerSection,
) -> (r: Result<(), StartupError>)
    requires
        old(root).wf(),
        old(root).boot() == *boot,
        old(allocator).wf(),
        old(mem).wf(),
        forall|q: int| 0 <= q < old(allocator).free_list().len()
            ==> #[trigger] fresh_page(old(root).tables(), *boot, old(allocator).free_list()[q]),
        bss_mappable(*old(root), *boot, *bss),
    ensures
        final(root).wf(),
        final(root).root() == old(root).root(),
        final(root).boot() == *boot,
        final(allocator).wf(),
        final(allocator).blocks() == old(allocator).blocks(),
        final(allocator).total() == old(allocator).total(),
        final(allocator).free_list().len() <= old(allocator).free_list().len(),
        final(allocator).free_list() == old(allocator).free_list().take(final(allocator).free_list().len() as int),
        forall|q: int| 0 <= q < final(allocator).free_list().len()
            ==> #[trigger] fresh_page(final(root).tables(), *boot, final(allocator).free_list()[q]),
        final(mem).wf(),
        forall|a: int| #[trigger] final(mem).byte_at(a) == 0 || final(mem).byte_at(a) == old(mem).byte_at(a),
        old(allocator).free_list().len() >= 4 * bss_pages(*bss) ==> r is Ok,
        r is Err ==> final(allocator).free_list().len() < 4,
        r is Err ==> r->Err_0 == StartupError::OutOfBssPages || r->Err_0 == StartupError::OutOfBssTablePages,
        forall|a: u64| old(root).tables().contains_key(a) ==> #[trigger] final(root).tables().contains_key(a),
        r is Err ==> stopped_short(old(allocator).free_list(), *final(root), *boot, bss.start, bss_pages(*bss),
            final(allocator).free_list().len() as int, r->Err_0, StartupError::OutOfBssPages, StartupError::OutOfBssTablePages),
        r is Ok ==> forall|a: int| bss.start <= a < bss.end ==> #[trigger] final(mem).byte_at(a) == 0,
        r is Ok ==> exists|pages: Seq<u64>| #![trigger pages_mapped(*final(root), *boot, bss.start, pages, bss_pages(*bss))] {
            &&& pages.len() == bss_pages(*bss)
            &&& pages.no_duplicates()
            &&& forall|k: int| 0 <= k < bss_pages(*bss) ==> old(allocator).free_list().contains(#[trigger] pages[k])
                && !final(allocator).free_list().contains(pages[k])
            &&& pages_mapped(*final(root), *boot, bss.start, pages, bss_pages(*bss))
            &&& forall|q: int| final(allocator).free_list().len() <= q < old(allocator).free_list().len()
                ==> #[trigger] page_in_use(*final(root), pages, old(allocator).free_list()[q])
            &&& taken_in_order(old(allocator).free_list(), final(root).tables(), Seq::empty(), pages, bss_pages(*bss))
            &&& forall|k: int, a: int| #![trigger final(mem).byte_at(a), pages[k]]
                0 <= k < bss_pages(*bss) && pages[k] <= a < pages[k] + 4096 ==> final(mem).byte_at(a) == 0
        },
        forall|v: u64| (forall|k: int| 0 <= k < bss_pages(*bss) ==> !same_page(v, #[trigger] data_page(bss.start, k), 0))
            ==> #[trigger] leaf_of(final(root).tables(), *boot, final(root).root(), v)
                == leaf_of(old(root).tables(), *boot, old(root).root(), v),
{
    let start = bss.start();
    let size = bss.size();
    let count: u64 = (size + 4095) / 4096;
    let ghost mem0 = *mem;
    proof {
        assert(count == bss_pages(*bss));
    }
    let mapped = map_data_pages(
        boot, root, allocator, mem, start, count,
        StartupError::OutOfBssPages, StartupError::OutOfBssTablePages,
    );
    if mapped.is_err() {
        return mapped;
    }
    let ghost mem1 = *mem;
    mem.fill_zero(start, size);
    proof {
        assert forall|a: int| #[trigger] mem.byte_at(a) == 0 || mem.byte_at(a) == mem0.byte_at(a) by {
            assert(mem1.byte_at(a) == 0 || mem1.byte_at(a) == mem0.byte_at(a));
        }
        let pages = choose|pages: Seq<u64>| #![trigger pages_mapped(*root, *boot, start, pages, count as int)] {
            &&& pages.len() == count
            &&& pages.no_duplicates()
            &&& forall|k: int| 0 <= k < count ==> old(allocator).free_list().contains(#[trigger] pages[k])
                && !allocator.free_list().contains(pages[k])
            &&& pages_mapped(*root, *boot, start, pages, count as int)
            &&& forall|k: int, a: int| #![trigger mem1.byte_at(a), pages[k]]
                0 <= k < count && pages[k] <= a < pages[k] + 4096 ==> mem1.byte_at(a) == 0
            &&& forall|q: int| allocator.free_list().len() <= q < old(allocator).free_list().len()
                ==> #[trigger] page_in_use(*root, pages, old(allocator).free_list()[q])
            &&& taken_in_order(old(allocator).free_list(), root.tables(), Seq::empty(), pages, count as int)
        };
        assert forall|k: int, a: int| #![trigger mem.byte_at(a), pages[k]]
            0 <= k < bss_pages(*bss) && pages[k] <= a < pages[k] + 4096 implies mem.byte_at(a) == 0 by {
            assert(mem1.byte_at(a) == 0);
        }
        assert(pages_mapped(*root, *boot, bss.start, pages, bss_pages(*bss)));
    }
    Ok(())
}

/// The size of the kernel heap in bytes.
pub open spec fn heap_bytes() -> int {
    NUM_HEAP_PAGES * 4096
}

/// Build the kernel's memory services: a page allocator over the usable
/// regions, the heap's pages mapped into `root` and the heap allocator over
/// them, and the BSS section mapped and cleared. The heap's pages, then the
/// section's, are mapped in order, each to the page then at the head of the
/// allocator's list, and each is cleared. Stops with the error of
/// the first step that runs out of pages, and only then: when the pages
/// left cannot supply the next page of the heap or the section and the
/// tables its mapping needs, every page taken before being in use.
pub fn initialize_memory(
    boot: &BootInfo,
    regions: &[(u64, u64)],
    root: PageTableRoot,
    mem: &mut MemoryImage,
    bss: &LinkerSection,
) -> (r: Result<KernelData, StartupError>)
    requires
        regions_addable(*boot, regions@),
        usable_blocks(*boot, regions@).no_duplicates(),
        root.wf(),
        root.boot() == *boot,
        old(mem).wf(),
        forall|q: int| 0 <= q < usable_blocks(*boot, regions@).len()
            ==> #[trigger] fresh_page(root.tables(), *boot, usable_blocks(*boot, regions@)[q]),
        forall|k: int| 0 <= k < NUM_HEAP_PAGES
            ==> #[trigger] leaf_of(root.tables(), *boot, root.root(), data_page(KERNEL_HEAP_ADDR, k)) is None,
        bss_mappable(root, *boot, *bss),
        forall|i: int, k: int| 0 <= i < bss_pages(*bss) && 0 <= k < NUM_HEAP_PAGES
            ==> !same_page(#[trigger] data_page(bss.start, i), #[trigger] data_page(KERNEL_HEAP_ADDR, k), 0),
    ensures
        final(mem).wf(),
        forall|a: int| #[trigger] final(mem).byte_at(a) == 0 || final(mem).byte_at(a) == old(mem).byte_at(a),
        usable_blocks(*boot, regions@).len() >= 4 * (NUM_HEAP_PAGES + bss_pages(*bss)) ==> r is Ok,
        r matches Ok(kd) ==> {
            &&& kd.wf()
            &&& kd.pages().wf()
            &&& kd.pages().blocks() == usable_blocks(*boot, regions@).to_set()
            &&& kd.pages().free_list() == usable_blocks(*boot, regions@).take(kd.pages().free_list().len() as int)
            &&& kd.page_table().wf()
            &&& kd.page_table().root() == root.root()
            &&& kd.page_table().boot() == *boot
            &&& kd.heap().wf()
            &&& kd.heap().chunks().len() == chunk_count_for(heap_bytes() as usize, 8)
            &&& kd.heap().pool_base() == KERNEL_HEAP_ADDR + chunk_pool_offset(chunk_count_for(heap_bytes() as usize, 8), 8)
            &&& forall|i: int| 0 <= i < kd.heap().chunks().len() ==> !kd.heap().chunks()[i]
            &&& exists|hp: Seq<u64>, bp: Seq<u64>| #![trigger
                pages_mapped(kd.page_table(), *boot, KERNEL_HEAP_ADDR, hp, NUM_HEAP_PAGES as int),
                pages_mapped(kd.page_table(), *boot, bss.start, bp, bss_pages(*bss))] {
                &&& hp.len() == NUM_HEAP_PAGES
                &&& hp.no_duplicates()
                &&& forall|k: int| 0 <= k < NUM_HEAP_PAGES ==> usable_blocks(*boot, regions@).contains(#[trigger] hp[k])
                    && !kd.pages().free_list().contains(hp[k])
                &&& pages_mapped(kd.page_table(), *boot, KERNEL_HEAP_ADDR, hp, NUM_HEAP_PAGES as int)
                &&& forall|k: int, a: int| #![trigger final(mem).byte_at(a), hp[k]]
                    0 <= k < NUM_HEAP_PAGES && hp[k] <= a < hp[k] + 4096 ==> final(mem).byte_at(a) == 0
                &&& taken_in_order(usable_blocks(*boot, regions@), kd.page_table().tables(), Seq::empty(), hp, NUM_HEAP_PAGES as int)
                &&& bp.len() == bss_pages(*bss)
                &&& bp.no_duplicates()
                &&& forall|k: int| 0 <= k < bss_pages(*bss) ==> usable_blocks(*boot, regions@).contains(#[trigger] bp[k])
                    && !kd.pages().free_list().contains(bp[k])
                &&& pages_mapped(kd.page_table(), *boot, bss.start, bp, bss_pages(*bss))
                &&& forall|k: int, a: int| #![trigger final(mem).byte_at(a), bp[k]]
                    0 <= k < bss_pages(*bss) && bp[k] <= a < bp[k] + 4096 ==> final(mem).byte_at(a) == 0
                &&& taken_in_order(usable_blocks(*boot, regions@), kd.page_table().tables(), hp, bp, bss_pages(*bss))
            }
            &&& forall|a: int| bss.start <= a < bss.end ==> #[trigger] final(mem).byte_at(a) == 0
            &&& forall|v: u64|
                (forall|k: int| 0 <= k < NUM_HEAP_PAGES ==> !same_page(v, #[trigger] data_page(KERNEL_HEAP_ADDR, k), 0))
                && (forall|k: int| 0 <= k < bss_pages(*bss) ==> !same_page(v, #[trigger] data_page(bss.start, k), 0))
                ==> #[trigger] leaf_of(kd.page_table().tables(), *boot, kd.page_table().root(), v)
                    == leaf_of(root.tables(), *boot, root.root(), v)
        },
        r is Err ==> r->Err_0 == StartupError::OutOfHeapPages || r->Err_0 == StartupError::OutOfHeapTablePages
            || r->Err_0 == StartupError::OutOfBssPages || r->Err_0 == StartupError::OutOfBssTablePages,
        r is Err && (r->Err_0 == StartupError::OutOfHeapPages || r->Err_0 == StartupError::OutOfHeapTablePages)
            ==> exists|t: PageTableRoot, left: int| #[trigger] stopped_short(usable_blocks(*boot, regions@), t, *boot,
                KERNEL_HEAP_ADDR, NUM_HEAP_PAGES as int, left, r->Err_0, StartupError::OutOfHeapPages, StartupError::OutOfHeapTablePages),
        r is Err && (r->Err_0 == StartupError::OutOfBssPages || r->Err_0 == StartupError::OutOfBssTablePages)
            ==> exists|t: PageTableRoot, left: int, n: int, hp: Seq<u64>| {
                &&& 0 <= n <= usable_blocks(*boot, regions@).len()
                &&& #[trigger] pages_mapped(t, *boot, KERNEL_HEAP_ADDR, hp, NUM_HEAP_PAGES as int)
                &&& forall|q: int| n <= q < usable_blocks(*boot, regions@).len()
                    ==> #[trigger] page_in_use(t, hp, usable_blocks(*boot, regions@)[q])
                &&& #[trigger] stopped_short(usable_blocks(*boot, regions@).take(n), t, *boot, bss.start, bss_pages(*bss),
                    left, r->Err_0, StartupError::OutOfBssPages, StartupError::OutOfBssTablePages)
            },
{
    let mut root = root;
    let mut allocator = add_usable_regions(boot, regions);
    let ghost alloc0 = allocator;
    let ghost mem0 = *mem;
    let heap = map_data_pages(
        boot, &mut root, &mut allocator, mem, KERNEL_HEAP_ADDR, NUM_HEAP_PAGES as u64,
        StartupError::OutOfHeapPages, StartupError::OutOfHeapTablePages,
    );
    match heap {
        Err(e) => {
            proof {
                assert(stopped_short(usable_blocks(*boot, regions@), root, *boot, KERNEL_HEAP_ADDR, NUM_HEAP_PAGES as int,
                    allocator.free_list().len() as int, e, StartupError::OutOfHeapPages, StartupError::OutOfHeapTablePages));
            }
            return Err(e);
        },
        Ok(()) => {},
    }
    let ghost root1 = root;
    let ghost alloc1 = allocator;
    let ghost mem1 = *mem;
    proof {
        lemma_chunk_size_is_power_of_two();
        assert(chunk_book_len(chunk_estimate((NUM_HEAP_PAGES * 4096) as usize, 8)) + 8 <= u64::MAX);
        assert forall|k: int| 0 <= k < bss_pages(*bss) implies
            #[trigger] leaf_of(root.tables(), *boot, root.root(), data_page(bss.start, k)) is None by {
            assert forall|j: int| 0 <= j < NUM_HEAP_PAGES implies !same_page(data_page(bss.start, k), #[trigger] data_page(KERNEL_HEAP_ADDR, j), 0) by {
                assert(!same_page(data_page(bss.start, k), data_page(KERNEL_HEAP_ADDR, j), 0));
            }
        }
    }
    let heap_allocator: HeapAllocator = ChunkAllocator::new(KERNEL_HEAP_ADDR, NUM_HEAP_PAGES * 4096);
    let bss_result = map_and_clear_bss(boot, &mut root, &mut allocator, mem, bss);
    let ghost hp = choose|pages: Seq<u64>| #![trigger pages_mapped(root1, *boot, KERNEL_HEAP_ADDR, pages, NUM_HEAP_PAGES as int)] {
        &&& pages.len() == NUM_HEAP_PAGES
        &&& pages.no_duplicates()
        &&& forall|k: int| 0 <= k < NUM_HEAP_PAGES ==> alloc0.free_list().contains(#[trigger] pages[k])
            && !alloc1.free_list().contains(pages[k])
        &&& pages_mapped(root1, *boot, KERNEL_HEAP_ADDR, pages, NUM_HEAP_PAGES as int)
        &&& forall|k: int, a: int| #![trigger mem1.byte_at(a), pages[k]]
            0 <= k < NUM_HEAP_PAGES && pages[k] <= a < pages[k] + 4096 ==> mem1.byte_at(a) == 0
        &&& forall|q: int| alloc1.free_list().len() <= q < alloc0.free_list().len()
            ==> #[trigger] page_in_use(root1, pages, alloc0.free_list()[q])
        &&& taken_in_order(alloc0.free_list(), root1.tables(), Seq::empty(), pages, NUM_HEAP_PAGES as int)
    };
    proof {
        assert forall|k: int| 0 <= k < NUM_HEAP_PAGES implies
            #[trigger] leaf_of(root.tables(), *boot, root.root(), data_page(KERNEL_HEAP_ADDR, k))
                == leaf_of(root1.tables(), *boot, root1.root(), data_page(KERNEL_HEAP_ADDR, k)) by {
            assert forall|i: int| 0 <= i < bss_pages(*bss) implies
                !same_page(data_page(KERNEL_HEAP_ADDR, k), #[trigger] data_page(bss.start, i), 0) by {
                assert(!same_page(data_page(bss.start, i), data_page(KERNEL_HEAP_ADDR, k), 0));
                let w = choose|l: int| 0 <= l <= 3 && vpn(data_page(bss.start, i), l) != vpn(data_page(KERNEL_HEAP_ADDR, k), l);
                assert(vpn(data_page(KERNEL_HEAP_ADDR, k), w) != vpn(data_page(bss.start, i), w));
            }
        }
        assert(pages_mapped(root, *boot, KERNEL_HEAP_ADDR, hp, NUM_HEAP_PAGES as int));
    }
    match bss_result {
        Err(e) => {
            proof {
                let ub = usable_blocks(*boot, regions@);
                let n = alloc1.free_list().len() as int;
                assert(alloc1.free_list() == ub.take(n));
                assert forall|q: int| n <= q < ub.len() implies #[trigger] page_in_use(root, hp, ub[q]) by {
                    assert(page_in_use(root1, hp, alloc0.free_list()[q]));
                    if root1.tables().contains_key(ub[q]) {
                        assert(root.tables().contains_key(ub[q]));
                    }
                }
                assert(stopped_short(ub.take(n), root, *boot, bss.start, bss_pages(*bss),
                    allocator.free_list().len() as int, e, StartupError::OutOfBssPages, StartupError::OutOfBssTablePages));
            }
            return Err(e);
        },
        Ok(()) => {},
    }
    proof {
        assert forall|a: int| #[trigger] mem.byte_at(a) == 0 || mem.byte_at(a) == mem0.byte_at(a) by {
            assert(mem1.byte_at(a) == 0 || mem1.byte_at(a) == mem0.byte_at(a));
        }

        assert forall|k: int| 0 <= k < NUM_HEAP_PAGES implies usable_blocks(*boot, regions@).contains(#[trigger] hp[k])
            && !allocator.free_list().contains(hp[k]) by {
            assert(alloc0.free_list().contains(hp[k]));
            if allocator.free_list().contains(hp[k]) {
                let i = choose|i: int| 0 <= i < allocator.free_list().len() && allocator.free_list()[i] == hp[k];
                assert(allocator.free_list()[i] == alloc1.free_list().take(allocator.free_list().len() as int)[i]);
                assert(alloc1.free_list()[i] == hp[k]);
            }
        }
        assert forall|k: int, a: int| #![trigger mem.byte_at(a), hp[k]]
            0 <= k < NUM_HEAP_PAGES && hp[k] <= a < hp[k] + 4096 implies mem.byte_at(a) == 0 by {
            assert(mem1.byte_at(a) == 0);
        }
        let bp = choose|pages: Seq<u64>| #![trigger pages_mapped(root, *boot, bss.start, pages, bss_pages(*bss))] {
            &&& pages.len() == bss_pages(*bss)
            &&& pages.no_duplicates()
            &&& forall|k: int| 0 <= k < bss_pages(*bss) ==> alloc1.free_list().contains(#[trigger] pages[k])
                && !allocator.free_list().contains(pages[k])
            &&& pages_mapped(root, *boot, bss.start, pages, bss_pages(*bss))
            &&& forall|q: int| allocator.free_list().len() <= q < alloc1.free_list().len()
                ==> #[trigger] page_in_use(root, pages, alloc1.free_list()[q])
            &&& taken_in_order(alloc1.free_list(), root.tables(), Seq::empty(), pages, bss_pages(*bss))
            &&& forall|k: int, a: int| #![trigger mem.byte_at(a), pages[k]]
                0 <= k < bss_pages(*bss) && pages[k] <= a < pages[k] + 4096 ==> mem.byte_at(a) == 0
        };
        let ub = usable_blocks(*boot, regions@);
        let n1 = alloc1.free_list().len() as int;
        assert(alloc1.free_list() == ub.take(n1));
        assert(alloc0.free_list() == ub);
        assert forall|a: u64| root1.tables().contains_key(a) implies #[trigger] root.tables().contains_key(a) by {}
        assert forall|a: u64| root.tables().contains_key(a) implies #[trigger] root.tables().contains_key(a) by {}
        assert(ub.take(ub.len() as int) =~= ub);
        lemma_taken_in_order_extend(ub, ub.len() as int, root1.tables(), root.tables(), Seq::empty(), hp, NUM_HEAP_PAGES as int);
        assert forall|q: int| n1 <= q < ub.len() implies root.tables().contains_key(#[trigger] ub[q]) || hp.contains(ub[q]) by {
            assert(page_in_use(root1, hp, alloc0.free_list()[q]));
        }
        lemma_taken_in_order_extend(ub, n1, root.tables(), root.tables(), hp, bp, bss_pages(*bss));
        assert forall|k: int| 0 <= k < bss_pages(*bss) implies usable_blocks(*boot, regions@).contains(#[trigger] bp[k]) by {
            let i = choose|i: int| 0 <= i < alloc1.free_list().len() && alloc1.free_list()[i] == bp[k];
            assert(alloc1.free_list()[i] == alloc0.free_list().take(alloc1.free_list().len() as int)[i]);
            assert(alloc0.free_list()[i] == bp[k]);
        }
    }
    Ok(KernelData::new(allocator, heap_allocator, root))
}

/// The flags of a device page: readable, writable, I/O, accessed and
/// dirty, 4 KiB.
pub open spec fn io_page_flags() -> MemFlags {
    MemFlags {
        flags: 0u64 | (1u64 << MEM_READ) | (1u64 << MEM_WRITE) | (1u64 << MEM_IO) | (1u64 << MEM_ACCESSED) | (1u64 << MEM_DIRTY),
    }
}

/// The page that holds the physical address `paddr`.
pub open spec fn page_of(paddr: u64) -> u64 {
    paddr & !0xfffu64
}

/// Map the page that holds the device address `paddr` at its kernel
/// virtual address, with the device-page flags. The page must not be mapped
/// yet, and the allocator must hold the tables the mapping needs.
pub fn map_io_page(boot: &BootInfo, root: &mut PageTableRoot, allocator: &mut PageAllocator, paddr: u64)
    requires
        old(root).wf(),
        old(root).boot() == *boot,
        old(root).can_map_at(spec_pa_to_va(*boot, page_of(paddr)), page_of(paddr), io_page_flags()),
        old(root).pages_available(old(allocator), spec_pa_to_va(*boot, page_of(paddr)), io_page_flags()),
    ensures
        final(root).wf(),
        final(root).root() == old(root).root(),
        final(root).boot() == *boot,
        leaf_of(final(root).tables(), *boot, final(root).root(), spec_pa_to_va(*boot, page_of(paddr)))
            == Some((pte_with_phys(leaf_bits(io_page_flags()), page_of(paddr)), 0int)),
        ({
            let e = leaf_of(final(root).tables(), *boot, final(root).root(), spec_pa_to_va(*boot, paddr & !0xfffu64));
            &&& e is Some
            &&& (e->0).1 == 0
            &&& (e->0).0 & 0xFFC0_0000_0000_03FFu64 == 0x4000_0000_0000_00C7u64
            &&& (e->0).0 & 0x003F_FFFF_FFFF_FC00u64 == ((paddr & !0xfffu64) / 4096) * 1024
            &&& forall|f: u64| f < 64 ==> #[trigger] entry_flag((e->0).0, 0, f) == (f == MEM_VALID || f == MEM_READ
                || f == MEM_WRITE || f == MEM_IO || f == MEM_ACCESSED || f == MEM_DIRTY)
        }),
        forall|v: u64| !same_page(v, spec_pa_to_va(*boot, page_of(paddr)), 0)
            ==> #[trigger] leaf_of(final(root).tables(), *boot, final(root).root(), v)
                == leaf_of(old(root).tables(), *boot, old(root).root(), v),
        final(allocator).wf(),
        final(allocator).blocks() == old(allocator).blocks(),
        final(allocator).total() == old(allocator).total(),
        final(allocator).free_list() == old(allocator).free_list().take(
            old(allocator).free_list().len() - tables_needed(
                old(root).tables(), *boot, old(root).root(), 3, 0, spec_pa_to_va(*boot, page_of(paddr))),
        ),
{
    let page_paddr = paddr & !0xfffu64;
    let vaddr = pa_to_va(boot, page_paddr);
    let flags = MemFlags::new().read().write().io().accessed().dirty();
    proof {
        assert(!flags.has(MEM_SUPER) && !flags.has(MEM_HUGE) && !flags.has(MEM_ENORMOUS));
    }
    root.map(vaddr, page_paddr, flags, allocator);
    proof {
        let e = leaf_of(root.tables(), *boot, root.root(), vaddr);
        let b = (e->0).0;
        assert(sv48_leaf_encodes(b, flags, page_paddr));
        assert(flags.has(MEM_READ) && flags.has(MEM_WRITE) && flags.has(MEM_IO) && flags.has(MEM_ACCESSED) && flags.has(MEM_DIRTY));
        assert(!flags.has(MEM_EXECUTE) && !flags.has(MEM_USER) && !flags.has(MEM_GLOBAL));
        lemma_io_page_entry(page_paddr);
        lemma_entry_flag_decoding(b, 0);
        assert forall|f: u64| f < 64 implies #[trigger] entry_flag(b, 0, f) == (f == MEM_VALID || f == MEM_READ
            || f == MEM_WRITE || f == MEM_IO || f == MEM_ACCESSED || f == MEM_DIRTY) by {
            if f < 12 {
                assert(f == 0 || f == 1 || f == 2 || f == 3 || f == 4 || f == 5 || f == 6 || f == 7
                    || f == 8 || f == 9 || f == 10 || f == 11);
            }
        }
    }
}
} // verus!
