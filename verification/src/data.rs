//! The kernel's shared state: the page allocator, the heap allocator and
//! the root page table, each behind its own lock.
use vstd::prelude::*;
use crate::mem::{HeapAllocator, PageAllocator};
use crate::sv48::PageTableRoot;
use crate::sync::Mutex;

verus! {

/// The allocators and the page table of the kernel.
pub struct KernelData {
    page_allocator: Mutex<PageAllocator>,
    heap_allocator: Mutex<HeapAllocator>,
    page_table_root: Mutex<PageTableRoot>,
}

impl KernelData {
    /// No lock is held: between two actions every lock is free.
    pub closed spec fn wf(&self) -> bool {
        &&& !self.page_allocator.held()
        &&& !self.heap_allocator.held()
        &&& !self.page_table_root.held()
    }

    /// The page allocator.
    pub closed spec fn pages(&self) -> PageAllocator {
        self.page_allocator.value()
    }

    /// The heap allocator.
    pub closed spec fn heap(&self) -> HeapAllocator {
        self.heap_allocator.value()
    }

    /// The root page table.
    pub closed spec fn page_table(&self) -> PageTableRoot {
        self.page_table_root.value()
    }

    /// Shared state made of the three parts, every lock free.
    pub fn new(page_allocator: PageAllocator, heap_allocator: HeapAllocator, page_table_root: PageTableRoot) -> (r: Self)
        ensures
            r.wf(),
            r.pages() == page_allocator,
            r.heap() == heap_allocator,
            r.page_table() == page_table_root,
    {
        KernelData {
            page_allocator: Mutex::new(page_allocator),
            heap_allocator: Mutex::new(heap_allocator),
            page_table_root: Mutex::new(page_table_root),
        }
    }

    /// The three parts, for holders that keep each behind a lock of its
    /// own; no lock may be held.
    pub fn into_parts(self) -> (r: (PageAllocator, HeapAllocator, PageTableRoot))
        requires
            self.wf(),
        ensures
            r.0 == self.pages(),
            r.1 == self.heap(),
            r.2 == self.page_table(),
    {
        let KernelData { page_allocator, heap_allocator, page_table_root } = self;
        (page_allocator.into_inner(), heap_allocator.into_inner(), page_table_root.into_inner())
    }

    /// Run `f` on the page allocator with its lock held, and return what
    /// `f` returns; the lock is released afterwards.
    pub fn with_page_allocator<R, F: FnOnce(&mut PageAllocator) -> R>(&mut self, f: F) -> (r: R)
        requires
            old(self).wf(),
            forall|a: &mut PageAllocator| *a == old(self).pages() ==> f.requires((a,)),
        ensures
            final(self).wf(),
            exists|a: &mut PageAllocator|
                *a == old(self).pages() && *final(a) == final(self).pages() && f.ensures((a,), r),
            final(self).heap() == old(self).heap(),
            final(self).page_table() == old(self).page_table(),
    {
        let guard = self.page_allocator.lock();
        let r = f(self.page_allocator.as_mut());
        let _ = self.page_allocator.unlock(guard);
        r
    }

    /// Run `f` on the heap allocator with its lock held, and return what
    /// `f` returns; the lock is released afterwards.
    pub fn with_heap_allocator<R, F: FnOnce(&mut HeapAllocator) -> R>(&mut self, f: F) -> (r: R)
        requires
            old(self).wf(),
            forall|a: &mut HeapAllocator| *a == old(self).heap() ==> f.requires((a,)),
        ensures
            final(self).wf(),
            exists|a: &mut HeapAllocator|
                *a == old(self).heap() && *final(a) == final(self).heap() && f.ensures((a,), r),
            final(self).pages() == old(self).pages(),
            final(self).page_table() == old(self).page_table(),
    {
        let guard = self.heap_allocator.lock();
        let r = f(self.heap_allocator.as_mut());
        let _ = self.heap_allocator.unlock(guard);
        r
    }

    /// Run `f` on the root page table with its lock held, and return what
    /// `f` returns; the lock is released afterwards.
    pub fn with_page_table<R, F: FnOnce(&mut PageTableRoot) -> R>(&mut self, f: F) -> (r: R)
        requires
            old(self).wf(),
            forall|a: &mut PageTableRoot| *a == old(self).page_table() ==> f.requires((a,)),
        ensures
            final(self).wf(),
            exists|a: &mut PageTableRoot|
                *a == old(self).page_table() && *final(a) == final(self).page_table() && f.ensures((a,), r),
            final(self).pages() == old(self).pages(),
            final(self).heap() == old(self).heap(),
    {
        let guard = self.page_table_root.lock();
        let r = f(self.page_table_root.as_mut());
        let _ = self.page_table_root.unlock(guard);
        r
    }

    /// Run `f` on the root page table and the page allocator with both
    /// locks held (the table's lock taken first), and return what `f`
    /// returns; both locks are released afterwards.
    pub fn with_page_table_and_allocator<R, F: FnOnce(&mut PageTableRoot, &mut PageAllocator) -> R>(&mut self, f: F) -> (r: R)
        requires
            old(self).wf(),
            forall|t: &mut PageTableRoot, a: &mut PageAllocator|
                *t == old(self).page_table() && *a == old(self).pages() ==> f.requires((t, a)),
        ensures
            final(self).wf(),
            exists|t: &mut PageTableRoot, a: &mut PageAllocator| {
                &&& *t == old(self).page_table()
                &&& *a == old(self).pages()
                &&& *final(t) == final(self).page_table()
                &&& *final(a) == final(self).pages()
                &&& f.ensures((t, a), r)
            },
            final(self).heap() == old(self).heap(),
    {
        let table_guard = self.page_table_root.lock();
        let page_guard = self.page_allocator.lock();
        let r = f(self.page_table_root.as_mut(), self.page_allocator.as_mut());
        let _ = self.page_allocator.unlock(page_guard);
        let _ = self.page_table_root.unlock(table_guard);
        r
    }
}

} // verus!
