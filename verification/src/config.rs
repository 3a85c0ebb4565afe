//! Kernel configuration constants.
use vstd::prelude::*;

verus! {

/// Maximum number of supported harts.
pub const MAX_HARTS: usize = 16;

/// Virtual address where the kernel heap starts (higher half).
pub const KERNEL_HEAP_ADDR: u64 = 0xffff_cafe_0000_0000;

/// Number of pages reserved for the kernel heap.
pub const NUM_HEAP_PAGES: usize = 1024;

/// Virtual prefix under which device (I/O) physical addresses are mapped.
pub const KERNEL_IO_ADDR: u64 = 0xffff_beef_0000_0000;

} // verus!
