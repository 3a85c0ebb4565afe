//! Sections of the kernel image, as the linker laid them out.
use vstd::prelude::*;

verus! {

/// One section of the kernel image: the bytes from `start` up to `end`
/// (exclusive).
#[derive(Clone, Copy, Debug, PartialEq, Eq, Structural)]
pub struct LinkerSection {
    pub start: u64,
    pub end: u64,
}

impl LinkerSection {
    /// The section between the two linker symbols.
    pub fn new(start: u64, end: u64) -> (r: Self)
        ensures
            r.start == start,
            r.end == end,
    {
        LinkerSection { start, end }
    }

    /// The starting address.
    pub fn start(&self) -> (r: u64)
        ensures
            r == self.start,
    {
        self.start
    }

    /// The ending address (exclusive).
    pub fn end(&self) -> (r: u64)
        ensures
            r == self.end,
    {
        self.end
    }

    /// The size in bytes; zero where the end lies before the start.
    pub fn size(&self) -> (r: u64)
        ensures
            r == if self.end >= self.start { self.end - self.start } else { 0 },
    {
        self.end.saturating_sub(self.start)
    }

    /// Whether `addr` lies in `[start, end)`.
    pub fn contains(&self, addr: u64) -> (r: bool)
        ensures
            r == (self.start <= addr && addr < self.end),
    {
        addr >= self.start && addr < self.end
    }
}

} // verus!
