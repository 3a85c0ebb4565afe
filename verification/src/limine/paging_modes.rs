//! Paging modes requested from Limine: Sv48 only.
use vstd::prelude::*;

verus! {

/// Limine's value for RISC-V Sv48 paging.
pub const SV48: u64 = 1;
/// Preferred paging mode.
pub const PREFERRED: u64 = 1;
/// Lowest acceptable paging mode.
pub const MIN: u64 = 1;
/// Highest acceptable paging mode.
pub const MAX: u64 = 1;

} // verus!
