//! Memory figures as the memory panel shows them.
use vstd::prelude::*;

verus! {

/// The current memory statistics, all values in bytes.
#[derive(Clone, Copy)]
pub struct MemoryStats {
    /// Installed memory.
    pub total: u64,
    /// Memory in use.
    pub used: u64,
    /// Memory available to new work (`MemAvailable`, reclaimable caches
    /// included), not the smaller raw `MemFree`.
    pub free: u64,
    /// Swap space in all.
    pub swap_total: u64,
    /// Swap space in use.
    pub swap_used: u64,
}

} // verus!
