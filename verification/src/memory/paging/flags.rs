use vstd::prelude::*;

verus! {

/// The entry maps a page or points to a table.
pub const PRESENT: u64 = 0x1;
/// Writes are allowed.
pub const WRITABLE: u64 = 0x2;
/// User-mode accesses are allowed.
pub const USER: u64 = 0x4;
/// Write-through caching.
pub const WRITE_THROUGH: u64 = 0x8;
/// Caching disabled.
pub const NO_CACHE: u64 = 0x10;
/// Set by the CPU when the entry is used.
pub const ACCESSED: u64 = 0x20;
/// Set by the CPU when the page is written.
pub const DIRTY: u64 = 0x40;
/// The entry maps a large page instead of pointing to a table.
pub const HUGE: u64 = 0x80;
/// The translation is global.
pub const GLOBAL: u64 = 0x100;
/// Instruction fetches are not allowed.
pub const NO_EXECUTE: u64 = 0x8000_0000_0000_0000;

} // verus!
