//! Where things are in the kernel's half of the address space.

use vstd::prelude::*;

verus! {

pub const PAGE_SIZE: u64 = 4096;

pub const HUGE_PAGE_2M: u64 = 0x20_0000;

pub const HUGE_PAGE_1G: u64 = 0x4000_0000;

pub const KERNEL_BASE: u64 = 0xffff_ffff_8000_0000;

/// Where physical memory is seen with four levels of page tables.
pub const DIRECT_MAP_BASE_4L: u64 = 0xffff_8000_0000_0000;

/// Where physical memory is seen with five levels of page tables.
pub const DIRECT_MAP_BASE_5L: u64 = 0xff00_0000_0000_0000;

/// Where physical address `paddr` is seen; addresses wrap around.
pub fn direct_map_addr(paddr: u64, la57: bool) -> (r: u64)
    ensures
        r == ((if la57 {
            DIRECT_MAP_BASE_5L
        } else {
            DIRECT_MAP_BASE_4L
        }) + paddr) % 0x1_0000_0000_0000_0000,
{
    if la57 {
        DIRECT_MAP_BASE_5L.wrapping_add(paddr)
    } else {
        DIRECT_MAP_BASE_4L.wrapping_add(paddr)
    }
}

} // verus!
