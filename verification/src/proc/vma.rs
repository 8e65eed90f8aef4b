//! Mapped regions of an address space.

use vstd::prelude::*;
use crate::mem::PageFlags;

verus! {

pub const MAX_VMAS: usize = 32;

pub const MMAP_BASE: u64 = 0x0000_4000_0000_0000;

pub const MMAP_REGION_END: u64 = 0x0000_7000_0000_0000;

pub const PROT_READ: u32 = 1;

pub const PROT_WRITE: u32 = 2;

pub const PROT_EXEC: u32 = 4;

pub const MAP_SHARED: u32 = 0x01;

pub const MAP_PRIVATE: u32 = 0x02;

pub const MAP_ANONYMOUS: u32 = 0x20;

pub const SYS_MMAP: u64 = 9;

pub const SYS_MUNMAP: u64 = 11;

/// What backs the pages of a region.
#[derive(Clone, Copy, Debug, PartialEq, Eq, Structural)]
pub enum Backing {
    Anonymous,
    File {
        /// Address of the backing vnode.
        vnode_ptr: usize,
        /// Offset into the file at the region's start.
        file_offset: u64,
        /// Writes go back to the file, and are never copied.
        shared: bool,
    },
}

#[derive(Clone, Copy, Debug, PartialEq, Eq, Structural)]
pub struct Vma {
    pub start: u64,
    pub end: u64,
    pub flags: PageFlags,
    pub backing: Backing,
}

impl Vma {
    /// `addr` lies in the region.
    pub open spec fn spec_contains(&self, addr: u64) -> bool {
        self.start <= addr < self.end
    }

    /// The region maps a file whose pages all mappers share.
    pub open spec fn is_shared_file(&self) -> bool {
        self.backing matches Backing::File { shared, .. } && shared
    }

    pub fn contains(&self, addr: u64) -> (r: bool)
        ensures
            r == self.spec_contains(addr),
    {
        self.start <= addr && addr < self.end
    }

    pub fn len(&self) -> (r: u64)
        requires
            self.start <= self.end,
        ensures
            r == self.end - self.start,
    {
        self.end - self.start
    }

    pub fn is_empty(&self) -> (r: bool)
        ensures
            r == (self.start == self.end),
    {
        self.start == self.end
    }

    /// The region's pages are copied on write, across fork too: true unless
    /// it maps a file shared.
    pub fn is_cow_eligible(&self) -> (r: bool)
        ensures
            r == !self.is_shared_file(),
    {
        match self.backing {
            Backing::File { shared, .. } => !shared,
            Backing::Anonymous => true,
        }
    }
}

pub fn flags_writable(flags: PageFlags) -> (r: bool)
    ensures
        r == flags.writable,
{
    flags.writable
}

/// The page attributes of a `PROT_*` mask.
pub open spec fn prot_flags(prot: u32) -> PageFlags {
    PageFlags {
        present: true,
        user: true,
        writable: prot & PROT_WRITE != 0,
        no_execute: prot & PROT_EXEC == 0,
        ..PageFlags::none()
    }
}

pub fn prot_to_page_flags(prot: u32) -> (r: PageFlags)
    ensures
        r == prot_flags(prot),
{
    let mut flags = PageFlags::new().with_present().with_user_accessible();
    if prot & PROT_WRITE != 0 {
        flags = flags.with_writable();
    }
    if prot & PROT_EXEC == 0 {
        flags = flags.with_no_execute();
    }
    flags
}

/// The least page boundary not below `value`.
pub open spec fn page_up(value: int) -> int {
    (value + 4095) / 4096 * 4096
}

/// The least page boundary not below `value`, unless it overflows.
pub fn align_up_page(value: u64) -> (r: Option<u64>)
    ensures
        match r {
            Some(v) => value + 4095 <= u64::MAX && v == page_up(value as int),
            None => value + 4095 > u64::MAX,
        },
{
    match value.checked_add(4095) {
        Some(v) => Some(v / 4096 * 4096),
        None => None,
    }
}

/// The greatest page boundary not above `value`.
pub fn align_down_page(value: u64) -> (r: u64)
    ensures
        r == value - value % 4096,
{
    value - value % 4096
}

/// Rounding up and down are exact on page boundaries, and otherwise bracket
/// the value within one page.
pub proof fn page_rounding(value: int)
    requires
        0 <= value,
    ensures
        value - value % 4096 <= value <= page_up(value),
        page_up(value) % 4096 == 0,
        (value - value % 4096) % 4096 == 0,
        value % 4096 == 0 ==> page_up(value) == value,
        value % 4096 != 0 ==> page_up(value) == value - value % 4096 + 4096,
{
}

} // verus!
