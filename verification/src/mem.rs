//! Physical memory: frame addresses, page-table entries and frame contents.

use vstd::prelude::*;
use crate::bytes::{overwrite, put_bytes};

verus! {

/// Where the kernel sees all of physical memory.
pub const DIRECT_MAP_BASE: u64 = 0xffff_8000_0000_0000;

pub const PAGE_SIZE: u64 = 4096;

/// A physical address.
#[derive(Clone, Copy, Debug, PartialEq, Eq, Structural)]
pub struct PhysAddr(pub u64);

impl PhysAddr {
    pub fn new(addr: u64) -> (r: Self)
        ensures
            r == PhysAddr(addr),
    {
        PhysAddr(addr)
    }

    pub fn as_u64(&self) -> (r: u64)
        ensures
            r == self.0,
    {
        self.0
    }
}

/// The attributes of a page-table entry that the kernel reads.
#[derive(Clone, Copy, Debug, PartialEq, Eq, Structural)]
pub struct PageFlags {
    pub present: bool,
    pub writable: bool,
    pub user: bool,
    pub huge: bool,
    /// Software-available bit: the frame is shared copy-on-write.
    pub cow: bool,
    pub no_execute: bool,
}

/// `bit` where `on`, else 0.
pub open spec fn bit_if(on: bool, bit: u64) -> u64 {
    if on {
        bit
    } else {
        0
    }
}

fn bit_or_zero(on: bool, bit: u64) -> (r: u64)
    ensures
        r == bit_if(on, bit),
{
    if on {
        bit
    } else {
        0
    }
}

impl PageFlags {
    pub const PRESENT: u64 = 0x1;

    pub const WRITABLE: u64 = 0x2;

    pub const USER_ACCESSIBLE: u64 = 0x4;

    pub const HUGE_PAGE: u64 = 0x80;

    pub const COW: u64 = 0x200;

    pub const NO_EXECUTE: u64 = 0x8000_0000_0000_0000;

    /// No attribute set.
    pub open spec fn none() -> PageFlags {
        PageFlags {
            present: false,
            writable: false,
            user: false,
            huge: false,
            cow: false,
            no_execute: false,
        }
    }

    pub fn new() -> (r: Self)
        ensures
            r == Self::none(),
    {
        PageFlags {
            present: false,
            writable: false,
            user: false,
            huge: false,
            cow: false,
            no_execute: false,
        }
    }

    pub fn with_present(self) -> (r: Self)
        ensures
            r == (PageFlags { present: true, ..self }),
    {
        PageFlags { present: true, ..self }
    }

    pub fn with_writable(self) -> (r: Self)
        ensures
            r == (PageFlags { writable: true, ..self }),
    {
        PageFlags { writable: true, ..self }
    }

    pub fn without_writable(self) -> (r: Self)
        ensures
            r == (PageFlags { writable: false, ..self }),
    {
        PageFlags { writable: false, ..self }
    }

    pub fn with_user_accessible(self) -> (r: Self)
        ensures
            r == (PageFlags { user: true, ..self }),
    {
        PageFlags { user: true, ..self }
    }

    pub fn with_no_execute(self) -> (r: Self)
        ensures
            r == (PageFlags { no_execute: true, ..self }),
    {
        PageFlags { no_execute: true, ..self }
    }

    pub fn with_cow(self) -> (r: Self)
        ensures
            r == (PageFlags { cow: true, ..self }),
    {
        PageFlags { cow: true, ..self }
    }

    pub fn without_cow(self) -> (r: Self)
        ensures
            r == (PageFlags { cow: false, ..self }),
    {
        PageFlags { cow: false, ..self }
    }

    pub fn is_cow(&self) -> (r: bool)
        ensures
            r == self.cow,
    {
        self.cow
    }

    /// The attribute word: each attribute at its architectural bit.
    pub fn as_u64(&self) -> (r: u64)
        ensures
            r == bit_if(self.present, Self::PRESENT) + bit_if(self.writable, Self::WRITABLE)
                + bit_if(self.user, Self::USER_ACCESSIBLE) + bit_if(self.huge, Self::HUGE_PAGE)
                + bit_if(self.cow, Self::COW) + bit_if(self.no_execute, Self::NO_EXECUTE),
    {
        bit_or_zero(self.present, Self::PRESENT) + bit_or_zero(self.writable, Self::WRITABLE)
            + bit_or_zero(self.user, Self::USER_ACCESSIBLE) + bit_or_zero(
            self.huge,
            Self::HUGE_PAGE,
        ) + bit_or_zero(self.cow, Self::COW) + bit_or_zero(self.no_execute, Self::NO_EXECUTE)
    }
}

impl Default for PageFlags {
    fn default() -> (r: Self)
        ensures
            r == PageFlags::none(),
    {
        PageFlags::new()
    }
}

/// One page-table entry: the frame it names and its attributes.
#[derive(Clone, Copy, Debug, PartialEq, Eq, Structural)]
pub struct PageTableEntry {
    pub frame: PhysAddr,
    pub flags: PageFlags,
}

impl PageTableEntry {
    /// The entry of all zeroes.
    pub open spec fn blank() -> PageTableEntry {
        PageTableEntry { frame: PhysAddr(0), flags: PageFlags::none() }
    }

    pub fn empty() -> (r: Self)
        ensures
            r == Self::blank(),
    {
        PageTableEntry { frame: PhysAddr(0), flags: PageFlags::new() }
    }

    pub fn new_page(frame: PhysAddr, flags: PageFlags) -> (r: Self)
        ensures
            r == (PageTableEntry { frame, flags }),
    {
        PageTableEntry { frame, flags }
    }

    pub fn with_flags(self, flags: PageFlags) -> (r: Self)
        ensures
            r == (PageTableEntry { frame: self.frame, flags }),
    {
        PageTableEntry { frame: self.frame, flags }
    }

    pub fn is_present(&self) -> (r: bool)
        ensures
            r == self.flags.present,
    {
        self.flags.present
    }

    pub fn is_huge_page(&self) -> (r: bool)
        ensures
            r == self.flags.huge,
    {
        self.flags.huge
    }

    pub fn is_cow(&self) -> (r: bool)
        ensures
            r == self.flags.cow,
    {
        self.flags.cow
    }
}

/// A page of zeroes.
pub open spec fn zero_page() -> Seq<u8> {
    Seq::new(4096, |i: int| 0u8)
}

/// Memory contents, the frames ready to be handed out, and the frames handed back.
pub struct PhysMem {
    pub bytes: Vec<u8>,
    /// Frames the allocator has set aside, the next one last.
    pub pool: Vec<u64>,
    /// Frames to return to the allocator, oldest first.
    pub freed: Vec<u64>,
}

impl PhysMem {
    /// A whole frame starts at `frame`.
    pub open spec fn holds(&self, frame: u64) -> bool {
        &&& frame % 4096 == 0
        &&& frame + 4096 <= self.bytes@.len()
    }

    /// The pooled frames are frames of this memory, each listed once.
    pub open spec fn wf(&self) -> bool {
        &&& self.pool@.no_duplicates()
        &&& forall|i: int| 0 <= i < self.pool@.len() ==> self.holds(#[trigger] self.pool@[i])
    }

    /// The contents of the frame at `frame`.
    pub open spec fn page(&self, frame: u64) -> Seq<u8> {
        self.bytes@.subrange(frame as int, frame + 4096)
    }

    /// The frame the next allocation returns after `k` others.
    pub open spec fn nth_free(&self, k: int) -> u64 {
        self.pool@[self.pool@.len() - 1 - k]
    }

    /// Memory with contents `bytes` and the given frames available.
    pub fn new(bytes: Vec<u8>, pool: Vec<u64>) -> (r: Self)
        ensures
            r.bytes == bytes,
            r.pool == pool,
            r.freed@ == Seq::<u64>::empty(),
    {
        PhysMem { bytes, pool, freed: Vec::new() }
    }

    /// Take the next frame from the pool.
    pub fn alloc_frame(&mut self) -> (r: PhysAddr)
        requires
            old(self).wf(),
            old(self).pool@.len() > 0,
        ensures
            final(self).wf(),
            r.0 == old(self).nth_free(0),
            final(self).holds(r.0),
            !final(self).pool@.contains(r.0),
            final(self).pool@ == old(self).pool@.drop_last(),
            final(self).bytes == old(self).bytes,
            final(self).freed == old(self).freed,
    {
        let ghost before = self.pool@;
        let frame: u64 = self.pool.pop().unwrap();
        assert(self.pool@ =~= before.drop_last());
        assert(forall|i: int| 0 <= i < self.pool@.len() ==> self.pool@[i] == before[i]);
        PhysAddr(frame)
    }

    /// Hand a frame back.
    pub fn free_frame(&mut self, frame: PhysAddr)
        ensures
            final(self).freed@ == old(self).freed@.push(frame.0),
            final(self).bytes == old(self).bytes,
            final(self).pool == old(self).pool,
    {
        self.freed.push(frame.0);
    }

    /// Write `data` at physical address `at`.
    pub fn write_bytes(&mut self, at: u64, data: &[u8])
        requires
            at + data@.len() <= old(self).bytes@.len(),
        ensures
            final(self).bytes@ == overwrite(old(self).bytes@, at as int, data@),
            final(self).pool == old(self).pool,
            final(self).freed == old(self).freed,
    {
        assert(at + data.len() <= self.bytes.len());
        put_bytes(&mut self.bytes, at as usize, data);
    }

    /// Fill the frame at `frame` with zeroes.
    pub fn zero_frame(&mut self, frame: PhysAddr)
        requires
            old(self).holds(frame.0),
        ensures
            final(self).bytes@ == overwrite(old(self).bytes@, frame.0 as int, zero_page()),
            final(self).pool == old(self).pool,
            final(self).freed == old(self).freed,
    {
        let zeros: [u8; 4096] = [0;4096];
        assert(zeros@ =~= zero_page());
        self.write_bytes(frame.0, &zeros);
    }

    /// Copy `len` bytes out of memory, starting at `at`.
    pub fn read_bytes(&self, at: u64, len: usize) -> (r: Vec<u8>)
        requires
            at + len <= self.bytes@.len(),
        ensures
            r@ == self.bytes@.subrange(at as int, at + len),
    {
        let mut out: Vec<u8> = Vec::new();
        assert(at + len <= self.bytes.len());
        let mut i: usize = 0;
        while i < len
            invariant
                i <= len,
                at + len <= self.bytes@.len() <= usize::MAX,
                out@ == self.bytes@.subrange(at as int, at + i),
            decreases len - i,
        {
            out.push(self.bytes[at as usize + i]);
            i += 1;
            assert(out@ =~= self.bytes@.subrange(at as int, at + i));
        }
        out
    }

    /// Copy the frame at `src` over the frame at `dst`.
    pub fn copy_frame(&mut self, dst: PhysAddr, src: PhysAddr)
        requires
            old(self).holds(dst.0),
            old(self).holds(src.0),
        ensures
            final(self).bytes@ == overwrite(
                old(self).bytes@,
                dst.0 as int,
                old(self).page(src.0),
            ),
            final(self).pool == old(self).pool,
            final(self).freed == old(self).freed,
    {
        let data = self.read_bytes(src.0, 4096);
        self.write_bytes(dst.0, data.as_slice());
    }
}

} // verus!
