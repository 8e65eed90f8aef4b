//! Tables shaped like the kernel's.

use vstd::prelude::*;
use crate::sync::spin::SpinLock;

verus! {

/// What stands behind a mapped region.
#[derive(Clone, Copy, Debug, Eq, PartialEq, Structural)]
pub enum BackingR {
    Anonymous,
    File { vnode_ptr: usize, file_offset: u64, shared: bool },
}

/// A mapped region.
#[derive(Clone, Copy, Debug, Eq, PartialEq, Structural)]
pub struct VmaR {
    pub start: u64,
    pub end: u64,
    pub flags: u64,
    pub backing: BackingR,
}

/// Shaped like [`BackingR`], without an address.
#[derive(Clone, Copy, Debug, Eq, PartialEq, Structural)]
pub enum IntBackingR {
    Empty,
    Ints { a: u32, b: u32, c: u64, d: bool },
}

/// Shaped like [`VmaR`], without an address.
#[derive(Clone, Copy, Debug, Eq, PartialEq, Structural)]
pub struct IntVmaR {
    pub start: u64,
    pub end: u64,
    pub flags: u64,
    pub backing: IntBackingR,
}

/// An open file.
#[derive(Clone, Copy, Debug, Eq, PartialEq, Structural)]
pub struct FdEntryR {
    pub vnode_ptr: usize,
    pub offset: u64,
    pub flags: u32,
    pub _reserved: u32,
}

pub const MAX_FDS: usize = 64;

/// The open files of a process.
pub struct FdTableR {
    pub fds: [Option<FdEntryR>; 64],
}

impl FdTableR {
    /// No open files.
    pub fn new() -> (r: Self)
        ensures
            forall|i: int| 0 <= i < 64 ==> (#[trigger] r.fds@[i]) is None,
    {
        FdTableR { fds: [None; 64] }
    }

    /// The table of a child: the same files.
    pub fn clone_for_fork(&self) -> (r: Self)
        ensures
            r.fds@ == self.fds@,
    {
        FdTableR { fds: self.fds }
    }
}

/// What a signal does.
#[derive(Clone, Copy, Debug, Eq, PartialEq, Structural)]
pub enum SigActionR {
    Default,
    Ignore,
    Handler { user_fn: u64 },
}

pub const NSIG: usize = 32;

/// What each signal does.
#[derive(Clone, Copy)]
pub struct SigTableR {
    pub actions: [SigActionR; 32],
}

pub const MAX_VMAS: usize = 32;

pub const MAX_CHILDREN: usize = 32;

/// An address space.
pub struct AddrSpaceR {
    pub pml4_phys: u64,
    pub pcid: u16,
    pub vmas: [Option<VmaR>; 32],
    pub mmap_next: u64,
}

/// An address space whose regions hold no address.
pub struct IntAddrSpaceR {
    pub pml4_phys: u64,
    pub pcid: u16,
    pub vmas: [Option<IntVmaR>; 32],
    pub mmap_next: u64,
}

/// A process, cut down to what is written when it is made.
pub struct ProcessR {
    pub pid: u32,
    pub state: u32,
    pub name: [u8; 16],
    pub user_rip: u64,
    pub user_rsp: u64,
    pub children: SpinLock<[u32; 32]>,
    pub child_count: u32,
}

/// The state of a process, in one byte.
#[derive(Clone, Copy, PartialEq, Eq, Structural)]
pub enum StateR {
    Running,
    Zombie,
}

/// A process, as far as a fork copies it. Addresses are numbers.
pub struct ProcessF {
    pub pid: u32,
    pub state: StateR,
    pub exit_code: i32,
    pub address_space: usize,
    pub thread: usize,
    pub name: [u8; 16],
    pub user_rip: u64,
    pub user_rsp: u64,
    pub user_rflags: u64,
    pub user_rax: i64,
    pub children: SpinLock<[u32; 32]>,
    pub child_count: u32,
}

} // verus!
