//! What the process layer asks of the rest of the kernel.

use vstd::prelude::*;

verus! {

/// One request, to be performed by the caller in the order it was logged.
/// A vnode is named by its address.
#[derive(Clone, Copy, Debug, PartialEq, Eq)]
pub enum Effect {
    /// Flush the page at `virt` here and on every other CPU of `cpus`.
    Shootdown { cpus: u64, virt: u64 },
    /// One more reference to a vnode.
    IncRef { vnode: usize },
    /// One reference to a vnode fewer.
    DecRef { vnode: usize },
    /// A descriptor of a vnode is closed.
    Release { vnode: usize },
    /// Write a file's dirty cached pages back.
    Writeback { vnode: usize },
    /// A cached page of a file is about to be written through a mapping.
    MarkDirty { vnode: usize, offset: u64 },
    /// Load an address space here: the value for the page-table register.
    LoadSpace { cr3: u64 },
    /// Flush every translation here.
    FlushAll,
    /// Store four bytes in the calling program's memory.
    Store32 { addr: u64, word: u32 },
    /// Store eight bytes in the calling program's memory.
    Store64 { addr: u64, value: u64 },
    /// Store a process name in the calling program's memory.
    StoreName { addr: u64, name: [u8; 16] },
    /// Send bytes of the calling program's memory to the serial line.
    Print { addr: u64, len: u64 },
}

} // verus!
