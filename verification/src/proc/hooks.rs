//! The services that the file system registers with the process layer. Until
//! it has, each of them has a fixed answer.

use vstd::prelude::*;
use super::errno::ENOENT;

verus! {

/// The page cache of the file system.
pub struct PageCacheHooks<G, D, W> {
    /// The frame that holds a page of a file.
    pub get_or_fill: Option<G>,
    /// A page of a file is about to be written.
    pub mark_dirty: Option<D>,
    /// Write a file's dirty pages back.
    pub writeback: Option<W>,
}

/// The counts of references to vnodes.
pub struct VnodeHooks<I, X> {
    pub inc_ref: Option<I>,
    pub dec_ref: Option<X>,
}

/// Register the handler of the calls that are not calls of processes.
pub fn register_extra<C>(slot: &mut Option<C>, f: C)
    ensures
        *final(slot) == Some(f),
{
    *slot = Some(f);
}

/// Register what reads an executable.
pub fn register_exec_loader<L>(slot: &mut Option<L>, f: L)
    ensures
        *final(slot) == Some(f),
{
    *slot = Some(f);
}

/// Register the page cache.
pub fn register_page_cache_hooks<G, D, W>(
    slots: &mut PageCacheHooks<G, D, W>,
    get_or_fill: G,
    mark_dirty: D,
    writeback: W,
)
    ensures
        *final(slots) == (PageCacheHooks {
            get_or_fill: Some(get_or_fill),
            mark_dirty: Some(mark_dirty),
            writeback: Some(writeback),
        }),
{
    *slots =
    PageCacheHooks {
        get_or_fill: Some(get_or_fill),
        mark_dirty: Some(mark_dirty),
        writeback: Some(writeback),
    };
}

/// Register the counts of references.
pub fn register_vnode_refcount_hooks<I, X>(
    slots: &mut VnodeHooks<I, X>,
    inc_ref: I,
    dec_ref: X,
)
    ensures
        *final(slots) == (VnodeHooks { inc_ref: Some(inc_ref), dec_ref: Some(dec_ref) }),
{
    *slots = VnodeHooks { inc_ref: Some(inc_ref), dec_ref: Some(dec_ref) };
}

/// Register what is done when a descriptor is closed.
pub fn register_vnode_release_hook<R>(slot: &mut Option<R>, f: R)
    ensures
        *final(slot) == Some(f),
{
    *slot = Some(f);
}

/// Read the file at `path`, at most `max` bytes of it: how many were read, or an
/// error, and the bytes.
pub fn load_exec_file<L: Fn(&str, usize) -> (i64, Vec<u8>)>(
    slot: &Option<L>,
    path: &str,
    max: usize,
) -> (r: (i64, Vec<u8>))
    requires
        slot matches Some(f) ==> call_requires(f, (path, max)),
    ensures
        match *slot {
            None => r.0 == ENOENT && r.1@.len() == 0,
            Some(f) => call_ensures(f, (path, max), r),
        },
{
    match slot {
        Some(f) => f(path, max),
        None => (ENOENT, Vec::new()),
    }
}

/// The frame that holds the page at `file_offset` of a file, if it can be had.
pub fn page_cache_get_or_fill<G: Fn(usize, u64) -> Option<u64>, D, W>(
    slots: &PageCacheHooks<G, D, W>,
    vnode_ptr: usize,
    file_offset: u64,
) -> (r: Option<u64>)
    requires
        slots.get_or_fill matches Some(f) ==> call_requires(f, (vnode_ptr, file_offset)),
    ensures
        match slots.get_or_fill {
            None => r is None,
            Some(f) => call_ensures(f, (vnode_ptr, file_offset), r),
        },
{
    match &slots.get_or_fill {
        Some(f) => f(vnode_ptr, file_offset),
        None => None,
    }
}

/// Say that the page at `file_offset` of a file is about to be written.
pub fn page_cache_mark_dirty<G, D: Fn(usize, u64), W>(
    slots: &PageCacheHooks<G, D, W>,
    vnode_ptr: usize,
    file_offset: u64,
)
    requires
        slots.mark_dirty matches Some(f) ==> call_requires(f, (vnode_ptr, file_offset)),
    ensures
        slots.mark_dirty matches Some(f) ==> call_ensures(f, (vnode_ptr, file_offset), ()),
{
    if let Some(f) = &slots.mark_dirty {
        f(vnode_ptr, file_offset);
    }
}

/// Write a file's dirty pages back; there is nothing to write before the file
/// system is up.
pub fn page_cache_writeback<G, D, W: Fn(usize) -> i32>(
    slots: &PageCacheHooks<G, D, W>,
    vnode_ptr: usize,
) -> (r: i32)
    requires
        slots.writeback matches Some(f) ==> call_requires(f, (vnode_ptr,)),
    ensures
        match slots.writeback {
            None => r == 0,
            Some(f) => call_ensures(f, (vnode_ptr,), r),
        },
{
    match &slots.writeback {
        Some(f) => f(vnode_ptr),
        None => 0,
    }
}

pub fn vnode_inc_ref<I: Fn(usize), X>(slots: &VnodeHooks<I, X>, vnode_ptr: usize)
    requires
        slots.inc_ref matches Some(f) ==> call_requires(f, (vnode_ptr,)),
    ensures
        slots.inc_ref matches Some(f) ==> call_ensures(f, (vnode_ptr,), ()),
{
    if let Some(f) = &slots.inc_ref {
        f(vnode_ptr);
    }
}

pub fn vnode_dec_ref<I, X: Fn(usize)>(slots: &VnodeHooks<I, X>, vnode_ptr: usize)
    requires
        slots.dec_ref matches Some(f) ==> call_requires(f, (vnode_ptr,)),
    ensures
        slots.dec_ref matches Some(f) ==> call_ensures(f, (vnode_ptr,), ()),
{
    if let Some(f) = &slots.dec_ref {
        f(vnode_ptr);
    }
}

/// Tell a vnode that one of its descriptors is closed.
pub fn vnode_release<R: Fn(usize)>(slot: &Option<R>, vnode_ptr: usize)
    requires
        slot matches Some(f) ==> call_requires(f, (vnode_ptr,)),
    ensures
        slot matches Some(f) ==> call_ensures(f, (vnode_ptr,), ()),
{
    if let Some(f) = slot {
        f(vnode_ptr);
    }
}

} // verus!
