//! `mmap` and `munmap`.

use vstd::prelude::*;
use crate::paging::{reclaim_state, USER_HALF_END};
use crate::mem::PageTableEntry;
use super::errno::{EACCES, EBADF, EINVAL, ENOMEM};
use super::address_space::{is_region, mmap_place, munmap_effects, range_reclaimed, AddressSpace, SharedSpace, SpaceTable};
use super::effects::Effect;
use super::fd::{entry_of, FdEntry};
use super::state::{current_process, lemma_space_changed, Kernel};
use super::vma::{align_up_page, page_up, prot_flags, prot_to_page_flags, Backing, Vma, MAP_ANONYMOUS, MAP_SHARED, PROT_WRITE};

verus! {

/// The first reason to refuse the arguments of `mmap`.
pub open spec fn mmap_refusal(
    addr_hint: u64,
    length: u64,
    prot: u32,
    flags: u32,
    fd: i64,
    offset: u64,
) -> Option<i64> {
    if addr_hint != 0 || length == 0 || offset % 4096 != 0 || prot & !7u32 != 0 || flags & 3 == 0
        || flags & 3 == 3 || (flags & MAP_ANONYMOUS != 0 && fd != -1) {
        Some(EINVAL)
    } else if flags & MAP_ANONYMOUS == 0 && fd < 0 {
        Some(EBADF)
    } else if length + 4095 > u64::MAX {
        Some(EINVAL)
    } else {
        None
    }
}

/// Why the file cannot be mapped that way.
pub open spec fn file_refusal(entry: Option<FdEntry>, prot: u32, flags: u32) -> Option<i64> {
    match entry {
        None => Some(EBADF),
        Some(e) => if flags & MAP_SHARED != 0 && prot & PROT_WRITE != 0 && !(e.flags & 3 == 1
            || e.flags & 3 == 2) {
            Some(EACCES)
        } else if e.vnode_ptr == 0 {
            Some(EBADF)
        } else {
            None
        },
    }
}

/// What a region mapped with `flags` is backed by.
pub open spec fn mmap_backing(entry: Option<FdEntry>, flags: u32, offset: u64) -> Backing {
    if flags & MAP_ANONYMOUS != 0 {
        Backing::Anonymous
    } else {
        Backing::File {
            vnode_ptr: entry->Some_0.vnode_ptr,
            file_offset: offset,
            shared: flags & MAP_SHARED != 0,
        }
    }
}

/// `space` with one more region.
pub open spec fn region_added(
    before: &AddressSpace,
    after: &AddressSpace,
    slot: int,
    vma: Vma,
) -> bool {
    &&& after.vmas@ == before.vmas@.update(slot, Some(vma))
    &&& *after == (AddressSpace { vmas: after.vmas, mmap_next: vma.end, ..*before })
}

/// Only the address space of process `p` and the requests changed.
pub open spec fn only_space_changed(before: &Kernel, after: &Kernel, p: int) -> bool {
    let h = before.procs@[p].address_space as int;
    &&& *after == (Kernel { spaces: after.spaces, log: after.log, ..*before })
    &&& after.spaces.live(h)
    &&& SpaceTable::set_at(&before.spaces, &after.spaces, h, after.spaces.at(h))
}

/// `mmap` can be called on `cpu_id`: only arguments that are not refused make it
/// look for the process.
pub open spec fn can_mmap(
    k: &Kernel,
    addr_hint: u64,
    length: u64,
    prot: u32,
    flags: u32,
    fd: i64,
    offset: u64,
    cpu_id: u32,
) -> bool {
    mmap_refusal(addr_hint, length, prot, flags, fd, offset) is None ==> k.sched.unlocked(cpu_id)
}

/// What `mmap` does and returns.
pub open spec fn mmap_call(
    before: &Kernel,
    after: &Kernel,
    addr_hint: u64,
    length: u64,
    prot: u32,
    flags: u32,
    fd: i64,
    offset: u64,
    cpu_id: u32,
    r: i64,
) -> bool {
    match mmap_refusal(addr_hint, length, prot, flags, fd, offset) {
        Some(e) => r == e && *after == *before,
        None => match before.current(cpu_id) {
            None => r == -12 && *after == *before,
            Some(p) => {
                let anon = flags & MAP_ANONYMOUS != 0;
                let entry = entry_of(before.procs@[p as int].fd_table.fds@, fd as i32);
                let refusal = file_refusal(entry, prot, flags);
                let len = page_up(length as int) as u64;
                let space = before.space_of(p as int);
                let vnode = entry->Some_0.vnode_ptr;
                if !anon && refusal is Some {
                    r == refusal->Some_0 && *after == *before
                } else {
                    match mmap_place(space.vmas@, space.mmap_next, len) {
                        None => {
                            &&& r == -12
                            &&& only_space_changed(before, after, p as int)
                            &&& after.space_of(p as int) == space
                            &&& after.log@ == (if anon {
                                before.log@
                            } else {
                                before.log@.push(Effect::IncRef { vnode }).push(
                                    Effect::DecRef { vnode },
                                )
                            })
                        },
                        Some((slot, start)) => {
                            &&& r == start
                            &&& only_space_changed(before, after, p as int)
                            &&& region_added(
                                &space,
                                &after.space_of(p as int),
                                slot,
                                Vma {
                                    start: start as u64,
                                    end: (start + len) as u64,
                                    flags: prot_flags(prot),
                                    backing: mmap_backing(entry, flags, offset),
                                },
                            )
                            &&& after.log@ == (if anon {
                                before.log@
                            } else {
                                before.log@.push(Effect::IncRef { vnode })
                            })
                        },
                    }
                }
            },
        },
    }
}

/// `mmap(addr_hint, length, prot, flags, fd, offset)` by the process that runs
/// on `cpu_id`: the address of the new region, or an error.
pub fn sys_mmap(
    k: &mut Kernel,
    addr_hint: u64,
    length: u64,
    prot: u32,
    flags: u32,
    fd: i64,
    offset: u64,
    cpu_id: u32,
) -> (r: i64)
    requires
        old(k).wf(),
        can_mmap(old(k), addr_hint, length, prot, flags, fd, offset, cpu_id),
    ensures
        final(k).wf(),
        mmap_call(old(k), final(k), addr_hint, length, prot, flags, fd, offset, cpu_id, r),
{
    if addr_hint != 0 {
        return EINVAL;
    }
    if length == 0 {
        return EINVAL;
    }
    if offset % 4096 != 0 {
        return EINVAL;
    }
    if prot & !7u32 != 0 {
        return EINVAL;
    }
    if flags & 3 == 0 || flags & 3 == 3 {
        return EINVAL;
    }
    let is_anon = (flags & MAP_ANONYMOUS) != 0;
    if is_anon && fd != -1 {
        return EINVAL;
    }
    if !is_anon && fd < 0 {
        return EBADF;
    }
    let len: u64 = match align_up_page(length) {
        Some(len) => len,
        None => return EINVAL,
    };
    let p: usize = match current_process(k, cpu_id) {
        Some(p) => p,
        None => return ENOMEM,
    };
    let ghost k0 = *k;
    assert(k0.live(p as int));
    assert(k0.process_wf(p as int));
    let mut backing = Backing::Anonymous;
    if !is_anon {
        let entry: FdEntry = match k.procs[p].fd_table.get(fd as i32) {
            Some(e) => *e,
            None => return EBADF,
        };
        if (flags & MAP_SHARED) != 0 && (prot & PROT_WRITE) != 0 && !entry.can_write() {
            return EACCES;
        }
        if entry.vnode_ptr == 0 {
            return EBADF;
        }
        k.log.push(Effect::IncRef { vnode: entry.vnode_ptr });
        backing =
        Backing::File {
            vnode_ptr: entry.vnode_ptr,
            file_offset: offset,
            shared: (flags & MAP_SHARED) != 0,
        };
    }
    let page_flags = prot_to_page_flags(prot);
    let h: usize = k.procs[p].address_space;
    assert(k.spaces.live(h as int));
    let mut out: Option<SharedSpace> = None;
    std::mem::swap(&mut out, &mut k.spaces.slots[h]);
    let mut shared = out.unwrap();
    let ghost shared0 = shared;
    let placed = shared.space.mmap(len, page_flags, backing);
    let ghost shared1 = shared;
    k.spaces.slots.set(h, Some(shared));
    let r: i64 = match placed {
        Some(addr) => {
            proof {
                super::address_space::mmap_finds_free_space(
                    shared0.space.vmas@,
                    shared0.space.mmap_next,
                    len,
                );
            }
            addr as i64
        },
        None => {
            match backing {
                Backing::File { vnode_ptr, .. } => {
                    k.log.push(Effect::DecRef { vnode: vnode_ptr });
                },
                Backing::Anonymous => {},
            }
            ENOMEM
        },
    };
    proof {
        assert(k.spaces.slots@ =~= k0.spaces.slots@.update(h as int, Some(shared1)));
        assert(only_space_changed(&k0, k, p as int));
        assert(k.mem.pool@ =~= k0.mem.pool@.take(k.mem.pool@.len() as int));
        lemma_space_changed(&k0, k, h as int);
    }
    r
}

/// The arguments of `munmap` are refused, whatever is mapped.
pub open spec fn munmap_refused(addr: u64, length: u64) -> bool {
    addr == 0 || length == 0 || addr % 4096 != 0 || length + 4095 > u64::MAX
}

/// `munmap` can be called on `cpu_id`: only arguments that are not refused make
/// it look for the process.
pub open spec fn can_munmap(k: &Kernel, addr: u64, length: u64, cpu_id: u32) -> bool {
    !munmap_refused(addr, length) ==> k.sched.unlocked(cpu_id)
}

/// What `munmap` does and returns.
pub open spec fn munmap_call(
    before: &Kernel,
    after: &Kernel,
    addr: u64,
    length: u64,
    cpu_id: u32,
    r: i64,
) -> bool {
    if munmap_refused(addr, length) {
        r == -22 && *after == *before
    } else {
        match before.current(cpu_id) {
            None => r == -22 && *after == *before,
            Some(p) => {
                let len = page_up(length as int);
                let h = before.procs@[p as int].address_space as int;
                let space = before.space_of(p as int);
                let found = exists|i: int| #[trigger]
                    is_region(space.vmas@, i, addr as int, addr + len);
                &&& *after == (Kernel {
                    mem: after.mem,
                    cow: after.cow,
                    spaces: after.spaces,
                    log: after.log,
                    ..*before
                })
                &&& after.spaces.live(h)
                &&& SpaceTable::set_at(
                    &before.spaces,
                    &after.spaces,
                    h,
                    after.spaces.at(h),
                )
                &&& r == (if found {
                    0int
                } else {
                    -22
                })
                &&& !found ==> after.spaces.at(h) == space && after.cow == before.cow
                    && after.mem == before.mem && after.log@ == before.log@
                &&& forall|i: int| #[trigger]
                    is_region(space.vmas@, i, addr as int, addr + len) ==> {
                        let vma = space.vmas@[i]->Some_0;
                        let left = after.spaces.at(h);
                        &&& left.vmas@ == space.vmas@.update(i, None)
                        &&& left == (AddressSpace {
                            tables: left.tables,
                            vmas: left.vmas,
                            ..space
                        })
                        &&& left.tables.frames() == space.tables.frames()
                        &&& left.tables.kernel_half_kept(&space.tables)
                        &&& forall|v: u64|
                            v < USER_HALF_END ==> #[trigger] left.pte(v) == (if addr <= v < addr
                                + len && space.pte(v).flags.present {
                                PageTableEntry::blank()
                            } else {
                                space.pte(v)
                            })
                        &&& after.log@ == before.log@ + munmap_effects(
                            vma,
                            &space.tables,
                            space.active_cpus.mask(),
                        )
                        &&& reclaim_state(&after.cow, &after.mem) == (
                        if vma.is_shared_file() {
                            reclaim_state(&before.cow, &before.mem)
                        } else {
                            range_reclaimed(
                                &space.tables,
                                addr,
                                (len / 4096) as nat,
                                reclaim_state(&before.cow, &before.mem),
                            )
                        })
                        &&& after.mem.bytes == before.mem.bytes
                        &&& after.mem.pool == before.mem.pool
                    }
            },
        }
    }
}

/// `munmap(addr, length)` by the process that runs on `cpu_id`.
pub fn sys_munmap(k: &mut Kernel, addr: u64, length: u64, cpu_id: u32) -> (r: i64)
    requires
        old(k).wf(),
        can_munmap(old(k), addr, length, cpu_id),
    ensures
        final(k).wf(),
        munmap_call(old(k), final(k), addr, length, cpu_id, r),
{
    if addr == 0 || length == 0 || addr % 4096 != 0 {
        return EINVAL;
    }
    let len: u64 = match align_up_page(length) {
        Some(len) => len,
        None => return EINVAL,
    };
    let p: usize = match current_process(k, cpu_id) {
        Some(p) => p,
        None => return EINVAL,
    };
    let ghost k0 = *k;
    assert(k0.live(p as int));
    assert(k0.process_wf(p as int));
    let h: usize = k.procs[p].address_space;
    assert(k.spaces.live(h as int));
    let mut out: Option<SharedSpace> = None;
    std::mem::swap(&mut out, &mut k.spaces.slots[h]);
    let mut shared = out.unwrap();
    let ghost shared0 = shared;
    let done = shared.space.munmap(&mut k.cow, &mut k.mem, &mut k.log, addr, len);
    let ghost shared1 = shared;
    k.spaces.slots.set(h, Some(shared));
    proof {
        assert(k.spaces.slots@ =~= k0.spaces.slots@.update(h as int, Some(shared1)));
        assert(k.mem.pool@ =~= k0.mem.pool@.take(k.mem.pool@.len() as int));
        super::state::lemma_apart_same(&shared0.space, &shared1.space, &k0.mem, &k.mem);
        lemma_space_changed(&k0, k, h as int);
    }
    if done {
        0
    } else {
        EINVAL
    }
}

} // verus!
