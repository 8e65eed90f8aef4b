//! What programs see of their file descriptors.

use vstd::prelude::*;
use super::effects::Effect;
use super::fd::{balance, close_releases, dup2_done, dup_done, fork_refs, lowest_is_lowest, FdEntry, FdTable};
use super::lifecycle::created;
use super::mmap::mmap_call;
use super::state::Kernel;
use super::syscall::{dup2_call, dup_call};

verus! {

/// How many of the first `n` descriptors stand for `vnode`.
pub open spec fn descriptors_of(fds: Seq<Option<FdEntry>>, vnode: usize, n: nat) -> int
    decreases n,
{
    if n == 0 {
        0
    } else {
        descriptors_of(fds, vnode, (n - 1) as nat) + (if fds[n - 1] matches Some(e) && e.vnode_ptr
            == vnode {
            1int
        } else {
            0
        })
    }
}

proof fn lemma_one_changed(
    before: Seq<Option<FdEntry>>,
    after: Seq<Option<FdEntry>>,
    i: int,
    vnode: usize,
    n: nat,
)
    requires
        n <= before.len(),
        0 <= i < before.len(),
        after == before.update(i, after[i]),
    ensures
        descriptors_of(after, vnode, n) == descriptors_of(before, vnode, n) + (if i < n {
            (if after[i] matches Some(e) && e.vnode_ptr == vnode {
                1int
            } else {
                0
            }) - (if before[i] matches Some(e) && e.vnode_ptr == vnode {
                1int
            } else {
                0
            })
        } else {
            0
        }),
    decreases n,
{
    if n > 0 {
        lemma_one_changed(before, after, i, vnode, (n - 1) as nat);
    }
}

proof fn lemma_balance_push(effects: Seq<Effect>, e: Effect, vnode: usize)
    ensures
        balance(effects.push(e), vnode) == balance(effects, vnode) + (match e {
            Effect::IncRef { vnode: v } if v == vnode => 1int,
            Effect::Release { vnode: v } if v == vnode => -1int,
            Effect::DecRef { vnode: v } if v == vnode => -1int,
            _ => 0int,
        }),
{
    assert(effects.push(e).drop_last() =~= effects);
}

/// What a program duplicates it has open twice: the new descriptor was the lowest
/// that was free, and stands for the same file as the old one, opened in the same
/// way. No other descriptor changes.
pub proof fn duplicate_stands_for_the_same_file(
    before: &Kernel,
    after: &Kernel,
    old_fd: i32,
    cpu_id: u32,
    r: i64,
    p: usize,
    fd: int,
)
    requires
        before.current(cpu_id) == Some(p),
        0 <= p < before.procs@.len(),
        dup_call(before, after, old_fd, cpu_id, r),
        0 <= fd < 64,
    ensures
        ({
            let was = before.procs@[p as int].fd_table.fds@;
            let now = after.procs@[p as int].fd_table.fds@;
            let open = 0 <= old_fd < 64 && was[old_fd as int] is Some;
            &&& !open <==> r == -9
            &&& r == -24 <==> open && forall|i: int| 0 <= i < 64 ==> #[trigger] was[i] is Some
            &&& r < 0 ==> after.procs@[p as int].fd_table == before.procs@[p as int].fd_table
            &&& r >= 0 ==> {
                &&& r < 64
                &&& was[r as int] is None
                &&& fd < r ==> was[fd] is Some
                &&& now[r as int] == was[old_fd as int]
                &&& fd != r ==> now[fd] == was[fd]
            }
        }),
{
    lowest_is_lowest(before.procs@[p as int].fd_table.fds@, 64);
}

/// What a program duplicates under a number of its choice, that number stands for
/// from then on, whatever it stood for before. No other descriptor changes.
pub proof fn chosen_descriptor_stands_for_the_same_file(
    before: &Kernel,
    after: &Kernel,
    old_fd: i32,
    new_fd: i32,
    cpu_id: u32,
    r: i64,
    p: usize,
    fd: int,
)
    requires
        before.current(cpu_id) == Some(p),
        0 <= p < before.procs@.len(),
        dup2_call(before, after, old_fd, new_fd, cpu_id, r),
        0 <= fd < 64,
    ensures
        ({
            let was = before.procs@[p as int].fd_table.fds@;
            let now = after.procs@[p as int].fd_table.fds@;
            let open = 0 <= old_fd < 64 && was[old_fd as int] is Some;
            &&& open && 0 <= new_fd < 64 ==> {
                &&& r == new_fd
                &&& now[new_fd as int] == was[old_fd as int]
                &&& fd != new_fd ==> now[fd] == was[fd]
            }
            &&& !(open && 0 <= new_fd < 64) ==> r == -9 && now == was
        }),
{
}

/// Duplicating a descriptor takes as many references to a file as there are more
/// descriptors of it afterwards, and gives up as many as there are fewer.
pub proof fn duplicates_hold_references(
    before: FdTable,
    after: FdTable,
    log0: Seq<Effect>,
    log1: Seq<Effect>,
    old_fd: i32,
    r: i32,
    vnode: usize,
)
    requires
        dup_done(before, after, log0, log1, old_fd, r),
    ensures
        balance(log1, vnode) - balance(log0, vnode) == descriptors_of(after.fds@, vnode, 64)
            - descriptors_of(before.fds@, vnode, 64),
{
    lowest_is_lowest(before.fds@, 64);
    if r >= 0 {
        lemma_one_changed(before.fds@, after.fds@, r as int, vnode, 64);
        lemma_balance_push(log0, log1.last(), vnode);
    }
}

/// The same of a descriptor that is duplicated under a chosen number: the file that
/// it stood for before has one reference fewer.
pub proof fn chosen_descriptors_hold_references(
    before: FdTable,
    after: FdTable,
    log0: Seq<Effect>,
    log1: Seq<Effect>,
    old_fd: i32,
    new_fd: i32,
    r: i32,
    vnode: usize,
)
    requires
        dup2_done(before, after, log0, log1, old_fd, new_fd, r),
    ensures
        balance(log1, vnode) - balance(log0, vnode) == descriptors_of(after.fds@, vnode, 64)
            - descriptors_of(before.fds@, vnode, 64),
{
    if r >= 0 {
        lemma_one_changed(before.fds@, after.fds@, new_fd as int, vnode, 64);
        if old_fd == new_fd {
            assert(log1 =~= log0);
        } else {
            let inc = Effect::IncRef { vnode: before.fds@[old_fd as int]->Some_0.vnode_ptr };
            match before.fds@[new_fd as int] {
                Some(gone) => {
                    let dec = Effect::DecRef { vnode: gone.vnode_ptr };
                    assert(log1 =~= log0.push(dec).push(inc));
                    lemma_balance_push(log0, dec, vnode);
                    lemma_balance_push(log0.push(dec), inc, vnode);
                },
                None => {
                    assert(log1 =~= log0.push(inc));
                    lemma_balance_push(log0, inc, vnode);
                },
            }
        }
    }
}

/// A child takes one reference to a file for each of its descriptors of it, and a
/// program that ends gives up one for each.
pub proof fn tables_hold_references(fds: Seq<Option<FdEntry>>, vnode: usize, n: nat)
    requires
        vnode != 0,
        n <= fds.len(),
    ensures
        balance(fork_refs(fds, n), vnode) == descriptors_of(fds, vnode, n),
        balance(close_releases(fds, n), vnode) == -descriptors_of(fds, vnode, n),
    decreases n,
{
    if n > 0 {
        tables_hold_references(fds, vnode, (n - 1) as nat);
        if let Some(e) = fds[n - 1] {
            if e.vnode_ptr != 0 {
                lemma_balance_push(
                    fork_refs(fds, (n - 1) as nat),
                    Effect::IncRef { vnode: e.vnode_ptr },
                    vnode,
                );
                lemma_balance_push(
                    close_releases(fds, (n - 1) as nat),
                    Effect::Release { vnode: e.vnode_ptr },
                    vnode,
                );
            }
        }
    }
}

/// A file that was opened for reading can be read, one that was opened for writing
/// can be written to, and one that was opened for both can be used for both.
pub proof fn files_are_used_as_opened(e: FdEntry, reads: bool, writes: bool)
    requires
        call_ensures(FdEntry::can_read, (&e,), reads),
        call_ensures(FdEntry::can_write, (&e,), writes),
        e.flags & 3 != 3,
    ensures
        reads || writes,
        e.flags & 3 == 0 ==> reads && !writes,
        e.flags & 3 == 1 ==> writes && !reads,
        e.flags & 3 == 2 ==> reads && writes,
{
    let f = e.flags;
    assert(f & 3 < 4) by (bit_vector);
}

/// The first program has the serial line open as its standard files: it reads from
/// the first and writes to the other two. Where there is no serial line, it has
/// nothing open.
pub proof fn first_program_talks_to_the_serial_line(
    before: &Kernel,
    after: &Kernel,
    elf: Seq<u8>,
    name: Seq<u8>,
    pcid: u16,
    entry: u64,
    kstack: u64,
    fd: int,
)
    requires
        created(before, after, elf, name, pcid, entry, kstack),
        0 <= fd < 64,
        before.procs@.len() <= usize::MAX,
    ensures
        ({
            let fds = after.procs@[before.procs@.len() as int].fd_table.fds@;
            if fd < 3 && before.serial_vnode != 0 {
                &&& fds[fd] is Some
                &&& fds[fd]->Some_0.vnode_ptr == before.serial_vnode
                &&& fds[fd]->Some_0.offset == 0
                &&& fds[fd]->Some_0.flags == (if fd == 0 {
                    0u32
                } else {
                    1u32
                })
            } else {
                fds[fd] is None
            }
        }),
{
}

/// A mapping of a file holds one reference to it, from `mmap` on; one that fails holds
/// none.
pub proof fn mapping_holds_a_reference(
    before: &Kernel,
    after: &Kernel,
    addr_hint: u64,
    length: u64,
    prot: u32,
    flags: u32,
    fd: i64,
    offset: u64,
    cpu_id: u32,
    r: i64,
    p: usize,
    vnode: usize,
)
    requires
        before.wf(),
        before.current(cpu_id) == Some(p),
        before.live(p as int),
        fd <= 0x7fff_ffff,
        mmap_call(before, after, addr_hint, length, prot, flags, fd, offset, cpu_id, r),
    ensures
        balance(after.log@, vnode) - balance(before.log@, vnode) == (if r >= 0 && flags & 0x20 == 0
            && before.procs@[p as int].fd_table.fds@[fd as int]->Some_0.vnode_ptr == vnode {
            1int
        } else {
            0
        }),
{
    let space = before.space_of(p as int);
    let len = super::vma::page_up(length as int) as u64;
    if super::address_space::mmap_place(space.vmas@, space.mmap_next, len) is Some {
        super::address_space::mmap_finds_free_space(space.vmas@, space.mmap_next, len);
    }
    let v = before.procs@[p as int].fd_table.fds@[fd as int]->Some_0.vnode_ptr;
    let inc = Effect::IncRef { vnode: v };
    let dec = Effect::DecRef { vnode: v };
    lemma_balance_push(before.log@, inc, vnode);
    lemma_balance_push(before.log@.push(inc), dec, vnode);
}

} // verus!
