//! What a child process starts with, seen from the programs.

use vstd::prelude::*;
use crate::paging::USER_HALF_END;
use super::address_space::fork_shares_memory;
use super::clone::{clone_call, cloned_vm};
use super::fork::{child_added, fork_call, forked, space_forked};
use super::process::{child_slot, lemma_child_slot, Process, ProcessState};
use super::signal::SyscallFrame;
use super::state::Kernel;
use super::usermem::user_byte;

verus! {

/// `child` returns 0 from the call that `frame` was saved by: every register that
/// a program may rely on across a call is what it was in its parent.
pub open spec fn returns_zero_from(child: Process, frame: SyscallFrame) -> bool {
    &&& child.user_rip == frame.user_rip
    &&& child.user_rsp == frame.user_rsp
    &&& child.user_rflags == frame.user_rflags
    &&& child.user_rax == 0
    &&& child.user_callee@.len() == 6
    &&& child.user_callee@[0] == frame.rbx
    &&& child.user_callee@[1] == frame.rbp
    &&& child.user_callee@[2] == frame.r12
    &&& child.user_callee@[3] == frame.r13
    &&& child.user_callee@[4] == frame.r14
    &&& child.user_callee@[5] == frame.r15
}

/// `child` has from `parent` what a child inherits, and nothing that waits for the
/// parent.
pub open spec fn inherits(child: Process, parent: Process) -> bool {
    &&& child.parent_pid == parent.pid
    &&& child.state == ProcessState::Running
    &&& child.live
    &&& forall|i: int| 0 <= i < 16 ==> #[trigger] child.name@[i] == parent.name@[i]
    &&& forall|fd: int| 0 <= fd < 64 ==> #[trigger] child.fd_table.fds@[fd] == parent.fd_table.fds@[fd]
    &&& forall|s: int|
        0 <= s < 32 ==> #[trigger] child.signals.table.actions@[s] == parent.signals.table.actions@[s]
    &&& child.signals.pending.bits == 0
    &&& child.signals.frame is None
    &&& child.child_count == 0
    &&& forall|i: int| 0 <= i < 32 ==> #[trigger] child.children@[i] == 0
}

/// The thread of the newest process, `c`, is the last to be served of those of the
/// highest priority on the first CPU; it starts at `entry` on the stack `kstack`.
pub open spec fn runs_soon(before: &Kernel, after: &Kernel, c: int, entry: u64, kstack: u64) -> bool {
    let t = before.sched.threads@.len() as int;
    let queue = after.sched@.cpus[0].queue[0];
    &&& after.procs@[c].thread == Some(t as usize)
    &&& after.sched@.threads.len() == t + 1
    &&& after.sched@.threads[t].context.rip == entry
    &&& after.sched@.threads[t].kstack_phys == kstack
    &&& queue.len() == before.sched@.cpus[0].queue[0].len() + 1
    &&& queue.last() == t
}

proof fn lemma_child_added(
    before: &Kernel,
    after: &Kernel,
    p: int,
    frame: SyscallFrame,
    rsp: u64,
    callee: Seq<u64>,
    space: usize,
    entry: u64,
    kstack: u64,
    cpu_id: u32,
)
    requires
        0 <= p < before.procs@.len(),
        child_slot(before.procs@[p].children@, 0, 32) is Some,
        before.sched.wf(),
        super::fork::can_add_child(before, kstack),
        child_added(before, after, p, frame, rsp, callee, space, entry, kstack, cpu_id),
    ensures
        ({
            let c = before.procs@.len() as int;
            let child = after.procs@[c];
            &&& after.procs@.len() == c + 1
            &&& inherits(child, before.procs@[p])
            &&& child.pid == before.next_pid
            &&& child.address_space == space
            &&& runs_soon(before, after, c, entry, kstack)
            &&& after.procs@[p].child_count == before.procs@[p].child_count.wrapping_add(1)
            &&& after.procs@[p].children@.contains(child.pid)
            &&& forall|q: int| 0 <= q < c && q != p ==> #[trigger] after.procs@[q] == before.procs@[q]
        }),
{
    assert(before.procs@.len() == before.procs.len());
    assert(before.sched.threads@.len() == before.sched.threads.len());
    let c = before.procs@.len() as int;
    let slot = child_slot(before.procs@[p].children@, 0, 32)->Some_0;
    lemma_child_slot(before.procs@[p].children@, 0, 32);
    assert(after.procs@[p].children@[slot] == before.next_pid);
    assert forall|q: int| 0 <= q < c && q != p implies #[trigger] after.procs@[q] == before.procs@[q] by {
        assert(after.procs@.take(c)[q] == after.procs@[q]);
    }
    assert(after.procs@.take(c)[p] == after.procs@[p]);
    before.sched.cpus@[0].value.run_queue.lemma_shape();
}

/// `fork` returns twice from one call. The parent gets the number of a new process;
/// the child gets 0, goes on with the parent's registers, and has its open files,
/// its name and the signal handlers that it installed.
pub proof fn child_resumes_from_the_same_call(
    before: &Kernel,
    after: &Kernel,
    frame: SyscallFrame,
    pcid: u16,
    entry: u64,
    kstack: u64,
    cpu_id: u32,
    r: i64,
    p: usize,
)
    requires
        before.wf(),
        super::fork::can_fork(before, kstack, cpu_id),
        before.current(cpu_id) == Some(p),
        before.live(p as int),
        fork_call(before, after, frame, pcid, entry, kstack, cpu_id, r),
        r >= 0,
    ensures
        ({
            let c = before.procs@.len() as int;
            let child = after.procs@[c];
            &&& after.procs@.len() == c + 1
            &&& child.pid == r
            &&& returns_zero_from(child, frame)
            &&& inherits(child, before.procs@[p as int])
            &&& runs_soon(before, after, c, entry, kstack)
            &&& after.procs@[p as int].children@.contains(child.pid)
            &&& after.procs@[p as int].address_space == before.procs@[p as int].address_space
            &&& child.address_space != before.procs@[p as int].address_space
            &&& forall|q: int|
                0 <= q < c && q != p ==> #[trigger] after.procs@[q] == before.procs@[q]
        }),
{
    assert(before.process_wf(p as int));
    assert(before.spaces.slots@.len() == before.spaces.slots.len());
    assert(forked(before, after, p as int, frame, pcid, entry, kstack, cpu_id));
    let mid = choose|mid: Kernel|
        space_forked(before, &mid, p as int, pcid) && #[trigger] child_added(
            &mid,
            after,
            p as int,
            frame,
            frame.user_rsp,
            super::fork::callee_saved(frame),
            before.spaces.slots@.len() as usize,
            entry,
            kstack,
            cpu_id,
        );
    lemma_child_added(
        &mid,
        after,
        p as int,
        frame,
        frame.user_rsp,
        super::fork::callee_saved(frame),
        before.spaces.slots@.len() as usize,
        entry,
        kstack,
        cpu_id,
    );
    assert(after.procs@.take(before.procs@.len() as int)[p as int] == after.procs@[p as int]);
}

/// After `fork` both processes see the memory that the parent saw, byte for byte.
pub proof fn child_sees_its_parents_memory(
    before: &Kernel,
    after: &Kernel,
    frame: SyscallFrame,
    pcid: u16,
    entry: u64,
    kstack: u64,
    cpu_id: u32,
    r: i64,
    p: usize,
    addr: int,
)
    requires
        before.wf(),
        super::fork::can_fork(before, kstack, cpu_id),
        before.current(cpu_id) == Some(p),
        before.live(p as int),
        fork_call(before, after, frame, pcid, entry, kstack, cpu_id, r),
        r >= 0,
    ensures
        user_byte(&after.space_of(before.procs@.len() as int).tables, &after.mem, addr) == user_byte(
            &before.space_of(p as int).tables,
            &before.mem,
            addr,
        ),
        user_byte(&after.space_of(p as int).tables, &after.mem, addr) == user_byte(
            &before.space_of(p as int).tables,
            &before.mem,
            addr,
        ),
{
    assert(before.process_wf(p as int));
    assert(before.spaces.slots@.len() == before.spaces.slots.len());
    assert(before.procs@.len() == before.procs.len());
    child_resumes_from_the_same_call(before, after, frame, pcid, entry, kstack, cpu_id, r, p);
    let mid = choose|mid: Kernel|
        space_forked(before, &mid, p as int, pcid) && #[trigger] child_added(
            &mid,
            after,
            p as int,
            frame,
            frame.user_rsp,
            super::fork::callee_saved(frame),
            before.spaces.slots@.len() as usize,
            entry,
            kstack,
            cpu_id,
        );
    let h = before.procs@[p as int].address_space as int;
    let new = before.spaces.slots@.len() as int;
    assert(before.spaces.live(h));
    let b = before.spaces.at(h);
    let a = mid.spaces.at(h);
    let c = mid.spaces.at(new);
    if 0 <= addr < USER_HALF_END {
        let v = addr as u64;
        let page = (v - v % 4096) as u64;
        lemma_same_entry(&b, &a, &c, v);
        if b.pte(page).flags.present {
            fork_shares_memory(&b, &a, &c, &before.kernel_table, pcid, page);
        }
    }
}

proof fn lemma_same_entry(
    b: &super::address_space::AddressSpace,
    a: &super::address_space::AddressSpace,
    c: &super::address_space::AddressSpace,
    v: u64,
)
    requires
        v < USER_HALF_END,
    ensures
        b.pte(v) == b.pte((v - v % 4096) as u64),
        a.pte(v) == a.pte((v - v % 4096) as u64),
        c.pte(v) == c.pte((v - v % 4096) as u64),
{
    let page = (v - v % 4096) as u64;
    b.tables.lemma_same_page(v, page);
    a.tables.lemma_same_page(v, page);
    c.tables.lemma_same_page(v, page);
}

/// `clone` with a shared address space makes a process that runs in the memory of
/// its parent, on the stack that it was given, and returns 0 there.
pub proof fn clone_shares_the_memory(
    before: &Kernel,
    after: &Kernel,
    flags: u32,
    child_stack: u64,
    frame: SyscallFrame,
    pcid: u16,
    entry: u64,
    kstack: u64,
    cpu_id: u32,
    r: i64,
    p: usize,
)
    requires
        before.wf(),
        super::clone::can_clone(before, flags, child_stack, kstack, cpu_id),
        before.current(cpu_id) == Some(p),
        before.live(p as int),
        clone_call(before, after, flags, child_stack, frame, pcid, entry, kstack, cpu_id, r),
        flags & 0x100 != 0,
        r >= 0,
    ensures
        ({
            let c = before.procs@.len() as int;
            let h = before.procs@[p as int].address_space;
            let child = after.procs@[c];
            &&& child_stack != 0
            &&& after.procs@.len() == c + 1
            &&& child.pid == r
            &&& child.address_space == h
            &&& child.user_rip == frame.user_rip
            &&& child.user_rsp == child_stack
            &&& child.user_rflags == frame.user_rflags
            &&& child.user_rax == 0
            &&& inherits(child, before.procs@[p as int])
            &&& runs_soon(before, after, c, entry, kstack)
            &&& after.spaces.at(h as int).refcount == before.spaces.at(h as int).refcount + 1
            &&& after.spaces.at(h as int).tables == before.spaces.at(h as int).tables
            &&& after.mem.bytes == before.mem.bytes
        }),
{
    assert(before.process_wf(p as int));
    assert(cloned_vm(before, after, p as int, frame, child_stack, entry, kstack, cpu_id));
    let h = before.procs@[p as int].address_space;
    let mid = choose|mid: Kernel|
        super::clone::space_shared(before, &mid, p as int) && #[trigger] child_added(
            &mid,
            after,
            p as int,
            frame,
            child_stack,
            super::clone::no_callee(),
            h,
            entry,
            kstack,
            cpu_id,
        );
    lemma_child_added(
        &mid,
        after,
        p as int,
        frame,
        child_stack,
        super::clone::no_callee(),
        h,
        entry,
        kstack,
        cpu_id,
    );
}

/// `clone` without a shared address space is `fork`.
pub proof fn clone_without_sharing_is_fork(
    before: &Kernel,
    after: &Kernel,
    flags: u32,
    child_stack: u64,
    frame: SyscallFrame,
    pcid: u16,
    entry: u64,
    kstack: u64,
    cpu_id: u32,
    r: i64,
)
    requires
        flags & 0x100 == 0,
    ensures
        clone_call(before, after, flags, child_stack, frame, pcid, entry, kstack, cpu_id, r)
            <==> fork_call(before, after, frame, pcid, entry, kstack, cpu_id, r),
{
}

/// A program can fork unless it has 32 children already: then the call is refused with
/// -11, and nothing changes.
pub proof fn fork_fails_only_for_too_many_children(
    before: &Kernel,
    after: &Kernel,
    frame: SyscallFrame,
    pcid: u16,
    entry: u64,
    kstack: u64,
    cpu_id: u32,
    r: i64,
    p: usize,
    i: int,
)
    requires
        before.current(cpu_id) == Some(p),
        fork_call(before, after, frame, pcid, entry, kstack, cpu_id, r),
        0 <= i < 32,
    ensures
        before.procs@[p as int].children@[i] == 0 ==> r == before.next_pid,
        r < 0 ==> r == -11 && *after == *before && before.procs@[p as int].children@[i] != 0,
{
    lemma_child_slot(before.procs@[p as int].children@, 0, 32);
}

} // verus!
