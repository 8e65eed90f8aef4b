//! `fork`: a second process with a copy of the first one's memory.

use vstd::prelude::*;
use crate::sched::percpu::SchedView;
use crate::sched::queue::{has_room, pushed};
use crate::sched::schedule::{alloc_kernel_thread_raw, enqueue_thread, is_fresh, kicked};
use crate::sched::thread::kstack_fits;
use crate::sched::waitqueue::WaitQueue;
use super::errno::{EAGAIN, EFAULT};
use super::address_space::{cow_forked, tables_taken, taken, AddressSpace, SharedSpace};
use super::fd::fork_refs;
use super::process::{add_child, child_slot, children_full, lemma_child_slot, Pid, Process, ProcessState, MAX_CHILDREN, NAME_SIZE};
use super::ptable::ptable_insert;
use super::signal::{PendingSet, SignalState, SyscallFrame};
use super::state::{alloc_pid, current_process, free_entry, lemma_apart_shrinks, lemma_free_entry, lemma_process_added, lemma_users_none, only_child_added, register_process, users, Kernel};

verus! {

pub const SYS_FORK: u64 = 57;

/// What a child process starts with: everything of its parent that a child
/// inherits, and nothing pending, waited for or returned yet.
pub open spec fn is_child(
    child: Process,
    parent: Process,
    pid: Pid,
    space: usize,
    thread: usize,
    frame: SyscallFrame,
    rsp: u64,
    callee: Seq<u64>,
) -> bool {
    &&& child.pid == pid
    &&& child.state == ProcessState::Running
    &&& child.exit_code == 0
    &&& child.address_space == space
    &&& child.thread == Some(thread)
    &&& child.name@ == parent.name@
    &&& child.user_rip == frame.user_rip
    &&& child.user_rsp == rsp
    &&& child.user_rflags == frame.user_rflags
    &&& child.user_rax == 0
    &&& child.user_callee@ == callee
    &&& child.fd_table.fds@ == parent.fd_table.fds@
    &&& child.parent_pid == parent.pid
    &&& child.signals.table == parent.signals.table
    &&& child.signals.pending.bits == 0
    &&& child.signals.frame is None
    &&& child.children@ == Seq::new(32, |i: int| 0u32)
    &&& child.child_count == 0
    &&& child.wait_queue@ == Seq::<usize>::empty()
    &&& child.live
}

/// The registers that a function call keeps.
pub open spec fn callee_saved(frame: SyscallFrame) -> Seq<u64> {
    seq![frame.rbx, frame.rbp, frame.r12, frame.r13, frame.r14, frame.r15]
}

/// A new process of `parent`, in the order its parts are set up: descriptors,
/// thread, number, descriptor frame, the tables of processes, the parent's
/// children, the run queue.
pub open spec fn child_added(
    before: &Kernel,
    after: &Kernel,
    p: int,
    frame: SyscallFrame,
    rsp: u64,
    callee: Seq<u64>,
    space: usize,
    entry: u64,
    kstack: u64,
    cpu_id: u32,
) -> bool {
    let c = before.procs@.len() as usize;
    let t = before.sched.threads@.len() as usize;
    let pid = before.next_pid;
    let parent = before.procs@[p];
    let slot = child_slot(parent.children@, 0, 32)->Some_0;
    let thread = after.sched@.threads[t as int];
    // The processes.
    &&& after.procs@.len() == c + 1
    &&& is_child(after.procs@[c as int], parent, pid, space, t, frame, rsp, callee)
    &&& after.procs@[c as int].home == before.mem.nth_free(0)
    &&& after.procs@[p].children@ == parent.children@.update(slot, pid)
    &&& after.procs@.take(c as int) == before.procs@.update(
        p,
        Process {
            children: after.procs@[p].children,
            child_count: parent.child_count.wrapping_add(1),
            ..parent
        },
    )
    &&& after.next_pid == pid.wrapping_add(1)
    &&& after.registered@ == before.registered@.update(
        free_entry(before.registered@, 64)->Some_0,
        Some(c),
    )
    &&& after.ptable.lookup(pid) == (if before.ptable.has_slot(pid) {
        Some(c)
    } else {
        None
    })
    &&& forall|other: u32|
        other != pid ==> #[trigger] after.ptable.lookup(other) == before.ptable.lookup(other)
    // Its thread, queued on the first CPU.
    &&& is_fresh(thread, before.sched.next_tid, entry, 0, kstack)
    &&& after.sched@ == kicked(
        SchedView {
            next_tid: before.sched.next_tid.wrapping_add(1),
            threads: before.sched@.threads.push(thread),
            ..before.sched@
        }.with_queue(0, pushed(before.sched@.cpus[0].queue, t, 0)),
        cpu_id,
    )
    // References and memory.
    &&& after.log@ == before.log@ + fork_refs(parent.fd_table.fds@, 64)
    &&& after.mem.pool@ == before.mem.pool@.drop_last()
    &&& after.mem.bytes == before.mem.bytes
    &&& after.mem.freed == before.mem.freed
    // Everything else.
    &&& *after == (Kernel {
        mem: after.mem,
        procs: after.procs,
        ptable: after.ptable,
        registered: after.registered,
        next_pid: after.next_pid,
        sched: after.sched,
        log: after.log,
        ..*before
    })
}

/// There is room for one more process.
pub open spec fn can_add_child(k: &Kernel, kstack: u64) -> bool {
    &&& kstack_fits(kstack)
    &&& free_entry(k.registered@, 64) is Some
    &&& k.sched.unlocked(0)
    &&& has_room(k.sched@.cpus[0].queue, 0)
}

/// Make a process with `parent` for its parent and address space `space`.
pub(crate) fn add_process(
    k: &mut Kernel,
    p: usize,
    frame: &SyscallFrame,
    rsp: u64,
    callee: [u64; 6],
    space: usize,
    entry: u64,
    kstack: u64,
    cpu_id: u32,
) -> (pid: Pid)
    requires
        old(k).mem.wf(),
        old(k).mem.pool@.len() > 0,
        old(k).sched.wf(),
        old(k).ptable.wf(),
        old(k).registered@.len() == 64,
        p < old(k).procs@.len(),
        child_slot(old(k).procs@[p as int].children@, 0, 32) is Some,
        can_add_child(old(k), kstack),
    ensures
        pid == old(k).next_pid,
        child_added(
            old(k),
            final(k),
            p as int,
            *frame,
            rsp,
            callee@,
            space,
            entry,
            kstack,
            cpu_id,
        ),
        final(k).mem.wf(),
        final(k).sched.wf(),
        final(k).ptable.wf(),
        final(k).procs@.len() <= usize::MAX,
        final(k).procs@[old(k).procs@.len() as int].wait_queue.wf(0),
{
    let ghost k0 = *k;
    let fd_table = k.procs[p].fd_table.clone_for_fork(&mut k.log);
    let table = k.procs[p].signals.table;
    let thread: usize = alloc_kernel_thread_raw(&mut k.sched, entry, 0, kstack);
    let ghost s1 = k.sched;
    let pid: u32 = alloc_pid(k);
    let home = k.mem.alloc_frame();
    let c: usize = k.procs.len();
    let name: [u8; NAME_SIZE] = k.procs[p].name;
    let parent_pid: u32 = k.procs[p].pid;
    let child = Process {
        pid,
        state: ProcessState::Running,
        exit_code: 0,
        address_space: space,
        thread: Some(thread),
        name,
        user_rip: frame.user_rip,
        user_rsp: rsp,
        user_rflags: frame.user_rflags,
        user_rax: 0,
        user_callee: callee,
        fd_table,
        parent_pid,
        signals: SignalState { table, pending: PendingSet::new(), frame: None },
        children: [0;MAX_CHILDREN],
        child_count: 0,
        wait_queue: WaitQueue::new(),
        home: home.0,
        live: true,
    };
    let ghost made = child;
    assert(made.children@ =~= Seq::new(32, |i: int| 0u32));
    k.procs.push(child);
    register_process(k, c);
    ptable_insert(&mut k.ptable, pid, c);
    let ghost procs1 = k.procs@;
    let _ = add_child(&mut k.procs[p], pid);
    proof {
        assert(procs1 == k0.procs@.push(made));
        assert(k.procs@ =~= procs1.update(p as int, k.procs@[p as int]));
        assert(k.procs@[c as int] == made);
        assert(k.procs@.take(c as int) =~= k0.procs@.update(
            p as int,
            Process {
                children: k.procs@[p as int].children,
                child_count: k0.procs@[p as int].child_count.wrapping_add(1),
                ..k0.procs@[p as int]
            },
        ));
        assert(k.sched.cpus == k0.sched.cpus);
    }
    enqueue_thread(&mut k.sched, thread, 0, cpu_id);
    proof {
        let t = thread as int;
        assert(k.sched@.threads == s1@.threads);
        let v = SchedView {
            next_tid: k0.sched.next_tid.wrapping_add(1),
            threads: k0.sched@.threads.push(s1@.threads[t]),
            ..k0.sched@
        };
        assert(s1@ =~= v);
        assert(k.procs@.len() == k.procs.len());
    }
    pid
}

/// The address space of process `p` is copied, and the copy put into use.
pub open spec fn space_forked(before: &Kernel, after: &Kernel, p: int, pcid: u16) -> bool {
    let h = before.procs@[p].address_space as int;
    let new = before.spaces.slots@.len() as int;
    let space = before.spaces.at(h);
    &&& *after == (Kernel {
        mem: after.mem,
        cow: after.cow,
        spaces: after.spaces,
        log: after.log,
        ..*before
    })
    &&& after.spaces.slots@.len() == new + 1
    &&& after.spaces.live(h)
    &&& after.spaces.live(new)
    &&& after.spaces.slots@[h]->Some_0.home == before.spaces.slots@[h]->Some_0.home
    &&& after.spaces.slots@[new]->Some_0.home.0 == before.mem.nth_free(
        before.mem.pool@.len() - after.mem.pool@.len() - 1,
    )
    &&& cow_forked(
        &space,
        &after.spaces.at(h),
        &after.spaces.at(new),
        &before.kernel_table,
        pcid,
    )
    &&& forall|i: int|
        0 <= i < new && i != h ==> #[trigger] after.spaces.slots@[i] == before.spaces.slots@[i]
    &&& after.cow@ == space.fork_counts(0x8_0000_0000, before.cow@)
    &&& after.log@ == before.log@ + space.fork_flushes(0x8_0000_0000)
    &&& after.mem.bytes == before.mem.bytes
    &&& after.mem.freed == before.mem.freed
    // The copy's tables and its descriptor take frames, and nothing else does.
    &&& tables_taken(&after.spaces.at(new), &before.mem, &after.mem)
    &&& 1 <= after.spaces.at(new).tables.frames().len() <= space.tables.frames().len()
    &&& after.mem.pool@.len() + after.spaces.at(new).tables.frames().len() + 1
        == before.mem.pool@.len()
    &&& after.mem.pool@ == before.mem.pool@.take(after.mem.pool@.len() as int)
}

/// The state after `fork` by process `p`: its address space is copied, then
/// the child process is made.
pub open spec fn forked(
    before: &Kernel,
    after: &Kernel,
    p: int,
    frame: SyscallFrame,
    pcid: u16,
    entry: u64,
    kstack: u64,
    cpu_id: u32,
) -> bool {
    exists|mid: Kernel|
        space_forked(before, &mid, p, pcid) && #[trigger] child_added(
            &mid,
            after,
            p,
            frame,
            frame.user_rsp,
            callee_saved(frame),
            before.spaces.slots@.len() as usize,
            entry,
            kstack,
            cpu_id,
        )
}

/// `fork` has what it takes, if the process may have another child.
pub open spec fn can_fork(k: &Kernel, kstack: u64, cpu_id: u32) -> bool {
    &&& k.sched.unlocked(cpu_id)
    &&& k.current(cpu_id) matches Some(p) ==> child_slot(
        k.procs@[p as int].children@,
        0,
        32,
    ) is Some ==> {
        &&& can_add_child(k, kstack)
        &&& k.mem.pool@.len() >= k.space_of(p as int).tables.frames().len() + 2
    }
}

/// What `fork` does and returns.
pub open spec fn fork_call(
    before: &Kernel,
    after: &Kernel,
    frame: SyscallFrame,
    pcid: u16,
    entry: u64,
    kstack: u64,
    cpu_id: u32,
    r: i64,
) -> bool {
    match before.current(cpu_id) {
        None => r == -14 && *after == *before,
        Some(p) => if child_slot(before.procs@[p as int].children@, 0, 32) is None {
            r == -11 && *after == *before
        } else {
            r == before.next_pid && forked(
                before,
                after,
                p as int,
                frame,
                pcid,
                entry,
                kstack,
                cpu_id,
            )
        },
    }
}

/// `fork()` by the process that runs on `cpu_id`: returns the child's number to
/// the parent; the child returns 0 from the same call.
pub fn sys_fork(
    k: &mut Kernel,
    frame: &SyscallFrame,
    pcid: u16,
    entry: u64,
    kstack: u64,
    cpu_id: u32,
) -> (r: i64)
    requires
        old(k).wf(),
        can_fork(old(k), kstack, cpu_id),
    ensures
        final(k).wf(),
        fork_call(old(k), final(k), *frame, pcid, entry, kstack, cpu_id, r),
{
    let p: usize = match current_process(k, cpu_id) {
        Some(p) => p,
        None => return EFAULT,
    };
    if children_full(&k.procs[p]) {
        return EAGAIN;
    }
    let ghost k0 = *k;
    assert(k.live(p as int));
    assert(k.process_wf(p as int));
    let h: usize = k.procs[p].address_space;
    assert(k.spaces.live(h as int));
    let mut out: Option<SharedSpace> = None;
    std::mem::swap(&mut out, &mut k.spaces.slots[h]);
    let mut shared = out.unwrap();
    let child = shared.space.fork_cow(&mut k.cow, &mut k.mem, &mut k.log, &k.kernel_table, pcid);
    let ghost m1 = k.mem;
    let ghost parent1 = shared;
    k.spaces.slots.set(h, Some(shared));
    let ghost child0 = child;
    let new: usize = AddressSpace::alloc_shared(&mut k.spaces, &mut k.mem, child);
    let ghost mid = *k;
    proof {
        assert(mid.spaces.slots@[h as int] == Some(parent1));
        assert(mid.spaces.at(new as int) == child0);
        assert(mid.mem.pool@ =~= k0.mem.pool@.take(mid.mem.pool@.len() as int));
        assert forall|f: u64| #[trigger] child0.tables.frames().contains(f) implies taken(
            &k0.mem,
            &mid.mem,
            f,
        ) by {
            assert(taken(&k0.mem, &m1, f));
            if mid.mem.pool@.contains(f) {
                let i = choose|i: int| 0 <= i < mid.mem.pool@.len() && mid.mem.pool@[i] == f;
                assert(m1.pool@[i] == f);
            }
        }
        lemma_apart_shrinks(&child0, &m1, &mid.mem);
        lemma_apart_shrinks(&parent1.space, &m1, &mid.mem);
        assert(mid.procs@.len() == k.procs.len());
        assert(mid.sched.threads@.len() == k.sched.threads.len());
        assert(mid.spaces.slots@.len() == k.spaces.slots.len());
    }
    let callee: [u64; 6] = [frame.rbx, frame.rbp, frame.r12, frame.r13, frame.r14, frame.r15];
    assert(callee@ =~= callee_saved(*frame));
    let pid: u32 = add_process(k, p, frame, frame.user_rsp, callee, new, entry, kstack, cpu_id);
    proof {
        lemma_free_entry(k0.registered@, 64);
        assert(new == k0.spaces.slots@.len() as usize);
        assert(child_added(
            &mid,
            k,
            p as int,
            *frame,
            frame.user_rsp,
            callee_saved(*frame),
            k0.spaces.slots@.len() as usize,
            entry,
            kstack,
            cpu_id,
        ));
        assert(space_forked(&k0, &mid, p as int, pcid));
        assert(forked(&k0, k, p as int, *frame, pcid, entry, kstack, cpu_id));
        assert(k.spaces.slots@.len() == k.spaces.slots.len());
        assert(k.mem.pool@ =~= k0.mem.pool@.take(k.mem.pool@.len() as int));
        let c = k0.procs@.len() as int;
        assert forall|i: int| 0 <= i < c implies ({
            let q = #[trigger] k.procs@[i];
            &&& q.live == k0.procs@[i].live
            &&& q.pid == k0.procs@[i].pid
            &&& q.address_space == k0.procs@[i].address_space
            &&& q.thread == k0.procs@[i].thread
            &&& q.wait_queue == k0.procs@[i].wait_queue
        }) by {
            assert(k.procs@[i] == k.procs@.take(c)[i]);
        }
        assert(only_child_added(&k0, k, c as usize)) by {
            assert forall|i: int, j: int| 0 <= i < c && 0 <= j < 32 implies #[trigger] k.procs@[i].children@[j]
                == k0.procs@[i].children@[j] || k.procs@[i].children@[j] == pid by {
                assert(k.procs@[i] == k.procs@.take(c)[i]);
                lemma_child_slot(k0.procs@[p as int].children@, 0, 32);
            }
        }
        lemma_fork_wf(&k0, &mid, k, p as int, h, new);
    }
    pid as i64
}

/// After the child's process is made, the state is well formed again.
proof fn lemma_fork_wf(k0: &Kernel, mid: &Kernel, k: &Kernel, p: int, h: usize, new: usize)
    requires
        k0.wf(),
        k0.live(p),
        h == k0.procs@[p].address_space,
        new == k0.spaces.slots@.len(),
        k.spaces == mid.spaces,
        k.spaces.slots@.len() == new + 1,
        k.spaces.slots@.len() <= usize::MAX,
        k.procs@.len() == k0.procs@.len() + 1,
        k.procs@.len() <= usize::MAX,
        k.mem.wf(),
        k.cow.wf(),
        k.kernel_table == k0.kernel_table,
        k.sched.wf(),
        k.sched.threads@.len() >= k0.sched.threads@.len(),
        k.nodes == k0.nodes,
        k.ptable.wf(),
        k.registered@.len() == 64,
        k.cpu_spaces == k0.cpu_spaces,
        k.mem.pool@.len() <= mid.mem.pool@.len() <= k0.mem.pool@.len(),
        k.mem.pool@ == k0.mem.pool@.take(k.mem.pool@.len() as int),
        k.mem.pool@ == mid.mem.pool@.take(k.mem.pool@.len() as int),
        forall|i: int|
            0 <= i < k0.procs@.len() ==> {
                let q = #[trigger] k.procs@[i];
                &&& q.live == k0.procs@[i].live
                &&& q.pid == k0.procs@[i].pid
                &&& q.address_space == k0.procs@[i].address_space
                &&& q.thread == k0.procs@[i].thread
                &&& q.wait_queue == k0.procs@[i].wait_queue
            },
        ({
            let c = k.procs@[k0.procs@.len() as int];
            &&& c.live
            &&& c.address_space == new
            &&& c.thread matches Some(t) ==> t < k.sched.threads@.len()
            &&& c.wait_queue.wf(0)
        }),
        only_child_added(k0, k, k0.procs@.len() as usize),
        forall|pid: u32| #[trigger]
            k.ptable.lookup(pid) == k0.ptable.lookup(pid) || (k.ptable.lookup(pid) == Some(
                k0.procs@.len() as usize,
            ) && k.procs@[k0.procs@.len() as int].pid == pid),
        forall|i: int|
            0 <= i < 64 ==> #[trigger] k.registered@[i] == k0.registered@[i] || k.registered@[i]
                == Some(k0.procs@.len() as usize),
        mid.spaces.live(new as int),
        mid.spaces.live(h as int),
        mid.spaces.at(new as int).wf(),
        mid.spaces.at(h as int).wf(),
        mid.spaces.at(new as int).tables.apart(&mid.mem),
        mid.spaces.at(h as int).tables.apart(&mid.mem),
        mid.spaces.at(new as int).refcount == 1,
        mid.spaces.at(h as int).refcount == k0.spaces.at(h as int).refcount,
        forall|i: int|
            0 <= i < new && i != h ==> #[trigger] mid.spaces.slots@[i] == k0.spaces.slots@[i],
    ensures
        k.wf(),
{
    let c = k0.procs@.len() as usize;
    assert forall|i: int| #[trigger] k0.spaces.live(i) implies k.spaces.live(i) by {
        if i != h {
            assert(mid.spaces.slots@[i] == k0.spaces.slots@[i]);
        }
    }
    assert forall|i: int| #[trigger] k.spaces.live(i) implies k.spaces.at(i).wf() && k.spaces.at(
        i,
    ).tables.apart(&k.mem) && k.spaces.at(i).refcount == users(k0.procs@, i as usize, c as nat) + (
    if i == new {
        1int
    } else {
        0
    }) by {
        if i == new {
            assert forall|q: int| 0 <= q < c implies !((#[trigger] k0.procs@[q]).live
                && k0.procs@[q].address_space == new) by {
                if k0.procs@[q].live {
                    assert(k0.live(q));
                    assert(k0.process_wf(q));
                }
            }
            lemma_users_none(k0.procs@, new, c as nat);
            lemma_apart_shrinks(&mid.spaces.at(i), &mid.mem, &k.mem);
        } else if i == h {
            assert(k0.process_wf(p));
            assert(k0.spaces.live(i));
            lemma_apart_shrinks(&mid.spaces.at(i), &mid.mem, &k.mem);
        } else {
            assert(mid.spaces.slots@[i] == k0.spaces.slots@[i]);
            assert(k0.spaces.live(i));
            lemma_apart_shrinks(&k0.spaces.at(i), &k0.mem, &k.mem);
        }
    }
    k.procs@[c as int].wait_queue.lemma_wf(0);
    lemma_process_added(k0, k, c, new);
}

} // verus!
