//! What parents see of their children's ends.

use vstd::prelude::*;
use crate::bits::lemma_bit_ops;
use crate::sched::schedule::Switch;
use super::lifecycle::{ended, exited};
use super::process::{lemma_child_slot, ProcessState};
use super::state::Kernel;
use super::wait::{ready_child, reaped, wait_call, zombie_slot, WaitOutcome};

verus! {

/// Process `c` is a child of `p` that has ended and that nobody has waited for.
pub open spec fn is_ended_child(k: &Kernel, p: int, pid: u32) -> bool {
    &&& pid != 0
    &&& exists|i: int| 0 <= i < 32 && #[trigger] k.procs@[p].children@[i] == pid
    &&& k.ptable.lookup(pid) is Some
    &&& k.procs@[k.ptable.lookup(pid)->Some_0 as int].state == ProcessState::Zombie
}

proof fn lemma_found(k: &Kernel, children: Seq<u32>, pid: i64, n: nat)
    ensures
        match zombie_slot(k, children, pid, n) {
            Some(i) => 0 <= i < n && ready_child(k, children, pid, i),
            None => forall|i: int| 0 <= i < n ==> !#[trigger] ready_child(k, children, pid, i),
        },
    decreases n,
{
    if n > 0 {
        lemma_found(k, children, pid, (n - 1) as nat);
    }
}

/// A program that ends becomes a zombie with the code that it passed and with no
/// file open. It keeps its number, and its memory, until it was waited for. Its
/// parent is told by a signal; other processes notice nothing.
pub proof fn program_ends(
    before: &Kernel,
    after: &Kernel,
    p: int,
    code: i32,
    cpu_id: u32,
    next: Switch,
    other: int,
)
    requires
        0 <= p < before.procs@.len(),
        0 <= other < before.procs@.len(),
        forall|pid: u32| (#[trigger] before.ptable.lookup(pid) matches Some(q) ==> q
            < before.procs@.len()),
        exited(before, after, p, code, cpu_id, next),
    ensures
        ({
            let was = before.procs@[p];
            let now = after.procs@[p];
            let heir = before.ptable.lookup(was.parent_pid);
            &&& now.state == ProcessState::Zombie
            &&& now.exit_code == code
            &&& forall|fd: int| 0 <= fd < 64 ==> #[trigger] now.fd_table.fds@[fd] is None
            &&& now.pid == was.pid
            &&& now.parent_pid == was.parent_pid
            &&& now.address_space == was.address_space
            &&& after.spaces == before.spaces
            &&& after.ptable == before.ptable
            &&& other != p && !(was.parent_pid != 0 && heir == Some(other as usize))
                ==> after.procs@[other] == before.procs@[other]
            &&& was.parent_pid != 0 && heir is Some && heir->Some_0 != p ==> {
                let parent = after.procs@[heir->Some_0 as int];
                let before_it = before.procs@[heir->Some_0 as int];
                &&& parent.signals.pending.waits(17)
                &&& forall|i: u64|
                    i < 64 && i != 17 ==> #[trigger] parent.signals.pending.waits(i)
                        == before_it.signals.pending.waits(i)
                &&& parent.state == before_it.state
                &&& parent.children == before_it.children
                &&& parent.fd_table == before_it.fd_table
            }
        }),
{
    let mid = choose|mid: Kernel| #[trigger] ended(before, &mid, p, code, cpu_id) && after.procs
        == mid.procs && after.ptable == mid.ptable && after.spaces == mid.spaces;
    assert(ended(before, &mid, p, code, cpu_id));
    let was = before.procs@[p];
    if was.parent_pid != 0 && before.ptable.lookup(was.parent_pid) is Some {
        let q = before.ptable.lookup(was.parent_pid)->Some_0 as int;
        let bits = before.procs@[q].signals.pending.bits;
        assert(17u32 as u64 == 17u64);
        lemma_bit_ops(bits, 17, 17);
        assert forall|i: u64| i < 64 && i != 17 implies #[trigger] after.procs@[q].signals.pending.waits(
            i,
        ) == before.procs@[q].signals.pending.waits(i) by {
            lemma_bit_ops(bits, 17, i);
        }
        assert(after.procs@[q].signals.pending.waits(17));
    }
}

/// A wait that returns a number returns that of a child that has ended, and of the
/// one that was asked for. The parent gets a word from which it can tell that the
/// child exited, and with which code modulo 256. The child is gone then: no process
/// has its number, and the parent has one child fewer.
pub proof fn wait_tells_how_a_child_ended(
    before: &Kernel,
    after: &Kernel,
    pid: i64,
    status_ptr: u64,
    options: u32,
    cpu_id: u32,
    v: i64,
    p: usize,
)
    requires
        before.wf(),
        before.current(cpu_id) == Some(p),
        before.live(p as int),
        wait_call(before, after, pid, status_ptr, options, cpu_id, WaitOutcome::Return(v)),
        v > 0,
    ensures
        v <= u32::MAX,
        is_ended_child(before, p as int, v as u32),
        pid > 0 ==> v == pid,
        4096 <= status_ptr <= 0x7fff_ffff_fffc && status_ptr + 4 <= usize::MAX ==> {
            let child = before.procs@[before.ptable.lookup(v as u32)->Some_0 as int];
            &&& after.log@.len() == before.log@.len() + 1
            &&& after.log@.last() is Store32
            &&& after.log@.last()->Store32_addr == status_ptr
            &&& after.log@.last()->word % 128 == 0
            &&& after.log@.last()->word / 256 == child.exit_code as int % 256
        },
        status_ptr == 0 ==> after.log@ == before.log@,
        after.ptable.lookup(v as u32) is None,
        !after.live(before.ptable.lookup(v as u32)->Some_0 as int),
        after.procs@[p as int].child_count == before.procs@[p as int].child_count - 1,
        forall|other: u32|
            other != v ==> #[trigger] after.ptable.lookup(other) == before.ptable.lookup(other),
{
    let children = before.procs@[p as int].children@;
    lemma_found(before, children, pid, 32);
    let i = zombie_slot(before, children, pid, 32)->Some_0;
    assert(children[i] == v);
    let c = before.ptable.lookup(v as u32)->Some_0;
    assert(before.procs@[c as int].pid == v);
    lemma_child_slot(children, v as u32, 32);
    assert(before.process_wf(p as int));
}

/// A parent learns nothing from a wait only for a reason: it has no children, or
/// asked for a number that cannot be (-10); none of those that it asked for has
/// ended, and it would not wait (0); none has, and it sleeps.
pub proof fn wait_fails_for_a_reason(
    before: &Kernel,
    after: &Kernel,
    pid: i64,
    status_ptr: u64,
    options: u32,
    cpu_id: u32,
    r: WaitOutcome,
    p: usize,
    child: u32,
)
    requires
        before.wf(),
        before.current(cpu_id) == Some(p),
        before.live(p as int),
        wait_call(before, after, pid, status_ptr, options, cpu_id, r),
        pid > 0 ==> child == pid,
    ensures
        pid < -1 || before.procs@[p as int].child_count == 0 ==> r == WaitOutcome::Return(-10i64)
            && *after == *before,
        pid >= -1 && before.procs@[p as int].child_count != 0 && is_ended_child(
            before,
            p as int,
            child,
        ) ==> (r matches WaitOutcome::Return(v) && v > 0),
        r == WaitOutcome::Return(0i64) ==> options & 1 != 0 && *after == *before && !is_ended_child(
            before,
            p as int,
            child,
        ),
        r is Sleep ==> options & 1 == 0 && !is_ended_child(before, p as int, child),
        r is Sleep ==> after.procs@[p as int].wait_queue@.len()
            == before.procs@[p as int].wait_queue@.len() + 1,
{
    let children = before.procs@[p as int].children@;
    lemma_found(before, children, pid, 32);
    if is_ended_child(before, p as int, child) {
        let i = choose|i: int| 0 <= i < 32 && #[trigger] children[i] == child;
        assert(children[i] == child);
        assert(0 <= i < 32);
        if pid >= -1 {
            assert(ready_child(before, children, pid, i));
        }
    }
}

/// Once a child was waited for, the frames of its kernel stack and of its descriptor
/// are free again; so are those of its address space, if nobody else uses it.
pub proof fn reaped_child_gives_back_its_memory(
    before: &Kernel,
    after: &Kernel,
    parent: int,
    c: usize,
    i: int,
)
    requires
        reaped(before, after, parent, c),
        0 <= i < 8,
        before.sched.threads@[before.procs@[c as int].thread->Some_0 as int].kstack_phys + 0x8000
            <= u64::MAX,
    ensures
        ({
            let gone = before.procs@[c as int];
            let h = gone.address_space as int;
            let kstack = before.sched.threads@[gone.thread->Some_0 as int].kstack_phys;
            &&& after.mem.freed@.contains((kstack + i * 4096) as u64)
            &&& after.mem.freed@.contains(gone.home)
            &&& before.spaces.at(h).refcount == 1 ==> {
                &&& after.mem.freed@.contains(before.spaces.at(h).pml4_phys.0)
                &&& after.mem.freed@.contains(before.spaces.slots@[h]->Some_0.home.0)
                &&& after.spaces.slots@[h] is None || !(0 <= h < before.spaces.slots@.len())
            }
            &&& before.spaces.at(h).refcount > 1 ==> {
                &&& after.cow@ == before.cow@
                &&& after.mem.freed@.len() == before.mem.freed@.len() + 9
            }
        }),
{
    let gone = before.procs@[c as int];
    let h = gone.address_space as int;
    let kstack = before.sched.threads@[gone.thread->Some_0 as int].kstack_phys;
    let freed = after.mem.freed@;
    let n = freed.len() as int;
    assert(freed[n - 1] == gone.home);
    assert(freed[n - 9 + i] == (kstack + i * 4096) as u64);
    if before.spaces.at(h).refcount == 1 {
        assert(freed[n - 10] == before.spaces.slots@[h]->Some_0.home.0);
        assert(freed[n - 11] == before.spaces.at(h).pml4_phys.0);
    }
}

} // verus!
