//! `wait4`: waiting for a child to exit, and clearing it away.

use vstd::prelude::*;
use crate::mem::{PhysAddr, PhysMem};
use crate::paging::reclaim_state;
use crate::sched::block::{blocked, running, thread_block};
use crate::sched::schedule::{can_schedule, scheduled, Switch};
use crate::sched::waitqueue::WaitNode;
use super::errno::{ECHILD, EINVAL};
use super::address_space::{AddressSpace, SpaceTable};
use super::effects::Effect;
use super::lifecycle::{ended, parent_of};
use super::process::{child_slot, lemma_child_slot, remove_child, Process, ProcessState, MAX_CHILDREN};
use super::ptable::{ptable_find, ptable_remove};
use super::state::{current_process, lemma_users_positive, lemma_users_same, lemma_users_two, lemma_users_update, unregister_process, unregistered, users, Kernel};
use super::syscall::{is_user_ptr, user_range};

verus! {

pub const SYS_WAIT4: u64 = 61;

/// Return at once where no child has exited yet.
pub const WNOHANG: u32 = 1;

/// The status word of a child that exited: the low byte of its exit code, in
/// the second byte.
pub fn encode_exit_status(exit_code: i32) -> (r: u32)
    ensures
        r == (exit_code as int % 256) * 256,
{
    let low: u64 = (exit_code as i64 + 0x1_0000_0000) as u64 % 256;
    (low * 256) as u32
}

/// A program reads the exit code back from the status word, modulo 256, and
/// sees that the child exited by itself.
pub proof fn exit_status_round_trip(exit_code: i32)
    ensures
        ({
            let status = (exit_code as int % 256) * 256;
            status % 128 == 0 && (status / 256) % 256 == exit_code as int % 256
        }),
{
}

/// The child in slot `i` is waited for by a call for `pid`, and has exited.
pub open spec fn ready_child(k: &Kernel, children: Seq<u32>, pid: i64, i: int) -> bool {
    &&& children[i] != 0
    &&& pid > 0 ==> children[i] == pid
    &&& k.ptable.lookup(children[i]) matches Some(c) && k.procs@[c as int].state
        == ProcessState::Zombie
}

/// The first of the first `n` slots with a child that is waited for and has
/// exited.
pub open spec fn zombie_slot(k: &Kernel, children: Seq<u32>, pid: i64, n: nat) -> Option<int>
    decreases n,
{
    if n == 0 {
        None
    } else {
        match zombie_slot(k, children, pid, (n - 1) as nat) {
            Some(i) => Some(i),
            None => if ready_child(k, children, pid, n - 1) {
                Some(n - 1)
            } else {
                None
            },
        }
    }
}

/// The number and the exit code of the child that a wait for `pid` finds.
pub open spec fn zombie_of(k: &Kernel, parent: int, pid: i64) -> Option<(u32, i32)> {
    let children = k.procs@[parent].children@;
    if pid < -1 {
        None
    } else {
        match zombie_slot(k, children, pid, 32) {
            Some(i) => Some(
                (
                    children[i],
                    k.procs@[k.ptable.lookup(children[i])->Some_0 as int].exit_code,
                ),
            ),
            None => None,
        }
    }
}

proof fn lemma_zombie_sticks(k: &Kernel, children: Seq<u32>, pid: i64, m: nat, n: nat)
    requires
        m <= n,
        zombie_slot(k, children, pid, m) is Some,
    ensures
        zombie_slot(k, children, pid, n) == zombie_slot(k, children, pid, m),
    decreases n,
{
    if m < n {
        lemma_zombie_sticks(k, children, pid, m, (n - 1) as nat);
    }
}

/// The child that a wait for `pid` finds: the first that has exited.
pub fn find_zombie(k: &Kernel, parent: usize, pid: i64) -> (r: Option<(u32, i32)>)
    requires
        k.wf(),
        k.live(parent as int),
    ensures
        r == zombie_of(k, parent as int, pid),
        r matches Some((child, _)) ==> k.ptable.lookup(child) is Some,
{
    if pid < -1 {
        return None;
    }
    let ghost children = k.procs@[parent as int].children@;
    let mut i: usize = 0;
    while i < MAX_CHILDREN
        invariant
            i <= 32,
            pid >= -1,
            k.wf(),
            k.live(parent as int),
            children == k.procs@[parent as int].children@,
            zombie_slot(k, children, pid, i as nat) is None,
        decreases 32 - i,
    {
        let child: u32 = k.procs[parent].children[i];
        let wanted: bool = child != 0 && !(pid > 0 && child as i64 != pid);
        if wanted {
            if let Some(c) = ptable_find(&k.ptable, child) {
                assert(k.live(c as int));
                if k.procs[c].state == ProcessState::Zombie {
                    proof {
                        assert(ready_child(k, children, pid, i as int));
                        lemma_zombie_sticks(k, children, pid, (i + 1) as nat, 32);
                    }
                    return Some((child, k.procs[c].exit_code));
                }
            }
        }
        i += 1;
    }
    None
}

/// The frames of the kernel stack at `base`.
pub open spec fn kstack_frames(base: u64) -> Seq<u64> {
    Seq::new(8, |i: int| (base + i * 4096) as u64)
}

fn free_kstack(mem: &mut PhysMem, base: u64)
    requires
        base + 0x8000 <= u64::MAX,
    ensures
        final(mem).freed@ == old(mem).freed@ + kstack_frames(base),
        final(mem).bytes == old(mem).bytes,
        final(mem).pool == old(mem).pool,
{
    let ghost before = mem.freed@;
    let mut i: u64 = 0;
    assert(before + kstack_frames(base).take(0) =~= before);
    while i < 8
        invariant
            i <= 8,
            base + 0x8000 <= u64::MAX,
            mem.freed@ == before + kstack_frames(base).take(i as int),
            mem.bytes == old(mem).bytes,
            mem.pool == old(mem).pool,
        decreases 8 - i,
    {
        mem.free_frame(PhysAddr(base + i * 4096));
        assert(mem.freed@ =~= before + kstack_frames(base).take(i + 1));
        i += 1;
    }
    assert(kstack_frames(base).take(8) =~= kstack_frames(base));
}

/// The state after process `c`, a child of `parent`, was cleared away: it is
/// off every list, its address space has one user fewer, and its kernel stack
/// and then its descriptor are handed back.
pub open spec fn reaped(before: &Kernel, after: &Kernel, parent: int, c: usize) -> bool {
    let gone = before.procs@[c as int];
    let h = gone.address_space as int;
    let last = before.spaces.at(h).refcount == 1;
    let torn = before.spaces.at(h).tables.user_half_torn(
        reclaim_state(&before.cow, &before.mem),
    );
    let kstack = before.sched.threads@[gone.thread->Some_0 as int].kstack_phys;
    let was = before.procs@[parent];
    let procs = match child_slot(was.children@, gone.pid, 32) {
        Some(i) => before.procs@.update(
            parent,
            Process {
                children: after.procs@[parent].children,
                child_count: was.child_count.wrapping_sub(1),
                ..was
            },
        ),
        None => before.procs@,
    };
    &&& child_slot(was.children@, gone.pid, 32) matches Some(i)
        ==> after.procs@[parent].children@ == was.children@.update(i, 0)
    &&& after.procs@ == procs.update(c as int, Process { live: false, ..procs[c as int] })
    &&& after.ptable.lookup(gone.pid) is None
    &&& forall|other: u32|
        other != gone.pid ==> #[trigger] after.ptable.lookup(other) == before.ptable.lookup(other)
    &&& after.registered@ == unregistered(before.registered@, c)
    &&& if last {
        after.spaces.slots@ == before.spaces.slots@.update(h, None)
    } else {
        SpaceTable::set_at(
            &before.spaces,
            &after.spaces,
            h,
            AddressSpace {
                refcount: before.spaces.at(h).refcount.wrapping_sub(1),
                ..before.spaces.at(h)
            },
        )
    }
    &&& after.cow@ == (if last {
        torn.counts
    } else {
        before.cow@
    })
    &&& after.mem.freed@ == ((if last {
        torn.freed.push(before.spaces.at(h).pml4_phys.0).push(
            before.spaces.slots@[h]->Some_0.home.0,
        )
    } else {
        before.mem.freed@
    }) + kstack_frames(kstack)).push(gone.home)
    &&& after.mem.bytes == before.mem.bytes
    &&& after.mem.pool == before.mem.pool
    &&& *after == (Kernel {
        mem: after.mem,
        cow: after.cow,
        spaces: after.spaces,
        procs: after.procs,
        ptable: after.ptable,
        registered: after.registered,
        ..*before
    })
}

/// Clear away the child `child_pid` of `parent`, which has exited. A number
/// that names no process is ignored.
pub fn reap_zombie(k: &mut Kernel, parent: usize, child_pid: u32)
    requires
        old(k).wf(),
        old(k).live(parent as int),
        old(k).ptable.lookup(child_pid) != Some(parent),
    ensures
        final(k).wf(),
        match old(k).ptable.lookup(child_pid) {
            None => *final(k) == *old(k),
            Some(c) => reaped(old(k), final(k), parent as int, c),
        },
{
    let c: usize = match ptable_find(&k.ptable, child_pid) {
        Some(c) => c,
        None => return ,
    };
    let ghost k0 = *k;
    proof {
        assert(k0.ptable.lookup(child_pid) == Some(c));
        assert(k0.live(c as int));
        assert(k0.process_wf(c as int));
    }
    let t: usize = k.procs[c].thread.unwrap();
    let h: usize = k.procs[c].address_space;
    let home: u64 = k.procs[c].home;
    let kstack: u64 = k.sched.threads[t].kstack_phys;
    assert(crate::sched::percpu::thread_wf(k.sched.threads@[t as int]));
    remove_child(&mut k.procs[parent], child_pid);
    let ghost procs1 = k.procs@;
    ptable_remove(&mut k.ptable, child_pid);
    unregister_process(k, c);
    assert(k.spaces.live(h as int));
    let _ = AddressSpace::drop_ref(&mut k.spaces, h, &mut k.cow, &mut k.mem);
    free_kstack(&mut k.mem, kstack);
    k.mem.free_frame(PhysAddr(home));
    k.procs[c].live = false;
    proof {
        let i = child_slot(k0.procs@[parent as int].children@, child_pid, 32);
        assert(procs1 =~= (match i {
            Some(i) => k0.procs@.update(
                parent as int,
                Process {
                    children: k.procs@[parent as int].children,
                    child_count: k0.procs@[parent as int].child_count.wrapping_sub(1),
                    ..k0.procs@[parent as int]
                },
            ),
            None => k0.procs@,
        }));
        assert(k.procs@ =~= procs1.update(
            c as int,
            Process { live: false, ..procs1[c as int] },
        ));
        assert(reaped(&k0, k, parent as int, c));
        assert(k.spaces.slots@.len() == k.spaces.slots.len());
        assert(k.procs@.len() == k.procs.len());
        lemma_reap_wf(&k0, k, parent as int, c);
    }
}

/// Without its reaped process, the state is well formed.
proof fn lemma_reap_wf(k0: &Kernel, k: &Kernel, parent: int, c: usize)
    requires
        k0.wf(),
        k0.live(parent),
        k0.live(c as int),
        reaped(k0, k, parent, c),
        k.mem.wf(),
        k.cow.wf(),
        k.ptable.wf(),
        parent != c,
        k.spaces.slots@.len() <= usize::MAX,
        k.procs@.len() <= usize::MAX,
    ensures
        k.wf(),
{
    let n = k0.procs@.len();
    let h = k0.procs@[c as int].address_space;
    assert(k0.process_wf(c as int));
    assert(k0.spaces.live(h as int));
    assert(k.procs@.len() == n);
    lemma_users_positive(k0.procs@, h, n, c as int);
    let dead = Process { live: false, ..k0.procs@[c as int] };
    let without = k0.procs@.update(c as int, dead);
    assert forall|q: int| 0 <= q < n implies (#[trigger] k.procs@[q]).live == without[q].live
        && k.procs@[q].address_space == without[q].address_space && k.procs@[q].thread
        == without[q].thread && k.procs@[q].wait_queue == without[q].wait_queue && k.procs@[q].pid
        == without[q].pid by {}
    assert forall|i: int| #[trigger] k.spaces.live(i) implies k0.spaces.live(i) && k.spaces.at(
        i,
    ).wf() && k.spaces.at(i).tables.apart(&k.mem) && k.spaces.at(i).refcount == users(
        k.procs@,
        i as usize,
        n,
    ) by {
        if i != h {
            assert(k.spaces.slots@[i] == k0.spaces.slots@[i]);
        }
        assert(k0.spaces.live(i));
        lemma_users_update(k0.procs@, c as int, dead, i as usize, n);
        lemma_users_same(k.procs@, without, i as usize, n);
    }
    assert forall|q: int| #[trigger] k.live(q) implies k.process_wf(q) by {
        assert(k0.live(q));
        assert(k0.process_wf(q));
        let g = k0.procs@[q].address_space;
        assert(k0.spaces.live(g as int));
        if g == h {
            assert(q != c);
            lemma_users_two(k0.procs@, h, c as int, q);
        } else {
            assert(k.spaces.slots@[g as int] == k0.spaces.slots@[g as int]);
        }
        assert forall|j: int| 0 <= j < 32 && k.procs@[q].children@[j] != 0 implies k.ptable.lookup(
            #[trigger] k.procs@[q].children@[j],
        ) != Some(q as usize) by {
            lemma_child_slot(k0.procs@[parent].children@, k0.procs@[c as int].pid, 32);
            assert(k0.procs@[q].children@[j] == k.procs@[q].children@[j]);
        }
    }
    assert forall|pid: u32| (#[trigger] k.ptable.lookup(pid) matches Some(q) ==> k.live(q as int)
        && k.procs@[q as int].pid == pid) by {
        if let Some(q) = k.ptable.lookup(pid) {
            assert(k0.ptable.lookup(pid) == Some(q));
            assert(k0.live(q as int));
            assert(k0.procs@[q as int].pid == pid);
        }
    }
    assert forall|i: int| 0 <= i < 64 implies (#[trigger] k.registered@[i] matches Some(q)
        ==> k.live(q as int)) by {
        if let Some(q) = k.registered@[i] {
            assert(k.registered@[i] == unregistered(k0.registered@, c)[i]);
            assert(k0.registered@[i] == Some(q));
            assert(k0.live(q as int));
            assert(q != c);
        }
    }
}

/// What `wait4` leads to.
#[derive(Clone, Copy, Debug, PartialEq, Eq, Structural)]
pub enum WaitOutcome {
    /// The call returns.
    Return(i64),
    /// The caller sleeps until a child exits; then the call is made again.
    Sleep(Switch),
}

/// `wait4` by process `p` has to sleep: it has children, but none to be reaped.
pub open spec fn must_sleep(k: &Kernel, p: int, pid: i64, options: u32) -> bool {
    &&& pid >= -1
    &&& k.procs@[p].child_count != 0
    &&& zombie_of(k, p, pid) is None
    &&& options & WNOHANG == 0
}

/// `wait4` can be called on `cpu_id`: where it has to sleep, the caller can be
/// taken off the CPU, and its queue has room.
pub open spec fn can_wait(k: &Kernel, pid: i64, options: u32, cpu_id: u32) -> bool {
    &&& k.sched.unlocked(cpu_id)
    &&& k.current(cpu_id) matches Some(p) ==> must_sleep(k, p as int, pid, options) ==> {
        &&& can_schedule(&k.sched, cpu_id)
        &&& k.procs@[p as int].wait_queue@.len() < u32::MAX
    }
}

/// What `wait4` does and returns.
pub open spec fn wait_call(
    before: &Kernel,
    after: &Kernel,
    pid: i64,
    status_ptr: u64,
    options: u32,
    cpu_id: u32,
    r: WaitOutcome,
) -> bool {
    match before.current(cpu_id) {
        None => r == WaitOutcome::Return(EINVAL) && *after == *before,
        Some(p) => if pid < -1 || before.procs@[p as int].child_count == 0 {
            r == WaitOutcome::Return(ECHILD) && *after == *before
        } else {
            match zombie_of(before, p as int, pid) {
                Some((child, code)) => {
                    let stored = if status_ptr != 0 && user_range(status_ptr as usize, 4) {
                        seq![
                            Effect::Store32 {
                                addr: status_ptr,
                                word: ((code as int % 256) * 256) as u32,
                            },
                        ]
                    } else {
                        Seq::empty()
                    };
                    &&& r == WaitOutcome::Return(child as i64)
                    &&& after.log@ == before.log@ + stored
                    &&& reaped(
                        &Kernel { log: after.log, ..*before },
                        after,
                        p as int,
                        before.ptable.lookup(child)->Some_0,
                    )
                },
                None => if options & WNOHANG != 0 {
                    r == WaitOutcome::Return(0) && *after == *before
                } else {
                    &&& r matches WaitOutcome::Sleep(switch) && (after.sched@, switch)
                        == scheduled(
                        blocked(&before.sched, running(&before.sched, cpu_id)),
                        cpu_id,
                    )
                    &&& after.nodes@ == before.nodes@.push(
                        WaitNode {
                            thread: Some(running(&before.sched, cpu_id)),
                            woken: false,
                            key: 0,
                        },
                    )
                    &&& after.procs@ == before.procs@.update(
                        p as int,
                        Process {
                            wait_queue: after.procs@[p as int].wait_queue,
                            ..before.procs@[p as int]
                        },
                    )
                    &&& after.procs@[p as int].wait_queue@ == before.procs@[p as int].wait_queue@.push(before.nodes@.len() as usize)
                    &&& *after == (Kernel {
                        sched: after.sched,
                        nodes: after.nodes,
                        procs: after.procs,
                        ..*before
                    })
                },
            }
        },
    }
}

/// `wait4(pid, status, options)` by the process that runs on `cpu_id`: for the
/// child `pid`, or for any where `pid` is -1 or 0.
pub fn sys_wait4(
    k: &mut Kernel,
    pid: i64,
    status_ptr: u64,
    options: u32,
    cpu_id: u32,
) -> (r: WaitOutcome)
    requires
        old(k).wf(),
        can_wait(old(k), pid, options, cpu_id),
    ensures
        final(k).wf(),
        wait_call(old(k), final(k), pid, status_ptr, options, cpu_id, r),
{
    let p: usize = match current_process(k, cpu_id) {
        Some(p) => p,
        None => return WaitOutcome::Return(EINVAL),
    };
    if pid < -1 {
        return WaitOutcome::Return(ECHILD);
    }
    if k.procs[p].child_count == 0 {
        return WaitOutcome::Return(ECHILD);
    }
    let ghost k0 = *k;
    assert(k0.live(p as int));
    assert(k0.process_wf(p as int));
    if let Some((child, code)) = find_zombie(k, p, pid) {
        let status: u32 = encode_exit_status(code);
        if status_ptr != 0 && is_user_ptr(status_ptr as usize, 4) {
            k.log.push(Effect::Store32 { addr: status_ptr, word: status });
            assert(k.log@ =~= k0.log@ + seq![Effect::Store32 { addr: status_ptr, word: status }]);
        } else {
            assert(k.log@ =~= k0.log@ + Seq::<Effect>::empty());
        }
        proof {
            let children = k0.procs@[p as int].children@;
            lemma_zombie_slot(&k0, children, pid, 32);
            let i = zombie_slot(&k0, children, pid, 32)->Some_0;
            assert(k0.procs@[p as int].children@[i] == child);
            assert(k.mem.pool@.take(k.mem.pool@.len() as int) =~= k.mem.pool@);
            super::state::lemma_wf_frames(&k0, k);
            let c = k0.ptable.lookup(child)->Some_0;
            assert(k0.live(c as int));
        }
        reap_zombie(k, p, child);
        return WaitOutcome::Return(child as i64);
    }
    if options & WNOHANG != 0 {
        return WaitOutcome::Return(0);
    }
    let switch = thread_block(&mut k.sched, &mut k.nodes, &mut k.procs[p].wait_queue, cpu_id);
    proof {
        assert(k.procs@ =~= k0.procs@.update(
            p as int,
            Process { wait_queue: k.procs@[p as int].wait_queue, ..k0.procs@[p as int] },
        ));
        lemma_sleep_wf(&k0, k, p as int);
    }
    WaitOutcome::Sleep(switch)
}

proof fn lemma_zombie_slot(k: &Kernel, children: Seq<u32>, pid: i64, n: nat)
    ensures
        zombie_slot(k, children, pid, n) matches Some(i) ==> 0 <= i < n && ready_child(
            k,
            children,
            pid,
            i,
        ),
    decreases n,
{
    if n > 0 {
        lemma_zombie_slot(k, children, pid, (n - 1) as nat);
    }
}

/// A child that has ended is what its parent finds when it waits for it, with
/// the code that it ended with.
pub proof fn ended_child_is_found(
    before: &Kernel,
    after: &Kernel,
    p: usize,
    code: i32,
    cpu_id: u32,
    q: usize,
    slot: int,
)
    requires
        p < before.procs@.len(),
        ended(before, after, p as int, code, cpu_id),
        before.procs@[p as int].pid != 0,
        before.ptable.lookup(before.procs@[p as int].pid) == Some(p),
        parent_of(before, p as int) == Some(q),
        q < before.procs@.len(),
        q != p,
        0 <= slot < 32,
        before.procs@[q as int].children@[slot] == before.procs@[p as int].pid,
    ensures
        zombie_of(after, q as int, before.procs@[p as int].pid as i64) == Some(
            (before.procs@[p as int].pid, code),
        ),
{
    let pid = before.procs@[p as int].pid;
    let children = after.procs@[q as int].children@;
    assert(children == before.procs@[q as int].children@);
    assert(after.procs@[p as int].state == ProcessState::Zombie && after.procs@[p as int].exit_code == code);
    assert(ready_child(after, children, pid as i64, slot));
    lemma_zombie_sticks(after, children, pid as i64, (slot + 1) as nat, 32);
    lemma_zombie_slot(after, children, pid as i64, 32);
}

/// A child is waited for once: after that, no wait for it finds it.
pub proof fn reaped_child_is_gone(before: &Kernel, after: &Kernel, parent: int, c: usize)
    requires
        reaped(before, after, parent, c),
        before.procs@[c as int].pid != 0,
    ensures
        after.ptable.lookup(before.procs@[c as int].pid) is None,
        zombie_of(after, parent, before.procs@[c as int].pid as i64) is None,
{
    let pid = before.procs@[c as int].pid as i64;
    lemma_zombie_slot(after, after.procs@[parent].children@, pid, 32);
}

/// One more wait leaves the state well formed.
proof fn lemma_sleep_wf(k0: &Kernel, k: &Kernel, p: int)
    requires
        k0.wf(),
        k0.live(p),
        *k == (Kernel { sched: k.sched, nodes: k.nodes, procs: k.procs, ..*k0 }),
        k.sched.wf(),
        k.sched.threads@.len() == k0.sched.threads@.len(),
        k.nodes@.len() >= k0.nodes@.len(),
        crate::sched::waitqueue::nodes_wf(k.nodes@, k.sched.threads@.len()),
        k.procs@ == k0.procs@.update(p, k.procs@[p]),
        k.procs@[p] == (Process { wait_queue: k.procs@[p].wait_queue, ..k0.procs@[p] }),
        k.procs@[p].wait_queue.wf(k.nodes@.len()),
    ensures
        k.wf(),
{
    assert forall|q: int| #[trigger] k.live(q) implies k.process_wf(q) by {
        assert(k0.live(q));
        assert(k0.process_wf(q));
        k0.procs@[q].wait_queue.lemma_wf(k0.nodes@.len());
        assert(k0.procs@[q].wait_queue.wf(k.nodes@.len()));
    }
    assert forall|h: int| #[trigger] k.spaces.live(h) implies k.spaces.at(h).refcount == users(
        k.procs@,
        h as usize,
        k.procs@.len(),
    ) by {
        assert(k0.spaces.live(h));
        lemma_users_same(k0.procs@, k.procs@, h as usize, k.procs@.len());
    }
    assert forall|pid: u32| (#[trigger] k.ptable.lookup(pid) matches Some(q) ==> k.live(q as int)
        && k.procs@[q as int].pid == pid) by {
        if let Some(q) = k.ptable.lookup(pid) {
            assert(k0.ptable.lookup(pid) == Some(q));
            assert(k0.live(q as int));
        }
    }
    assert forall|i: int| 0 <= i < 64 implies (#[trigger] k.registered@[i] matches Some(q)
        ==> k.live(q as int)) by {
        if let Some(q) = k.registered@[i] {
            assert(k0.live(q as int));
        }
    }
}

} // verus!
