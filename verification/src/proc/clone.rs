//! `clone`: a second process in the same address space.

use vstd::prelude::*;
use super::errno::{EAGAIN, EFAULT, EINVAL};
use super::address_space::{AddressSpace, SharedSpace, SpaceTable};
use super::fork::{add_process, can_add_child, child_added, forked, sys_fork};
use super::process::{child_slot, children_full, lemma_child_slot};
use super::signal::SyscallFrame;
use super::state::{current_process, lemma_apart_shrinks, lemma_free_entry, lemma_process_added, only_child_added, Kernel};

verus! {

/// The child shares the address space of its parent.
pub const CLONE_VM: u32 = 0x100;

pub const SYS_CLONE: u64 = 56;

/// The call-saved registers of a cloned child: none is kept.
pub open spec fn no_callee() -> Seq<u64> {
    Seq::new(6, |i: int| 0u64)
}

/// The address space of process `p` gains a user.
pub open spec fn space_shared(before: &Kernel, after: &Kernel, p: int) -> bool {
    let h = before.procs@[p].address_space as int;
    &&& *after == (Kernel { spaces: after.spaces, ..*before })
    &&& SpaceTable::set_at(
        &before.spaces,
        &after.spaces,
        h,
        AddressSpace {
            refcount: (before.spaces.at(h).refcount + 1) as u32,
            ..before.spaces.at(h)
        },
    )
}

/// The state after `clone` with a shared address space by process `p`: the
/// space gains a user, then the child process is made.
pub open spec fn cloned_vm(
    before: &Kernel,
    after: &Kernel,
    p: int,
    frame: SyscallFrame,
    child_stack: u64,
    entry: u64,
    kstack: u64,
    cpu_id: u32,
) -> bool {
    exists|mid: Kernel|
        space_shared(before, &mid, p) && #[trigger] child_added(
            &mid,
            after,
            p,
            frame,
            child_stack,
            no_callee(),
            before.procs@[p].address_space,
            entry,
            kstack,
            cpu_id,
        )
}

/// `clone` has what it takes, if the process may have another child.
pub open spec fn can_clone(k: &Kernel, flags: u32, child_stack: u64, kstack: u64, cpu_id: u32) -> bool {
    &&& flags & CLONE_VM == 0 || child_stack != 0 ==> k.sched.unlocked(cpu_id)
    &&& k.current(cpu_id) matches Some(p) ==> child_slot(
        k.procs@[p as int].children@,
        0,
        32,
    ) is Some && (flags & CLONE_VM == 0 || child_stack != 0) ==> {
        &&& can_add_child(k, kstack)
        &&& if flags & CLONE_VM == 0 {
            k.mem.pool@.len() >= k.space_of(p as int).tables.frames().len() + 2
        } else {
            k.mem.pool@.len() > 0 && k.space_of(p as int).refcount < u32::MAX
        }
    }
}

/// What `clone` does and returns.
pub open spec fn clone_call(
    before: &Kernel,
    after: &Kernel,
    flags: u32,
    child_stack: u64,
    frame: SyscallFrame,
    pcid: u16,
    entry: u64,
    kstack: u64,
    cpu_id: u32,
    r: i64,
) -> bool {
    if flags & CLONE_VM != 0 && child_stack == 0 {
        r == -22 && *after == *before
    } else {
        match before.current(cpu_id) {
            None => r == -14 && *after == *before,
            Some(p) => if child_slot(before.procs@[p as int].children@, 0, 32) is None {
                r == -11 && *after == *before
            } else {
                &&& r == before.next_pid
                &&& if flags & CLONE_VM == 0 {
                    forked(
                        before,
                        after,
                        p as int,
                        frame,
                        pcid,
                        entry,
                        kstack,
                        cpu_id,
                    )
                } else {
                    cloned_vm(
                        before,
                        after,
                        p as int,
                        frame,
                        child_stack,
                        entry,
                        kstack,
                        cpu_id,
                    )
                }
            },
        }
    }
}

/// `clone(flags, child_stack)` by the process that runs on `cpu_id`. Without
/// `CLONE_VM` it is `fork`. With it, the child needs a stack of its own.
pub fn sys_clone(
    k: &mut Kernel,
    flags: u32,
    child_stack: u64,
    frame: &SyscallFrame,
    pcid: u16,
    entry: u64,
    kstack: u64,
    cpu_id: u32,
) -> (r: i64)
    requires
        old(k).wf(),
        can_clone(old(k), flags, child_stack, kstack, cpu_id),
    ensures
        final(k).wf(),
        clone_call(old(k), final(k), flags, child_stack, *frame, pcid, entry, kstack, cpu_id, r),
{
    if flags & CLONE_VM == 0 {
        return sys_fork(k, frame, pcid, entry, kstack, cpu_id);
    }
    if child_stack == 0 {
        return EINVAL;
    }
    let p: usize = match current_process(k, cpu_id) {
        Some(p) => p,
        None => return EFAULT,
    };
    if children_full(&k.procs[p]) {
        return EAGAIN;
    }
    let ghost k0 = *k;
    assert(k.live(p as int));
    assert(k.process_wf(p as int));
    let h: usize = k.procs[p].address_space;
    assert(k.spaces.live(h as int));
    let mut out: Option<SharedSpace> = None;
    std::mem::swap(&mut out, &mut k.spaces.slots[h]);
    let mut shared = out.unwrap();
    shared.space.inc_ref();
    let ghost shared1 = shared;
    k.spaces.slots.set(h, Some(shared));
    let ghost mid = *k;
    proof {
        assert(mid.spaces.slots@ =~= k0.spaces.slots@.update(h as int, Some(shared1)));
        assert(space_shared(&k0, &mid, p as int));
        assert(mid.procs@.len() == k.procs.len());
        assert(mid.sched.threads@.len() == k.sched.threads.len());
        assert(mid.spaces.slots@.len() == k.spaces.slots.len());
    }
    let callee: [u64; 6] = [0;6];
    assert(callee@ =~= no_callee());
    let pid: u32 = add_process(k, p, frame, child_stack, callee, h, entry, kstack, cpu_id);
    proof {
        lemma_free_entry(k0.registered@, 64);
        assert(child_added(
            &mid,
            k,
            p as int,
            *frame,
            child_stack,
            no_callee(),
            k0.procs@[p as int].address_space,
            entry,
            kstack,
            cpu_id,
        ));
        let c = k0.procs@.len() as usize;
        assert forall|i: int| 0 <= i < c implies ({
            let q = #[trigger] k.procs@[i];
            &&& q.live == k0.procs@[i].live
            &&& q.pid == k0.procs@[i].pid
            &&& q.address_space == k0.procs@[i].address_space
            &&& q.thread == k0.procs@[i].thread
            &&& q.wait_queue == k0.procs@[i].wait_queue
        }) by {
            assert(k.procs@[i] == k.procs@.take(c as int)[i]);
        }
        assert(only_child_added(&k0, k, c)) by {
            assert forall|i: int, j: int| 0 <= i < c && 0 <= j < 32 implies #[trigger] k.procs@[i].children@[j]
                == k0.procs@[i].children@[j] || k.procs@[i].children@[j] == pid by {
                assert(k.procs@[i] == k.procs@.take(c as int)[i]);
                lemma_child_slot(k0.procs@[p as int].children@, 0, 32);
            }
        }
        assert(k.mem.pool@ =~= k0.mem.pool@.take(k.mem.pool@.len() as int));
        assert forall|i: int| #[trigger] k0.spaces.live(i) implies k.spaces.live(i) by {
            if i != h {
                assert(k.spaces.slots@[i] == k0.spaces.slots@[i]);
            }
        }
        assert forall|i: int| #[trigger] k.spaces.live(i) implies k.spaces.at(i).wf()
            && k.spaces.at(i).tables.apart(&k.mem) && k.spaces.at(i).refcount
            == super::state::users(k0.procs@, i as usize, c as nat) + (if i == h {
            1int
        } else {
            0
        }) by {
            if i != h {
                assert(k.spaces.slots@[i] == k0.spaces.slots@[i]);
            }
            assert(k0.spaces.live(i));
            lemma_apart_shrinks(&k0.spaces.at(i), &k0.mem, &k.mem);
        }
        k.procs@[c as int].wait_queue.lemma_wf(0);
        lemma_process_added(&k0, k, c, h);
    }
    pid as i64
}

} // verus!
