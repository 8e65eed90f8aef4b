//! Handing the machine over to the first process.

use vstd::prelude::*;
use crate::proc::state::{users, Kernel};
use crate::sched::percpu::SchedView;
use crate::sched::queue::{first_level, has_room, lemma_first_level, next_of, pushed};
use crate::sched::schedule::{enqueue_thread, is_fresh, kicked, scheduled, spawn, thread_added, Switch};
use crate::sched::steal::{all_unlocked, least_loaded_below};
use crate::sched::thread::kstack_fits;

verus! {

/// Every CPU can still queue two threads of the highest priority.
pub open spec fn queues_have_room(v: SchedView) -> bool {
    forall|i: int| 0 <= i < 64 ==> (#[trigger] v.cpus[i]).queue[0].len() < 254
}

/// The scheduler once thread `t` is queued on the first CPU.
pub open spec fn first_queued(v: SchedView, t: usize) -> SchedView {
    kicked(v.with_queue(0, pushed(v.cpus[0].queue, t, 0)), 0)
}

/// The scheduler once a kernel thread has been added to `v` as well, on the CPU
/// with the least to do.
pub open spec fn idler_added(v: SchedView, w: SchedView, entry: u64, kstack: u64) -> bool {
    let t = v.threads.len() as usize;
    let cpu = least_loaded_below(v, v.count as nat);
    let thread = w.threads[t as int];
    &&& is_fresh(thread, v.next_tid, entry, 0, kstack)
    &&& thread_added(
        SchedView { next_tid: v.next_tid.wrapping_add(1), ..v }.with_queue(
            cpu,
            pushed(v.cpus[cpu].queue, t, 0),
        ),
        w,
        thread,
    )
}

/// Queue process `c`, the first one, and a thread that only gives up its turns.
/// The first CPU then looks for something to run.
pub fn queue_init(k: &mut Kernel, c: usize, idle_entry: u64, idle_kstack: u64)
    requires
        old(k).wf(),
        old(k).live(c as int),
        kstack_fits(idle_kstack),
        all_unlocked(old(k).sched@),
        old(k).sched.unlocked(0),
        queues_have_room(old(k).sched@),
    ensures
        final(k).wf(),
        idler_added(
            first_queued(old(k).sched@, old(k).procs@[c as int].thread->Some_0),
            final(k).sched@,
            idle_entry,
            idle_kstack,
        ),
        *final(k) == (Kernel { sched: final(k).sched, ..*old(k) }),
{
    let ghost k0 = *k;
    assert(k.process_wf(c as int));
    let t: usize = k.procs[c].thread.unwrap();
    enqueue_thread(&mut k.sched, t, 0, 0);
    let ghost v1 = k.sched@;
    proof {
        let cpu = least_loaded_below(v1, v1.count as nat);
        lemma_least_loaded_range(v1, v1.count as nat);
        assert(has_room(v1.cpus[cpu].queue, 0)) by {
            k0.sched.cpus@[0].value.run_queue.lemma_shape();
            assert(k0.sched@.cpus[cpu].queue[0].len() < 254);
            assert(k0.sched@.cpus[0].queue[0].len() < 254);
        }
        assert(all_unlocked(v1));
    }
    let _ = spawn(&mut k.sched, idle_entry, idle_kstack);
    proof {
        lemma_more_threads(&k0, k);
    }
}

proof fn lemma_least_loaded_range(v: SchedView, n: nat)
    ensures
        0 <= least_loaded_below(v, n) < n || least_loaded_below(v, n) == 0,
    decreases n,
{
    if n > 1 {
        lemma_least_loaded_range(v, (n - 1) as nat);
    }
}

/// More threads keep the kernel whole.
proof fn lemma_more_threads(k0: &Kernel, k: &Kernel)
    requires
        k0.wf(),
        *k == (Kernel { sched: k.sched, ..*k0 }),
        k.sched.wf(),
        k.sched.threads@.len() >= k0.sched.threads@.len(),
    ensures
        k.wf(),
{
    assert forall|p: int| #[trigger] k.live(p) implies k.process_wf(p) by {
        assert(k0.live(p));
        assert(k0.process_wf(p));
    }
    assert forall|h: int| #[trigger] k.spaces.live(h) implies k.spaces.at(h).refcount == users(
        k.procs@,
        h as usize,
        k.procs@.len(),
    ) by {
        assert(k0.spaces.live(h));
    }
    assert forall|pid: u32| (#[trigger] k.ptable.lookup(pid) matches Some(p) ==> k.live(
        p as int,
    ) && k.procs@[p as int].pid == pid) by {
        if let Some(p) = k.ptable.lookup(pid) {
            assert(k0.ptable.lookup(pid) == Some(p));
            assert(k0.live(p as int));
        }
    }
    assert forall|i: int| 0 <= i < 64 implies (#[trigger] k.registered@[i] matches Some(p)
        ==> k.live(p as int)) by {
        if let Some(p) = k.registered@[i] {
            assert(k0.live(p as int));
        }
    }
}

/// On a machine that has nothing else to do, the first thread that runs is that
/// of the first process.
pub proof fn first_process_runs_first(v: SchedView, w: SchedView, t: usize, entry: u64, kstack: u64)
    requires
        v.cpus.len() == 64,
        v.count <= 64,
        v.cpus[0].queue.len() == 8,
        forall|l: int| 0 <= l < 8 ==> (#[trigger] v.cpus[0].queue[l]).len() == 0,
        v.cpus[0].ticks == 0,
        v.cpus[0].current is Some,
        v.cpus[0].current == v.cpus[0].idle,
        v.cpus[0].current != Some(t),
        idler_added(first_queued(v, t), w, entry, kstack),
    ensures
        scheduled(w, 0).1 == (Switch::To { from: v.cpus[0].current, to: t, hook: v.switch_hook }),
        scheduled(w, 0).0.cpus[0].current == Some(t),
{
    let v1 = first_queued(v, t);
    let cpu = least_loaded_below(v1, v1.count as nat);
    lemma_least_loaded_range(v1, v1.count as nat);
    let q = w.cpus[0].queue;
    assert(v1.cpus[0].queue[0] =~= seq![t]);
    assert(q[0].len() > 0 && q[0][0] == t);
    lemma_first_level(q, 8);
    lemma_level_zero(q, 8);
    assert(next_of(q) == Some(t));
}

proof fn lemma_level_zero(q: Seq<Seq<usize>>, n: nat)
    requires
        n > 0,
        q[0].len() > 0,
    ensures
        first_level(q, n) == Some(0int),
    decreases n,
{
    reveal_with_fuel(first_level, 2);
    if n > 1 {
        lemma_level_zero(q, (n - 1) as nat);
    }
}

} // verus!
