//! Blocking on a wait queue, and waking from it.

use vstd::prelude::*;
use super::percpu::{cpu_slot, Sched, MAX_CPUS};
use super::schedule::{can_schedule, schedule, scheduled, thread_yield, yielded, Switch};
use super::thread::{Thread, ThreadState};
use super::waitqueue::{nodes_wf, waking, WaitNode, WaitQueue};

verus! {

/// The state in which thread `t` no longer runs, because it waits.
pub open spec fn blocked(s: &Sched, t: usize) -> super::percpu::SchedView {
    s@.with_thread(t, Thread { state: ThreadState::Blocked, ..s@.threads[t as int] })
}

/// A thread runs on `cpu_id`, and can be taken off it.
pub open spec fn can_block(s: &Sched, cpu_id: u32) -> bool {
    &&& s.wf()
    &&& s.unlocked(cpu_id)
    &&& can_schedule(s, cpu_id)
    &&& s.cpus@[cpu_slot(cpu_id)].value.current is Some
}

/// The thread that runs on `cpu_id`.
pub open spec fn running(s: &Sched, cpu_id: u32) -> usize {
    s.cpus@[cpu_slot(cpu_id)].value.current->Some_0
}

/// The running thread starts to wait in `wq` for `key`.
pub(crate) fn start_wait(
    s: &mut Sched,
    nodes: &mut Vec<WaitNode>,
    wq: &mut WaitQueue,
    key: usize,
    cpu_id: u32,
)
    requires
        can_block(old(s), cpu_id),
        old(wq).wf(old(nodes)@.len()),
        old(wq)@.len() < u32::MAX,
        nodes_wf(old(nodes)@, old(s).threads@.len()),
    ensures
        final(s).wf(),
        final(s).cpus == old(s).cpus,
        final(s)@ == blocked(old(s), running(old(s), cpu_id)),
        final(nodes)@ == old(nodes)@.push(
            WaitNode { thread: Some(running(old(s), cpu_id)), woken: false, key },
        ),
        final(wq)@ == old(wq)@.push(old(nodes)@.len() as usize),
        final(wq).wf(final(nodes)@.len()),
        nodes_wf(final(nodes)@, final(s).threads@.len()),
{
    let me: usize = cpu_id as usize % MAX_CPUS;
    assert(s.cpus@[me as int].value.wf(s.threads@.len()));
    if let Some(cur) = s.cpus[me].value.current {
        let mut node = WaitNode::new(Some(cur));
        node.key = key;
        let id: usize = nodes.len();
        nodes.push(node);
        proof {
            wq.lemma_wf(id as nat);
            assert(wq.wf(nodes@.len()));
            assert(!wq@.contains(id));
        }
        wq.enqueue(nodes, id);
        assert(nodes@ =~= old(nodes)@.push(node));
        let mut thread: Thread = s.threads[cur];
        assert(s.threads@[cur as int].priority < 8);
        thread.state = ThreadState::Blocked;
        s.set_thread(cur, thread);
    }
}

/// Block the running thread on `wq`. It is woken when a waker ends its wait.
pub fn thread_block(
    s: &mut Sched,
    nodes: &mut Vec<WaitNode>,
    wq: &mut WaitQueue,
    cpu_id: u32,
) -> (r: Switch)
    requires
        can_block(old(s), cpu_id),
        old(wq).wf(old(nodes)@.len()),
        old(wq)@.len() < u32::MAX,
        nodes_wf(old(nodes)@, old(s).threads@.len()),
    ensures
        final(s).wf(),
        final(s).threads@.len() == old(s).threads@.len(),
        (final(s)@, r) == scheduled(blocked(old(s), running(old(s), cpu_id)), cpu_id),
        final(nodes)@ == old(nodes)@.push(
            WaitNode { thread: Some(running(old(s), cpu_id)), woken: false, key: 0 },
        ),
        final(wq)@ == old(wq)@.push(old(nodes)@.len() as usize),
        final(wq).wf(final(nodes)@.len()),
        nodes_wf(final(nodes)@, final(s).threads@.len()),
{
    start_wait(s, nodes, wq, 0, cpu_id);
    schedule(s, cpu_id)
}

/// Block the running thread on `wq` if `should_block` still says so. No wake
/// can come between that question and the wait.
pub fn thread_block_if<F: FnOnce() -> bool>(
    s: &mut Sched,
    nodes: &mut Vec<WaitNode>,
    wq: &mut WaitQueue,
    cpu_id: u32,
    should_block: F,
) -> (r: Option<Switch>)
    requires
        can_block(old(s), cpu_id),
        old(wq).wf(old(nodes)@.len()),
        old(wq)@.len() < u32::MAX,
        nodes_wf(old(nodes)@, old(s).threads@.len()),
        call_requires(should_block, ()),
    ensures
        final(s).wf(),
        final(s).threads@.len() == old(s).threads@.len(),
        final(wq).wf(final(nodes)@.len()),
        nodes_wf(final(nodes)@, final(s).threads@.len()),
        call_ensures(should_block, (), r is Some),
        match r {
            None => *final(s) == *old(s) && *final(nodes) == *old(nodes) && *final(wq) == *old(wq),
            Some(switch) => {
                &&& (final(s)@, switch) == scheduled(
                    blocked(old(s), running(old(s), cpu_id)),
                    cpu_id,
                )
                &&& final(nodes)@ == old(nodes)@.push(
                    WaitNode { thread: Some(running(old(s), cpu_id)), woken: false, key: 0 },
                )
                &&& final(wq)@ == old(wq)@.push(old(nodes)@.len() as usize)
            },
        },
{
    if should_block() {
        start_wait(s, nodes, wq, 0, cpu_id);
        Some(schedule(s, cpu_id))
    } else {
        None
    }
}

/// Wake the thread that has waited longest. False where none could be woken.
pub fn wake_one(s: &mut Sched, nodes: &mut Vec<WaitNode>, wq: &mut WaitQueue, this_cpu: u32) -> (r:
    bool)
    requires
        old(s).wf(),
        old(wq).wf(old(nodes)@.len()),
        nodes_wf(old(nodes)@, old(s).threads@.len()),
    ensures
        final(s).wf(),
        final(wq).wf(final(nodes)@.len()),
        nodes_wf(final(nodes)@, final(s).threads@.len()),
        final(nodes)@.len() == old(nodes)@.len(),
        final(s).threads@.len() == old(s).threads@.len(),
        ({
            let w = waking(old(s)@, old(nodes)@, old(wq)@, 0, 1, this_cpu);
            final(s)@ == w.sched && final(nodes)@ == w.nodes && final(wq)@ == w.queue && r == (
            w.count > 0)
        }),
{
    wq.wake_n(s, nodes, 1, this_cpu) > 0
}

/// As `wake_one`, from an interrupt handler.
pub fn wake_one_from_irq(
    s: &mut Sched,
    nodes: &mut Vec<WaitNode>,
    wq: &mut WaitQueue,
    this_cpu: u32,
) -> (r: bool)
    requires
        old(s).wf(),
        old(wq).wf(old(nodes)@.len()),
        nodes_wf(old(nodes)@, old(s).threads@.len()),
    ensures
        final(s).wf(),
        final(wq).wf(final(nodes)@.len()),
        nodes_wf(final(nodes)@, final(s).threads@.len()),
        ({
            let w = waking(old(s)@, old(nodes)@, old(wq)@, 0, 1, this_cpu);
            final(s)@ == w.sched && final(nodes)@ == w.nodes && final(wq)@ == w.queue && r == (
            w.count > 0)
        }),
{
    wake_one(s, nodes, wq, this_cpu)
}

/// Wake every thread that waits, as far as each can be woken.
pub fn wake_all(s: &mut Sched, nodes: &mut Vec<WaitNode>, wq: &mut WaitQueue, this_cpu: u32) -> (r:
    u32)
    requires
        old(s).wf(),
        old(wq).wf(old(nodes)@.len()),
        nodes_wf(old(nodes)@, old(s).threads@.len()),
    ensures
        final(s).wf(),
        final(wq).wf(final(nodes)@.len()),
        nodes_wf(final(nodes)@, final(s).threads@.len()),
        ({
            let w = waking(old(s)@, old(nodes)@, old(wq)@, 0, u32::MAX as nat, this_cpu);
            final(s)@ == w.sched && final(nodes)@ == w.nodes && final(wq)@ == w.queue && r
                == w.count
        }),
{
    wq.wake_all(s, nodes, this_cpu)
}

/// Wake one thread and give up the CPU.
pub fn wake_one_and_yield(
    s: &mut Sched,
    nodes: &mut Vec<WaitNode>,
    wq: &mut WaitQueue,
    cpu_id: u32,
) -> (r: Switch)
    requires
        old(s).wf(),
        old(s).unlocked(cpu_id),
        can_schedule(old(s), cpu_id),
        old(wq).wf(old(nodes)@.len()),
        nodes_wf(old(nodes)@, old(s).threads@.len()),
    ensures
        final(s).wf(),
        final(wq).wf(final(nodes)@.len()),
        nodes_wf(final(nodes)@, final(s).threads@.len()),
        ({
            let w = waking(old(s)@, old(nodes)@, old(wq)@, 0, 1, cpu_id);
            (final(s)@, r) == yielded(w.sched, cpu_id) && final(nodes)@ == w.nodes && final(wq)@
                == w.queue
        }),
{
    let ghost v0 = s@;
    proof {
        wq.lemma_wf(nodes@.len());
    }
    let _ = wake_one(s, nodes, wq, cpu_id);
    proof {
        super::waitqueue::lemma_waking_keeps_cpus(v0, old(nodes)@, old(wq)@, 0, 1, cpu_id);
        let me = cpu_slot(cpu_id);
        assert(s@.locked[me] == v0.locked[me]);
        assert(s@.cpus[me].idle == v0.cpus[me].idle && s@.cpus[me].current == v0.cpus[me].current);
    }
    thread_yield(s, cpu_id)
}

} // verus!
