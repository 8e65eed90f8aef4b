//! What threads see of the mutexes and words that they wait for.

use vstd::prelude::*;
use super::futex::{futex_bucket, futex_requeued, futex_waited, futex_woken, mutex_locked, mutex_retried, mutex_tried, mutex_unlocked, FutexTable};
use super::percpu::SchedView;
use super::queue::has_room;
use super::thread::ThreadState;
use super::waitqueue::{ids_below, lemma_parted, lemma_waking_selects, made_runnable, parted, waking, WaitNode, Woken};

verus! {

/// An attempt to take a mutex, of whichever kind.
pub open spec fn mutex_attempted(before: u32, after: u32, got: bool) -> bool {
    ||| mutex_locked(before, after, got)
    ||| mutex_retried(before, after, got)
    ||| mutex_tried(before, after, got)
}

/// A mutex has one holder at a time: an attempt succeeds exactly if the mutex is
/// free, and it is not free afterwards.
pub proof fn mutex_has_one_holder(s0: u32, s1: u32, s2: u32, first: bool, second: bool)
    requires
        mutex_attempted(s0, s1, first),
        mutex_attempted(s1, s2, second),
    ensures
        first == (s0 == 0),
        s1 != 0,
        !second,
        s2 != 0,
{
}

/// A mutex that was given back can be taken.
pub proof fn mutex_is_free_again(s0: u32, s1: u32, s2: u32, wake: bool, got: bool)
    requires
        mutex_unlocked(s0, s1, wake),
        mutex_attempted(s1, s2, got),
    ensures
        got,
{
}

/// Who waits for a mutex is woken: once an attempt that means to wait has failed,
/// whatever others attempt, giving the mutex back tells to wake a waiter.
pub proof fn mutex_waiter_is_not_forgotten(
    s0: u32,
    states: Seq<u32>,
    got: Seq<bool>,
    after: u32,
    wake: bool,
)
    requires
        states.len() > 0,
        got.len() == states.len(),
        mutex_locked(s0, states[0], false) || mutex_retried(s0, states[0], false),
        forall|i: int|
            0 < i < states.len() ==> mutex_attempted(
                states[i - 1],
                #[trigger] states[i],
                got[i],
            ),
        mutex_unlocked(states.last(), after, wake),
    ensures
        wake,
        after == 0,
{
    lemma_stays_awaited(states, got, (states.len() - 1) as nat);
}

proof fn lemma_stays_awaited(states: Seq<u32>, got: Seq<bool>, n: nat)
    requires
        n < states.len(),
        got.len() == states.len(),
        states[0] == 2,
        forall|i: int|
            0 < i < states.len() ==> mutex_attempted(
                states[i - 1],
                #[trigger] states[i],
                got[i],
            ),
    ensures
        states[n as int] == 2,
    decreases n,
{
    if n > 0 {
        lemma_stays_awaited(states, got, (n - 1) as nat);
        assert(mutex_attempted(states[n - 1], states[n as int], got[n as int]));
    }
}

/// Nobody is woken for a mutex that nobody waits for.
pub proof fn mutex_without_waiters_wakes_nobody(s1: u32, s2: u32, got: bool, wake: bool)
    requires
        mutex_locked(0, s1, got) || mutex_tried(0, s1, got),
        mutex_unlocked(s1, s2, wake),
    ensures
        got,
        !wake,
{
}

proof fn lemma_last_wait(
    v: SchedView,
    nodes: Seq<WaitNode>,
    queue: Seq<usize>,
    key: usize,
    n: nat,
    this_cpu: u32,
    t: usize,
)
    requires
        queue.len() > 0,
        n > 0,
        key != 0,
        forall|i: int| 0 <= i < queue.len() - 1 ==> nodes[#[trigger] queue[i] as int].key != key,
        nodes[queue.last() as int].key == key,
        nodes[queue.last() as int].thread == Some(t),
        made_runnable(v, t, this_cpu).1,
    ensures
        waking(v, nodes, queue, key, n, this_cpu) == (Woken {
            sched: made_runnable(v, t, this_cpu).0,
            nodes: nodes.update(
                queue.last() as int,
                WaitNode { woken: true, ..nodes[queue.last() as int] },
            ),
            queue: queue.drop_last(),
            count: 1,
        }),
    decreases queue.len(),
{
    reveal_with_fuel(waking, 2);
    let rest = queue.drop_first();
    if queue.len() == 1 {
        assert(rest =~= queue.drop_last());
        assert(rest.len() == 0);
    } else {
        assert forall|i: int| 0 <= i < rest.len() - 1 implies nodes[#[trigger] rest[i] as int].key
            != key by {
            assert(rest[i] == queue[i + 1]);
        }
        assert(rest.last() == queue.last());
        assert(nodes[queue[0] as int].key != key);
        lemma_last_wait(v, nodes, rest, key, n, this_cpu, t);
        assert(seq![queue[0]] + rest.drop_last() =~= queue.drop_last());
    }
}

/// A thread that waits at an address is woken by a wake at this address, if nobody
/// waited there before it: its wait ends, and it can run.
pub proof fn waiter_is_woken_at_its_address(
    t0: &FutexTable,
    t1: &FutexTable,
    t2: &FutexTable,
    v: SchedView,
    w: SchedView,
    addr: usize,
    thread: usize,
    count: u32,
    this_cpu: u32,
    r: u32,
)
    requires
        addr != 0,
        count > 0,
        futex_waited(t0, t1, addr, thread),
        t0.nodes@.len() < usize::MAX,
        0 <= futex_bucket(addr) < t0.queues().len(),
        forall|i: int|
            0 <= i < t0.queues()[futex_bucket(addr)].len() ==> {
                let id = #[trigger] t0.queues()[futex_bucket(addr)][i] as int;
                id < t0.nodes@.len() && t0.nodes@[id].key != addr
            },
        thread < v.threads.len(),
        v.cpus.len() == 64,
        !v.locked[0],
        has_room(v.cpus[0].queue, v.threads[thread as int].priority as int),
        futex_woken(t1, t2, v, w, addr, count, this_cpu, r),
    ensures
        r == 1,
        t2.nodes@[t0.nodes@.len() as int].woken,
        w.threads[thread as int].state == ThreadState::Runnable,
        t2.queues()[futex_bucket(addr)] == t0.queues()[futex_bucket(addr)],
{
    let b = futex_bucket(addr);
    let queue = t1.queues()[b];
    let id = t0.nodes@.len() as int;
    assert(queue == t0.queues()[b].push(id as usize));
    assert forall|i: int| 0 <= i < queue.len() - 1 implies t1.nodes@[#[trigger] queue[i] as int].key
        != addr by {
        assert(queue[i] == t0.queues()[b][i]);
    }
    lemma_last_wait(v, t1.nodes@, queue, addr, count as nat, this_cpu, thread);
    assert(queue.drop_last() =~= t0.queues()[b]);
}

/// A wake at one address ends no wait at another, even where both are kept in one
/// place.
pub proof fn waiter_sleeps_on_at_other_addresses(
    t0: &FutexTable,
    t1: &FutexTable,
    v: SchedView,
    w: SchedView,
    addr: usize,
    count: u32,
    this_cpu: u32,
    r: u32,
    i: int,
)
    requires
        addr != 0,
        0 <= i < t0.nodes@.len(),
        t0.nodes@[i].key != addr,
        ids_below(t0.queues()[futex_bucket(addr)], t0.nodes@.len()),
        futex_woken(t0, t1, v, w, addr, count, this_cpu, r),
    ensures
        t1.nodes@[i] == t0.nodes@[i],
        r <= count,
{
    lemma_waking_selects(
        v,
        t0.nodes@,
        t0.queues()[futex_bucket(addr)],
        addr,
        count as nat,
        this_cpu,
        i,
    );
    super::waitqueue::lemma_waking_keeps_waits(
        v,
        t0.nodes@,
        t0.queues()[futex_bucket(addr)],
        addr,
        count as nat,
        this_cpu,
    );
}

proof fn lemma_all_hit(nodes: Seq<WaitNode>, queue: Seq<usize>, key: usize, n: nat, i: int)
    requires
        queue.len() <= n,
        0 <= i < queue.len(),
    ensures
        nodes[queue[i] as int].key == key ==> parted(nodes, queue, key, n).0.contains(queue[i]),
        nodes[queue[i] as int].key != key ==> parted(nodes, queue, key, n).1.contains(queue[i]),
    decreases queue.len(),
{
    let last = queue.last();
    let (hit, miss) = parted(nodes, queue.drop_last(), key, n);
    lemma_parted(nodes, queue.drop_last(), key, n);
    if i < queue.len() - 1 {
        lemma_all_hit(nodes, queue.drop_last(), key, n, i);
        let x = queue.drop_last()[i];
        if nodes[x as int].key == key {
            let j = choose|j: int| 0 <= j < hit.len() && hit[j] == x;
            assert(hit.push(last)[j] == x);
        } else {
            let j = choose|j: int| 0 <= j < miss.len() && miss[j] == x;
            assert(miss.push(last)[j] == x);
        }
    } else {
        assert(hit.push(last)[hit.len() as int] == last);
        assert(miss.push(last)[miss.len() as int] == last);
    }
}

/// When all waits at one address are moved to another and none is woken, every
/// thread that waited at the first waits at the second, and nobody can run for it.
pub proof fn moved_waiters_wait_elsewhere(
    t0: &FutexTable,
    t1: &FutexTable,
    v: SchedView,
    w: SchedView,
    addr: usize,
    addr2: usize,
    n: u32,
    this_cpu: u32,
    r: u32,
    i: int,
)
    requires
        futex_requeued(t0, t1, v, w, addr, 0, addr2, n, this_cpu, r),
        0 <= futex_bucket(addr) < t0.queues().len(),
        0 <= futex_bucket(addr2) < t0.queues().len(),
        t0.queues()[futex_bucket(addr)].len() <= n,
        0 <= i < t0.queues()[futex_bucket(addr)].len(),
        t0.queues()[futex_bucket(addr)][i] < t0.nodes@.len(),
    ensures
        ({
            let id = t0.queues()[futex_bucket(addr)][i];
            &&& w == v
            &&& t0.nodes@[id as int].key == addr ==> {
                &&& t1.nodes@[id as int].key == addr2
                &&& t1.nodes@[id as int].thread == t0.nodes@[id as int].thread
                &&& t1.queues()[futex_bucket(addr2)].contains(id)
            }
            &&& t0.nodes@[id as int].key != addr ==> t1.queues()[futex_bucket(addr)].contains(id)
        }),
{
    let a = futex_bucket(addr);
    let b = futex_bucket(addr2);
    let q = t0.queues();
    let id = q[a][i];
    let (hit, miss) = parted(t0.nodes@, q[a], addr, n as nat);
    lemma_all_hit(t0.nodes@, q[a], addr, n as nat, i);
    if t0.nodes@[id as int].key == addr {
        assert(hit.contains((id as int) as usize));
        if a == b {
            assert(t1.queues()[b][i] == id);
        } else {
            let j = choose|j: int| 0 <= j < hit.len() && hit[j] == id;
            assert(t1.queues()[b][q[b].len() + j] == id);
        }
    } else if a == b {
        assert(t1.queues()[a][i] == id);
    }
}

} // verus!
