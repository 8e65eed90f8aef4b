//! What threads get from the scheduler.

use vstd::arithmetic::power2::lemma2_to64;
use vstd::prelude::*;
use super::percpu::SchedView;
use super::queue::{boost_takes, boost_touches, boosted_level, boosted_upto, first_level, lemma_first_level, next_of, popped, pushed, stolen, total_below};
use super::schedule::{is_fresh, scheduled, started_cpu, tick, yielded, Switch};
use super::steal::steal_batch;
use super::thread::{slice_ends, Thread, ThreadState};
use super::waitqueue::{waking, WaitNode};

verus! {

/// How many ticks a thread of this priority may run at a time.
pub open spec fn slice_of(priority: u8) -> int {
    if priority == 0 {
        1
    } else if priority == 1 {
        2
    } else if priority == 2 {
        4
    } else if priority == 3 {
        8
    } else if priority == 4 {
        16
    } else if priority == 5 {
        32
    } else if priority == 6 {
        64
    } else {
        128
    }
}

/// The priority after a slice that was used up: one step lower, down to the last.
pub open spec fn lowered(priority: u8) -> u8 {
    if priority >= 7 {
        7
    } else {
        (priority + 1) as u8
    }
}

/// Level `l` of a queue is the first that holds a thread.
pub open spec fn is_first_level(q: Seq<Seq<usize>>, l: int) -> bool {
    &&& 0 <= l < 8
    &&& q[l].len() > 0
    &&& forall|k: int| 0 <= k < l ==> (#[trigger] q[k]).len() == 0
}

/// CPU `me` runs thread `t`, which is not its idle thread, and does not give queued
/// threads a fresh start at the next tick.
pub open spec fn runs(v: SchedView, me: int, t: usize) -> bool {
    &&& v.cpus.len() == 64
    &&& 0 <= me < 64
    &&& v.cpus[me].current == Some(t)
    &&& v.cpus[me].idle != Some(t)
    &&& v.cpus[me].queue.len() == 8
    &&& t < v.threads.len()
    &&& v.threads[t as int].priority < 8
    &&& v.cpus[me].ticks.wrapping_add(1) % 1000 != 0
}

proof fn lemma_slice(t: Thread)
    requires
        t.priority < 8,
    ensures
        slice_ends(t) == (t.ticks_used + 1 >= slice_of(t.priority)),
{
    lemma2_to64();
}

proof fn lemma_first(q: Seq<Seq<usize>>, l: int)
    requires
        is_first_level(q, l),
    ensures
        next_of(q) == Some(q[l][0]),
        popped(q) == q.update(l, q[l].drop_first()),
{
    lemma_first_level(q, 8);
    let m = first_level(q, 8)->Some_0;
    if m < l {
        assert(q[m].len() == 0);
    } else if l < m {
        assert(q[l].len() == 0);
    }
}

/// A thread runs on until it has used its slice, which doubles with each step that
/// its priority is lower: 1 tick at the highest priority, 128 at the lowest.
pub proof fn thread_runs_for_its_slice(v: SchedView, cpu_id: u32, t: usize)
    requires
        runs(v, cpu_id as int % 64, t),
        v.threads[t as int].state == ThreadState::Running,
        v.threads[t as int].ticks_used + 1 < slice_of(v.threads[t as int].priority),
    ensures
        ({
            let me = cpu_id as int % 64;
            let (w, s) = scheduled(v, cpu_id);
            let was = v.threads[t as int];
            let now = w.threads[t as int];
            &&& s == Switch::Stay
            &&& w.cpus[me].current == Some(t)
            &&& w.cpus[me].queue == v.cpus[me].queue
            &&& now.state == ThreadState::Running
            &&& now.priority == was.priority
            &&& now.ticks_used == was.ticks_used + 1
            &&& now.context == was.context
        }),
{
    lemma_slice(v.threads[t as int]);
}

/// A thread that has used its slice falls one step and waits behind those that
/// wait there; the oldest thread of the highest level that has any runs next. It may
/// be the same thread, if nothing else waits above it.
pub proof fn turn_passes_to_the_oldest_of_the_highest(v: SchedView, cpu_id: u32, t: usize, l: int)
    requires
        runs(v, cpu_id as int % 64, t),
        v.threads[t as int].state == ThreadState::Running,
        v.threads[t as int].ticks_used + 1 >= slice_of(v.threads[t as int].priority),
        v.cpus[cpu_id as int % 64].queue[lowered(v.threads[t as int].priority) as int].len() < 255,
        is_first_level(v.cpus[cpu_id as int % 64].queue, l),
        l <= lowered(v.threads[t as int].priority),
        v.cpus[cpu_id as int % 64].queue[l][0] < v.threads.len(),
        v.cpus[cpu_id as int % 64].queue[l][0] != t,
    ensures
        ({
            let me = cpu_id as int % 64;
            let q = v.cpus[me].queue;
            let (w, s) = scheduled(v, cpu_id);
            let down = lowered(v.threads[t as int].priority) as int;
            let next = q[l][0];
            &&& s == Switch::To { from: Some(t), to: next, hook: v.switch_hook }
            &&& w.cpus[me].current == Some(next)
            &&& w.threads[next as int].state == ThreadState::Running
            &&& w.threads[next as int].cpu_id == cpu_id
            &&& w.threads[t as int].state == ThreadState::Runnable
            &&& w.threads[t as int].priority == down
            &&& w.threads[t as int].ticks_used == 0
            &&& w.cpus[me].queue[down].last() == t
            &&& down != l ==> w.cpus[me].queue[down] == q[down].push(t) && w.cpus[me].queue[l]
                == q[l].drop_first()
            &&& down == l ==> w.cpus[me].queue[l] == q[l].drop_first().push(t)
        }),
{
    let me = cpu_id as int % 64;
    let q = v.cpus[me].queue;
    let down = lowered(v.threads[t as int].priority) as int;
    lemma_slice(v.threads[t as int]);
    let p = pushed(q, t, down);
    assert(p[l][0] == q[l][0]);
    assert(is_first_level(p, l)) by {
        assert forall|k: int| 0 <= k < l implies (#[trigger] p[k]).len() == 0 by {
            assert(q[k].len() == 0);
        }
    }
    lemma_first(p, l);
    if down == l {
        assert(p[l].drop_first() =~= q[l].drop_first().push(t));
    }
}

/// A thread that has used its slice while nothing else waits goes on, one step lower.
pub proof fn lonely_thread_goes_on(v: SchedView, cpu_id: u32, t: usize)
    requires
        runs(v, cpu_id as int % 64, t),
        v.threads[t as int].state == ThreadState::Running,
        v.threads[t as int].ticks_used + 1 >= slice_of(v.threads[t as int].priority),
        forall|l: int| 0 <= l < 8 ==> (#[trigger] v.cpus[cpu_id as int % 64].queue[l]).len() == 0,
    ensures
        ({
            let me = cpu_id as int % 64;
            let (w, s) = scheduled(v, cpu_id);
            &&& s == Switch::Stay
            &&& w.cpus[me].current == Some(t)
            &&& w.threads[t as int].state == ThreadState::Running
            &&& w.threads[t as int].priority == lowered(v.threads[t as int].priority)
            &&& w.threads[t as int].ticks_used == 0
            &&& forall|l: int| 0 <= l < 8 ==> (#[trigger] w.cpus[me].queue[l]).len() == 0
        }),
{
    let me = cpu_id as int % 64;
    let q = v.cpus[me].queue;
    let down = lowered(v.threads[t as int].priority) as int;
    lemma_slice(v.threads[t as int]);
    let p = pushed(q, t, down);
    assert(q[down].len() == 0);
    assert(is_first_level(p, down)) by {
        assert forall|k: int| 0 <= k < down implies (#[trigger] p[k]).len() == 0 by {
            assert(q[k].len() == 0);
        }
    }
    lemma_first(p, down);
    let w = scheduled(v, cpu_id).0;
    assert forall|l: int| 0 <= l < 8 implies (#[trigger] w.cpus[me].queue[l]).len() == 0 by {
        assert(q[l].len() == 0);
    }
}

/// A thread that waits for something, or has ended, is neither queued nor run: the
/// oldest thread of the highest level runs, and the other keeps its state.
pub proof fn stopped_thread_does_not_run(v: SchedView, cpu_id: u32, t: usize, l: int)
    requires
        runs(v, cpu_id as int % 64, t),
        v.threads[t as int].state == ThreadState::Blocked || v.threads[t as int].state
            == ThreadState::Dead,
        is_first_level(v.cpus[cpu_id as int % 64].queue, l),
        v.cpus[cpu_id as int % 64].queue[l][0] < v.threads.len(),
        v.cpus[cpu_id as int % 64].queue[l][0] != t,
    ensures
        ({
            let me = cpu_id as int % 64;
            let q = v.cpus[me].queue;
            let (w, s) = scheduled(v, cpu_id);
            &&& s == Switch::To { from: Some(t), to: q[l][0], hook: v.switch_hook }
            &&& w.cpus[me].current == Some(q[l][0])
            &&& w.cpus[me].queue == q.update(l, q[l].drop_first())
            &&& w.threads[t as int].state == v.threads[t as int].state
            &&& w.threads[t as int].priority == v.threads[t as int].priority
            &&& w.threads[t as int].ticks_used == 0
        }),
{
    lemma_first(v.cpus[cpu_id as int % 64].queue, l);
}

/// A thread that yields waits behind those of its own level, and keeps its priority
/// and a whole slice.
pub proof fn yielding_thread_keeps_its_level(v: SchedView, cpu_id: u32, t: usize, l: int)
    requires
        runs(v, cpu_id as int % 64, t),
        v.cpus[cpu_id as int % 64].queue[v.threads[t as int].priority as int].len() < 255,
        is_first_level(v.cpus[cpu_id as int % 64].queue, l),
        l <= v.threads[t as int].priority,
        v.cpus[cpu_id as int % 64].queue[l][0] < v.threads.len(),
        v.cpus[cpu_id as int % 64].queue[l][0] != t,
    ensures
        ({
            let me = cpu_id as int % 64;
            let q = v.cpus[me].queue;
            let (w, s) = yielded(v, cpu_id);
            let own = v.threads[t as int].priority as int;
            &&& s == Switch::To { from: Some(t), to: q[l][0], hook: v.switch_hook }
            &&& w.cpus[me].current == Some(q[l][0])
            &&& w.threads[t as int].state == ThreadState::Runnable
            &&& w.threads[t as int].priority == own
            &&& w.threads[t as int].ticks_used == 0
            &&& w.cpus[me].queue[own].last() == t
        }),
{
    let me = cpu_id as int % 64;
    let q = v.cpus[me].queue;
    let own = v.threads[t as int].priority as int;
    let p = pushed(q, t, own);
    assert(p[l][0] == q[l][0]);
    assert(is_first_level(p, l)) by {
        assert forall|k: int| 0 <= k < l implies (#[trigger] p[k]).len() == 0 by {
            assert(q[k].len() == 0);
        }
    }
    lemma_first(p, l);
}

/// The threads of the first `n` levels, in the order of the levels.
pub open spec fn in_order(q: Seq<Seq<usize>>, n: nat) -> Seq<usize>
    decreases n,
{
    if n == 0 {
        Seq::empty()
    } else {
        in_order(q, (n - 1) as nat) + q[n - 1]
    }
}

proof fn lemma_raised(q: Seq<Seq<usize>>, n: nat)
    requires
        q.len() == 8,
        1 <= n <= 8,
        in_order(q, 8).len() <= 255,
    ensures
        ({
            let b = boosted_upto(q, n);
            &&& b.len() == 8
            &&& b[0] == in_order(q, n)
            &&& forall|l: int| 1 <= l < n ==> (#[trigger] b[l]).len() == 0
            &&& forall|l: int| n <= l < 8 ==> #[trigger] b[l] == q[l]
        }),
    decreases n,
{
    if n == 1 {
        assert(in_order(q, 0) =~= Seq::<usize>::empty());
        assert(in_order(q, 1) =~= q[0]);
    } else {
        lemma_raised(q, (n - 1) as nat);
        lemma_in_order_grows(q, n, 8);
        let b = boosted_upto(q, (n - 1) as nat);
        let c = boosted_level(b, n - 1);
        assert(b[n - 1] == q[n - 1]);
        assert(c[0] =~= in_order(q, n));
        assert forall|l: int| 1 <= l < n implies (#[trigger] c[l]).len() == 0 by {
            if l < n - 1 {
                assert(b[l].len() == 0);
            }
        }
        assert forall|l: int| n <= l < 8 implies #[trigger] c[l] == q[l] by {
            assert(b[l] == q[l]);
        }
    }
}

proof fn lemma_in_order_grows(q: Seq<Seq<usize>>, m: nat, n: nat)
    requires
        m <= n,
    ensures
        in_order(q, m).len() <= in_order(q, n).len(),
    decreases n,
{
    if m < n {
        lemma_in_order_grows(q, m, (n - 1) as nat);
    }
}

proof fn lemma_touched(q: Seq<Seq<usize>>, n: nat, l: int, i: int)
    requires
        q.len() == 8,
        1 <= l < n <= 8,
        0 <= i < q[l].len(),
        in_order(q, 8).len() <= 255,
    ensures
        boost_touches(q, n, q[l][i]),
    decreases n,
{
    if l < n - 1 {
        lemma_touched(q, (n - 1) as nat, l, i);
    } else {
        lemma_raised(q, (n - 1) as nat);
        lemma_in_order_grows(q, n, 8);
        let b = boosted_upto(q, (n - 1) as nat);
        assert(b[l] == q[l]);
        assert(boost_takes(b, l) == q[l]);
        assert(boost_takes(b, l)[i] == q[l][i]);
    }
}

/// Every thousandth tick, all threads that wait on a CPU start over at the highest
/// priority with a whole slice, in the order in which they would have been served:
/// none waits for ever. (The highest level must have room for them.)
pub proof fn waiting_threads_start_over(v: SchedView, me: int, l: int, i: int)
    requires
        v.cpus.len() == 64,
        0 <= me < 64,
        v.cpus[me].queue.len() == 8,
        v.cpus[me].ticks.wrapping_add(1) % 1000 == 0,
        in_order(v.cpus[me].queue, 8).len() <= 255,
        0 <= l < 8,
        0 <= i < v.cpus[me].queue[l].len(),
        v.cpus[me].queue[l][i] < v.threads.len(),
    ensures
        ({
            let w = tick(v, me);
            let t = v.cpus[me].queue[l][i];
            &&& w.cpus[me].queue[0] == in_order(v.cpus[me].queue, 8)
            &&& forall|k: int| 1 <= k < 8 ==> (#[trigger] w.cpus[me].queue[k]).len() == 0
            &&& l > 0 ==> w.threads[t as int].priority == 0 && w.threads[t as int].ticks_used == 0
            &&& w.threads[t as int].state == v.threads[t as int].state
            &&& w.cpus[me].current == v.cpus[me].current
        }),
{
    let q = v.cpus[me].queue;
    lemma_raised(q, 8);
    if l > 0 {
        lemma_touched(q, 8, l, i);
    }
}

/// A new thread starts at its entry with all other registers zero, on an aligned
/// stack pointer inside its own stack, below the thread itself. Its floating-point
/// state masks every exception.
pub proof fn new_thread_starts_at_its_entry(
    t: Thread,
    id: u64,
    entry: u64,
    priority: u8,
    kstack: u64,
    i: int,
)
    requires
        is_fresh(t, id, entry, priority, kstack),
        0xffff_8000_0000_0000 + kstack + 0x8000 <= u64::MAX,
        0 <= i < 1024,
    ensures
        t.context.rip == entry,
        t.context.rsp % 16 == 8,
        0xffff_8000_0000_0000 + kstack + 0x7000 <= t.context.rsp,
        t.context.rsp + 8 + 1152 <= 0xffff_8000_0000_0000 + kstack + 0x8000,
        t.context.rbx == 0 && t.context.rbp == 0 && t.context.r12 == 0 && t.context.r13 == 0
            && t.context.r14 == 0 && t.context.r15 == 0,
        t.kstack_phys == kstack,
        t.kstack_top == t.context.rsp + 8,
        t.id == id,
        t.ticks_used == 0,
        priority < 8 ==> t.priority == priority,
        priority >= 8 ==> t.priority == 7,
        t.state == ThreadState::Runnable,
        t.fpu@.len() == 1024,
        i == 24 ==> t.fpu@[i] == 0x80,
        i == 25 ==> t.fpu@[i] == 0x1f,
        i != 24 && i != 25 ==> t.fpu@[i] == 0,
{
}

/// Waking one thread from a queue ends the oldest wait there is: its thread can run
/// again, behind those of its priority on the first CPU, which is told if another
/// CPU does this.
pub proof fn oldest_waiter_runs_again(
    v: SchedView,
    nodes: Seq<WaitNode>,
    queue: Seq<usize>,
    this_cpu: u32,
    t: usize,
)
    requires
        queue.len() > 0,
        queue[0] < nodes.len(),
        nodes[queue[0] as int].thread == Some(t),
        t < v.threads.len(),
        v.threads[t as int].priority < 8,
        v.cpus.len() == 64,
        !v.locked[0],
        v.cpus[0].queue.len() == 8,
        v.cpus[0].queue[v.threads[t as int].priority as int].len() < 255,
    ensures
        ({
            let w = waking(v, nodes, queue, 0, 1, this_cpu);
            let level = v.threads[t as int].priority as int;
            &&& w.count == 1
            &&& w.queue == queue.drop_first()
            &&& w.nodes[queue[0] as int].woken
            &&& w.sched.threads[t as int].state == ThreadState::Runnable
            &&& w.sched.threads[t as int].priority == level
            &&& w.sched.cpus[0].queue[level] == v.cpus[0].queue[level].push(t)
            &&& forall|l: int|
                0 <= l < 8 && l != level ==> #[trigger] w.sched.cpus[0].queue[l]
                    == v.cpus[0].queue[l]
            &&& w.sched.kick_pending == (v.kick_pending || (v.kick_hook && this_cpu != 0))
        }),
{
    reveal_with_fuel(waking, 2);
}

proof fn lemma_total_one(q: Seq<Seq<usize>>, l: int, s: Seq<usize>, n: nat)
    requires
        0 <= l < q.len(),
        n <= q.len(),
    ensures
        total_below(q.update(l, s), n) == total_below(q, n) + (if l < n {
            s.len() - q[l].len()
        } else {
            0
        }),
    decreases n,
{
    if n > 0 {
        lemma_total_one(q, l, s, (n - 1) as nat);
    }
}

proof fn lemma_taken(src: Seq<Seq<usize>>, dst: Seq<Seq<usize>>, threads: Seq<Thread>, n: nat)
    requires
        src.len() == 8,
        dst.len() == 8,
        forall|l: int| 0 <= l < 8 ==> (#[trigger] src[l]).len() <= 255,
        forall|l: int, i: int|
            0 <= l < 8 && 0 <= i < src[l].len() ==> threads[#[trigger] src[l][i] as int].priority == l,
    ensures
        ({
            let (s, d, k) = stolen(src, dst, threads, n);
            &&& k <= n
            &&& total_below(s, 8) == total_below(src, 8) - k
            &&& total_below(d, 8) == total_below(dst, 8) + k
            &&& s.len() == 8
            &&& d.len() == 8
        }),
    decreases n,
{
    if n > 0 {
        if let Some(t) = next_of(src) {
            lemma_first_level(src, 8);
            let l = first_level(src, 8)->Some_0;
            assert(src[l][0] == t);
            let p = popped(src);
            lemma_total_one(src, l, src[l].drop_first(), 8);
            let level = threads[t as int].priority as int;
            if super::queue::has_room(dst, level) {
                let d = pushed(dst, t, level);
                lemma_total_one(dst, level, dst[level].push(t), 8);
                assert forall|m: int, i: int| 0 <= m < 8 && 0 <= i < p[m].len() implies threads[
                #[trigger] p[m][i] as int].priority == m by {
                    if m == l {
                        assert(p[m][i] == src[m][i + 1]);
                    } else {
                        assert(p[m][i] == src[m][i]);
                    }
                }
                assert forall|m: int| 0 <= m < 8 implies (#[trigger] p[m]).len() <= 255 by {
                    assert(src[m].len() <= 255);
                }
                lemma_taken(p, d, threads, (n - 1) as nat);
            } else {
                assert(p[l].len() < 255) by {
                    assert(src[l].len() <= 255);
                }
                lemma_total_one(p, l, p[l].push(t), 8);
            }
        }
    }
}

/// A CPU that takes threads from another takes no more than half of those that wait
/// there, and no more than eight: the other keeps at least as many as it gives.
pub proof fn thief_takes_at_most_half(
    src: Seq<Seq<usize>>,
    dst: Seq<Seq<usize>>,
    threads: Seq<Thread>,
)
    requires
        src.len() == 8,
        dst.len() == 8,
        forall|l: int| 0 <= l < 8 ==> (#[trigger] src[l]).len() <= 255,
        forall|l: int, i: int|
            0 <= l < 8 && 0 <= i < src[l].len() ==> threads[#[trigger] src[l][i] as int].priority == l,
    ensures
        ({
            let had = total_below(src, 8);
            let (s, d, moved) = stolen(src, dst, threads, steal_batch(had) as nat);
            &&& moved <= 8
            &&& total_below(s, 8) >= moved
            &&& total_below(s, 8) + moved == had
            &&& total_below(d, 8) == total_below(dst, 8) + moved
        }),
{
    lemma_total_nonneg(src, 8);
    lemma_taken(src, dst, threads, steal_batch(total_below(src, 8)) as nat);
}

proof fn lemma_total_nonneg(q: Seq<Seq<usize>>, n: nat)
    ensures
        total_below(q, n) >= 0,
    decreases n,
{
    if n > 0 {
        lemma_total_nonneg(q, (n - 1) as nat);
    }
}

/// A CPU that the scheduler starts runs its own idle thread, with nothing queued; the
/// first other CPU that it looks to for work is its neighbour.
pub proof fn started_cpu_is_idle(i: int, t: usize)
    requires
        0 <= i < 64,
    ensures
        ({
            let c = started_cpu(i, t);
            &&& c.cpu_id == i
            &&& c.current == Some(t)
            &&& c.idle == Some(t)
            &&& c.ticks == 0
            &&& c.cursor == (if i == 63 {
                0
            } else {
                i + 1
            })
            &&& forall|l: int| 0 <= l < 8 ==> (#[trigger] c.queue[l]).len() == 0
            &&& c.queue.len() == 8
        }),
{
}

} // verus!
