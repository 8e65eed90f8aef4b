//! Waiting for a word of memory to change.

use vstd::prelude::*;
use super::block::{blocked, can_block, running, start_wait};
use super::percpu::{cpu_slot, Sched, SchedView};
use super::schedule::{schedule, scheduled, Switch};
use super::waitqueue::{ids_below, lemma_parted, lemma_waking_keeps_waits, nodes_wf, parted, rekeyed, renewed, waking, WaitNode, WaitQueue};

verus! {

pub const FUTEX_BUCKETS: usize = 256;

/// The bucket of an address: the top eight bits of its word number times the
/// golden-ratio constant.
#[verifier::opaque]
pub open spec fn futex_bucket(addr: usize) -> int {
    (((addr / 4) * 0x9e37_79b9_7f4a_7c15) % 0x1_0000_0000_0000_0000) / 0x100_0000_0000_0000
}

pub fn bucket_index(addr: usize) -> (r: usize)
    ensures
        r == futex_bucket(addr),
        r < FUTEX_BUCKETS,
{
    proof {
        reveal(futex_bucket);
    }
    let key: u64 = (addr / 4) as u64;
    let hash: u64 = key.wrapping_mul(0x9e37_79b9_7f4a_7c15);
    (hash / 0x100_0000_0000_0000) as usize
}

/// All waits on words of memory.
pub struct FutexTable {
    pub buckets: Vec<WaitQueue>,
    pub nodes: Vec<WaitNode>,
}

/// No wait is listed in two buckets.
pub open spec fn apart(buckets: Seq<Seq<usize>>) -> bool {
    forall|a: int, b: int, i: int, j: int|
        0 <= a < buckets.len() && 0 <= b < buckets.len() && a != b && 0 <= i < buckets[a].len() && 0
            <= j < buckets[b].len() ==> #[trigger] buckets[a][i] != #[trigger] buckets[b][j]
}

impl FutexTable {
    /// The waits in each bucket.
    pub open spec fn queues(&self) -> Seq<Seq<usize>> {
        Seq::new(self.buckets@.len(), |b: int| self.buckets@[b]@)
    }

    pub open spec fn wf(&self, threads: nat) -> bool {
        &&& self.buckets@.len() == 256
        &&& nodes_wf(self.nodes@, threads)
        &&& forall|b: int| 0 <= b < 256 ==> (#[trigger] self.buckets@[b]).wf(self.nodes@.len())
        &&& apart(self.queues())
    }

    pub fn new() -> (r: Self)
        ensures
            r.wf(0),
            r.queues() == Seq::new(256, |b: int| Seq::<usize>::empty()),
            r.nodes@ == Seq::<WaitNode>::empty(),
    {
        let mut buckets: Vec<WaitQueue> = Vec::new();
        let mut i: usize = 0;
        while i < FUTEX_BUCKETS
            invariant
                i <= 256,
                buckets@.len() == i,
                forall|b: int|
                    0 <= b < i ==> (#[trigger] buckets@[b]).wf(0) && buckets@[b]@ == Seq::<
                        usize,
                    >::empty(),
            decreases 256 - i,
        {
            buckets.push(WaitQueue::new());
            i += 1;
        }
        let r = FutexTable { buckets, nodes: Vec::new() };
        assert(r.queues() =~= Seq::new(256, |b: int| Seq::<usize>::empty()));
        r
    }
}

/// `thread` waits at `addr`: its wait is the newest.
pub open spec fn futex_waited(
    before: &FutexTable,
    after: &FutexTable,
    addr: usize,
    thread: usize,
) -> bool {
    let b = futex_bucket(addr);
    let id = before.nodes@.len() as usize;
    &&& after.nodes@ == before.nodes@.push(
        WaitNode { thread: Some(thread), woken: false, key: addr },
    )
    &&& after.queues() == before.queues().update(b, before.queues()[b].push(id))
}

/// Up to `count` of the waits at `addr` ended; `r` says how many.
pub open spec fn futex_woken(
    before: &FutexTable,
    after: &FutexTable,
    v: SchedView,
    w: SchedView,
    addr: usize,
    count: u32,
    this_cpu: u32,
    r: u32,
) -> bool {
    let b = futex_bucket(addr);
    let done = waking(v, before.nodes@, before.queues()[b], addr, count as nat, this_cpu);
    &&& w == done.sched
    &&& after.nodes@ == done.nodes
    &&& after.queues() == before.queues().update(b, done.queue)
    &&& r == done.count
    &&& r + done.queue.len() == before.queues()[b].len()
}

/// Up to `wake_n` of the waits at `addr` ended, and up to `requeue_n` of the others
/// there are waits at `addr2` now; `r` says how many there are of both.
pub open spec fn futex_requeued(
    before: &FutexTable,
    after: &FutexTable,
    v: SchedView,
    w: SchedView,
    addr: usize,
    wake_n: u32,
    addr2: usize,
    requeue_n: u32,
    this_cpu: u32,
    r: u32,
) -> bool {
    let a = futex_bucket(addr);
    let b = futex_bucket(addr2);
    let q = before.queues();
    let done = waking(v, before.nodes@, q[a], addr, wake_n as nat, this_cpu);
    let (hit, miss) = parted(done.nodes, done.queue, addr, requeue_n as nat);
    &&& w == done.sched
    &&& r == done.count + hit.len()
    &&& if a == b {
        after.nodes@ == rekeyed(done.nodes, hit, addr2) && after.queues() == q.update(
            a,
            done.queue,
        )
    } else {
        after.nodes@ == renewed(done.nodes, hit, addr2) && after.queues() == q.update(
            a,
            miss,
        ).update(b, q[b] + hit)
    }
}

/// Wait while the word at `addr` holds `expected`. `seen` is what it held at
/// first, `again` what it holds once no waker can come in between.
pub fn futex_wait(
    s: &mut Sched,
    table: &mut FutexTable,
    addr: usize,
    seen: u32,
    again: u32,
    expected: u32,
    cpu_id: u32,
) -> (r: Option<Switch>)
    requires
        seen == expected ==> old(s).unlocked(cpu_id) && old(s).cpus@[cpu_slot(
            cpu_id,
        )].value.current is Some,
        seen == expected && again == expected ==> can_block(old(s), cpu_id),
        old(table).wf(old(s).threads@.len()),
        seen == expected && again == expected ==> old(table).queues()[futex_bucket(addr)].len()
            < u32::MAX,
    ensures
        r is Some == (seen == expected && again == expected),
        r is None ==> *final(s) == *old(s) && *final(table) == *old(table),
        r matches Some(switch) ==> {
            &&& final(s).wf()
            &&& final(table).wf(final(s).threads@.len())
            &&& (final(s)@, switch) == scheduled(
                blocked(old(s), running(old(s), cpu_id)),
                cpu_id,
            )
            &&& futex_waited(old(table), final(table), addr, running(old(s), cpu_id))
        },
{
    if seen != expected {
        return None;
    }
    let b: usize = bucket_index(addr);
    if again != expected {
        return None;
    }
    let ghost before = *table;
    let ghost n = table.nodes@.len();
    proof {
        table.buckets@[b as int].lemma_wf(n);
        assert(table.buckets@[b as int]@ == table.queues()[b as int]);
    }
    start_wait(s, &mut table.nodes, &mut table.buckets[b], addr, cpu_id);
    proof {
        let id = before.nodes.len();
        assert(table.queues() =~= before.queues().update(b as int, before.queues()[b as int].push(id)));
        assert forall|k: int| 0 <= k < 256 implies (#[trigger] table.buckets@[k]).wf(
            table.nodes@.len(),
        ) by {
            before.buckets@[k].lemma_wf(n);
            if k != b {
                assert(table.buckets@[k] == before.buckets@[k]);
                assert(before.buckets@[k].wf(n + 1));
            }
        }
        assert forall|k: int| 0 <= k < 256 implies ids_below(#[trigger] before.queues()[k], n) by {
            before.buckets@[k].lemma_wf(n);
        }
        lemma_apart_push(before.queues(), b as int, id, n);
    }
    Some(schedule(s, cpu_id))
}

/// Wake up to `count` threads that wait for the word at `addr`.
pub fn futex_wake(
    s: &mut Sched,
    table: &mut FutexTable,
    addr: usize,
    count: u32,
    this_cpu: u32,
) -> (r: u32)
    requires
        old(s).wf(),
        old(table).wf(old(s).threads@.len()),
    ensures
        final(s).wf(),
        final(table).wf(final(s).threads@.len()),
        futex_woken(old(table), final(table), old(s)@, final(s)@, addr, count, this_cpu, r),
{
    let b: usize = bucket_index(addr);
    let ghost before = *table;
    let ghost v0 = s@;
    let ghost n = table.nodes@.len();
    let r = table.buckets[b].wake_n_matching(s, &mut table.nodes, addr, count, this_cpu);
    proof {
        let q = before.buckets@[b as int]@;
        before.buckets@[b as int].lemma_wf(n);
        lemma_waking_keeps_waits(v0, before.nodes@, q, addr, count as nat, this_cpu);
        let w = waking(v0, before.nodes@, q, addr, count as nat, this_cpu);
        assert(table.queues() =~= before.queues().update(b as int, w.queue));
        lemma_apart_subset(before.queues(), b as int, w.queue);
        assert forall|k: int| 0 <= k < 256 implies (#[trigger] table.buckets@[k]).wf(
            table.nodes@.len(),
        ) by {
            assert(before.buckets@[k].wf(n));
        }
    }
    r
}

/// Wake up to `wake_n` threads that wait for the word at `addr`, then let up
/// to `requeue_n` of those still waiting wait for the word at `addr2`.
pub fn futex_requeue(
    s: &mut Sched,
    table: &mut FutexTable,
    addr: usize,
    wake_n: u32,
    addr2: usize,
    requeue_n: u32,
    this_cpu: u32,
) -> (r: u32)
    requires
        old(s).wf(),
        old(table).wf(old(s).threads@.len()),
        futex_bucket(addr) != futex_bucket(addr2) ==> old(table).queues()[futex_bucket(addr)].len()
            + old(table).queues()[futex_bucket(addr2)].len() <= u32::MAX,
    ensures
        final(s).wf(),
        final(table).wf(final(s).threads@.len()),
        futex_requeued(
            old(table),
            final(table),
            old(s)@,
            final(s)@,
            addr,
            wake_n,
            addr2,
            requeue_n,
            this_cpu,
            r,
        ),
{
    let a: usize = bucket_index(addr);
    let b: usize = bucket_index(addr2);
    let ghost q = table.queues();
    let woken: u32 = futex_wake(s, table, addr, wake_n, this_cpu);
    let ghost mid = *table;
    let ghost n = table.nodes@.len();
    let ghost w = waking(old(s)@, old(table).nodes@, q[a as int], addr, wake_n as nat, this_cpu);
    proof {
        assert(table.queues()[a as int] == w.queue);
        table.buckets@[a as int].lemma_wf(n);
        table.buckets@[b as int].lemma_wf(n);
        old(table).buckets@[a as int].lemma_wf(old(table).nodes@.len());
        lemma_waking_keeps_waits(
            old(s)@,
            old(table).nodes@,
            q[a as int],
            addr,
            wake_n as nat,
            this_cpu,
        );
        lemma_parted(w.nodes, w.queue, addr, requeue_n as nat);
    }
    if a == b {
        let moved: u32 = table.buckets[a].rekey_matching(&mut table.nodes, addr, addr2, requeue_n);
        proof {
            assert(table.queues() =~= mid.queues());
            assert(nodes_wf(table.nodes@, s.threads@.len())) by {
                assert forall|i: int| 0 <= i < table.nodes@.len() implies ((
                #[trigger] table.nodes@[i]).thread matches Some(t) ==> t < s.threads@.len()) by {
                    assert(table.nodes@[i].thread == mid.nodes@[i].thread);
                }
            }
            assert forall|k: int| 0 <= k < 256 implies (#[trigger] table.buckets@[k]).wf(n) by {
                assert(mid.buckets@[k].wf(n));
            }
        }
        woken + moved
    } else {
        let mut src = WaitQueue::new();
        std::mem::swap(&mut src, &mut table.buckets[a]);
        proof {
            assert(src@ == mid.queues()[a as int]);
            assert(table.buckets@[b as int]@ == mid.queues()[b as int]);
        }
        let moved: u32 = src.requeue_matching(
            &mut table.buckets[b],
            &mut table.nodes,
            addr,
            addr2,
            requeue_n,
        );
        let ghost kept = src@;
        std::mem::swap(&mut src, &mut table.buckets[a]);
        proof {
            let (hit, miss) = parted(w.nodes, w.queue, addr, requeue_n as nat);
            assert(mid.queues()[b as int] == q[b as int]);
            assert(mid.nodes@ == w.nodes);
            assert(table.buckets@[a as int]@ == miss);
            assert(table.buckets@[b as int]@ == q[b as int] + hit);
            assert forall|k: int| 0 <= k < 256 && k != a && k != b implies
                #[trigger] table.buckets@[k] == mid.buckets@[k] by {}
            assert forall|k: int| 0 <= k < 256 implies #[trigger] table.queues()[k] == q.update(
                a as int,
                miss,
            ).update(b as int, q[b as int] + hit)[k] by {
                if k != a && k != b {
                    assert(mid.queues()[k] == q[k]);
                    assert(table.buckets@[k] == mid.buckets@[k]);
                }
            }
            assert(table.queues() =~= q.update(a as int, miss).update(b as int, q[b as int] + hit));
            lemma_apart_move(mid.queues(), a as int, b as int, miss, hit);
            assert(table.queues() =~= mid.queues().update(a as int, miss).update(
                b as int,
                mid.queues()[b as int] + hit,
            ));
            assert(nodes_wf(table.nodes@, s.threads@.len())) by {
                assert forall|i: int| 0 <= i < table.nodes@.len() implies ((
                #[trigger] table.nodes@[i]).thread matches Some(t) ==> t < s.threads@.len()) by {
                    assert(table.nodes@[i].thread == mid.nodes@[i].thread);
                }
            }
            assert forall|k: int| 0 <= k < 256 implies (#[trigger] table.buckets@[k]).wf(n) by {
                assert(mid.buckets@[k].wf(n));
            }
        }
        woken + moved
    }
}

proof fn lemma_apart_push(q: Seq<Seq<usize>>, b: int, id: usize, n: nat)
    requires
        apart(q),
        0 <= b < q.len(),
        id == n,
        forall|k: int| 0 <= k < q.len() ==> ids_below(#[trigger] q[k], n),
    ensures
        apart(q.update(b, q[b].push(id))),
{
    let p = q.update(b, q[b].push(id));
    assert forall|c: int, d: int, i: int, j: int|
        0 <= c < p.len() && 0 <= d < p.len() && c != d && 0 <= i < p[c].len() && 0 <= j
            < p[d].len() implies #[trigger] p[c][i] != #[trigger] p[d][j] by {
        assert(ids_below(q[c], n) && ids_below(q[d], n));
        if c == b && i == q[b].len() {
            assert(q[d][j] < n);
        } else if d == b && j == q[b].len() {
            assert(q[c][i] < n);
        } else {
            assert(q[c][i] != q[d][j]);
        }
    }
}

proof fn lemma_apart_subset(q: Seq<Seq<usize>>, b: int, less: Seq<usize>)
    requires
        apart(q),
        0 <= b < q.len(),
        forall|x: usize| less.contains(x) ==> #[trigger] q[b].contains(x),
    ensures
        apart(q.update(b, less)),
{
    let p = q.update(b, less);
    assert forall|c: int, d: int, i: int, j: int|
        0 <= c < p.len() && 0 <= d < p.len() && c != d && 0 <= i < p[c].len() && 0 <= j
            < p[d].len() implies #[trigger] p[c][i] != #[trigger] p[d][j] by {
        if c == b {
            assert(less.contains(less[i]));
            assert(q[b].contains(less[i]));
            let k = choose|k: int| 0 <= k < q[b].len() && q[b][k] == less[i];
            assert(q[b][k] != q[d][j]);
        } else if d == b {
            assert(less.contains(less[j]));
            assert(q[b].contains(less[j]));
            let k = choose|k: int| 0 <= k < q[b].len() && q[b][k] == less[j];
            assert(q[c][i] != q[b][k]);
        } else {
            assert(q[c][i] != q[d][j]);
        }
    }
}

proof fn lemma_apart_move(q: Seq<Seq<usize>>, a: int, b: int, miss: Seq<usize>, hit: Seq<usize>)
    requires
        apart(q),
        0 <= a < q.len(),
        0 <= b < q.len(),
        a != b,
        q[a].no_duplicates(),
        forall|x: usize| hit.contains(x) ==> #[trigger] q[a].contains(x),
        forall|x: usize| miss.contains(x) ==> #[trigger] q[a].contains(x),
        forall|i: int, j: int|
            0 <= i < hit.len() && 0 <= j < miss.len() ==> #[trigger] hit[i] != #[trigger] miss[j],
    ensures
        apart(q.update(a, miss).update(b, q[b] + hit)),
{
    let p = q.update(a, miss).update(b, q[b] + hit);
    lemma_apart_subset(q, a, miss);
    let r = q.update(a, miss);
    assert forall|c: int, d: int, i: int, j: int|
        0 <= c < p.len() && 0 <= d < p.len() && c != d && 0 <= i < p[c].len() && 0 <= j
            < p[d].len() implies #[trigger] p[c][i] != #[trigger] p[d][j] by {
        if c == b && i >= q[b].len() {
            lemma_moved_apart(q, a, b, miss, hit, d, j, i - q[b].len());
        } else if d == b && j >= q[b].len() {
            lemma_moved_apart(q, a, b, miss, hit, c, i, j - q[b].len());
        } else {
            assert(r[c][i] != r[d][j]);
        }
    }
}

proof fn lemma_moved_apart(
    q: Seq<Seq<usize>>,
    a: int,
    b: int,
    miss: Seq<usize>,
    hit: Seq<usize>,
    d: int,
    j: int,
    k: int,
)
    requires
        apart(q),
        0 <= a < q.len(),
        0 <= b < q.len(),
        0 <= d < q.len(),
        a != b,
        d != b,
        0 <= k < hit.len(),
        0 <= j < q.update(a, miss)[d].len(),
        forall|x: usize| hit.contains(x) ==> #[trigger] q[a].contains(x),
        forall|i: int, j: int|
            0 <= i < hit.len() && 0 <= j < miss.len() ==> #[trigger] hit[i] != #[trigger] miss[j],
    ensures
        hit[k] != q.update(a, miss)[d][j],
{
    if d == a {
        assert(hit[k] != miss[j]);
    } else {
        assert(hit.contains(hit[k]));
        assert(q[a].contains(hit[k]));
        let m = choose|m: int| 0 <= m < q[a].len() && q[a][m] == hit[k];
        assert(q[a][m] != q[d][j]);
    }
}

/// A mutex whose waiters sleep. Its state is 0 while it is free, 1 while it is
/// held, and 2 while it is held and some thread may wait for it.
pub struct KMutex {
    pub state: u32,
}

/// What taking a mutex does to its state, and whether the caller got it.
pub open spec fn mutex_locked(before: u32, after: u32, got: bool) -> bool {
    &&& got == (before == 0)
    &&& after == (if before == 0 {
        1u32
    } else {
        2
    })
}

/// What taking a mutex after a wait does to its state.
pub open spec fn mutex_retried(before: u32, after: u32, got: bool) -> bool {
    got == (before == 0) && after == 2
}

/// What taking a mutex without waiting does to its state.
pub open spec fn mutex_tried(before: u32, after: u32, got: bool) -> bool {
    &&& got == (before == 0)
    &&& after == (if before == 0 {
        1
    } else {
        before
    })
}

/// What giving a mutex back does to its state, and whether a waiter is to be woken.
pub open spec fn mutex_unlocked(before: u32, after: u32, wake: bool) -> bool {
    after == 0 && wake == (before == 2)
}

/// Given to the one that holds a mutex.
pub struct KMutexGuard(());

impl KMutex {
    pub fn new() -> (r: Self)
        ensures
            r.state == 0,
    {
        KMutex { state: 0 }
    }

    /// Take the mutex. Where it is held, the caller is to wait, by
    /// `futex_wait`, while the state is 2, and then to call `lock_again`.
    pub fn lock(&mut self) -> (r: Option<KMutexGuard>)
        ensures
            mutex_locked(old(self).state, final(self).state, r is Some),
    {
        if self.state == 0 {
            self.state = 1;
            return Some(KMutexGuard(()));
        }
        self.lock_again()
    }

    /// Take the mutex after a wait. Others may wait still, so that it is
    /// marked as awaited in any case.
    pub fn lock_again(&mut self) -> (r: Option<KMutexGuard>)
        ensures
            mutex_retried(old(self).state, final(self).state, r is Some),
    {
        let before: u32 = self.state;
        self.state = 2;
        if before == 0 {
            Some(KMutexGuard(()))
        } else {
            None
        }
    }

    /// Take the mutex, if it is free.
    pub fn try_lock(&mut self) -> (r: Option<KMutexGuard>)
        ensures
            mutex_tried(old(self).state, final(self).state, r is Some),
    {
        if self.state == 0 {
            self.state = 1;
            Some(KMutexGuard(()))
        } else {
            None
        }
    }

    /// Give the mutex back. True where a waiter is to be woken.
    pub fn unlock(&mut self, _guard: KMutexGuard) -> (wake: bool)
        requires
            old(self).state != 0,
        ensures
            mutex_unlocked(old(self).state, final(self).state, wake),
    {
        let before: u32 = self.state;
        self.state = 0;
        before == 2
    }

    pub fn state(&self) -> (r: u32)
        ensures
            r == self.state,
    {
        self.state
    }
}

impl Default for KMutex {
    fn default() -> (r: Self)
        ensures
            r.state == 0,
    {
        KMutex::new()
    }
}

/// Waking for a word ends only waits for that word.
pub proof fn wake_is_selective(
    s: &Sched,
    nodes: Seq<WaitNode>,
    queue: Seq<usize>,
    addr: usize,
    n: nat,
    this_cpu: u32,
    i: int,
)
    requires
        addr != 0,
        ids_below(queue, nodes.len()),
        0 <= i < nodes.len(),
        nodes[i].key != addr,
    ensures
        waking(s@, nodes, queue, addr, n, this_cpu).nodes[i] == nodes[i],
{
    super::waitqueue::lemma_waking_selects(s@, nodes, queue, addr, n, this_cpu, i);
}

} // verus!
