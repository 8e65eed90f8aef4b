//! Queues of threads that wait for something.

use vstd::prelude::*;
use super::percpu::{CpuView, Sched, SchedView};
use super::queue::{has_room, lemma_pushed_below, pushed};
use super::schedule::{kick_remote_cpus, kicked};
use super::thread::{Thread, ThreadState};

verus! {

/// One wait of one thread.
#[derive(Clone, Copy, Debug, PartialEq, Eq, Structural)]
pub struct WaitNode {
    pub thread: Option<usize>,
    pub woken: bool,
    /// What the thread waits for, where one queue serves several things.
    pub key: usize,
}

impl WaitNode {
    pub fn new(thread: Option<usize>) -> (r: Self)
        ensures
            r == (WaitNode { thread, woken: false, key: 0 }),
    {
        WaitNode { thread, woken: false, key: 0 }
    }
}

/// The waits on one thing, oldest first. A wait is named by its index among
/// all waits.
pub struct WaitQueue {
    nodes: Vec<usize>,
    len: u32,
}

/// What waking from a queue leads to.
pub struct Woken {
    pub sched: SchedView,
    pub nodes: Seq<WaitNode>,
    /// The waits that remain.
    pub queue: Seq<usize>,
    pub count: nat,
}

/// Thread `t` made runnable and queued on the first CPU, and whether that
/// could be done: its lock must be free and its queue must have room.
pub open spec fn made_runnable(v: SchedView, t: usize, this_cpu: u32) -> (SchedView, bool) {
    if v.locked[0] {
        (v, false)
    } else {
        let thread = v.threads[t as int];
        let w = v.with_thread(t, Thread { state: ThreadState::Runnable, ..thread });
        if has_room(v.cpus[0].queue, thread.priority as int) {
            (
                kicked(
                    w.with_queue(0, pushed(v.cpus[0].queue, t, thread.priority as int)),
                    this_cpu,
                ),
                true,
            )
        } else {
            (w, false)
        }
    }
}

/// Up to `n` of the waits in `queue` are ended, oldest first: those for `key`
/// (for anything where `key` is 0) whose thread can be made runnable.
pub open spec fn waking(
    v: SchedView,
    nodes: Seq<WaitNode>,
    queue: Seq<usize>,
    key: usize,
    n: nat,
    this_cpu: u32,
) -> Woken
    decreases queue.len(),
{
    if queue.len() == 0 || n == 0 {
        Woken { sched: v, nodes, queue, count: 0 }
    } else {
        let id = queue[0];
        let node = nodes[id as int];
        let rest = queue.drop_first();
        let (w, ok) = if node.thread is Some && (key == 0 || node.key == key) {
            made_runnable(v, node.thread->Some_0, this_cpu)
        } else {
            (v, false)
        };
        if ok {
            let r = waking(
                w,
                nodes.update(id as int, WaitNode { woken: true, ..node }),
                rest,
                key,
                (n - 1) as nat,
                this_cpu,
            );
            Woken { count: r.count + 1, ..r }
        } else {
            let r = waking(w, nodes, rest, key, n, this_cpu);
            Woken { queue: seq![id] + r.queue, ..r }
        }
    }
}

/// The first `n` waits for `key` in `queue`, and the others.
pub open spec fn parted(nodes: Seq<WaitNode>, queue: Seq<usize>, key: usize, n: nat) -> (
    Seq<usize>,
    Seq<usize>,
)
    decreases queue.len(),
{
    if queue.len() == 0 {
        (queue, queue)
    } else {
        let last = queue.last();
        let (hit, miss) = parted(nodes, queue.drop_last(), key, n);
        if nodes[last as int].key == key && hit.len() < n {
            (hit.push(last), miss)
        } else {
            (hit, miss.push(last))
        }
    }
}

/// The waits with those of `hit` started over for `key`.
pub open spec fn renewed(nodes: Seq<WaitNode>, hit: Seq<usize>, key: usize) -> Seq<WaitNode> {
    Seq::new(
        nodes.len(),
        |i: int|
            if hit.contains(i as usize) {
                WaitNode { key, woken: false, ..nodes[i] }
            } else {
                nodes[i]
            },
    )
}

/// The waits with those of `hit` waiting for `key`.
pub open spec fn rekeyed(nodes: Seq<WaitNode>, hit: Seq<usize>, key: usize) -> Seq<WaitNode> {
    Seq::new(
        nodes.len(),
        |i: int|
            if hit.contains(i as usize) {
                WaitNode { key, ..nodes[i] }
            } else {
                nodes[i]
            },
    )
}

proof fn lemma_renewed_push(nodes: Seq<WaitNode>, hit: Seq<usize>, key: usize, id: usize)
    requires
        id < nodes.len(),
        nodes.len() <= usize::MAX,
    ensures
        renewed(nodes, hit.push(id), key) == renewed(nodes, hit, key).update(
            id as int,
            WaitNode { key, woken: false, ..nodes[id as int] },
        ),
        rekeyed(nodes, hit.push(id), key) == rekeyed(nodes, hit, key).update(
            id as int,
            WaitNode { key, ..nodes[id as int] },
        ),
{
    assert forall|x: usize| #[trigger] hit.push(id).contains(x) == (hit.contains(x) || x == id) by {
        if hit.contains(x) {
            let k = choose|k: int| 0 <= k < hit.len() && hit[k] == x;
            assert(hit.push(id)[k] == x);
        }
        assert(hit.push(id)[hit.len() as int] == id);
        if hit.push(id).contains(x) && x != id {
            let k = choose|k: int| 0 <= k < hit.len() + 1 && hit.push(id)[k] == x;
            assert(hit[k] == x);
        }
    }
    let a = renewed(nodes, hit.push(id), key);
    let b = renewed(nodes, hit, key).update(
        id as int,
        WaitNode { key, woken: false, ..nodes[id as int] },
    );
    let c = rekeyed(nodes, hit.push(id), key);
    let d = rekeyed(nodes, hit, key).update(id as int, WaitNode { key, ..nodes[id as int] });
    assert forall|i: int| 0 <= i < nodes.len() implies #[trigger] a[i] == b[i] && #[trigger] c[i]
        == d[i] by {
        let x = i as usize;
        assert(x == i);
        assert(hit.push(id).contains(x) == (hit.contains(x) || x == id));
    }
    assert(a =~= b);
    assert(c =~= d);
}

/// Parting a queue loses no wait, invents none, and keeps both parts in order.
pub proof fn lemma_parted(nodes: Seq<WaitNode>, queue: Seq<usize>, key: usize, n: nat)
    ensures
        ({
            let (hit, miss) = parted(nodes, queue, key, n);
            &&& hit.len() + miss.len() == queue.len()
            &&& hit.len() <= n
            &&& forall|x: usize| hit.contains(x) ==> #[trigger] queue.contains(x)
            &&& forall|x: usize| miss.contains(x) ==> #[trigger] queue.contains(x)
            &&& forall|i: int|
                0 <= i < hit.len() ==> nodes[#[trigger] hit[i] as int].key == key
            &&& queue.no_duplicates() ==> hit.no_duplicates() && miss.no_duplicates()
            &&& queue.no_duplicates() ==> forall|i: int, j: int|
                0 <= i < hit.len() && 0 <= j < miss.len() ==> #[trigger] hit[i]
                    != #[trigger] miss[j]
        }),
    decreases queue.len(),
{
    if queue.len() > 0 {
        let front = queue.drop_last();
        let last = queue.last();
        lemma_parted(nodes, front, key, n);
        let (hit0, miss0) = parted(nodes, front, key, n);
        let (hit, miss) = parted(nodes, queue, key, n);
        assert(queue =~= front.push(last));
        assert forall|x: usize| front.contains(x) implies #[trigger] queue.contains(x) by {
            let k = choose|k: int| 0 <= k < front.len() && front[k] == x;
            assert(queue[k] == x);
        }
        assert(queue[queue.len() - 1] == last);
        assert forall|x: usize| hit.contains(x) implies #[trigger] queue.contains(x) by {
            let k = choose|k: int| 0 <= k < hit.len() && hit[k] == x;
            if k < hit0.len() {
                assert(hit0[k] == x);
                assert(hit0.contains(x));
                assert(front.contains(x));
            }
        }
        assert forall|x: usize| miss.contains(x) implies #[trigger] queue.contains(x) by {
            let k = choose|k: int| 0 <= k < miss.len() && miss[k] == x;
            if k < miss0.len() {
                assert(miss0[k] == x);
                assert(miss0.contains(x));
                assert(front.contains(x));
            }
        }
        if queue.no_duplicates() {
            assert forall|i: int, j: int| 0 <= i < j < front.len() implies front[i] != front[j] by {
                assert(queue[i] != queue[j]);
            }
            assert(!front.contains(last)) by {
                if front.contains(last) {
                    let k = choose|k: int| 0 <= k < front.len() && front[k] == last;
                    assert(queue[k] != queue[queue.len() - 1]);
                }
            }
            assert(!hit0.contains(last) && !miss0.contains(last));
            assert forall|i: int, j: int| 0 <= i < j < hit.len() implies hit[i] != hit[j] by {
                if j == hit0.len() {
                    assert(hit0.contains(hit0[i]));
                }
            }
            assert forall|i: int, j: int| 0 <= i < j < miss.len() implies miss[i] != miss[j] by {
                if j == miss0.len() {
                    assert(miss0.contains(miss0[i]));
                }
            }
            assert forall|i: int, j: int| 0 <= i < hit.len() && 0 <= j < miss.len() implies
                #[trigger] hit[i] != #[trigger] miss[j] by {
                if i == hit0.len() {
                    assert(miss0.contains(miss0[j]));
                } else if j == miss0.len() {
                    assert(hit0.contains(hit0[i]));
                } else {
                    assert(hit0[i] != miss0[j]);
                }
            }
        }
    }
}

/// Every wait listed is one of the first `n`.
pub open spec fn ids_below(queue: Seq<usize>, n: nat) -> bool {
    forall|i: int| 0 <= i < queue.len() ==> #[trigger] queue[i] < n
}

/// Waking changes neither what the CPUs run nor who holds their locks, and no
/// thread but the woken ones.
pub proof fn lemma_waking_keeps_cpus(
    v: SchedView,
    nodes: Seq<WaitNode>,
    queue: Seq<usize>,
    key: usize,
    n: nat,
    this_cpu: u32,
)
    requires
        v.cpus.len() == 64,
        ids_below(queue, nodes.len()),
        nodes_wf(nodes, v.threads.len()),
    ensures
        ({
            let w = waking(v, nodes, queue, key, n, this_cpu).sched;
            &&& w.cpus.len() == 64
            &&& w.locked == v.locked
            &&& w.count == v.count
            &&& w.threads.len() == v.threads.len()
            &&& w.switch_hook == v.switch_hook
            &&& forall|i: int|
                0 <= i < 64 ==> (#[trigger] w.cpus[i]).current == v.cpus[i].current
                    && w.cpus[i].idle == v.cpus[i].idle
            &&& forall|i: int| 1 <= i < 64 ==> #[trigger] w.cpus[i] == v.cpus[i]
        }),
    decreases queue.len(),
{
    if queue.len() > 0 && n > 0 {
        let id = queue[0];
        assert(id < nodes.len());
        let node = nodes[id as int];
        let (w, ok) = if node.thread is Some && (key == 0 || node.key == key) {
            made_runnable(v, node.thread->Some_0, this_cpu)
        } else {
            (v, false)
        };
        if ok {
            lemma_waking_keeps_cpus(
                w,
                nodes.update(id as int, WaitNode { woken: true, ..node }),
                queue.drop_first(),
                key,
                (n - 1) as nat,
                this_cpu,
            );
        } else {
            lemma_waking_keeps_cpus(w, nodes, queue.drop_first(), key, n, this_cpu);
        }
    }
}

/// The waits that remain are some of those there were.
pub proof fn lemma_waking_keeps_waits(
    v: SchedView,
    nodes: Seq<WaitNode>,
    queue: Seq<usize>,
    key: usize,
    n: nat,
    this_cpu: u32,
)
    requires
        ids_below(queue, nodes.len()),
    ensures
        ({
            let w = waking(v, nodes, queue, key, n, this_cpu);
            &&& w.nodes.len() == nodes.len()
            &&& w.count + w.queue.len() == queue.len()
            &&& w.count <= n
            &&& forall|x: usize| w.queue.contains(x) ==> #[trigger] queue.contains(x)
        }),
    decreases queue.len(),
{
    if queue.len() > 0 && n > 0 {
        let id = queue[0];
        assert(id < nodes.len());
        let node = nodes[id as int];
        let rest = queue.drop_first();
        let (w, ok) = if node.thread is Some && (key == 0 || node.key == key) {
            made_runnable(v, node.thread->Some_0, this_cpu)
        } else {
            (v, false)
        };
        let r = if ok {
            waking(
                w,
                nodes.update(id as int, WaitNode { woken: true, ..node }),
                rest,
                key,
                (n - 1) as nat,
                this_cpu,
            )
        } else {
            waking(w, nodes, rest, key, n, this_cpu)
        };
        if ok {
            lemma_waking_keeps_waits(
                w,
                nodes.update(id as int, WaitNode { woken: true, ..node }),
                rest,
                key,
                (n - 1) as nat,
                this_cpu,
            );
        } else {
            lemma_waking_keeps_waits(w, nodes, rest, key, n, this_cpu);
        }
        assert forall|x: usize| rest.contains(x) implies #[trigger] queue.contains(x) by {
            let k = choose|k: int| 0 <= k < rest.len() && rest[k] == x;
            assert(queue[k + 1] == x);
        }
        let all = waking(v, nodes, queue, key, n, this_cpu).queue;
        assert forall|x: usize| all.contains(x) implies #[trigger] queue.contains(x) by {
            let k = choose|k: int| 0 <= k < all.len() && all[k] == x;
            if !ok {
                if k == 0 {
                    assert(queue[0] == x);
                } else {
                    assert(r.queue[k - 1] == x);
                    assert(r.queue.contains(x));
                    assert(rest.contains(x));
                }
            } else {
                assert(r.queue.contains(x));
                assert(rest.contains(x));
            }
        }
    }
}

/// Every thread that a wait names exists.
pub open spec fn nodes_wf(nodes: Seq<WaitNode>, threads: nat) -> bool {
    forall|i: int|
        0 <= i < nodes.len() ==> ((#[trigger] nodes[i]).thread matches Some(t) ==> t < threads)
}

/// Make a thread runnable and queue it on the first CPU. False where that
/// cannot be done.
pub fn try_make_runnable(s: &mut Sched, thread: Option<usize>, this_cpu: u32) -> (r: bool)
    requires
        old(s).wf(),
        thread matches Some(t) ==> t < old(s).threads@.len(),
    ensures
        final(s).wf(),
        final(s).threads@.len() == old(s).threads@.len(),
        match thread {
            None => !r && *final(s) == *old(s),
            Some(t) => (final(s)@, r) == made_runnable(old(s)@, t, this_cpu),
        },
{
    let t: usize = match thread {
        Some(t) => t,
        None => return false,
    };
    let ghost before = *s;
    let mut queued = try_push_to_cpu(s, t, 0);
    if !queued {
        let ghost mid = s@;
        queued = try_push_to_cpu(s, t, 0);
        assert(s@ =~= mid) by {
            if !before@.locked[0] {
                assert(s@.threads =~= mid.threads);
            }
        }
    }
    if queued && this_cpu != 0 {
        let ghost mid = s@;
        kick_remote_cpus(s);
        assert(s@ =~= kicked(mid, this_cpu));
    }
    proof {
        assert(queued && this_cpu == 0 ==> s@ =~= kicked(s@, this_cpu));
    }
    queued
}

/// Queue a waiting thread on a CPU, if its lock is free and there is room.
fn try_push_to_cpu(s: &mut Sched, t: usize, cpu: usize) -> (r: bool)
    requires
        old(s).wf(),
        t < old(s).threads@.len(),
        cpu < 64,
    ensures
        final(s).wf(),
        final(s).threads@.len() == old(s).threads@.len(),
        ({
            let v = old(s)@;
            let thread = v.threads[t as int];
            let queue = v.cpus[cpu as int].queue;
            let level = thread.priority as int;
            &&& r == (!v.locked[cpu as int] && has_room(queue, level))
            &&& final(s)@ == (if v.locked[cpu as int] {
                v
            } else {
                v.with_thread(t, Thread { state: ThreadState::Runnable, ..thread }).with_queue(
                    cpu as int,
                    pushed(queue, t, level),
                )
            })
        }),
{
    if s.cpus[cpu].locked {
        return false;
    }
    let ghost before = *s;
    let mut thread: Thread = s.threads[t];
    assert(s.threads@[t as int].priority < 8);
    thread.state = ThreadState::Runnable;
    s.threads.set(t, thread);
    assert(s.cpus@[cpu as int].value.wf(s.threads@.len()));
    proof {
        s.cpus@[cpu as int].value.run_queue.lemma_shape();
        lemma_pushed_below(
            s.cpus@[cpu as int].value.run_queue@,
            t,
            thread.priority as int,
            s.threads@.len(),
        );
    }
    let r = s.cpus[cpu].value.run_queue.push(t, thread.priority as usize);
    proof {
        let q = pushed(before@.cpus[cpu as int].queue, t, thread.priority as int);
        let cpu_after = CpuView { queue: q, ..before@.cpus[cpu as int] };
        assert(s.cpus@[cpu as int].value@ =~= cpu_after);
        assert(s@.cpus =~= before@.cpus.update(cpu as int, cpu_after));
        assert(s@.locked =~= before@.locked);
        assert(s@ =~= before@.with_thread(t, thread).with_queue(cpu as int, q));
        assert forall|k: int| 0 <= k < 64 implies (#[trigger] s.cpus@[k]).value.wf(
            s.threads@.len(),
        ) by {
            assert(before.cpus@[k].value.wf(s.threads@.len()));
        }
    }
    r
}

impl WaitQueue {
    /// The waits, oldest first.
    pub closed spec fn view(&self) -> Seq<usize> {
        self.nodes@
    }

    /// Each wait is listed once and is one of the first `n`.
    pub closed spec fn wf(&self, n: nat) -> bool {
        &&& self.len == self.nodes@.len()
        &&& self.nodes@.no_duplicates()
        &&& ids_below(self.nodes@, n)
    }

    pub proof fn lemma_wf(&self, n: nat)
        requires
            self.wf(n),
        ensures
            self@.len() <= u32::MAX,
            self@.no_duplicates(),
            ids_below(self@, n),
            forall|m: nat| n <= m ==> #[trigger] self.wf(m),
    {
    }

    pub fn new() -> (r: Self)
        ensures
            r.wf(0),
            r@ == Seq::<usize>::empty(),
    {
        WaitQueue { nodes: Vec::new(), len: 0 }
    }

    /// Add a wait at the end.
    pub fn enqueue(&mut self, nodes: &mut Vec<WaitNode>, id: usize)
        requires
            old(self).wf(old(nodes)@.len()),
            id < old(nodes)@.len(),
            !old(self)@.contains(id),
            old(self)@.len() < u32::MAX,
        ensures
            final(self).wf(final(nodes)@.len()),
            final(self)@ == old(self)@.push(id),
            final(nodes)@ == old(nodes)@.update(
                id as int,
                WaitNode { woken: false, ..old(nodes)@[id as int] },
            ),
    {
        let mut node: WaitNode = nodes[id];
        node.woken = false;
        nodes.set(id, node);
        self.nodes.push(id);
        self.len = self.len.saturating_add(1);
    }

    /// Remove a wait, if it is there.
    pub fn dequeue(&mut self, id: usize)
        ensures
            forall|n: nat| old(self).wf(n) ==> #[trigger] final(self).wf(n),
            final(self)@ == old(self)@.remove_value(id),
    {
        let mut i: usize = 0;
        while i < self.nodes.len()
            invariant
                i <= self.nodes@.len(),
                *self == *old(self),
                forall|k: int| 0 <= k < i ==> #[trigger] self.nodes@[k] != id,
            decreases self.nodes@.len() - i,
        {
            if self.nodes[i] == id {
                proof {
                    assert(self.nodes@.contains(id)) by {
                        assert(self.nodes@[i as int] == id);
                    }
                    lemma_index_of_first(self.nodes@, id, i as int);
                }
                let ghost before = self.nodes@;
                let _ = self.nodes.remove(i);
                self.len = self.len.saturating_sub(1);
                assert(self.nodes@ =~= before.remove(i as int));
                return ;
            }
            i += 1;
        }
        assert(!self.nodes@.contains(id));
        proof {
            self.nodes@.index_of_first_ensures(id);
        }
    }

    /// End up to `n` waits.
    pub fn wake_n(
        &mut self,
        s: &mut Sched,
        nodes: &mut Vec<WaitNode>,
        n: u32,
        this_cpu: u32,
    ) -> (r: u32)
        requires
            old(s).wf(),
            old(self).wf(old(nodes)@.len()),
            nodes_wf(old(nodes)@, old(s).threads@.len()),
        ensures
            final(s).wf(),
            final(self).wf(final(nodes)@.len()),
            nodes_wf(final(nodes)@, final(s).threads@.len()),
            final(nodes)@.len() == old(nodes)@.len(),
            final(s).threads@.len() == old(s).threads@.len(),
            ({
                let w = waking(old(s)@, old(nodes)@, old(self)@, 0, n as nat, this_cpu);
                final(s)@ == w.sched && final(nodes)@ == w.nodes && final(self)@ == w.queue && r
                    == w.count
            }),
    {
        self.wake_n_matching(s, nodes, 0, n, this_cpu)
    }

    /// End up to `n` waits for `key`, for anything where `key` is 0.
    pub fn wake_n_matching(
        &mut self,
        s: &mut Sched,
        nodes: &mut Vec<WaitNode>,
        key: usize,
        n: u32,
        this_cpu: u32,
    ) -> (r: u32)
        requires
            old(s).wf(),
            old(self).wf(old(nodes)@.len()),
            nodes_wf(old(nodes)@, old(s).threads@.len()),
        ensures
            final(s).wf(),
            final(self).wf(final(nodes)@.len()),
            nodes_wf(final(nodes)@, final(s).threads@.len()),
            final(nodes)@.len() == old(nodes)@.len(),
            final(s).threads@.len() == old(s).threads@.len(),
            ({
                let w = waking(old(s)@, old(nodes)@, old(self)@, key, n as nat, this_cpu);
                final(s)@ == w.sched && final(nodes)@ == w.nodes && final(self)@ == w.queue && r
                    == w.count
            }),
            r <= old(self)@.len(),
            r <= n,
            final(self)@.len() == old(self)@.len() - r,
    {
        let mut woken: u32 = 0;
        let mut i: usize = 0;
        let ghost goal = waking(s@, nodes@, self@, key, n as nat, this_cpu);
        assert(self@.take(0) =~= Seq::<usize>::empty());
        assert(self@.skip(0) =~= self@);
        while i < self.nodes.len() && woken < n
            invariant
                i <= self.nodes@.len(),
                woken <= n,
                woken + self.nodes@.len() == old(self)@.len(),
                old(self)@.len() <= u32::MAX,
                s.wf(),
                self.wf(nodes@.len()),
                nodes_wf(nodes@, s.threads@.len()),
                nodes@.len() == old(nodes)@.len(),
                s.threads@.len() == old(s).threads@.len(),
                ({
                    let w = waking(
                        s@,
                        nodes@,
                        self@.skip(i as int),
                        key,
                        (n - woken) as nat,
                        this_cpu,
                    );
                    &&& goal.sched == w.sched
                    &&& goal.nodes == w.nodes
                    &&& goal.queue == self@.take(i as int) + w.queue
                    &&& goal.count == woken + w.count
                }),
                goal == waking(old(s)@, old(nodes)@, old(self)@, key, n as nat, this_cpu),
            decreases self.nodes@.len() - i,
        {
            let ghost q = self@;
            let ghost rest = q.skip(i as int);
            let id: usize = self.nodes[i];
            let node: WaitNode = nodes[id];
            proof {
                assert(rest[0] == id);
                assert(rest.drop_first() =~= q.skip(i + 1));
            }
            if key == 0 || node.key == key {
                if try_make_runnable(s, node.thread, this_cpu) {
                    nodes.set(id, WaitNode { woken: true, ..node });
                    let _ = self.nodes.remove(i);
                    self.len = self.len.saturating_sub(1);
                    woken += 1;
                    proof {
                        assert(self@ =~= q.remove(i as int));
                        assert(self@.take(i as int) =~= q.take(i as int));
                        assert(self@.skip(i as int) =~= q.skip(i + 1));
                    }
                    continue ;
                }
            }
            proof {
                assert(q.take(i + 1) =~= q.take(i as int) + seq![id]);
                let w = waking(s@, nodes@, q.skip(i + 1), key, (n - woken) as nat, this_cpu);
                assert(q.take(i as int) + (seq![id] + w.queue) =~= q.take(i + 1) + w.queue);
            }
            i += 1;
        }
        proof {
            let w = waking(s@, nodes@, self@.skip(i as int), key, (n - woken) as nat, this_cpu);
            assert(self@.take(i as int) + self@.skip(i as int) =~= self@);
        }
        woken
    }

    /// Move up to `n` waits for `key`, oldest first, to another queue, where
    /// they wait for `new_key`.
    pub fn requeue_matching(
        &mut self,
        dst: &mut WaitQueue,
        nodes: &mut Vec<WaitNode>,
        key: usize,
        new_key: usize,
        n: u32,
    ) -> (r: u32)
        requires
            old(self).wf(old(nodes)@.len()),
            old(dst).wf(old(nodes)@.len()),
            forall|i: int, j: int|
                0 <= i < old(self)@.len() && 0 <= j < old(dst)@.len() ==> #[trigger] old(self)@[i]
                    != #[trigger] old(dst)@[j],
            old(self)@.len() + old(dst)@.len() <= u32::MAX,
        ensures
            final(self).wf(final(nodes)@.len()),
            final(dst).wf(final(nodes)@.len()),
            ({
                let (hit, miss) = parted(old(nodes)@, old(self)@, key, n as nat);
                &&& final(self)@ == miss
                &&& final(dst)@ == old(dst)@ + hit
                &&& final(nodes)@ == renewed(old(nodes)@, hit, new_key)
                &&& r == hit.len()
                &&& r + miss.len() == old(self)@.len()
            }),
    {
        let ghost q = self@;
        let ghost d = dst@;
        let ghost nodes0 = nodes@;
        let mut moved: u32 = 0;
        let mut i: usize = 0;
        let mut kept: Vec<usize> = Vec::new();
        proof {
            assert(q.take(0) =~= Seq::<usize>::empty());
            assert(nodes@ =~= renewed(nodes0, Seq::empty(), new_key));
            assert(dst@ =~= d + Seq::<usize>::empty());
            assert(q.len() == self.nodes.len());
        }
        while i < self.nodes.len()
            invariant
                i <= q.len(),
                q == self.nodes@,
                q == old(self)@,
                d == old(dst)@,
                nodes0 == old(nodes)@,
                q.len() + d.len() <= u32::MAX,
                *self == *old(self),
                self.wf(nodes0.len()),
                dst.wf(nodes0.len()),
                nodes@.len() == nodes0.len(),
                forall|a: int, b: int|
                    0 <= a < q.len() && 0 <= b < d.len() ==> #[trigger] q[a] != #[trigger] d[b],
                kept@ == parted(nodes0, q.take(i as int), key, n as nat).1,
                dst@ == d + parted(nodes0, q.take(i as int), key, n as nat).0,
                nodes@ == renewed(
                    nodes0,
                    parted(nodes0, q.take(i as int), key, n as nat).0,
                    new_key,
                ),
                moved == parted(nodes0, q.take(i as int), key, n as nat).0.len(),
                moved <= i,
                moved <= n,
            decreases q.len() - i,
        {
            let id: usize = self.nodes[i];
            let ghost (hit, miss) = parted(nodes0, q.take(i as int), key, n as nat);
            proof {
                assert(q.take(i + 1).drop_last() =~= q.take(i as int));
                assert(q.take(i + 1).last() == id);
                lemma_parted(nodes0, q.take(i as int), key, n as nat);
                assert(!q.take(i as int).contains(id)) by {
                    if q.take(i as int).contains(id) {
                        let a = choose|a: int| 0 <= a < i && #[trigger] q.take(i as int)[a] == id;
                        assert(q[a] == q[i as int]);
                    }
                }
                assert(!hit.contains(id));
                assert(nodes@[id as int] == nodes0[id as int]);
            }
            if moved < n && nodes[id].key == key {
                let node: WaitNode = nodes[id];
                proof {
                    assert(!dst@.contains(id)) by {
                        if dst@.contains(id) {
                            let b = choose|b: int| 0 <= b < dst@.len() && #[trigger] dst@[b] == id;
                            if b < d.len() {
                                assert(q[i as int] != d[b]);
                            } else {
                                assert(hit[b - d.len()] == id);
                            }
                        }
                    }
                }
                nodes.set(id, WaitNode { key: new_key, ..node });
                let ghost mid = nodes@;
                dst.enqueue(nodes, id);
                moved += 1;
                proof {
                    assert(dst@ =~= d + hit.push(id));
                    assert(nodes@.len() == nodes.len());
                    lemma_renewed_push(nodes0, hit, new_key, id);
                    assert(nodes@ =~= renewed(nodes0, hit.push(id), new_key));
                }
            } else {
                kept.push(id);
            }
            i += 1;
        }
        proof {
            assert(q.take(q.len() as int) =~= q);
            lemma_parted(nodes0, q, key, n as nat);
            assert forall|k: int| 0 <= k < kept@.len() implies #[trigger] kept@[k] < nodes0.len() by {
                assert(kept@.contains(kept@[k]));
                assert(q.contains(kept@[k]));
            }
        }
        self.nodes = kept;
        self.len = self.len.saturating_sub(moved);
        moved
    }

    /// Let up to `n` waits for `key`, oldest first, wait for `new_key`.
    pub fn rekey_matching(
        &mut self,
        nodes: &mut Vec<WaitNode>,
        key: usize,
        new_key: usize,
        n: u32,
    ) -> (r: u32)
        requires
            old(self).wf(old(nodes)@.len()),
        ensures
            *final(self) == *old(self),
            ({
                let hit = parted(old(nodes)@, old(self)@, key, n as nat).0;
                &&& final(nodes)@ == rekeyed(old(nodes)@, hit, new_key)
                &&& r == hit.len()
                &&& r <= old(self)@.len()
            }),
    {
        let ghost q = self@;
        let ghost nodes0 = nodes@;
        let mut moved: u32 = 0;
        let mut i: usize = 0;
        proof {
            assert(q.take(0) =~= Seq::<usize>::empty());
            assert(nodes@ =~= rekeyed(nodes0, Seq::empty(), new_key));
            assert(q.len() == self.nodes.len());
        }
        while i < self.nodes.len()
            invariant
                i <= q.len(),
                q == self.nodes@,
                q == old(self)@,
                nodes0 == old(nodes)@,
                q.len() <= u32::MAX,
                *self == *old(self),
                self.wf(nodes0.len()),
                nodes@.len() == nodes0.len(),
                nodes@ == rekeyed(
                    nodes0,
                    parted(nodes0, q.take(i as int), key, n as nat).0,
                    new_key,
                ),
                moved == parted(nodes0, q.take(i as int), key, n as nat).0.len(),
                moved <= i,
                moved <= n,
            decreases q.len() - i,
        {
            let id: usize = self.nodes[i];
            let ghost (hit, miss) = parted(nodes0, q.take(i as int), key, n as nat);
            proof {
                assert(q.take(i + 1).drop_last() =~= q.take(i as int));
                assert(q.take(i + 1).last() == id);
                lemma_parted(nodes0, q.take(i as int), key, n as nat);
                assert(!q.take(i as int).contains(id)) by {
                    if q.take(i as int).contains(id) {
                        let a = choose|a: int| 0 <= a < i && #[trigger] q.take(i as int)[a] == id;
                        assert(q[a] == q[i as int]);
                    }
                }
                assert(!hit.contains(id));
                assert(nodes@[id as int] == nodes0[id as int]);
            }
            if moved < n && nodes[id].key == key {
                let node: WaitNode = nodes[id];
                nodes.set(id, WaitNode { key: new_key, ..node });
                moved += 1;
                proof {
                    assert(nodes@.len() == nodes.len());
                    lemma_renewed_push(nodes0, hit, new_key, id);
                    assert(nodes@ =~= rekeyed(nodes0, hit.push(id), new_key));
                }
            }
            i += 1;
        }
        assert(q.take(q.len() as int) =~= q);
        moved
    }

    /// End every wait.
    pub fn wake_all(&mut self, s: &mut Sched, nodes: &mut Vec<WaitNode>, this_cpu: u32) -> (r: u32)
        requires
            old(s).wf(),
            old(self).wf(old(nodes)@.len()),
            nodes_wf(old(nodes)@, old(s).threads@.len()),
        ensures
            final(s).wf(),
            final(self).wf(final(nodes)@.len()),
            nodes_wf(final(nodes)@, final(s).threads@.len()),
            final(nodes)@.len() == old(nodes)@.len(),
            final(s).threads@.len() == old(s).threads@.len(),
            ({
                let w = waking(old(s)@, old(nodes)@, old(self)@, 0, u32::MAX as nat, this_cpu);
                final(s)@ == w.sched && final(nodes)@ == w.nodes && final(self)@ == w.queue && r
                    == w.count
            }),
    {
        self.wake_n(s, nodes, u32::MAX, this_cpu)
    }

    pub fn is_empty(&self) -> (r: bool)
        requires
            exists|n: nat| self.wf(n),
        ensures
            r == (self@.len() == 0),
    {
        self.len() == 0
    }

    pub fn len(&self) -> (r: u32)
        requires
            exists|n: nat| self.wf(n),
        ensures
            r == self@.len(),
    {
        self.len
    }
}

proof fn lemma_index_of_first(s: Seq<usize>, x: usize, i: int)
    requires
        0 <= i < s.len(),
        s[i] == x,
        forall|k: int| 0 <= k < i ==> s[k] != x,
    ensures
        s.remove_value(x) == s.remove(i),
{
    s.index_of_first_ensures(x);
    let j = s.index_of_first(x)->Some_0;
    assert(s.contains(x));
    assert(j == i);
}

impl Default for WaitQueue {
    fn default() -> (r: Self)
        ensures
            r.wf(0),
            r@ == Seq::<usize>::empty(),
    {
        WaitQueue::new()
    }
}

pub proof fn lemma_waking_selects(
    v: SchedView,
    nodes: Seq<WaitNode>,
    queue: Seq<usize>,
    key: usize,
    n: nat,
    this_cpu: u32,
    i: int,
)
    requires
        key != 0,
        ids_below(queue, nodes.len()),
        0 <= i < nodes.len(),
        nodes[i].key != key,
    ensures
        waking(v, nodes, queue, key, n, this_cpu).nodes[i] == nodes[i],
    decreases queue.len(),
{
    if queue.len() > 0 && n > 0 {
        let id = queue[0];
        assert(id < nodes.len());
        let node = nodes[id as int];
        let (w, ok) = if node.thread is Some && (key == 0 || node.key == key) {
            made_runnable(v, node.thread->Some_0, this_cpu)
        } else {
            (v, false)
        };
        if ok {
            lemma_waking_selects(
                w,
                nodes.update(id as int, WaitNode { woken: true, ..node }),
                queue.drop_first(),
                key,
                (n - 1) as nat,
                this_cpu,
                i,
            );
        } else {
            lemma_waking_selects(w, nodes, queue.drop_first(), key, n, this_cpu, i);
        }
    }
}

/// The thread that has waited longest is woken first: where it waits for
/// `key` and can be queued, one wake ends its wait and no other.
pub proof fn oldest_wait_ends_first(
    v: SchedView,
    nodes: Seq<WaitNode>,
    queue: Seq<usize>,
    key: usize,
    this_cpu: u32,
)
    requires
        queue.len() > 0,
        queue[0] < nodes.len(),
        key == 0 || nodes[queue[0] as int].key == key,
        nodes[queue[0] as int].thread matches Some(t) && made_runnable(v, t, this_cpu).1,
    ensures
        ({
            let w = waking(v, nodes, queue, key, 1, this_cpu);
            &&& w.count == 1
            &&& w.queue == queue.drop_first()
            &&& w.nodes == nodes.update(
                queue[0] as int,
                WaitNode { woken: true, ..nodes[queue[0] as int] },
            )
            &&& w.sched == made_runnable(v, nodes[queue[0] as int].thread->Some_0, this_cpu).0
        }),
{
    reveal_with_fuel(waking, 2);
}

} // verus!
