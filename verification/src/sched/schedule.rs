//! Choosing the thread that a CPU runs next.

use vstd::prelude::*;
use super::percpu::{cpu_slot, init_sched_cpu, set_idle_thread, thread_wf, CpuView, Sched, SchedView, MAX_CPUS};
use super::queue::{boost_threads, boosted_upto, first_level, has_room, lemma_first_level, lemma_boosted_below, lemma_popped_below, lemma_pushed_below, next_of, popped, pushed, threads_below, BOOST_INTERVAL, MLFQ_LEVELS};
use super::steal::{all_unlocked, least_loaded_below, least_loaded_cpu, steal_from, try_steal};
use super::thread::{charge_tick, kstack_end, kstack_fits, slice_ends, ticked, Context, Thread, ThreadId, ThreadState};

verus! {

/// What the CPU does once the scheduler has decided.
#[derive(Clone, Copy, Debug, PartialEq, Eq, Structural)]
pub enum Switch {
    /// Go on with what it runs.
    Stay,
    /// Save the registers of `from`, if there is one, run the switch hook if
    /// `hook`, and resume `to` on its own stack.
    To { from: Option<usize>, to: usize, hook: bool },
}

/// The state with one more tick on CPU `me`. Every thousandth tick boosts.
pub open spec fn tick(v: SchedView, me: int) -> SchedView {
    let cpu = CpuView { ticks: v.cpus[me].ticks.wrapping_add(1), ..v.cpus[me] };
    if cpu.ticks % 1000 == 0 {
        SchedView {
            threads: boost_threads(cpu.queue, 8, v.threads),
            ..v.with_cpu(me, CpuView { queue: boosted_upto(cpu.queue, 8), ..cpu })
        }
    } else {
        v.with_cpu(me, cpu)
    }
}

/// The running thread of CPU `me` is charged, and queued if it can go on later.
/// Not so where its timeslice is not over yet: then the second is false.
pub open spec fn charged(v: SchedView, me: int) -> (SchedView, bool) {
    let cpu = v.cpus[me];
    match cpu.current {
        Some(t) if cpu.current != cpu.idle => {
            let thread = v.threads[t as int];
            match thread.state {
                ThreadState::Running => if slice_ends(thread) {
                    let after = Thread { state: ThreadState::Runnable, ..ticked(thread) };
                    (
                        v.with_thread(t, after).with_queue(
                            me,
                            pushed(cpu.queue, t, after.priority as int),
                        ),
                        true,
                    )
                } else {
                    (v.with_thread(t, ticked(thread)), false)
                },
                ThreadState::Runnable => (
                    v.with_queue(me, pushed(cpu.queue, t, thread.priority as int)),
                    true,
                ),
                ThreadState::Blocked | ThreadState::Dead => (
                    v.with_thread(t, Thread { ticks_used: 0, ..thread }),
                    true,
                ),
            }
        },
        _ => (v, true),
    }
}

/// The thread to run next: the first of the CPU's own queue, else a stolen
/// one, else the idle thread.
pub open spec fn picked(v: SchedView, cpu_id: u32) -> (SchedView, Option<usize>) {
    let me = cpu_slot(cpu_id);
    let queue = v.cpus[me].queue;
    match next_of(queue) {
        Some(t) => (v.with_queue(me, popped(queue)), Some(t)),
        None => {
            let (w, t) = steal_from(v, cpu_id, 0, 0);
            match t {
                Some(t) => (w, Some(t)),
                None => (w, w.cpus[me].idle),
            }
        },
    }
}

/// The CPU turns to `next`.
pub open spec fn dispatched(v: SchedView, cpu_id: u32, next: Option<usize>) -> (SchedView, Switch) {
    let me = cpu_slot(cpu_id);
    let cur = v.cpus[me].current;
    match next {
        None => (v, Switch::Stay),
        Some(t) => if next == cur {
            (
                v.with_thread(
                    t,
                    Thread { state: ThreadState::Running, ..v.threads[t as int] },
                ),
                Switch::Stay,
            )
        } else {
            (
                v.with_cpu(me, CpuView { current: next, ..v.cpus[me] }).with_thread(
                    t,
                    Thread { state: ThreadState::Running, cpu_id, ..v.threads[t as int] },
                ),
                Switch::To { from: cur, to: t, hook: v.switch_hook },
            )
        },
    }
}

/// What `schedule` does.
pub open spec fn scheduled(v: SchedView, cpu_id: u32) -> (SchedView, Switch) {
    let (w, ends) = charged(tick(v, cpu_slot(cpu_id)), cpu_slot(cpu_id));
    if ends {
        let (x, next) = picked(w, cpu_id);
        dispatched(x, cpu_id, next)
    } else {
        (w, Switch::Stay)
    }
}

/// What `thread_yield` does: the running thread goes to the end of its level.
pub open spec fn yielded(v: SchedView, cpu_id: u32) -> (SchedView, Switch) {
    let me = cpu_slot(cpu_id);
    let cpu = v.cpus[me];
    match cpu.current {
        Some(t) if cpu.current != cpu.idle => {
            let thread = Thread {
                state: ThreadState::Runnable,
                ticks_used: 0,
                ..v.threads[t as int]
            };
            let (x, next) = picked(
                v.with_thread(t, thread).with_queue(
                    me,
                    pushed(cpu.queue, t, thread.priority as int),
                ),
                cpu_id,
            );
            dispatched(x, cpu_id, next)
        },
        _ => scheduled(v, cpu_id),
    }
}

/// The CPU has an idle thread to fall back on, or runs nothing yet.
pub open spec fn can_schedule(s: &Sched, cpu_id: u32) -> bool {
    let cpu = s.cpus@[cpu_slot(cpu_id)].value;
    cpu.idle_thread is Some || cpu.current is None
}

impl Sched {
    /// Replace the state of one CPU's run queue, leaving the rest.
    proof fn lemma_cpu_changed(before: &Sched, after: &Sched, i: int, cpu: CpuView)
        requires
            before.wf(),
            0 <= i < 64,
            after.cpus@.len() == 64,
            after.cpu_count == before.cpu_count,
            after.threads@.len() == before.threads@.len(),
            forall|t: int|
                0 <= t < after.threads@.len() ==> thread_wf(#[trigger] after.threads@[t]),
            forall|k: int| 0 <= k < 64 && k != i ==> #[trigger] after.cpus@[k] == before.cpus@[k],
            after.cpus@[i].locked == before.cpus@[i].locked,
            after.cpus@[i].value@ == cpu,
            after.cpus@[i].value.wf(after.threads@.len()),
        ensures
            after.wf(),
            after@.cpus == before@.cpus.update(i, cpu),
            after@.locked == before@.locked,
    {
        assert(after@.cpus =~= before@.cpus.update(i, cpu));
        assert(after@.locked =~= before@.locked);
        assert forall|k: int| 0 <= k < 64 implies (#[trigger] after.cpus@[k]).value.wf(
            after.threads@.len(),
        ) by {
            assert(before.cpus@[k].value.wf(after.threads@.len()));
        }
    }

    /// Count a tick.
    fn count_tick(&mut self, me: usize)
        requires
            old(self).wf(),
            me < 64,
        ensures
            final(self).wf(),
            final(self)@ == tick(old(self)@, me as int),
    {
        let ghost before = *self;
        assert(self.cpus@[me as int].value.wf(self.threads@.len()));
        let ticks: u64 = self.cpus[me].value.tick_count.wrapping_add(1);
        self.cpus[me].value.tick_count = ticks;
        if ticks % (BOOST_INTERVAL as u64) == 0 {
            let ghost q = self.cpus@[me as int].value.run_queue@;
            proof {
                self.cpus@[me as int].value.run_queue.lemma_shape();
                lemma_boosted_below(q, 8, self.threads@.len());
            }
            self.cpus[me].value.run_queue.boost_all(&mut self.threads);
        }
        proof {
            let cpu = tick(before@, me as int).cpus[me as int];
            assert(self.cpus@[me as int].value@ =~= cpu);
            Self::lemma_cpu_changed(&before, self, me as int, cpu);
            assert(self@ =~= tick(before@, me as int));
        }
    }

    /// Queue thread `t` on a CPU, if there is room.
    fn requeue(&mut self, me: usize, t: usize)
        requires
            old(self).wf(),
            me < 64,
            t < old(self).threads@.len(),
        ensures
            final(self).wf(),
            final(self)@ == old(self)@.with_queue(
                me as int,
                pushed(
                    old(self)@.cpus[me as int].queue,
                    t,
                    old(self)@.threads[t as int].priority as int,
                ),
            ),
    {
        let ghost before = *self;
        assert(self.cpus@[me as int].value.wf(self.threads@.len()));
        let level: usize = self.threads[t].priority as usize;
        proof {
            self.cpus@[me as int].value.run_queue.lemma_shape();
            lemma_pushed_below(
                self.cpus@[me as int].value.run_queue@,
                t,
                level as int,
                self.threads@.len(),
            );
        }
        let _ = self.cpus[me].value.run_queue.push(t, level);
        proof {
            let cpu = CpuView {
                queue: pushed(before@.cpus[me as int].queue, t, level as int),
                ..before@.cpus[me as int]
            };
            assert(self.cpus@[me as int].value@ =~= cpu);
            Self::lemma_cpu_changed(&before, self, me as int, cpu);
            assert(self@ =~= before@.with_cpu(me as int, cpu));
        }
    }

    /// Replace a thread.
    pub(crate) fn set_thread(&mut self, t: usize, thread: Thread)
        requires
            old(self).wf(),
            t < old(self).threads@.len(),
            thread_wf(thread),
        ensures
            final(self).wf(),
            final(self)@ == old(self)@.with_thread(t, thread),
            final(self).cpus == old(self).cpus,
    {
        self.threads.set(t, thread);
        assert(self@ =~= old(self)@.with_thread(t, thread));
    }

    /// Choose the thread to run next.
    fn pick_next(&mut self, cpu_id: u32) -> (r: Option<usize>)
        requires
            old(self).wf(),
        ensures
            final(self).wf(),
            (final(self)@, r) == picked(old(self)@, cpu_id),
            final(self).threads@.len() == old(self).threads@.len(),
            r matches Some(t) ==> t < final(self).threads@.len(),
    {
        let me: usize = cpu_id as usize % MAX_CPUS;
        let ghost before = *self;
        assert(self.cpus@[me as int].value.wf(self.threads@.len()));
        let ghost q = self.cpus@[me as int].value.run_queue@;
        proof {
            self.cpus@[me as int].value.run_queue.lemma_shape();
            lemma_popped_below(q, self.threads@.len());
        }
        let got = self.cpus[me].value.run_queue.pop();
        proof {
            let cpu = CpuView { queue: popped(q), ..before@.cpus[me as int] };
            assert(self.cpus@[me as int].value@ =~= cpu);
            Self::lemma_cpu_changed(&before, self, me as int, cpu);
            assert(self@ =~= before@.with_cpu(me as int, cpu));
            if got is None {
                assert(cpu =~= before@.cpus[me as int]);
                assert(self@.cpus =~= before@.cpus);
                assert(self@ =~= before@);
            }
        }
        if let Some(t) = got {
            return Some(t);
        }
        if let Some(t) = try_steal(self, cpu_id) {
            return Some(t);
        }
        assert(self.cpus@[me as int].value.wf(self.threads@.len()));
        self.cpus[me].value.idle_thread
    }

    /// Turn the CPU to `next`.
    fn dispatch(&mut self, cpu_id: u32, next: Option<usize>) -> (r: Switch)
        requires
            old(self).wf(),
            next matches Some(t) ==> t < old(self).threads@.len(),
        ensures
            final(self).wf(),
            (final(self)@, r) == dispatched(old(self)@, cpu_id, next),
    {
        let me: usize = cpu_id as usize % MAX_CPUS;
        let ghost before = *self;
        assert(self.cpus@[me as int].value.wf(self.threads@.len()));
        let cur = self.cpus[me].value.current;
        let t: usize = match next {
            None => return Switch::Stay,
            Some(t) => t,
        };
        let mut thread: Thread = self.threads[t];
        thread.state = ThreadState::Running;
        if let Some(c) = cur {
            if c == t {
                self.set_thread(t, thread);
                return Switch::Stay;
            }
        }
        thread.cpu_id = cpu_id;
        self.cpus[me].value.current = Some(t);
        proof {
            let cpu = CpuView { current: next, ..before@.cpus[me as int] };
            assert(self.cpus@[me as int].value@ =~= cpu);
            Self::lemma_cpu_changed(&before, self, me as int, cpu);
            assert(self@ =~= before@.with_cpu(me as int, cpu));
        }
        self.set_thread(t, thread);
        Switch::To { from: cur, to: t, hook: self.switch_hook }
    }
}

/// A timer tick, or a thread that gave up the CPU: decide what runs next.
pub fn schedule(s: &mut Sched, cpu_id: u32) -> (r: Switch)
    requires
        old(s).wf(),
        old(s).unlocked(cpu_id),
        can_schedule(old(s), cpu_id),
    ensures
        final(s).wf(),
        (final(s)@, r) == scheduled(old(s)@, cpu_id),
        final(s).threads@.len() == old(s).threads@.len(),
{
    let me: usize = cpu_id as usize % MAX_CPUS;
    s.count_tick(me);
    assert(s.cpus@[me as int].value.wf(s.threads@.len()));
    let cur = s.cpus[me].value.current;
    let idle = s.cpus[me].value.idle_thread;
    let ghost w = s@;
    if let Some(t) = cur {
        let is_idle: bool = match idle {
            Some(i) => i == t,
            None => false,
        };
        if !is_idle {
            let mut thread: Thread = s.threads[t];
            match thread.state {
                ThreadState::Running => {
                    let ends = charge_tick(&mut thread);
                    if !ends {
                        s.set_thread(t, thread);
                        return Switch::Stay;
                    }
                    thread.state = ThreadState::Runnable;
                    s.set_thread(t, thread);
                    s.requeue(me, t);
                },
                ThreadState::Runnable => {
                    s.requeue(me, t);
                },
                ThreadState::Blocked | ThreadState::Dead => {
                    thread.ticks_used = 0;
                    s.set_thread(t, thread);
                },
            }
        }
    }
    assert((s@, true) == charged(w, me as int));
    let next = s.pick_next(cpu_id);
    s.dispatch(cpu_id, next)
}

/// Give up the CPU for now.
pub fn thread_yield(s: &mut Sched, cpu_id: u32) -> (r: Switch)
    requires
        old(s).wf(),
        old(s).unlocked(cpu_id),
        can_schedule(old(s), cpu_id),
    ensures
        final(s).wf(),
        (final(s)@, r) == yielded(old(s)@, cpu_id),
        final(s).threads@.len() == old(s).threads@.len(),
{
    let me: usize = cpu_id as usize % MAX_CPUS;
    assert(s.cpus@[me as int].value.wf(s.threads@.len()));
    let cur = s.cpus[me].value.current;
    let idle = s.cpus[me].value.idle_thread;
    let t: usize = match cur {
        Some(t) => t,
        None => return schedule(s, cpu_id),
    };
    if let Some(i) = idle {
        if i == t {
            return schedule(s, cpu_id);
        }
    }
    let mut thread: Thread = s.threads[t];
    thread.state = ThreadState::Runnable;
    thread.ticks_used = 0;
    s.set_thread(t, thread);
    s.requeue(me, t);
    let next = s.pick_next(cpu_id);
    s.dispatch(cpu_id, next)
}

/// Number a new thread.
pub fn alloc_tid(s: &mut Sched) -> (r: ThreadId)
    ensures
        r == old(s).next_tid,
        *final(s) == (Sched { next_tid: old(s).next_tid.wrapping_add(1), ..*old(s) }),
{
    let id: u64 = s.next_tid;
    s.next_tid = id.wrapping_add(1);
    id
}

/// A thread that has never run.
pub open spec fn is_fresh(t: Thread, id: ThreadId, entry: u64, priority: u8, kstack: u64) -> bool {
    &&& t.id == id
    &&& t.state == ThreadState::Runnable
    &&& t.cpu_id == 0
    &&& t.priority == (if priority < 8 {
        priority
    } else {
        7
    })
    &&& t.ticks_used == 0
    &&& t.kstack_top == kstack_end(kstack)
    &&& t.kstack_phys == kstack
    &&& t.context == Context::entering(entry, t.kstack_top)
    &&& t.fpu@ == Seq::new(1024, |i: int| 0u8).update(24, 0x80).update(25, 0x1f)
}

/// `after` is `before` with one more thread, `t`.
pub open spec fn thread_added(before: SchedView, after: SchedView, t: Thread) -> bool {
    after == (SchedView { threads: before.threads.push(t), ..before })
}

impl Sched {
    fn add_thread(&mut self, thread: Thread) -> (r: usize)
        requires
            old(self).wf(),
            thread_wf(thread),
        ensures
            final(self).wf(),
            r == old(self).threads@.len(),
            thread_added(old(self)@, final(self)@, thread),
            final(self).cpus == old(self).cpus,
    {
        let r: usize = self.threads.len();
        self.threads.push(thread);
        proof {
            assert(self@ =~= (SchedView {
                threads: old(self)@.threads.push(thread),
                ..old(self)@
            }));
            assert forall|k: int| 0 <= k < 64 implies (#[trigger] self.cpus@[k]).value.wf(
                self.threads@.len(),
            ) by {
                let cpu = old(self).cpus@[k].value;
                assert(cpu.wf(old(self).threads@.len()));
                assert(threads_below(cpu.run_queue@, self.threads@.len()));
            }
        }
        r
    }
}

/// Make a thread on the stack at `kstack`, without queueing it.
pub fn alloc_thread(s: &mut Sched, id: ThreadId, entry: u64, priority: u8, kstack: u64) -> (r: usize)
    requires
        old(s).wf(),
        kstack_fits(kstack),
    ensures
        final(s).wf(),
        r == old(s).threads@.len(),
        is_fresh(final(s)@.threads[r as int], id, entry, priority, kstack),
        thread_added(old(s)@, final(s)@, final(s)@.threads[r as int]),
        final(s).cpus == old(s).cpus,
{
    let thread = Thread::new_kernel(id, entry, priority, kstack);
    s.add_thread(thread)
}

/// As `alloc_thread`, for an entry point with the C calling convention.
pub fn alloc_thread_raw(
    s: &mut Sched,
    id: ThreadId,
    entry: u64,
    priority: u8,
    kstack: u64,
) -> (r: usize)
    requires
        old(s).wf(),
        kstack_fits(kstack),
    ensures
        final(s).wf(),
        r == old(s).threads@.len(),
        is_fresh(final(s)@.threads[r as int], id, entry, priority, kstack),
        thread_added(old(s)@, final(s)@, final(s)@.threads[r as int]),
        final(s).cpus == old(s).cpus,
{
    let mut thread = Thread::new_kernel(id, entry, priority, kstack);
    thread.context = Context::new_raw(entry, thread.kstack_top);
    s.add_thread(thread)
}

/// Number and make a thread, without queueing it.
pub fn alloc_kernel_thread_raw(s: &mut Sched, entry: u64, priority: u8, kstack: u64) -> (r: usize)
    requires
        old(s).wf(),
        kstack_fits(kstack),
    ensures
        final(s).wf(),
        r == old(s).threads@.len(),
        is_fresh(final(s)@.threads[r as int], old(s).next_tid, entry, priority, kstack),
        thread_added(
            SchedView { next_tid: old(s).next_tid.wrapping_add(1), ..old(s)@ },
            final(s)@,
            final(s)@.threads[r as int],
        ),
        final(s).cpus == old(s).cpus,
{
    let id: u64 = alloc_tid(s);
    assert(s@ =~= (SchedView { next_tid: old(s).next_tid.wrapping_add(1), ..old(s)@ }));
    alloc_thread_raw(s, id, entry, priority, kstack)
}

/// Make a kernel thread of priority 0 and queue it on the least loaded CPU.
/// That queue must have room.
pub fn spawn(s: &mut Sched, entry: u64, kstack: u64) -> (id: ThreadId)
    requires
        old(s).wf(),
        kstack_fits(kstack),
        all_unlocked(old(s)@),
        has_room(
            old(s)@.cpus[least_loaded_below(old(s)@, old(s).cpu_count as nat)].queue,
            0,
        ),
    ensures
        final(s).wf(),
        id == old(s).next_tid,
        ({
            let t = old(s).threads@.len() as usize;
            let cpu = least_loaded_below(old(s)@, old(s).cpu_count as nat);
            let thread = final(s)@.threads[t as int];
            &&& is_fresh(thread, id, entry, 0, kstack)
            &&& thread_added(
                SchedView { next_tid: id.wrapping_add(1), ..old(s)@ }.with_queue(
                    cpu,
                    pushed(old(s)@.cpus[cpu].queue, t, 0),
                ),
                final(s)@,
                thread,
            )
        }),
{
    let ghost v0 = s@;
    let id: u64 = alloc_tid(s);
    let ghost v1 = s@;
    proof {
        assert(v1 =~= (SchedView { next_tid: id.wrapping_add(1), ..v0 }));
    }
    let t: usize = alloc_thread(s, id, entry, 0, kstack);
    let ghost s2 = *s;
    proof {
        lemma_same_load(v0, s@, s.cpu_count as nat);
    }
    let target: u32 = least_loaded_cpu(s);
    s.requeue(target as usize, t);
    proof {
        let thread = s2@.threads[t as int];
        let w = v1.with_queue(target as int, pushed(v0.cpus[target as int].queue, t, 0));
        assert(s@ =~= (SchedView { threads: w.threads.push(thread), ..w }));
    }
    id
}

proof fn lemma_same_load(a: SchedView, b: SchedView, n: nat)
    requires
        a.cpus == b.cpus,
    ensures
        least_loaded_below(a, n) == least_loaded_below(b, n),
    decreases n,
{
    if n > 1 {
        lemma_same_load(a, b, (n - 1) as nat);
    }
}

/// Something is to run before each switch to another thread, from now on.
pub fn register_context_switch_hook(s: &mut Sched)
    ensures
        *final(s) == (Sched { switch_hook: true, ..*old(s) }),
{
    s.switch_hook = true;
}

/// Whether a switch to `next` on `cpu_id` is to be announced, and with what.
pub fn run_context_switch_hook(s: &Sched, next: Option<usize>, cpu_id: u32) -> (r: Option<
    (Option<usize>, u32),
>)
    ensures
        r == (if s.switch_hook {
            Some((next, cpu_id))
        } else {
            None
        }),
{
    if s.switch_hook {
        Some((next, cpu_id))
    } else {
        None
    }
}

/// Idle CPUs can be interrupted when they are given work, from now on.
pub fn register_kick_hook(s: &mut Sched)
    ensures
        *final(s) == (Sched { kick_hook: true, ..*old(s) }),
{
    s.kick_hook = true;
}

/// Have the other CPUs interrupted, if that can be done.
pub fn kick_remote_cpus(s: &mut Sched)
    ensures
        *final(s) == (Sched {
            kick_pending: old(s).kick_pending || old(s).kick_hook,
            ..*old(s)
        }),
{
    if s.kick_hook {
        s.kick_pending = true;
    }
}

/// The state with the other CPUs interrupted, where `this_cpu` is not the
/// first CPU.
pub open spec fn kicked(v: SchedView, this_cpu: u32) -> SchedView {
    SchedView { kick_pending: v.kick_pending || (v.kick_hook && this_cpu != 0), ..v }
}

/// Queue a thread on the first CPU, whose queue must have room.
pub fn enqueue_thread(s: &mut Sched, thread: usize, priority: usize, this_cpu: u32)
    requires
        old(s).wf(),
        old(s).unlocked(0),
        thread < old(s).threads@.len(),
        has_room(old(s)@.cpus[0].queue, priority as int),
    ensures
        final(s).wf(),
        final(s)@ == kicked(
            old(s)@.with_queue(0, pushed(old(s)@.cpus[0].queue, thread, priority as int)),
            this_cpu,
        ),
        final(s).threads@ == old(s).threads@,
        forall|i: int| 0 <= i < 64 ==> #[trigger] final(s).cpus@[i].locked == old(s).cpus@[i].locked,
{
    let ghost before = *s;
    assert(s.cpus@[0].value.wf(s.threads@.len()));
    proof {
        s.cpus@[0].value.run_queue.lemma_shape();
        lemma_pushed_below(s.cpus@[0].value.run_queue@, thread, priority as int, s.threads@.len());
    }
    let _ = s.cpus[0].value.run_queue.push(thread, priority);
    proof {
        let cpu = CpuView {
            queue: pushed(before@.cpus[0].queue, thread, priority as int),
            ..before@.cpus[0]
        };
        assert(s.cpus@[0].value@ =~= cpu);
        Sched::lemma_cpu_changed(&before, s, 0, cpu);
        assert(s@ =~= before@.with_cpu(0, cpu));
    }
    if this_cpu != 0 {
        kick_remote_cpus(s);
    }
    assert(s@ =~= kicked(
        before@.with_queue(0, pushed(before@.cpus[0].queue, thread, priority as int)),
        this_cpu,
    ));
}

/// The thread that `cpu_id` runs.
pub fn current_thread(s: &Sched, cpu_id: u32) -> (r: Option<usize>)
    requires
        s.wf(),
        s.unlocked(cpu_id),
    ensures
        r == s@.cpus[cpu_slot(cpu_id)].current,
        r matches Some(t) ==> t < s.threads@.len(),
{
    assert(s.cpus@[cpu_slot(cpu_id)].value.wf(s.threads@.len()));
    s.cpus[cpu_id as usize % MAX_CPUS].value.current
}

/// Make the idle thread of a CPU: number 0, lowest priority.
pub fn create_idle_thread(s: &mut Sched, cpu_id: u32, entry: u64, kstack: u64) -> (r: usize)
    requires
        old(s).wf(),
        kstack_fits(kstack),
    ensures
        final(s).wf(),
        r == old(s).threads@.len(),
        is_idle(final(s)@.threads[r as int], cpu_id, entry, kstack),
        final(s)@.threads[r as int].state == ThreadState::Runnable,
        thread_added(old(s)@, final(s)@, final(s)@.threads[r as int]),
        final(s).cpus == old(s).cpus,
{
    let mut thread = Thread::new_kernel(0, entry, (MLFQ_LEVELS - 1) as u8, kstack);
    let ghost fresh = thread;
    thread.cpu_id = cpu_id;
    assert(fresh == (Thread { cpu_id: 0, ..thread }));
    s.add_thread(thread)
}

/// `t` is the idle thread of `cpu_id`, runnable or running.
pub open spec fn is_idle(t: Thread, cpu_id: u32, entry: u64, kstack: u64) -> bool {
    is_fresh(
        Thread { cpu_id: 0, state: ThreadState::Runnable, ..t },
        0,
        entry,
        7,
        kstack,
    ) && t.cpu_id == cpu_id
}

/// Make the idle thread of a CPU and install it.
pub fn register_idle(s: &mut Sched, cpu_id: u32, entry: u64, kstack: u64)
    requires
        old(s).wf(),
        old(s).unlocked(cpu_id),
        kstack_fits(kstack),
    ensures
        final(s).wf(),
        ({
            let me = cpu_slot(cpu_id);
            let t = old(s).threads@.len() as usize;
            let thread = final(s)@.threads[t as int];
            let cpu = old(s)@.cpus[me];
            let first = cpu.current is None;
            &&& is_idle(thread, cpu_id, entry, kstack)
            &&& thread.state == (if first {
                ThreadState::Running
            } else {
                ThreadState::Runnable
            })
            &&& thread_added(
                old(s)@.with_cpu(
                    me,
                    CpuView {
                        idle: Some(t),
                        current: if first {
                            Some(t)
                        } else {
                            cpu.current
                        },
                        ..cpu
                    },
                ),
                final(s)@,
                thread,
            )
        }),
{
    let ghost v0 = s@;
    let idle: usize = create_idle_thread(s, cpu_id, entry, kstack);
    let ghost v1 = s@;
    set_idle_thread(s, cpu_id, idle);
    proof {
        let me = cpu_slot(cpu_id);
        let thread = s@.threads[idle as int];
        let fresh = v1.threads[idle as int];
        assert(Thread { cpu_id: 0, state: ThreadState::Runnable, ..thread } == Thread {
            cpu_id: 0,
            state: ThreadState::Runnable,
            ..fresh
        });
        assert(s@.threads =~= v0.threads.push(thread));
        assert(s@ =~= (SchedView {
            threads: v0.threads.push(thread),
            ..v0.with_cpu(me, s@.cpus[me])
        }));
    }
}

/// CPU `i` as `init` leaves it, with thread `t` its idle thread.
pub open spec fn started_cpu(i: int, t: usize) -> CpuView {
    CpuView {
        cpu_id: i as u32,
        current: Some(t),
        idle: Some(t),
        cursor: ((i + 1) % 64) as u32,
        ..CpuView::blank()
    }
}

/// How many CPUs a request for `cpu_count` starts.
pub open spec fn started_count(cpu_count: u32) -> int {
    if cpu_count < 64 {
        cpu_count as int
    } else {
        64
    }
}

/// Start the scheduler: set up each CPU with an idle thread, on the stacks
/// given, and let scheduling begin.
pub fn init(s: &mut Sched, cpu_count: u32, entry: u64, kstacks: &[u64])
    requires
        old(s).wf(),
        forall|i: int| 0 <= i < 64 ==> !#[trigger] old(s).cpus@[i].locked,
        kstacks@.len() >= started_count(cpu_count),
        forall|i: int| 0 <= i < kstacks@.len() ==> kstack_fits(#[trigger] kstacks@[i]),
    ensures
        final(s).wf(),
        ({
            let n = started_count(cpu_count);
            let base = old(s).threads@.len() as int;
            &&& final(s).ready
            &&& final(s).threads@.len() == base + n
            &&& final(s).threads@.take(base) == old(s).threads@
            &&& final(s)@.count == (if old(s)@.count < n {
                n as u32
            } else {
                old(s)@.count
            })
            &&& forall|i: int|
                0 <= i < n ==> #[trigger] final(s)@.cpus[i] == started_cpu(i, (base + i) as usize)
            &&& forall|i: int|
                n <= i < 64 ==> #[trigger] final(s)@.cpus[i] == old(s)@.cpus[i]
            &&& forall|i: int|
                0 <= i < n ==> {
                    let t = #[trigger] final(s)@.threads[base + i];
                    is_idle(t, i as u32, entry, kstacks@[i]) && t.state == ThreadState::Running
                }
            &&& final(s)@.locked == old(s)@.locked
            &&& final(s).next_tid == old(s).next_tid
            &&& final(s).switch_hook == old(s).switch_hook
            &&& final(s).kick_hook == old(s).kick_hook
            &&& final(s).kick_pending == old(s).kick_pending
        }),
{
    let n: u32 = if cpu_count < MAX_CPUS as u32 {
        cpu_count
    } else {
        MAX_CPUS as u32
    };
    let ghost v0 = s@;
    let ghost base = s.threads@.len() as int;
    assert(s.threads@.take(base) =~= s.threads@);
    let mut cpu: u32 = 0;
    while cpu < n
        invariant
            cpu <= n <= 64,
            n == started_count(cpu_count),
            s.wf(),
            v0 == old(s)@,
            base == v0.threads.len(),
            v0.cpus.len() == 64,
            v0.locked.len() == 64,
            forall|i: int| 0 <= i < 64 ==> !#[trigger] v0.locked[i],
            kstacks@.len() >= n,
            forall|i: int| 0 <= i < kstacks@.len() ==> kstack_fits(#[trigger] kstacks@[i]),
            s@.threads.len() == base + cpu,
            s@.threads.take(base) == v0.threads,
            s@.count == (if v0.count < cpu {
                cpu
            } else {
                v0.count
            }),
            forall|i: int|
                0 <= i < cpu ==> #[trigger] s@.cpus[i] == started_cpu(i, (base + i) as usize),
            forall|i: int| cpu <= i < 64 ==> #[trigger] s@.cpus[i] == v0.cpus[i],
            forall|i: int|
                0 <= i < cpu ==> {
                    let t = #[trigger] s@.threads[base + i];
                    is_idle(t, i as u32, entry, kstacks@[i]) && t.state == ThreadState::Running
                },
            s@.locked == v0.locked,
            s@.next_tid == v0.next_tid,
            s@.switch_hook == v0.switch_hook,
            s@.kick_hook == v0.kick_hook,
            s@.kick_pending == v0.kick_pending,
        decreases n - cpu,
    {
        let ghost v = s@;
        proof {
            assert(v.locked[cpu as int] == s.cpus@[cpu as int].locked);
        }
        init_sched_cpu(s, cpu);
        let ghost w = s@;
        proof {
            assert(w.locked[cpu as int] == s.cpus@[cpu as int].locked);
        }
        register_idle(s, cpu, entry, kstacks[cpu as usize]);
        proof {
            let x = s@;
            assert(x.threads.take(base) =~= v.threads.take(base));
            assert forall|i: int| 0 <= i < cpu implies ({
                let t = #[trigger] x.threads[base + i];
                is_idle(t, i as u32, entry, kstacks@[i]) && t.state == ThreadState::Running
            }) by {
                assert(x.threads[base + i] == v.threads[base + i]);
            }
            assert(x.cpus[cpu as int] =~= started_cpu(cpu as int, (base + cpu) as usize));
        }
        cpu += 1;
    }
    let ghost z = s@;
    s.ready = true;
    proof {
        assert(s@ =~= (SchedView { ready: true, ..z }));
        assert(s@.cpus == z.cpus && s@.threads == z.threads);
        assert(s.wf()) by {
            assert forall|k: int| 0 <= k < 64 implies (#[trigger] s.cpus@[k]).value.wf(
                s.threads@.len(),
            ) by {}
        }
    }
}

/// The thread that a queue gives next is the oldest of its level, and no
/// thread waits at a higher priority.
pub proof fn next_is_highest_and_oldest(q: Seq<Seq<usize>>)
    requires
        next_of(q) is Some,
    ensures
        exists|l: int|
            0 <= l < 8 && (#[trigger] q[l]).len() > 0 && next_of(q) == Some(q[l][0]) && popped(q)
                == q.update(l, q[l].drop_first()) && forall|k: int|
                0 <= k < l ==> (#[trigger] q[k]).len() == 0,
{
    lemma_first_level(q, 8);
    let l = first_level(q, 8)->Some_0;
    assert(q[l].len() > 0);
}

/// A thread that is blocked or dead, or whose timeslice is not over, is not
/// queued by the scheduler.
pub proof fn stopped_threads_are_not_queued(v: SchedView, me: int)
    requires
        0 <= me < v.cpus.len(),
        v.cpus[me].current matches Some(t) ==> {
            let thread = v.threads[t as int];
            thread.state == ThreadState::Blocked || thread.state == ThreadState::Dead || (
            thread.state == ThreadState::Running && !slice_ends(thread))
        },
    ensures
        charged(v, me).0.cpus == v.cpus,
{
}

/// Whatever the scheduler decides, the thread that the CPU runs afterwards is
/// marked as running.
pub proof fn scheduled_thread_runs(v: SchedView, cpu_id: u32, next: Option<usize>)
    requires
        cpu_slot(cpu_id) < v.cpus.len(),
        next matches Some(t) && t < v.threads.len(),
    ensures
        ({
            let w = dispatched(v, cpu_id, next).0;
            w.cpus[cpu_slot(cpu_id)].current == next && w.threads[next->Some_0 as int].state
                == ThreadState::Running
        }),
{
}

/// A switch is made exactly where another thread is to run.
pub proof fn switch_only_to_another(v: SchedView, cpu_id: u32, next: Option<usize>)
    requires
        next is Some,
    ensures
        (dispatched(v, cpu_id, next).1 == Switch::Stay) == (next == v.cpus[cpu_slot(
            cpu_id,
        )].current),
{
}

} // verus!
