//! The scheduler's state: one run queue for each CPU, and all threads.

use vstd::prelude::*;
use crate::sync::spin::SpinLock;
use super::queue::{threads_below, MlfqQueue};
use super::thread::{Thread, ThreadState};

verus! {

pub const MAX_CPUS: usize = 64;

/// The scheduling state of one CPU. A thread is named by its index.
pub struct SchedCpu {
    pub cpu_id: u32,
    pub current: Option<usize>,
    pub idle_thread: Option<usize>,
    pub run_queue: MlfqQueue,
    pub tick_count: u64,
    /// Where the next search for threads to steal begins.
    pub steal_cursor: u32,
}

/// What a `SchedCpu` holds.
#[verifier::ext_equal]
pub struct CpuView {
    pub cpu_id: u32,
    pub current: Option<usize>,
    pub idle: Option<usize>,
    pub queue: Seq<Seq<usize>>,
    pub ticks: u64,
    pub cursor: u32,
}

impl CpuView {
    /// A CPU that has not been set up.
    pub open spec fn blank() -> CpuView {
        CpuView {
            cpu_id: 0,
            current: None,
            idle: None,
            queue: Seq::new(8, |l: int| Seq::<usize>::empty()),
            ticks: 0,
            cursor: 0,
        }
    }
}

impl SchedCpu {
    pub open spec fn view(&self) -> CpuView {
        CpuView {
            cpu_id: self.cpu_id,
            current: self.current,
            idle: self.idle_thread,
            queue: self.run_queue@,
            ticks: self.tick_count,
            cursor: self.steal_cursor,
        }
    }

    /// Every thread named here is one of the first `n`.
    pub open spec fn wf(&self, n: nat) -> bool {
        &&& self.run_queue.wf()
        &&& threads_below(self.run_queue@, n)
        &&& self.current matches Some(t) ==> t < n
        &&& self.idle_thread matches Some(t) ==> t < n
    }

    pub fn uninit() -> (r: Self)
        ensures
            r@ == CpuView::blank(),
            r.wf(0),
    {
        let r = SchedCpu {
            cpu_id: 0,
            current: None,
            idle_thread: None,
            run_queue: MlfqQueue::new(),
            tick_count: 0,
            steal_cursor: 0,
        };
        assert(r@ =~= CpuView::blank());
        r
    }
}

/// The scheduler.
pub struct Sched {
    /// The CPUs' states, each behind its lock.
    pub cpus: Vec<SpinLock<SchedCpu>>,
    /// How many CPUs take part.
    pub cpu_count: u32,
    /// Every thread ever made.
    pub threads: Vec<Thread>,
    /// The number of the next thread.
    pub next_tid: u64,
    pub ready: bool,
    /// Something is to run before each switch to another thread.
    pub switch_hook: bool,
    /// Idle CPUs can be interrupted when they are given work.
    pub kick_hook: bool,
    /// The other CPUs are to be interrupted.
    pub kick_pending: bool,
}

/// What a `Sched` holds.
#[verifier::ext_equal]
pub struct SchedView {
    pub cpus: Seq<CpuView>,
    pub locked: Seq<bool>,
    pub count: u32,
    pub threads: Seq<Thread>,
    pub next_tid: u64,
    pub ready: bool,
    pub switch_hook: bool,
    pub kick_hook: bool,
    pub kick_pending: bool,
}

impl SchedView {
    /// The state with CPU `i` replaced.
    pub open spec fn with_cpu(self, i: int, cpu: CpuView) -> SchedView {
        SchedView { cpus: self.cpus.update(i, cpu), ..self }
    }

    /// The state with the run queue of CPU `i` replaced.
    pub open spec fn with_queue(self, i: int, queue: Seq<Seq<usize>>) -> SchedView {
        self.with_cpu(i, CpuView { queue, ..self.cpus[i] })
    }

    /// The state with thread `t` replaced.
    pub open spec fn with_thread(self, t: usize, thread: Thread) -> SchedView {
        SchedView { threads: self.threads.update(t as int, thread), ..self }
    }
}

/// A thread has one of the eight priorities, and its stack ends below the top
/// of the address range.
pub open spec fn thread_wf(t: Thread) -> bool {
    t.priority < 8 && t.kstack_phys + 0x8000 <= u64::MAX
}

/// The slot of a CPU.
pub open spec fn cpu_slot(cpu_id: u32) -> int {
    cpu_id as int % 64
}

impl Sched {
    pub open spec fn view(&self) -> SchedView {
        SchedView {
            cpus: Seq::new(self.cpus@.len(), |i: int| self.cpus@[i].value@),
            locked: Seq::new(self.cpus@.len(), |i: int| self.cpus@[i].locked),
            count: self.cpu_count,
            threads: self.threads@,
            next_tid: self.next_tid,
            ready: self.ready,
            switch_hook: self.switch_hook,
            kick_hook: self.kick_hook,
            kick_pending: self.kick_pending,
        }
    }

    /// Every thread that a CPU names exists.
    pub open spec fn wf(&self) -> bool {
        &&& self.cpus@.len() == 64
        &&& self.cpu_count <= 64
        &&& forall|i: int|
            0 <= i < 64 ==> (#[trigger] self.cpus@[i]).value.wf(self.threads@.len())
        &&& forall|t: int|
            0 <= t < self.threads@.len() ==> thread_wf(#[trigger] self.threads@[t])
    }

    /// The lock of `cpu_id` is free.
    pub open spec fn unlocked(&self, cpu_id: u32) -> bool {
        !self.cpus@[cpu_slot(cpu_id)].locked
    }

    /// No CPU, no thread.
    pub fn new() -> (r: Self)
        ensures
            r.wf(),
            r@.cpus == Seq::new(64, |i: int| CpuView::blank()),
            r@.locked == Seq::new(64, |i: int| false),
            r@.count == 0,
            r@.threads == Seq::<Thread>::empty(),
            r@.next_tid == 1,
            !r.ready,
            !r.switch_hook,
            !r.kick_hook,
            !r.kick_pending,
    {
        let mut cpus: Vec<SpinLock<SchedCpu>> = Vec::new();
        let mut i: usize = 0;
        while i < MAX_CPUS
            invariant
                i <= 64,
                cpus@.len() == i,
                forall|k: int|
                    0 <= k < i ==> !(#[trigger] cpus@[k]).locked && cpus@[k].value@
                        == CpuView::blank() && cpus@[k].value.wf(0),
            decreases 64 - i,
        {
            cpus.push(SpinLock::new(SchedCpu::uninit()));
            i += 1;
        }
        let r = Sched {
            cpus,
            cpu_count: 0,
            threads: Vec::new(),
            next_tid: 1,
            ready: false,
            switch_hook: false,
            kick_hook: false,
            kick_pending: false,
        };
        assert(r@.cpus =~= Seq::new(64, |i: int| CpuView::blank()));
        assert(r@.locked =~= Seq::new(64, |i: int| false));
        r
    }
}

/// The state of the CPU `cpu_id`, behind its lock.
pub fn sched_cpu(s: &Sched, cpu_id: u32) -> (r: &SpinLock<SchedCpu>)
    requires
        s.wf(),
    ensures
        *r == s.cpus@[cpu_slot(cpu_id)],
{
    &s.cpus[cpu_id as usize % MAX_CPUS]
}

/// Set a CPU up, empty, and count it in. A number past the last slot is
/// ignored.
pub fn init_sched_cpu(s: &mut Sched, cpu_id: u32)
    requires
        old(s).wf(),
        cpu_id < 64 ==> old(s).unlocked(cpu_id),
    ensures
        final(s).wf(),
        final(s)@ == (if cpu_id < 64 {
            SchedView {
                count: if old(s)@.count < cpu_id + 1 {
                    (cpu_id + 1) as u32
                } else {
                    old(s)@.count
                },
                ..old(s)@.with_cpu(
                    cpu_id as int,
                    CpuView {
                        cpu_id,
                        cursor: ((cpu_id + 1) % 64) as u32,
                        ..CpuView::blank()
                    },
                )
            }
        } else {
            old(s)@
        }),
{
    if cpu_id >= MAX_CPUS as u32 {
        return ;
    }
    let mut cpu = SchedCpu::uninit();
    cpu.cpu_id = cpu_id;
    cpu.steal_cursor = (cpu_id + 1) % (MAX_CPUS as u32);
    let ghost blank = cpu;
    s.cpus[cpu_id as usize].value = cpu;
    let wanted: u32 = cpu_id + 1;
    if s.cpu_count < wanted {
        s.cpu_count = wanted;
    }
    proof {
        assert(s@.cpus =~= old(s)@.cpus.update(cpu_id as int, blank@));
        assert(s@.locked =~= old(s)@.locked);
        assert forall|i: int| 0 <= i < 64 implies (#[trigger] s.cpus@[i]).value.wf(
            s.threads@.len(),
        ) by {
            assert(old(s).cpus@[i].value.wf(s.threads@.len()));
        }
    }
}

/// Give a CPU the thread that it runs when it has no other.
pub fn set_idle_thread(s: &mut Sched, cpu_id: u32, idle: usize)
    requires
        old(s).wf(),
        old(s).unlocked(cpu_id),
        idle < old(s).threads@.len(),
    ensures
        final(s).wf(),
        final(s)@ == ({
            let i = cpu_slot(cpu_id);
            let cpu = old(s)@.cpus[i];
            if cpu.current is None {
                old(s)@.with_cpu(
                    i,
                    CpuView { idle: Some(idle), current: Some(idle), ..cpu },
                ).with_thread(
                    idle,
                    Thread { state: ThreadState::Running, ..old(s)@.threads[idle as int] },
                )
            } else {
                old(s)@.with_cpu(i, CpuView { idle: Some(idle), ..cpu })
            }
        }),
{
    let i: usize = cpu_id as usize % MAX_CPUS;
    let ghost before = s.cpus@[i as int].value@;
    assert(s.cpus@[i as int].value.wf(s.threads@.len()));
    s.cpus[i].value.idle_thread = Some(idle);
    if s.cpus[i].value.current.is_none() {
        s.cpus[i].value.current = Some(idle);
        let mut thread: Thread = s.threads[idle];
        thread.state = ThreadState::Running;
        s.threads.set(idle, thread);
    }
    proof {
        assert(s@.cpus =~= old(s)@.cpus.update(i as int, s.cpus@[i as int].value@));
        assert(s@.locked =~= old(s)@.locked);
        assert forall|k: int| 0 <= k < 64 implies (#[trigger] s.cpus@[k]).value.wf(
            s.threads@.len(),
        ) by {
            assert(old(s).cpus@[k].value.wf(s.threads@.len()));
        }
    }
}

/// How many CPUs take part in scheduling.
pub fn cpu_count(s: &Sched) -> (r: u32)
    ensures
        r == s.cpu_count,
{
    s.cpu_count
}

} // verus!
