//! Moving threads from busy CPUs to idle ones.

use vstd::prelude::*;
use super::percpu::{cpu_slot, CpuView, Sched, SchedView};
use super::queue::{lemma_popped_below, lemma_stolen_below, next_of, popped, stolen, total_below, MlfqQueue};

verus! {

/// Most threads that one steal moves.
pub const MAX_STEAL_BATCH: usize = 8;

/// How many threads to take from a queue of `len`: half, at most 8.
pub open spec fn steal_batch(len: int) -> int {
    if len / 2 < 8 {
        len / 2
    } else {
        8
    }
}

/// The search for a thread to steal, after `scanned` CPUs were passed and
/// `attempts` of them tried. It goes round from the cursor, passes over the
/// CPU itself, CPUs whose lock is taken and CPUs with fewer than two queued
/// threads, and ends with the first from which a thread could be moved. The
/// state after it, and the thread to run.
pub open spec fn steal_from(v: SchedView, cpu_id: u32, scanned: nat, attempts: nat) -> (
    SchedView,
    Option<usize>,
)
    decreases v.count - scanned,
{
    if scanned >= v.count || attempts + 1 >= v.count {
        (v, None)
    } else {
        let me = cpu_slot(cpu_id);
        let victim = v.cpus[me].cursor as int % v.count as int;
        let w = v.with_cpu(
            me,
            CpuView { cursor: ((victim + 1) % v.count as int) as u32, ..v.cpus[me] },
        );
        let len = total_below(v.cpus[victim].queue, 8);
        if victim == cpu_id {
            steal_from(w, cpu_id, scanned + 1, attempts)
        } else if victim == me || v.locked[victim] || len < 2 {
            steal_from(w, cpu_id, scanned + 1, attempts + 1)
        } else {
            let (src, dst, moved) = stolen(
                v.cpus[victim].queue,
                v.cpus[me].queue,
                v.threads,
                steal_batch(len) as nat,
            );
            let x = w.with_queue(victim, src).with_queue(me, dst);
            if moved == 0 {
                steal_from(x, cpu_id, scanned + 1, attempts + 1)
            } else {
                (x.with_queue(me, popped(dst)), next_of(dst))
            }
        }
    }
}

/// Steal a batch of threads from another CPU and take the first to run.
pub fn try_steal(s: &mut Sched, cpu_id: u32) -> (r: Option<usize>)
    requires
        old(s).wf(),
    ensures
        final(s).wf(),
        (final(s)@, r) == steal_from(old(s)@, cpu_id, 0, 0),
        final(s).threads@ == old(s).threads@,
        r matches Some(t) ==> t < old(s).threads@.len(),
{
    let count: u32 = s.cpu_count;
    if count <= 1 {
        return None;
    }
    let me: usize = cpu_id as usize % 64;
    let mut scanned: u32 = 0;
    let mut attempts: u32 = 0;
    while scanned < count && attempts < count - 1
        invariant
            2 <= count <= 64,
            count == s.cpu_count,
            me == cpu_slot(cpu_id),
            me < 64,
            scanned <= count,
            attempts <= scanned,
            s.wf(),
            s.threads@ == old(s).threads@,
            steal_from(s@, cpu_id, scanned as nat, attempts as nat) == steal_from(
                old(s)@,
                cpu_id,
                0,
                0,
            ),
        decreases count - scanned,
    {
        let ghost v = s@;
        let ghost s0 = *s;
        assert(s.cpus@[me as int].value.wf(s.threads@.len()));
        let victim: u32 = s.cpus[me].value.steal_cursor % count;
        s.cpus[me].value.steal_cursor = (victim + 1) % count;
        scanned += 1;
        let ghost w = v.with_cpu(
            me as int,
            CpuView { cursor: ((victim + 1) % count as int) as u32, ..v.cpus[me as int] },
        );
        proof {
            assert(s@.cpus =~= w.cpus);
            assert(s@.locked =~= w.locked);
            assert(s@ =~= w);
            assert forall|k: int| 0 <= k < 64 implies (#[trigger] s.cpus@[k]).value.wf(
                s.threads@.len(),
            ) by {
                assert(s0.cpus@[k].value.wf(s.threads@.len()));
            }
        }
        if victim == cpu_id {
            continue ;
        }
        attempts += 1;
        if victim as usize == me || s.cpus[victim as usize].locked {
            continue ;
        }
        assert(s.cpus@[victim as int].value.wf(s.threads@.len()));
        let len: u32 = s.cpus[victim as usize].value.run_queue.len();
        if len < 2 {
            continue ;
        }
        let half: usize = (len / 2) as usize;
        let batch: usize = if half < MAX_STEAL_BATCH {
            half
        } else {
            MAX_STEAL_BATCH
        };
        let mut mine = MlfqQueue::new();
        assert(s.cpus@[me as int].value.wf(s.threads@.len()));
        std::mem::swap(&mut mine, &mut s.cpus[me].value.run_queue);
        let ghost src0 = s.cpus@[victim as int].value.run_queue@;
        let ghost dst0 = mine@;
        proof {
            s.cpus@[victim as int].value.run_queue.lemma_shape();
            mine.lemma_shape();
            lemma_stolen_below(src0, dst0, s.threads@, batch as nat, s.threads@.len());
        }
        let moved: usize = s.cpus[victim as usize].value.run_queue.steal_into(
            &mut mine,
            batch,
            &s.threads,
        );
        std::mem::swap(&mut mine, &mut s.cpus[me].value.run_queue);
        let ghost (src, dst, k) = stolen(src0, dst0, s.threads@, batch as nat);
        let ghost x = w.with_queue(victim as int, src).with_queue(me as int, dst);
        let ghost s1 = *s;
        proof {
            assert(src0 == v.cpus[victim as int].queue);
            assert(dst0 == v.cpus[me as int].queue);
            assert(s@.cpus[me as int] =~= x.cpus[me as int]);
            assert(s@.cpus[victim as int] =~= x.cpus[victim as int]);
            assert(s@.cpus =~= x.cpus);
            assert(s@.locked =~= x.locked);
            assert(s@ =~= x);
            assert forall|k: int| 0 <= k < 64 implies (#[trigger] s.cpus@[k]).value.wf(
                s.threads@.len(),
            ) by {
                assert(s0.cpus@[k].value.wf(s.threads@.len()));
            }
        }
        if moved != 0 {
            let ghost q = s.cpus@[me as int].value.run_queue@;
            proof {
                s.cpus@[me as int].value.run_queue.lemma_shape();
                lemma_popped_below(q, s.threads@.len());
            }
            let r = s.cpus[me].value.run_queue.pop();
            proof {
                let y = x.with_queue(me as int, popped(dst));
                assert(s@.cpus[me as int] =~= y.cpus[me as int]);
                assert(s@.cpus =~= y.cpus);
                assert(s@.locked =~= y.locked);
                assert(s@ =~= y);
                assert forall|k: int| 0 <= k < 64 implies (#[trigger] s.cpus@[k]).value.wf(
                    s.threads@.len(),
                ) by {
                    assert(s1.cpus@[k].value.wf(s.threads@.len()));
                }
            }
            return r;
        }
    }
    None
}

/// The first of the CPUs below `n` with more queued threads than every CPU
/// before it; CPU 0 where none has any.
pub open spec fn busiest_below(v: SchedView, n: nat) -> int
    decreases n,
{
    if n == 0 {
        0
    } else {
        let best = busiest_below(v, (n - 1) as nat);
        if queue_len(v, n - 1) > (if n == 1 {
            0
        } else {
            queue_len(v, best)
        }) {
            n - 1
        } else {
            best
        }
    }
}

/// The first of the CPUs below `n` with the fewest queued threads.
pub open spec fn least_loaded_below(v: SchedView, n: nat) -> int
    decreases n,
{
    if n <= 1 {
        0
    } else {
        let best = least_loaded_below(v, (n - 1) as nat);
        if queue_len(v, n - 1) < queue_len(v, best) {
            n - 1
        } else {
            best
        }
    }
}

/// How many threads are queued on a CPU.
pub open spec fn queue_len(v: SchedView, cpu: int) -> int {
    total_below(v.cpus[cpu].queue, 8)
}

/// The CPUs that take part can all be locked.
pub open spec fn all_unlocked(v: SchedView) -> bool {
    forall|i: int| 0 <= i < v.count ==> !#[trigger] v.locked[i]
}

/// The CPU with the most queued threads, the first of several.
pub fn busiest_cpu(s: &Sched) -> (r: u32)
    requires
        s.wf(),
        all_unlocked(s@),
    ensures
        r == busiest_below(s@, s.cpu_count as nat),
{
    let count: u32 = s.cpu_count;
    let mut best_cpu: u32 = 0;
    let mut best_len: u32 = 0;
    let mut cpu: u32 = 0;
    while cpu < count
        invariant
            cpu <= count <= 64,
            count == s.cpu_count,
            s.wf(),
            best_cpu == busiest_below(s@, cpu as nat),
            best_len == (if cpu == 0 {
                0
            } else {
                queue_len(s@, best_cpu as int)
            }),
            best_cpu < 64,
        decreases count - cpu,
    {
        assert(s.cpus@[cpu as int].value.wf(s.threads@.len()));
        let len: u32 = s.cpus[cpu as usize].value.run_queue.len();
        if len > best_len {
            best_len = len;
            best_cpu = cpu;
        }
        cpu += 1;
    }
    best_cpu
}

/// The CPU with the fewest queued threads, the first of several.
pub fn least_loaded_cpu(s: &Sched) -> (r: u32)
    requires
        s.wf(),
        all_unlocked(s@),
    ensures
        r == least_loaded_below(s@, s.cpu_count as nat),
        r < 64,
{
    let count: u32 = s.cpu_count;
    if count == 0 {
        return 0;
    }
    let mut best_cpu: u32 = 0;
    let mut best_len: u32 = u32::MAX;
    let mut cpu: u32 = 0;
    while cpu < count
        invariant
            cpu <= count <= 64,
            count == s.cpu_count,
            s.wf(),
            best_cpu == least_loaded_below(s@, cpu as nat),
            best_cpu < 64,
            cpu == 0 ==> best_len == u32::MAX,
            cpu > 0 ==> best_len == queue_len(s@, best_cpu as int),
        decreases count - cpu,
    {
        assert(s.cpus@[cpu as int].value.wf(s.threads@.len()));
        let len: u32 = s.cpus[cpu as usize].value.run_queue.len();
        if len < best_len {
            best_len = len;
            best_cpu = cpu;
        }
        cpu += 1;
    }
    best_cpu
}

/// No CPU that takes part has fewer queued threads than the least loaded one,
/// and none has more than the busiest.
pub proof fn load_extremes(v: SchedView, n: nat, cpu: int)
    requires
        0 <= cpu < n,
    ensures
        0 <= least_loaded_below(v, n) < n,
        0 <= busiest_below(v, n) < n,
        queue_len(v, least_loaded_below(v, n)) <= queue_len(v, cpu),
        queue_len(v, cpu) <= queue_len(v, busiest_below(v, n)),
    decreases n,
{
    reveal_with_fuel(busiest_below, 2);
    if n > 1 {
        if cpu < n - 1 {
            load_extremes(v, (n - 1) as nat, cpu);
        } else {
            load_extremes(v, (n - 1) as nat, 0);
        }
    }
}

} // verus!
