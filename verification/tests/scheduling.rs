//! Threads, run queues, waiting, locks.

use rumicos::sched::block::{thread_block, thread_block_if, wake_all, wake_one, wake_one_and_yield};
use rumicos::sched::futex::{
    bucket_index, futex_requeue, futex_wait, futex_wake, FutexTable, KMutex, FUTEX_BUCKETS,
};
use rumicos::sched::percpu::Sched;
use rumicos::sched::queue::{timeslice, MlfqQueue, BOOST_INTERVAL};
use rumicos::sched::schedule::{
    alloc_kernel_thread_raw, current_thread, enqueue_thread, init, register_context_switch_hook,
    run_context_switch_hook, schedule, spawn, thread_yield, Switch,
};
use rumicos::sched::steal::{least_loaded_cpu, try_steal};
use rumicos::sched::thread::{charge_tick, Context, Thread, ThreadState, KSTACK_SIZE};
use rumicos::sched::waitqueue::{WaitNode, WaitQueue};
use rumicos::sync::backoff::Backoff;
use rumicos::sync::seqlock::SeqLock;
use rumicos::sync::spin::SpinLock;

fn test_thread(id: u64, priority: u8, state: ThreadState) -> Thread {
    let mut t = Thread::new_kernel(id, 0x1234, priority, 0x10_0000);
    t.state = state;
    t
}

/// A scheduler with `cpus` CPUs started and `n` threads that are not queued.
fn scheduler(cpus: u32, n: u64) -> Sched {
    let mut s = Sched::new();
    let stacks: Vec<u64> = (0..cpus as u64).map(|i| 0x4000_0000 + i * 0x10000).collect();
    init(&mut s, cpus, 0x9999, &stacks);
    for i in 0..n {
        alloc_kernel_thread_raw(&mut s, 0x1234, 0, 0x5000_0000 + i * 0x10000);
    }
    s
}

#[test]
fn bucket_index_is_stable_for_same_address() {
    let addr: usize = 0x7fff_1230;
    assert_eq!(bucket_index(addr), bucket_index(addr));
}

#[test]
fn bucket_index_can_distinguish_different_addresses() {
    let ia = bucket_index(0x7fff_1230);
    let ib = bucket_index(0x7fff_1234);
    assert!(ia < FUTEX_BUCKETS);
    assert!(ib < FUTEX_BUCKETS);
}

#[test]
fn kmutex_state_after_new_is_unlocked() {
    let mutex = KMutex::new();
    assert_eq!(mutex.state(), 0);
}

#[test]
fn kmutex_try_lock_observes_unlock_after_drop() {
    let mut mutex = KMutex::new();
    let guard = mutex.lock().unwrap();
    assert!(mutex.try_lock().is_none());
    mutex.unlock(guard);
    assert!(mutex.try_lock().is_some());
}

#[test]
fn futex_wait_spurious_mismatch_returns_without_blocking() {
    let value: u32 = 7;
    let mut s = Sched::new();
    let mut table = FutexTable::new();
    assert_eq!(futex_wait(&mut s, &mut table, 0x1000, value, value, 6, 0), None);
    assert_eq!(value, 7);
}

#[test]
fn futex_bucket_count_is_power_of_two() {
    assert_eq!(FUTEX_BUCKETS.count_ones(), 1);
}

#[test]
fn requeue_same_bucket_no_double_lock() {
    let mut s = Sched::new();
    let mut table = FutexTable::new();
    assert_eq!(futex_requeue(&mut s, &mut table, 0x1000, 1, 0x1000, 1, 0), 0);
}

#[test]
fn requeue_canonical_order_low_first() {
    let mut s = Sched::new();
    let mut table = FutexTable::new();
    assert_eq!(futex_requeue(&mut s, &mut table, 0x1000, 0, 0x2004, 0, 0), 0);
    assert_eq!(futex_requeue(&mut s, &mut table, 0x2004, 0, 0x1000, 0, 0), 0);
}

#[test]
fn kmutex_no_spurious_wake_on_unlock() {
    let mut mutex = KMutex::new();
    assert_eq!(mutex.state(), 0);
    let guard = mutex.lock().unwrap();
    assert_eq!(mutex.state(), 1);
    assert!(!mutex.unlock(guard));
    assert_eq!(mutex.state(), 0);
}

#[test]
fn contended_kmutex_wakes_on_unlock() {
    let mut mutex = KMutex::new();
    let guard = mutex.lock().unwrap();
    // Another one finds it taken, and says that it waits.
    assert!(mutex.lock().is_none());
    assert!(mutex.lock_again().is_none());
    assert_eq!(mutex.state(), 2);
    assert!(mutex.unlock(guard));
    assert!(mutex.lock_again().is_some());
}

#[test]
fn futex_wakes_only_waits_on_the_same_word() {
    let mut s = scheduler(1, 3);
    let mut table = FutexTable::new();
    for (t, addr) in [(1usize, 0x1000usize), (2, 0x2000), (3, 0x1000)] {
        s.cpus[0].value.current = Some(t);
        s.threads[t].state = ThreadState::Running;
        assert!(futex_wait(&mut s, &mut table, addr, 5, 5, 5, 0).is_some());
        assert_eq!(s.threads[t].state, ThreadState::Blocked);
    }
    assert_eq!(futex_wake(&mut s, &mut table, 0x1000, 1, 0), 1);
    assert_eq!(s.threads[1].state, ThreadState::Runnable);
    assert_eq!(s.threads[2].state, ThreadState::Blocked);
    assert_eq!(s.threads[3].state, ThreadState::Blocked);
    assert_eq!(futex_requeue(&mut s, &mut table, 0x1000, 0, 0x2000, 8, 0), 1);
    assert_eq!(futex_wake(&mut s, &mut table, 0x2000, 8, 0), 2);
}

#[test]
fn context_switch_hook_noop_until_registered_then_fires() {
    let mut s = Sched::new();
    assert_eq!(run_context_switch_hook(&s, None, 7), None, "unregistered hook must be a silent no-op");
    register_context_switch_hook(&mut s);
    assert_eq!(
        run_context_switch_hook(&s, None, 3),
        Some((None, 3)),
        "hook must see the target cpu_id"
    );
}

#[test]
fn timeslice_is_power_of_two_by_level() {
    assert_eq!(timeslice(0), 1);
    assert_eq!(timeslice(3), 8);
    assert_eq!(timeslice(7), 128);
}

#[test]
fn boost_interval_is_one_second_at_1000hz() {
    assert_eq!(BOOST_INTERVAL, 1000);
}

#[test]
fn mlfq_push_pop_returns_highest_priority_first() {
    let mut queue = MlfqQueue::new();
    assert!(queue.push(2, 2));
    assert!(queue.push(0, 0));
    assert!(queue.push(1, 1));

    assert_eq!(queue.pop(), Some(0));
    assert_eq!(queue.pop(), Some(1));
    assert_eq!(queue.pop(), Some(2));
    assert_eq!(queue.pop(), None);
}

#[test]
fn every_push_comes_out_once_and_in_order() {
    let mut queue = MlfqQueue::new();
    let items = [(10, 3), (11, 0), (12, 9), (13, 3), (14, 7), (15, 0), (16, 3)];
    for (thread, level) in items {
        assert!(queue.push(thread, level));
    }
    let mut left = items.len() as u32;
    for thread in [11, 15, 10, 13, 16, 12, 14] {
        assert_eq!(queue.len(), left);
        assert!(!queue.is_empty());
        assert_eq!(queue.pop(), Some(thread));
        left -= 1;
    }
    assert!(queue.is_empty());
    assert_eq!(queue.pop(), None);
}

#[test]
fn steal_into_moves_requested_threads() {
    let threads: Vec<Thread> = (0..4).map(|i| test_thread(i, 0, ThreadState::Runnable)).collect();
    let mut donor = MlfqQueue::new();
    let mut receiver = MlfqQueue::new();
    assert!(donor.push(0, 0));
    assert!(donor.push(1, 0));
    assert!(donor.push(2, 0));
    assert!(donor.push(3, 0));

    assert_eq!(donor.steal_into(&mut receiver, 2, &threads), 2);
    assert_eq!(donor.len(), 2);
    assert_eq!(receiver.len(), 2);
}

#[test]
fn full_level_refuses_a_thread() {
    let mut queue = MlfqQueue::new();
    for i in 0..255 {
        assert!(queue.push(i, 3));
    }
    assert!(!queue.push(255, 3));
    assert!(queue.push(255, 4));
    // A level beyond the last is the last.
    assert!(queue.push(256, 99));
    assert_eq!(queue.len(), 257);
}

#[test]
fn boost_brings_every_thread_to_the_top() {
    let mut threads: Vec<Thread> =
        (0..3).map(|i| test_thread(i, i as u8 + 2, ThreadState::Runnable)).collect();
    let mut queue = MlfqQueue::new();
    for i in 0..3usize {
        assert!(queue.push(i, i + 2));
    }
    queue.boost_all(&mut threads);
    assert_eq!(queue.len(), 3);
    for t in &threads {
        assert_eq!(t.priority, 0);
    }
    assert_eq!(queue.pop(), Some(0));
}

#[test]
fn least_loaded_cpu_picks_shortest_queue() {
    let mut s = scheduler(2, 7);
    for t in 2..7usize {
        assert!(s.cpus[0].value.run_queue.push(t, 0));
    }
    for t in 7..9usize {
        assert!(s.cpus[1].value.run_queue.push(t, 0));
    }
    assert_eq!(least_loaded_cpu(&s), 1);
}

#[test]
fn steal_cursor_advances_after_empty_attempt() {
    let mut s = scheduler(2, 0);
    s.cpus[0].value.steal_cursor = 1;
    assert_eq!(try_steal(&mut s, 0), None);
    assert_eq!(s.cpus[0].value.steal_cursor, 0);
}

#[test]
fn steal_cursor_skips_self_and_tries_next_cpu() {
    let mut s = scheduler(2, 0);
    s.cpus[0].value.steal_cursor = 0;
    assert_eq!(try_steal(&mut s, 0), None);
    assert_eq!(s.cpus[0].value.steal_cursor, 0);
}

#[test]
fn idle_cpu_steals_from_a_busy_one() {
    let mut s = scheduler(2, 4);
    for t in 2..6usize {
        assert!(s.cpus[1].value.run_queue.push(t, 0));
    }
    s.cpus[0].value.steal_cursor = 1;
    assert!(try_steal(&mut s, 0).is_some());
    let left = s.cpus[1].value.run_queue.len() + s.cpus[0].value.run_queue.len();
    assert_eq!(left, 3);
}

#[test]
fn context_new_kernel_sets_entry_and_aligned_stack() {
    let ctx = Context::new_kernel(0x1234_5678, 0x8000);
    assert_eq!(ctx.rip, 0x1234_5678);
    assert_eq!(ctx.rsp, 0x7ff8);
}

#[test]
fn context_rsp_alignment() {
    let ctx = Context::new_kernel(0x1234_5678, 4096);
    assert_eq!(ctx.rsp % 16, 8, "RSP should be 16n-8 for SysV ABI");
    assert_eq!(ctx.rip, 0x1234_5678);
}

#[test]
fn kstack_size_aligned() {
    assert_eq!(KSTACK_SIZE % 16, 0);
}

#[test]
fn thread_demotes_after_timeslice() {
    let mut thread = test_thread(1, 1, ThreadState::Running);
    assert!(!charge_tick(&mut thread));
    assert!(charge_tick(&mut thread));
    assert_eq!(thread.priority, 2);
    assert_eq!(thread.ticks_used, 0);
}

#[test]
fn thread_is_runnable_checks_state() {
    let runnable = test_thread(1, 0, ThreadState::Runnable);
    let running = test_thread(2, 0, ThreadState::Running);
    assert!(runnable.is_runnable());
    assert!(!running.is_runnable());
}

#[test]
fn new_queue_is_empty() {
    let queue = WaitQueue::new();
    assert!(queue.is_empty());
    assert_eq!(queue.len(), 0);
}

#[test]
fn enqueue_and_dequeue_updates_len() {
    let mut queue = WaitQueue::new();
    let mut nodes = vec![WaitNode::new(Some(0))];

    queue.enqueue(&mut nodes, 0);
    assert_eq!(queue.len(), 1);
    assert!(!queue.is_empty());

    queue.dequeue(0);
    assert_eq!(queue.len(), 0);
    assert!(queue.is_empty());
}

#[test]
fn wake_zero_does_not_modify_queue() {
    let mut s = scheduler(1, 1);
    let mut queue = WaitQueue::new();
    let mut nodes = vec![WaitNode::new(Some(1))];
    s.threads[1].state = ThreadState::Blocked;

    queue.enqueue(&mut nodes, 0);
    assert_eq!(queue.wake_n(&mut s, &mut nodes, 0, 0), 0);
    assert_eq!(queue.len(), 1);
    assert!(!nodes[0].woken);

    queue.dequeue(0);
}

#[test]
fn blocked_thread_runs_again_after_it_is_woken() {
    let mut s = scheduler(1, 2);
    let mut nodes: Vec<WaitNode> = Vec::new();
    let mut wq = WaitQueue::new();
    s.cpus[0].value.current = Some(1);
    s.threads[1].state = ThreadState::Running;
    enqueue_thread(&mut s, 2, 0, 0);
    let r = thread_block(&mut s, &mut nodes, &mut wq, 0);
    assert_eq!(r, Switch::To { from: Some(1), to: 2, hook: false });
    assert_eq!(s.threads[1].state, ThreadState::Blocked);
    assert_eq!(current_thread(&s, 0), Some(2));
    assert!(wake_one(&mut s, &mut nodes, &mut wq, 0));
    assert!(!wake_one(&mut s, &mut nodes, &mut wq, 0));
    assert_eq!(s.threads[1].state, ThreadState::Runnable);
    assert_eq!(thread_yield(&mut s, 0), Switch::To { from: Some(2), to: 1, hook: false });
}

#[test]
fn thread_blocks_only_if_it_still_must() {
    let mut s = scheduler(1, 1);
    let mut nodes: Vec<WaitNode> = Vec::new();
    let mut wq = WaitQueue::new();
    s.cpus[0].value.current = Some(1);
    s.threads[1].state = ThreadState::Running;
    assert_eq!(thread_block_if(&mut s, &mut nodes, &mut wq, 0, || false), None);
    assert!(wq.is_empty());
    assert!(thread_block_if(&mut s, &mut nodes, &mut wq, 0, || true).is_some());
    assert_eq!(wq.len(), 1);
    assert_eq!(wake_all(&mut s, &mut nodes, &mut wq, 0), 1);
    assert!(matches!(
        wake_one_and_yield(&mut s, &mut nodes, &mut wq, 0),
        Switch::To { .. }
    ));
}

#[test]
fn spawn_goes_to_the_shortest_queue() {
    let mut s = scheduler(2, 0);
    spawn(&mut s, 0x1234, 0x6000_0000);
    spawn(&mut s, 0x1234, 0x6001_0000);
    assert_eq!(s.cpus[0].value.run_queue.len(), 1);
    assert_eq!(s.cpus[1].value.run_queue.len(), 1);
}

#[test]
fn schedule_with_nothing_to_do_runs_the_idle_thread() {
    let mut s = scheduler(1, 1);
    s.cpus[0].value.current = Some(1);
    s.threads[1].state = ThreadState::Dead;
    assert_eq!(schedule(&mut s, 0), Switch::To { from: Some(1), to: 0, hook: false });
    assert_eq!(schedule(&mut s, 0), Switch::Stay);
}

#[test]
fn spin_lock_is_taken_once() {
    let mut lock: SpinLock<u32> = SpinLock::new(5);
    let guard = lock.try_lock().unwrap();
    assert!(lock.try_lock().is_none());
    lock.value += 1;
    lock.unlock(guard);
    assert!(lock.try_lock().is_some());
    assert_eq!(lock.value, 6);
}

#[test]
fn backoff_waits_longer_up_to_a_limit() {
    let mut b = Backoff::with_max(6);
    assert_eq!(b.snooze(), 1);
    assert_eq!(b.snooze(), 2);
    assert_eq!(b.snooze(), 4);
    assert_eq!(b.snooze(), 6);
    assert_eq!(b.snooze(), 6);
    b.reset();
    assert_eq!(b.snooze(), 1);
}

#[test]
fn seqlock_read_during_a_write_is_refused() {
    let mut lock: SeqLock<u32> = SeqLock::new(1);
    assert_eq!(lock.read(), 1);
    lock.write(|v: u32| v + 1);
    assert_eq!(lock.read(), 2);
    // A reader that began before the write sees that it is stale.
    assert_eq!(lock.try_read(0), None);
    assert_eq!(lock.try_read(2), Some(2));
}
