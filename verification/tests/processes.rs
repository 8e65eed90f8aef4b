//! Processes: making them, ending them, waiting for them.

use rumicos::mem::PhysMem;
use rumicos::paging::PageTable;
use rumicos::proc::address_space::AddressSpace;
use rumicos::proc::clone::{sys_clone, CLONE_VM, SYS_CLONE};
use rumicos::proc::delivery::{deliver_on_syscall_return_hook, Delivery};
use rumicos::proc::effects::Effect;
use rumicos::proc::elf::{ELF64_PHDR_SIZE, ELFCLASS64, ELFDATA2LSB, EM_X86_64, ET_EXEC};
use rumicos::proc::errno::{EINVAL, ENOSYS};
use rumicos::proc::fork::{sys_fork, SYS_FORK};
use rumicos::proc::process::{add_child, children_full, remove_child, Process, ProcessState, MAX_CHILDREN};
use rumicos::proc::ptable::{
    ptable_bucket, ptable_find, ptable_insert, ptable_remove, PTable, PTABLE_BUCKETS,
};
use rumicos::proc::shootdown::{
    remote_targets, shootdown_complete, shootdown_handler, shootdown_page, ActiveCpuMask,
    ShootdownRequest, SHOOTDOWN_VECTOR,
};
use rumicos::proc::signal::{SyscallFrame, SIGCHLD, SIGKILL};
use rumicos::proc::state::{activate_address_space, alloc_pid, current_process, Kernel};
use rumicos::proc::syscall::{
    proc_syscall_handler, sys_exit, sys_getpid, sys_kill, Call, CallEnv, SyscallAction, SYS_GETPID,
};
use rumicos::proc::wait::{
    encode_exit_status, find_zombie, reap_zombie, sys_wait4, WaitOutcome, SYS_WAIT4, WNOHANG,
};
use rumicos::sched::schedule::init;
use rumicos::sched::thread::ThreadState;

fn header() -> Vec<u8> {
    let mut data = vec![0u8; 64];
    data[0..4].copy_from_slice(&[0x7f, b'E', b'L', b'F']);
    data[4] = ELFCLASS64;
    data[5] = ELFDATA2LSB;
    data[6] = 1;
    data[16..18].copy_from_slice(&ET_EXEC.to_le_bytes());
    data[18..20].copy_from_slice(&EM_X86_64.to_le_bytes());
    data[20..24].copy_from_slice(&1u32.to_le_bytes());
    data[24..32].copy_from_slice(&0x400000u64.to_le_bytes());
    data[32..40].copy_from_slice(&64u64.to_le_bytes());
    data[52..54].copy_from_slice(&64u16.to_le_bytes());
    data[54..56].copy_from_slice(&ELF64_PHDR_SIZE.to_le_bytes());
    data
}

fn empty_machine() -> Kernel {
    let frames: u64 = 600;
    let bytes: Vec<u8> = vec![0; (frames * 4096) as usize];
    let pool: Vec<u64> = (1..frames).rev().map(|i| i * 4096).collect();
    Kernel::new(PhysMem::new(bytes, pool), PageTable::new())
}

/// One process, which runs on CPU 0.
fn running() -> Kernel {
    let mut k = empty_machine();
    init(&mut k.sched, 1, 0x9999, &[0x4000_0000]);
    let p = Process::create(&mut k, &header(), "init", 1, 0x1234, 0x5000_0000);
    let t = k.procs[p].thread.unwrap();
    k.sched.cpus[0].value.current = Some(t);
    k.sched.threads[t].state = ThreadState::Running;
    k
}

fn frame() -> SyscallFrame {
    SyscallFrame {
        user_rip: 0x40_1000,
        user_rsp: 0x7fff_fffe_0000,
        user_rflags: 0x246,
        rbx: 1,
        rbp: 2,
        r12: 3,
        r13: 4,
        r14: 5,
        r15: 6,
    }
}

#[test]
fn clone_vm_matches_linux_bit_value() {
    assert_eq!(CLONE_VM, 0x100);
}

#[test]
fn sys_clone_number_matches_linux() {
    assert_eq!(SYS_CLONE, 56);
}

#[test]
fn clone_vm_with_null_child_stack_is_einval() {
    let mut k = empty_machine();
    assert_eq!(sys_clone(&mut k, CLONE_VM, 0, &frame(), 2, 0x1234, 0x6000_0000, 0), EINVAL);
}

#[test]
fn non_clone_vm_flags_have_clone_vm_unset_by_construction() {
    assert_eq!(0u32 & CLONE_VM, 0, "flags=0 has CLONE_VM unset");
    assert_eq!(0x200u32 & CLONE_VM, 0, "an unrelated bit also has CLONE_VM unset");
    // Without it a child gets an address space of its own, as from a fork.
    let mut k = running();
    assert_eq!(sys_clone(&mut k, 0, 0, &frame(), 2, 0x1234, 0x6000_0000, 0), 2);
    assert_ne!(k.procs[1].address_space, k.procs[0].address_space);
}

#[test]
fn fork_syscall_number_matches_linux() {
    assert_eq!(SYS_FORK, 57);
}

#[test]
fn alloc_pid_increments() {
    let mut k = empty_machine();
    let a = alloc_pid(&mut k);
    let b = alloc_pid(&mut k);
    assert_eq!(a + 1, b);
}

#[test]
fn activate_address_space_tracks_active_cpus_and_current_slot() {
    const CPU: u32 = 42;
    let mut k = empty_machine();
    let space_a = AddressSpace::new(&mut k.mem, &k.kernel_table, 1);
    let a = AddressSpace::alloc_shared(&mut k.spaces, &mut k.mem, space_a);
    let space_b = AddressSpace::new(&mut k.mem, &k.kernel_table, 2);
    let b = AddressSpace::alloc_shared(&mut k.spaces, &mut k.mem, space_b);
    let active =
        |k: &Kernel, h: usize| k.spaces.slots[h].as_ref().unwrap().space.active_cpus.snapshot();

    activate_address_space(&mut k, a, CPU);
    assert_eq!(active(&k, a), 1 << CPU);
    assert_eq!(active(&k, b), 0);

    activate_address_space(&mut k, a, CPU);
    assert_eq!(active(&k, a), 1 << CPU);

    activate_address_space(&mut k, b, CPU);
    assert_eq!(active(&k, b), 1 << CPU);
    assert_eq!(active(&k, a), 0);
}

#[test]
fn insert_then_find_returns_the_pointer() {
    let mut t = PTable::new();
    ptable_insert(&mut t, 1001, 0xdead_0000);
    assert_eq!(ptable_find(&t, 1001), Some(0xdead_0000));
    ptable_remove(&mut t, 1001);
}

#[test]
fn find_after_remove_is_none() {
    let mut t = PTable::new();
    ptable_insert(&mut t, 1002, 0xbeef_0000);
    ptable_remove(&mut t, 1002);
    assert_eq!(ptable_find(&t, 1002), None);
}

#[test]
fn find_unknown_pid_is_none() {
    let t = PTable::new();
    assert_eq!(ptable_find(&t, 999_999), None);
}

#[test]
fn bucket_spreads_low_pids() {
    let mut seen = [false; PTABLE_BUCKETS];
    let mut distinct = 0;
    for pid in 1..64u32 {
        let b = ptable_bucket(pid);
        if !seen[b] {
            seen[b] = true;
            distinct += 1;
        }
    }
    assert!(distinct >= 8, "expected >= 8 distinct buckets for PIDs 1..64, got {distinct}");
}

#[test]
fn active_cpu_mask_mark_active_sets_only_that_bit() {
    let mut mask = ActiveCpuMask::new();
    mask.mark_active(3);
    assert_eq!(mask.snapshot(), 1 << 3);
}

#[test]
fn active_cpu_mask_mark_inactive_clears_only_that_bit() {
    let mut mask = ActiveCpuMask::new();
    mask.mark_active(3);
    mask.mark_active(5);
    mask.mark_inactive(3);
    assert_eq!(mask.snapshot(), 1 << 5);
}

#[test]
fn active_cpu_mask_default_is_empty() {
    let mask = ActiveCpuMask::default();
    assert_eq!(mask.snapshot(), 0);
}

#[test]
fn shootdown_request_remaining_starts_at_target_count() {
    let mask = 0b1011u64;
    let req = ShootdownRequest::new(mask, 0x1000);
    assert_eq!(req.remaining, 3);
    assert_eq!(req.virt, 0x1000);
    assert_eq!(mask.count_ones(), 3);
}

#[test]
fn remote_targets_excludes_self() {
    assert_eq!(remote_targets(0b101, 0), 0b100);
}

#[test]
fn remote_targets_only_self_active_is_empty() {
    assert_eq!(remote_targets(1 << 3, 3), 0);
}

#[test]
fn remote_targets_self_not_in_mask_is_unaffected() {
    assert_eq!(remote_targets(0b110, 0), 0b110);
}

#[test]
fn shootdown_vector_does_not_collide_with_timer_or_spurious() {
    assert_ne!(SHOOTDOWN_VECTOR, 0x20, "collides with TIMER_VECTOR");
    assert_ne!(SHOOTDOWN_VECTOR, 0xff, "collides with the spurious vector");
    assert_ne!(SHOOTDOWN_VECTOR, 14, "collides with PF_VECTOR");
}

#[test]
fn shootdown_is_complete_when_every_target_has_answered() {
    let mut pending: Option<ShootdownRequest> = None;
    let ids: Vec<Option<u32>> = (0..64).map(|i| if i < 4 { Some(i + 10) } else { None }).collect();
    let sent = shootdown_page(&mut pending, &ids, 0, 0b1011, 0x7000);
    assert_eq!(sent, vec![11, 13]);
    assert!(!shootdown_complete(&pending));
    assert_eq!(shootdown_handler(&mut pending, 1), Some(0x7000));
    assert!(!shootdown_complete(&pending));
    // A CPU that was not asked does not count.
    assert_eq!(shootdown_handler(&mut pending, 2), None);
    assert_eq!(pending.as_ref().map(|r| r.remaining), Some(1));
    assert_eq!(shootdown_handler(&mut pending, 3), Some(0x7000));
    assert!(shootdown_complete(&pending));
}

#[test]
fn syscall_numbers_match_linux() {
    assert_eq!(SYS_WAIT4, 61);
    assert_eq!(WNOHANG, 1);
}

#[test]
fn encode_status_zero_is_wifexited_zero() {
    let s = encode_exit_status(0);
    assert_eq!(s & 0x7f, 0);
    assert_eq!((s >> 8) & 0xff, 0);
}

#[test]
fn encode_status_42_round_trips() {
    let s = encode_exit_status(42);
    assert_eq!(s & 0x7f, 0, "WIFEXITED must hold");
    assert_eq!((s >> 8) & 0xff, 42, "WEXITSTATUS == 42");
}

#[test]
fn encode_status_negative_one_is_255() {
    assert_eq!((encode_exit_status(-1) >> 8) & 0xff, 255);
}

#[test]
fn encode_status_256_overflows_to_zero() {
    assert_eq!((encode_exit_status(256) >> 8) & 0xff, 0);
}

#[test]
fn add_child_then_present() {
    let mut k = running();
    let p = &mut k.procs[0];
    assert!(add_child(p, 7));
    assert!(p.children.contains(&7));
    assert_eq!(p.child_count, 1);
}

#[test]
fn remove_child_clears_slot_and_count() {
    let mut k = running();
    let p = &mut k.procs[0];
    add_child(p, 9);
    remove_child(p, 9);
    assert!(!p.children.contains(&9), "slot must be cleared to 0");
    assert_eq!(p.child_count, 0);
}

#[test]
fn add_child_up_to_max_then_full() {
    let mut k = running();
    let p = &mut k.procs[0];
    for pid in 1..=MAX_CHILDREN as u32 {
        assert!(add_child(p, pid), "child {pid} should fit");
    }
    assert!(!add_child(p, 999), "list must be full at MAX_CHILDREN");
    assert!(children_full(p));
    assert_eq!(p.child_count, MAX_CHILDREN as u32);
}

#[test]
fn find_zombie_with_no_children_is_none() {
    let k = running();
    assert_eq!(find_zombie(&k, 0, -1), None);
    assert_eq!(find_zombie(&k, 0, 5), None);
}

#[test]
fn find_zombie_rejects_process_group_pid() {
    let k = running();
    assert_eq!(find_zombie(&k, 0, -2), None, "pid < -1 is a group wait");
}

#[test]
fn ptable_find_after_remove_is_none_regression() {
    let mut t = PTable::new();
    ptable_insert(&mut t, 54321, 0xabc0_0000);
    assert!(ptable_find(&t, 54321).is_some());
    ptable_remove(&mut t, 54321);
    assert_eq!(ptable_find(&t, 54321), None);
}

#[test]
fn fork_exit_wait() {
    let mut k = running();
    assert_eq!(current_process(&k, 0), Some(0));
    assert_eq!(sys_getpid(&k, 0), 1);
    assert_eq!(sys_fork(&mut k, &frame(), 2, 0x1234, 0x6000_0000, 0), 2);
    assert_eq!(k.procs[1].pid, 2);
    assert_eq!(k.procs[1].parent_pid, 1);
    assert_eq!(k.procs[1].user_rip, 0x40_1000);
    assert_eq!(k.procs[1].user_rax, 0);
    assert_eq!(k.procs[1].name, k.procs[0].name);
    // Nothing to wait for yet.
    assert_eq!(sys_wait4(&mut k, -1, 0, WNOHANG, 0), WaitOutcome::Return(0));
    // The child runs and exits.
    let t = k.procs[1].thread.unwrap();
    k.sched.cpus[0].value.current = Some(t);
    let _ = sys_exit(&mut k, 42, 0);
    assert_eq!(k.procs[1].state, ProcessState::Zombie);
    assert_ne!(k.procs[0].signals.pending.bits & (1 << SIGCHLD), 0);
    assert_eq!(find_zombie(&k, 0, 2), Some((2, 42)));
    // The parent hears of it.
    let t0 = k.procs[0].thread.unwrap();
    k.sched.cpus[0].value.current = Some(t0);
    // Only the number of the child itself will do.
    assert_eq!(find_zombie(&k, 0, 3), None);
    assert_eq!(find_zombie(&k, 0, 0x1_0000_0002), None);
    assert_eq!(sys_wait4(&mut k, 0x1_0000_0002, 0, WNOHANG, 0), WaitOutcome::Return(0));
    assert_eq!(sys_wait4(&mut k, -1, 0x5000, 0, 0), WaitOutcome::Return(2));
    assert!(k.log.contains(&Effect::Store32 { addr: 0x5000, word: 42 << 8 }));
    assert_eq!(ptable_find(&k.ptable, 2), None);
    assert_eq!(k.procs[0].child_count, 0);
    // And only once.
    assert_eq!(sys_wait4(&mut k, -1, 0, 0, 0), WaitOutcome::Return(-10));
    reap_zombie(&mut k, 0, 2);
    assert_eq!(k.procs[0].child_count, 0);
}

#[test]
fn clone_with_vm_shares_the_address_space() {
    let mut k = running();
    let r = sys_clone(&mut k, CLONE_VM, 0x7000_0000, &frame(), 2, 0x1234, 0x6000_0000, 0);
    assert_eq!(r, 2);
    assert_eq!(k.procs[1].address_space, k.procs[0].address_space);
    assert_eq!(k.procs[1].user_rsp, 0x7000_0000);
    let h = k.procs[0].address_space;
    assert_eq!(k.spaces.slots[h].as_ref().unwrap().space.refcount, 2);
}

#[test]
fn killed_process_ends_at_its_next_return() {
    let mut k = running();
    assert_eq!(sys_kill(&mut k, 1, SIGKILL), 0);
    assert_eq!(sys_kill(&mut k, 99, SIGKILL), -3);
    match deliver_on_syscall_return_hook(&mut k, &frame(), 5, 0) {
        Delivery::Leave(_) => {}
        other => panic!("expected the end of the process, got {other:?}"),
    }
    assert_eq!(k.procs[0].state, ProcessState::Zombie);
    assert_eq!(k.procs[0].exit_code, -9);
}

#[test]
fn without_a_signal_the_hook_returns_the_value() {
    let mut k = running();
    assert_eq!(deliver_on_syscall_return_hook(&mut k, &frame(), 5, 0), Delivery::Resume(5));
    // On a CPU without a process too.
    assert_eq!(deliver_on_syscall_return_hook(&mut k, &frame(), 6, 1), Delivery::Resume(6));
}

#[test]
fn calls_are_dispatched_by_number() {
    let mut k = running();
    let env = CallEnv { frame: frame(), pcid: 2, entry: 0x1234, kstack: 0x6000_0000, cpu_id: 0 };
    let call = |nr: u64| Call { nr, a1: 0, a2: 0, a3: 0, a4: 0, a5: 0, a6: 0 };
    assert!(matches!(
        proc_syscall_handler(&mut k, call(SYS_GETPID), &env),
        SyscallAction::Return(1)
    ));
    assert!(matches!(
        proc_syscall_handler(&mut k, call(SYS_FORK), &env),
        SyscallAction::Return(2)
    ));
    // A call of the file system is passed on.
    assert!(matches!(proc_syscall_handler(&mut k, call(2), &env), SyscallAction::Chain));
    assert_eq!(ENOSYS, -38);
}
