//! System calls and the services that the file system registers.

use std::cell::Cell;

use rumicos::mem::{PageFlags, PhysAddr, PhysMem};
use rumicos::paging::{PageTable, UserTables};
use rumicos::proc::clone::{CLONE_VM, SYS_CLONE};
use rumicos::proc::errno::{EFAULT, EINVAL, ENOENT};
use rumicos::proc::fork::SYS_FORK;
use rumicos::proc::hooks::{
    load_exec_file, page_cache_get_or_fill, page_cache_mark_dirty, page_cache_writeback,
    register_exec_loader, register_extra, register_page_cache_hooks, register_vnode_refcount_hooks,
    register_vnode_release_hook, vnode_dec_ref, vnode_inc_ref, vnode_release, PageCacheHooks, VnodeHooks,
};
use rumicos::proc::mmap::{sys_mmap, sys_munmap};
use rumicos::proc::signal::{SigAction, SyscallFrame, SYS_KILL, SYS_SIGACTION};
use rumicos::proc::state::Kernel;
use rumicos::proc::syscall::{
    action_from_user, action_to_user, chained_syscall, is_user_ptr, proc_syscall_handler, sys_prctl,
    sys_write_direct, Call, CallEnv, SyscallAction, PR_GET_NAME, SYS_DUP, SYS_DUP2, SYS_EXECVE, SYS_PRCTL,
};
use rumicos::proc::usermem::{
    copy_from_user, nul_terminated_len, read_u64_from_user, sys_execve, texts, UserError,
};
use rumicos::proc::vma::{
    MAP_ANONYMOUS, MAP_PRIVATE, MAP_SHARED, PROT_READ, SYS_MMAP, SYS_MUNMAP,
};

fn machine() -> Kernel {
    let bytes: Vec<u8> = vec![0; 0x8000];
    Kernel::new(PhysMem::new(bytes, vec![0x3000, 0x2000, 0x1000]), PageTable::new())
}

fn env() -> CallEnv {
    let frame = SyscallFrame {
        user_rip: 0,
        user_rsp: 0,
        user_rflags: 0,
        rbx: 0,
        rbp: 0,
        r12: 0,
        r13: 0,
        r14: 0,
        r15: 0,
    };
    CallEnv { frame, pcid: 2, entry: 0x1234, kstack: 0x6000_0000, cpu_id: 0 }
}

#[test]
fn user_ptr_rejects_null_page() {
    assert!(!is_user_ptr(0, 1));
}

#[test]
fn user_ptr_accepts_normal() {
    assert!(is_user_ptr(0x1000, 0x1000));
}

#[test]
fn user_ptr_rejects_kernel_space() {
    assert!(!is_user_ptr(0xffff_8000_0000_0000, 1));
}

#[test]
fn user_ptr_rejects_overflow() {
    assert!(!is_user_ptr(usize::MAX, 1));
}

#[test]
fn sys_execve_number_is_59() {
    assert_eq!(SYS_EXECVE, 59);
}

#[test]
fn prctl_syscall_numbers_match_linux() {
    assert_eq!(SYS_PRCTL, 157);
    assert_eq!(PR_GET_NAME, 16);
}

#[test]
fn dup_syscall_numbers_match_linux() {
    assert_eq!(SYS_DUP, 32);
    assert_eq!(SYS_DUP2, 33);
}

#[test]
fn sys_prctl_rejects_unknown_option() {
    let mut k = machine();
    assert_eq!(sys_prctl(&mut k, 0, 0x1000, 0), EINVAL, "PR_SET_NAME/unknown must be EINVAL");
    assert_eq!(sys_prctl(&mut k, 9999, 0x1000, 0), EINVAL);
}

#[test]
fn sys_prctl_get_name_rejects_null_ptr() {
    let mut k = machine();
    assert_eq!(sys_prctl(&mut k, PR_GET_NAME, 0, 0), EFAULT);
}

#[test]
fn sys_prctl_get_name_rejects_kernel_ptr() {
    let mut k = machine();
    assert_eq!(sys_prctl(&mut k, PR_GET_NAME, 0xffff_8000_0000_0000, 0), EFAULT);
}

#[test]
fn prctl_dispatch_arm_is_wired() {
    let mut k = machine();
    let call = Call { nr: SYS_PRCTL, a1: 0xdead, a2: 0x1000, a3: 0, a4: 0, a5: 0, a6: 0 };
    match proc_syscall_handler(&mut k, call, &env()) {
        SyscallAction::Return(v) => assert_eq!(v, EINVAL),
        _ => panic!("the call must return"),
    }
}

#[test]
fn proc_syscall_numbers_include_vm_and_fork() {
    assert_eq!(SYS_FORK, 57);
    assert_eq!(SYS_CLONE, 56);
    assert_eq!(SYS_MMAP, 9);
    assert_eq!(SYS_MUNMAP, 11);
}

#[test]
fn sys_mmap_arm_threads_a5_into_fd() {
    let mut k = machine();
    let call = Call { nr: SYS_MMAP, a1: 0, a2: 4096, a3: 1, a4: 0x02, a5: (-1i64) as u64, a6: 0 };
    match proc_syscall_handler(&mut k, call, &env()) {
        SyscallAction::Return(ret) => {
            assert_eq!(ret, -9, "expected EBADF from fd=-1 on a non-anonymous mapping")
        }
        _ => panic!("the call must return"),
    }
}

#[test]
fn sys_mmap_arm_threads_a6_into_offset() {
    let mut k = machine();
    let call =
        Call { nr: SYS_MMAP, a1: 0, a2: 4096, a3: 1, a4: 0x02 | 0x20, a5: (-1i64) as u64, a6: 4097 };
    match proc_syscall_handler(&mut k, call, &env()) {
        SyscallAction::Return(ret) => assert_eq!(ret, -22, "expected EINVAL from a misaligned offset"),
        _ => panic!("the call must return"),
    }
}

#[test]
fn sys_mmap_rejects_map_anonymous_with_real_fd() {
    let mut k = machine();
    assert_eq!(sys_mmap(&mut k, 0, 4096, PROT_READ, MAP_PRIVATE | MAP_ANONYMOUS, 3, 0, 0), EINVAL);
}

#[test]
fn sys_mmap_rejects_unaligned_offset() {
    let mut k = machine();
    assert_eq!(sys_mmap(&mut k, 0, 4096, PROT_READ, MAP_PRIVATE | MAP_ANONYMOUS, -1, 100, 0), EINVAL);
}

#[test]
fn sys_mmap_rejects_neither_shared_nor_private() {
    let mut k = machine();
    assert_eq!(sys_mmap(&mut k, 0, 4096, PROT_READ, MAP_ANONYMOUS, -1, 0, 0), EINVAL);
}

#[test]
fn sys_mmap_rejects_both_shared_and_private() {
    let mut k = machine();
    assert_eq!(
        sys_mmap(&mut k, 0, 4096, PROT_READ, MAP_SHARED | MAP_PRIVATE | MAP_ANONYMOUS, -1, 0, 0),
        EINVAL
    );
}

#[test]
fn bad_arguments_are_refused_while_the_scheduler_is_locked() {
    let mut k = machine();
    k.sched.cpus[0].locked = true;
    let flags = MAP_PRIVATE | MAP_ANONYMOUS;
    assert_eq!(sys_mmap(&mut k, 0x1000, 4096, PROT_READ, flags, -1, 0, 0), EINVAL);
    assert_eq!(sys_mmap(&mut k, 0, 4096, PROT_READ, MAP_PRIVATE, -1, 0, 0), -9);
    assert_eq!(sys_munmap(&mut k, 0, 4096, 0), EINVAL);
    assert_eq!(sys_prctl(&mut k, 0, 0x1000, 0), EINVAL);
    assert_eq!(sys_prctl(&mut k, PR_GET_NAME, 0, 0), EFAULT);
    let refused = [
        (SYS_MMAP, 0, 0, EINVAL),
        (SYS_MUNMAP, 0x1001, 4096, EINVAL),
        (SYS_PRCTL, 0xdead, 0x1000, EINVAL),
        (SYS_EXECVE, 0, 0, EFAULT),
        (SYS_SIGACTION, 9, 0, EINVAL),
        (SYS_KILL, 1, 0, EINVAL),
        (SYS_CLONE, CLONE_VM as u64, 0, EINVAL),
    ];
    for (nr, a1, a2, value) in refused {
        let call = Call { nr, a1, a2, a3: 0, a4: 0, a5: 0, a6: 0 };
        match proc_syscall_handler(&mut k, call, &env()) {
            SyscallAction::Return(v) => assert_eq!(v, value, "call {nr}"),
            _ => panic!("call {nr} must return"),
        }
    }
    let unknown = Call { nr: 2, a1: 0, a2: 0, a3: 0, a4: 0, a5: 0, a6: 0 };
    assert!(matches!(proc_syscall_handler(&mut k, unknown, &env()), SyscallAction::Chain));
}

#[test]
fn munmap_rejects_unaligned_addresses() {
    let mut k = machine();
    assert_eq!(sys_munmap(&mut k, 1, 4096, 0), EINVAL);
}

#[test]
fn nul_terminated_len_finds_embedded_null() {
    assert_eq!(nul_terminated_len(b"hello\0world"), 5);
}

#[test]
fn nul_terminated_len_without_null_returns_full_len() {
    let buf = [b'a'; 16];
    assert_eq!(nul_terminated_len(&buf), 16);
}

#[test]
fn nul_terminated_len_empty_buf_is_zero() {
    assert_eq!(nul_terminated_len(&[]), 0);
}

fn fake_loader(path: &str, _max: usize) -> (i64, Vec<u8>) {
    if path != "/ok" {
        return (-2, Vec::new());
    }
    (1, vec![0x42])
}

#[test]
fn exec_loader_registration_round_trip() {
    let mut slot: Option<fn(&str, usize) -> (i64, Vec<u8>)> = None;
    assert_eq!(load_exec_file(&slot, "/anything", 4).0, ENOENT, "no loader registered yet");

    register_exec_loader(&mut slot, fake_loader);

    let (read, buf) = load_exec_file(&slot, "/ok", 4);
    assert_eq!(read, 1);
    assert_eq!(buf[0], 0x42);
    assert_eq!(load_exec_file(&slot, "/missing", 4).0, -2);
}

#[test]
fn page_cache_and_vnode_refcount_hooks_round_trip() {
    let fill_calls = Cell::new(0);
    let dirty_calls = Cell::new(0);
    let writeback_calls = Cell::new(0);
    let inc_ref_calls = Cell::new(0);
    let dec_ref_calls = Cell::new(0);

    let mut cache = PageCacheHooks { get_or_fill: None, mark_dirty: None, writeback: None };
    register_page_cache_hooks(
        &mut cache,
        |vnode_ptr: usize, file_offset: u64| -> Option<u64> {
            fill_calls.set(fill_calls.get() + 1);
            if vnode_ptr == 0 {
                return None;
            }
            Some(vnode_ptr as u64 + file_offset)
        },
        |_vnode_ptr: usize, _file_offset: u64| dirty_calls.set(dirty_calls.get() + 1),
        |_vnode_ptr: usize| -> i32 {
            writeback_calls.set(writeback_calls.get() + 1);
            0
        },
    );
    let mut vnodes = VnodeHooks { inc_ref: None, dec_ref: None };
    register_vnode_refcount_hooks(
        &mut vnodes,
        |_vnode_ptr: usize| inc_ref_calls.set(inc_ref_calls.get() + 1),
        |_vnode_ptr: usize| dec_ref_calls.set(dec_ref_calls.get() + 1),
    );

    let filled = page_cache_get_or_fill(&cache, 0x1000, 0x2000);
    assert_eq!(filled, Some(0x3000));
    assert_eq!(fill_calls.get(), 1);

    page_cache_mark_dirty(&cache, 0x1000, 0);
    assert_eq!(dirty_calls.get(), 1);

    assert_eq!(page_cache_writeback(&cache, 0x1000), 0);
    assert_eq!(writeback_calls.get(), 1);

    vnode_inc_ref(&vnodes, 0x1000);
    vnode_dec_ref(&vnodes, 0x1000);
    assert_eq!(inc_ref_calls.get(), 1);
    assert_eq!(dec_ref_calls.get(), 1);

    assert_eq!(page_cache_get_or_fill(&cache, 0, 0), None);
}

#[test]
fn release_hook_is_called_once_registered() {
    let calls = Cell::new(0);
    let mut slot = None;
    register_vnode_release_hook(&mut slot, |v: usize| calls.set(calls.get() + v));
    vnode_release(&slot, 5);
    assert_eq!(calls.get(), 5);
    let mut extra: Option<u32> = None;
    register_extra(&mut extra, 7);
    assert_eq!(extra, Some(7));
}

#[test]
fn signal_actions_round_trip_through_their_numbers() {
    for action in [SigAction::Default, SigAction::Ignore, SigAction::Handler { user_fn: 0x4000 }] {
        assert_eq!(action_from_user(action_to_user(action)), action);
    }
}

#[test]
fn write_before_the_file_system_is_up() {
    let mut k = machine();
    assert_eq!(sys_write_direct(&mut k, 1, 0x2000, 5), 5);
    assert_eq!(k.log.len(), 1);
    assert_eq!(sys_write_direct(&mut k, 7, 0x2000, 5), -38);
    assert_eq!(sys_write_direct(&mut k, 1, 0, 5), EFAULT);
}

#[test]
fn a_call_that_nobody_answers_has_no_such_call() {
    let mut k = machine();
    let call = Call { nr: 777, a1: 0, a2: 0, a3: 0, a4: 0, a5: 0, a6: 0 };
    assert_eq!(chained_syscall(&mut k, call, None), -38);
    assert_eq!(chained_syscall(&mut k, call, Some(12)), 12);
}

/// A program whose pages at 0x10000 hold a path, an argument list and strings.
fn program() -> (UserTables, PhysMem) {
    let bytes: Vec<u8> = vec![0; 0x20000];
    let mut mem = PhysMem::new(bytes, vec![0x3000, 0x2000, 0x1000]);
    let mut t = UserTables::new(PhysAddr::new(0x9000), &PageTable::new());
    let rw = PageFlags::new().with_present().with_writable().with_user_accessible();
    t.map_page(&mut mem, 0x10000, PhysAddr::new(0x10000), rw);
    t.map_page(&mut mem, 0x11000, PhysAddr::new(0x11000), rw);
    (t, mem)
}

#[test]
fn execve_reads_its_strings_from_the_program() {
    let (t, mut mem) = program();
    mem.write_bytes(0x10000, b"/bin/echo\0");
    mem.write_bytes(0x10100, b"echo\0");
    mem.write_bytes(0x10200, b"hi\0");
    mem.write_bytes(0x10300, &0x10100u64.to_le_bytes());
    mem.write_bytes(0x10308, &0x10200u64.to_le_bytes());
    let request = match sys_execve(&t, &mem, 0x10000, 0x10300, 0) {
        Ok(request) => request,
        Err(_) => panic!("the request is well formed"),
    };
    assert_eq!(request.path, b"/bin/echo".to_vec());
    assert_eq!(texts(&request.argv), vec!["echo", "hi"]);
    assert!(request.envp.is_empty());
    // A path that is no text, or in the kernel.
    mem.write_bytes(0x10000, &[0xff, 0xfe, 0]);
    assert!(matches!(sys_execve(&t, &mem, 0x10000, 0x10300, 0), Err(UserError::Errno(_))));
    assert!(matches!(
        sys_execve(&t, &mem, 0xffff_8000_0000_0000, 0x10300, 0),
        Err(UserError::Errno(e)) if e == EFAULT
    ));
    assert!(matches!(sys_execve(&t, &mem, 0x20000, 0x10300, 0), Err(UserError::Fault(0x20000))));
}

#[test]
fn user_memory_is_read_across_pages() {
    let (t, mut mem) = program();
    mem.write_bytes(0x10ffc, &0x1122_3344_5566_7788u64.to_le_bytes());
    assert_eq!(read_u64_from_user(&t, &mem, 0x10ffc), Ok(0x1122_3344_5566_7788));
    assert_eq!(copy_from_user(&t, &mem, 0x10ffc, 2), Ok(vec![0x88, 0x77]));
    assert_eq!(copy_from_user(&t, &mem, 0x11fff, 2), Err(0x12000));
}
