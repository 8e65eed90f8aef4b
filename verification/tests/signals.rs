//! Signals.

use rumicos::proc::signal::{
    check_and_deliver_iret, compute_signal_frame_layout, decide_next_signal, deliver_on_syscall_return,
    finish_handler, returning_to_user, signal_is_catchable, InterruptFrame, InterruptReturn, PendingSet,
    SavedUserContext, SigAction, SigTable, SignalOutcome, SignalState, SyscallFrame, SyscallReturn, NSIG,
    SIGCHLD, SIGHUP, SIGKILL, SIGNAL_HANDLER_RFLAGS, SIGRETURN_TRAMPOLINE_CODE,
    SIGTERM, SIGUSR1, SIGUSR2, SYS_KILL, SYS_SIGACTION, SYS_SIGRETURN,
};

#[test]
fn signal_numbers_match_linux() {
    assert_eq!(SIGKILL, 9);
    assert_eq!(SIGTERM, 15);
    assert_eq!(SIGCHLD, 17);
    assert_eq!(SIGUSR1, 10);
    assert_eq!(SIGUSR2, 12);
}

#[test]
fn signal_syscall_numbers_match_linux() {
    assert_eq!(SYS_SIGACTION, 13);
    assert_eq!(SYS_SIGRETURN, 15);
    assert_eq!(SYS_KILL, 62);
}

#[test]
fn raise_then_take_any_returns_that_signal() {
    let mut p = PendingSet::new();
    p.raise(SIGUSR1);
    assert_eq!(p.take_any(), Some(SIGUSR1));
    assert_eq!(p.take_any(), None);
}

#[test]
fn take_any_returns_lowest_number_first() {
    let mut p = PendingSet::new();
    p.raise(SIGTERM);
    p.raise(SIGHUP);
    assert_eq!(p.take_any(), Some(SIGHUP));
    assert_eq!(p.take_any(), Some(SIGTERM));
}

#[test]
fn sigkill_wins_over_sigterm_when_both_pending() {
    let mut p = PendingSet::new();
    p.raise(SIGTERM);
    p.raise(SIGKILL);
    assert_eq!(p.take_any(), Some(SIGKILL));
}

#[test]
fn take_any_clears_the_bit() {
    let mut p = PendingSet::new();
    p.raise(SIGUSR2);
    assert_ne!(p.bits, 0);
    let _ = p.take_any();
    assert_eq!(p.bits, 0);
}

#[test]
fn sigtable_default_for_unregistered_signal() {
    let t = SigTable::new();
    assert_eq!(t.actions[SIGUSR1 as usize], SigAction::Default);
}

#[test]
fn decide_no_pending_is_none() {
    let mut p = PendingSet::new();
    let t = SigTable::new();
    assert_eq!(decide_next_signal(&mut p, &t), SignalOutcome::Nothing);
    assert_eq!(decide_next_signal(&mut p, &t), SignalOutcome::Nothing);
}

#[test]
fn decide_sigkill_terminates_even_with_handler_registered() {
    let mut p = PendingSet::new();
    let mut t = SigTable::new();
    t.actions[SIGKILL as usize] = SigAction::Handler { user_fn: 0x1234 };
    p.raise(SIGKILL);
    assert_eq!(decide_next_signal(&mut p, &t), SignalOutcome::Terminate(SIGKILL));
}

#[test]
fn decide_sigterm_default_terminates() {
    let mut p = PendingSet::new();
    let t = SigTable::new();
    p.raise(SIGTERM);
    assert_eq!(decide_next_signal(&mut p, &t), SignalOutcome::Terminate(SIGTERM));
}

#[test]
fn decide_sigterm_with_handler_delivers_not_terminates() {
    let mut p = PendingSet::new();
    let mut t = SigTable::new();
    t.actions[SIGTERM as usize] = SigAction::Handler { user_fn: 0xABCD };
    p.raise(SIGTERM);
    assert_eq!(
        decide_next_signal(&mut p, &t),
        SignalOutcome::Deliver { user_fn: 0xABCD, signum: SIGTERM }
    );
}

#[test]
fn decide_handler_is_delivered_with_signum() {
    let mut p = PendingSet::new();
    let mut t = SigTable::new();
    t.actions[SIGUSR1 as usize] = SigAction::Handler { user_fn: 0x4020_00 };
    p.raise(SIGUSR1);
    assert_eq!(
        decide_next_signal(&mut p, &t),
        SignalOutcome::Deliver { user_fn: 0x4020_00, signum: SIGUSR1 }
    );
}

#[test]
fn decide_ignored_signal_is_none() {
    let mut p = PendingSet::new();
    let mut t = SigTable::new();
    t.actions[SIGUSR1 as usize] = SigAction::Ignore;
    p.raise(SIGUSR1);
    assert_eq!(decide_next_signal(&mut p, &t), SignalOutcome::Nothing);
}

#[test]
fn decide_default_non_fatal_signal_is_noop() {
    let mut p = PendingSet::new();
    let t = SigTable::new();
    p.raise(SIGUSR1);
    assert_eq!(decide_next_signal(&mut p, &t), SignalOutcome::Nothing);
}

#[test]
fn sigkill_is_not_catchable() {
    assert!(!signal_is_catchable(SIGKILL));
    assert!(!signal_is_catchable(0));
    assert!(!signal_is_catchable(NSIG as u32));
    assert!(signal_is_catchable(SIGUSR1));
    assert!(signal_is_catchable(SIGTERM));
}

#[test]
fn saved_user_context_is_full_width() {
    assert!(core::mem::size_of::<SavedUserContext>() >= 17 * 8);
    assert_eq!(core::mem::size_of::<SavedUserContext>(), 18 * 8);
}

#[test]
fn saved_user_context_round_trips_callee_saved() {
    let mut ctx = SavedUserContext::zeroed();
    ctx.rax = 0x42;
    ctx.rbx = 0xDEAD_BEEF_CAFE_1234;
    ctx.r12 = 0x1111_2222_3333_4444;
    ctx.r15 = 0x9999;
    assert_eq!(ctx.rax, 0x42);
    assert_eq!(ctx.rbx, 0xDEAD_BEEF_CAFE_1234);
    assert_eq!(ctx.r12, 0x1111_2222_3333_4444);
    assert_eq!(ctx.r15, 0x9999);
    assert_ne!(ctx.rax, 0);
    assert_ne!(ctx.rax, SYS_SIGRETURN);
}

#[test]
fn returning_to_user_only_for_ring3_cs() {
    assert!(returning_to_user(0x23));
    assert!(returning_to_user(0x2b));
    assert!(!returning_to_user(0x08));
    assert!(!returning_to_user(0x10));
    assert!(!returning_to_user(0));
}

#[test]
fn signal_handler_rflags_is_clean() {
    assert_eq!(SIGNAL_HANDLER_RFLAGS, 0x202);
    assert_ne!(SIGNAL_HANDLER_RFLAGS & (1 << 9), 0, "IF must be set");
    assert_eq!(SIGNAL_HANDLER_RFLAGS & (1 << 8), 0, "TF must be clear");
    assert_eq!(SIGNAL_HANDLER_RFLAGS & (1 << 18), 0, "AC must be clear");
    assert_eq!(SIGNAL_HANDLER_RFLAGS & (1 << 10), 0, "DF must be clear");
}

#[test]
fn signal_frame_layout_grows_stack_below_red_zone() {
    let user_rsp = 0x7fff_ffff_0000u64;
    let layout = compute_signal_frame_layout(user_rsp);
    assert!(layout.ret_addr_slot < user_rsp, "stack must grow down");
    assert!(layout.ctx_addr < user_rsp);
    let ctx_size = core::mem::size_of::<SavedUserContext>() as u64;
    assert!(layout.ctx_addr <= user_rsp - 128 - ctx_size);
}

#[test]
fn signal_frame_layout_is_abi_aligned() {
    for rsp in [0x7fff_ffff_0000u64, 0x7fff_ffff_0008, 0x7fff_ffff_1234, 0x4000_0000_1000] {
        let layout = compute_signal_frame_layout(rsp);
        assert_eq!(layout.ctx_addr % 16, 0, "ctx must be 16-aligned");
        assert_eq!(layout.ret_addr_slot % 16, 8, "handler entry rsp must be 16n+8 (SysV)");
        assert_eq!(layout.ret_addr_slot, layout.ctx_addr - 8);
    }
}

#[test]
fn decide_delivers_handler_for_iret_path_too() {
    let mut p = PendingSet::new();
    let mut t = SigTable::new();
    t.actions[SIGUSR2 as usize] = SigAction::Handler { user_fn: 0x1000_0000 };
    p.raise(SIGUSR2);
    assert_eq!(
        decide_next_signal(&mut p, &t),
        SignalOutcome::Deliver { user_fn: 0x1000_0000, signum: SIGUSR2 }
    );
}

#[test]
fn trampoline_code_encodes_mov_rax_15_syscall() {
    assert_eq!(&SIGRETURN_TRAMPOLINE_CODE[0..3], &[0x48, 0xc7, 0xc0]);
    let imm = u32::from_le_bytes([
        SIGRETURN_TRAMPOLINE_CODE[3],
        SIGRETURN_TRAMPOLINE_CODE[4],
        SIGRETURN_TRAMPOLINE_CODE[5],
        SIGRETURN_TRAMPOLINE_CODE[6],
    ]);
    assert_eq!(imm as u64, SYS_SIGRETURN);
    assert_eq!(&SIGRETURN_TRAMPOLINE_CODE[7..9], &[0x0f, 0x05]);
}

fn syscall_frame() -> SyscallFrame {
    SyscallFrame {
        user_rip: 0x40_1000,
        user_rsp: 0x7fff_fffe_0000,
        user_rflags: 0x246,
        rbx: 1,
        rbp: 2,
        r12: 3,
        r13: 4,
        r14: 5,
        r15: 6,
    }
}

#[test]
fn handler_runs_and_the_interrupted_context_comes_back() {
    let mut s = SignalState::new();
    s.table.actions[SIGUSR1 as usize] = SigAction::Handler { user_fn: 0x40_2000 };
    s.pending.raise(SIGUSR1);
    match deliver_on_syscall_return(&mut s, &syscall_frame(), -4) {
        SyscallReturn::Resume(_) => panic!("a handler is registered"),
        _ => {}
    }
    let ctx = finish_handler(&mut s).unwrap();
    assert_eq!(ctx.user_rip, 0x40_1000);
    assert_eq!(ctx.user_rsp, 0x7fff_fffe_0000);
    assert_eq!(ctx.rax, (-4i64) as u64);
    assert_eq!(ctx.rbx, 1);
    assert_eq!(ctx.r15, 6);
    // The context is handed back once.
    assert_eq!(finish_handler(&mut s), None);
}

#[test]
fn without_a_signal_a_call_returns_its_value() {
    let mut s = SignalState::new();
    assert_eq!(deliver_on_syscall_return(&mut s, &syscall_frame(), 42), SyscallReturn::Resume(42));
}

fn interrupt_frame() -> InterruptFrame {
    InterruptFrame {
        rip: 0x40_1000,
        cs: 0x23,
        rflags: 0x346,
        rsp: 0x7fff_fffe_0000,
        error_code: 0,
        rax: 1,
        rbx: 2,
        rcx: 3,
        rdx: 4,
        rsi: 5,
        rdi: 6,
        rbp: 7,
        r8: 8,
        r9: 9,
        r10: 10,
        r11: 11,
        r12: 12,
        r13: 13,
        r14: 14,
        r15: 15,
    }
}

#[test]
fn interrupt_return_enters_the_handler() {
    let mut s = SignalState::new();
    s.table.actions[SIGUSR2 as usize] = SigAction::Handler { user_fn: 0x40_2000 };
    s.pending.raise(SIGUSR2);
    let mut frame = interrupt_frame();
    assert!(matches!(check_and_deliver_iret(&mut s, &mut frame), InterruptReturn::Handler(_)));
    let layout = compute_signal_frame_layout(0x7fff_fffe_0000);
    assert_eq!(frame.rip, 0x40_2000);
    assert_eq!(frame.rsp, layout.ret_addr_slot);
    assert_eq!(frame.rflags, SIGNAL_HANDLER_RFLAGS);
    assert_eq!(frame.rdi, SIGUSR2 as u64);
    // A second signal waits until the handler is done.
    s.pending.raise(SIGKILL);
    assert_eq!(check_and_deliver_iret(&mut s, &mut frame), InterruptReturn::Resume);
    let ctx = finish_handler(&mut s).unwrap();
    assert_eq!(ctx.rdi, 6);
    assert_eq!(ctx.rcx, 3);
    assert_eq!(ctx.user_rflags, 0x346);
    assert_eq!(check_and_deliver_iret(&mut s, &mut frame), InterruptReturn::Exit(-9));
}
