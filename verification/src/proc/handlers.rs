//! What programs see of signals.

use vstd::prelude::*;
use super::delivery::{delivered, interrupt_delivered, signalled, Delivery, InterruptDelivery};
use super::effects::Effect;
use super::signal::{InterruptFrame, PendingSet, SavedUserContext, SigAction, SignalFrameImage, SignalState, SyscallFrame};
use super::state::Kernel;
use super::syscall::{kill_call, sigaction_call, sigreturn_call, SyscallAction};
use super::usermem::user_word;

verus! {

/// A program that goes on with `context` sees its system call return `retval`, and
/// every register that outlasts a call as it was.
pub open spec fn returns_from_call(context: SavedUserContext, frame: SyscallFrame, retval: i64) -> bool {
    &&& context.user_rip == frame.user_rip
    &&& context.user_rsp == frame.user_rsp
    &&& context.user_rflags == frame.user_rflags
    &&& context.rax == retval as u64
    &&& context.rbx == frame.rbx
    &&& context.rbp == frame.rbp
    &&& context.r12 == frame.r12
    &&& context.r13 == frame.r13
    &&& context.r14 == frame.r14
    &&& context.r15 == frame.r15
}

/// A program that goes on with `context` sees nothing of the interrupt that saved
/// `frame`: every register is as it was.
pub open spec fn goes_on_from_interrupt(context: SavedUserContext, frame: InterruptFrame) -> bool {
    &&& context.user_rip == frame.rip
    &&& context.user_rsp == frame.rsp
    &&& context.user_rflags == frame.rflags
    &&& context.rax == frame.rax
    &&& context.rbx == frame.rbx
    &&& context.rcx == frame.rcx
    &&& context.rdx == frame.rdx
    &&& context.rsi == frame.rsi
    &&& context.rdi == frame.rdi
    &&& context.rbp == frame.rbp
    &&& context.r8 == frame.r8
    &&& context.r9 == frame.r9
    &&& context.r10 == frame.r10
    &&& context.r11 == frame.r11
    &&& context.r12 == frame.r12
    &&& context.r13 == frame.r13
    &&& context.r14 == frame.r14
    &&& context.r15 == frame.r15
}

/// A handler can be entered with the stack pointer `rsp` on a stack that was used
/// down to `user_rsp`: its return address leads to the page that ends handlers, the
/// saved context lies above it on a boundary of 16 bytes, and nothing of it lies in
/// the 128 bytes that a program may use below its stack pointer.
pub open spec fn stack_is_set_up(image: SignalFrameImage, user_rsp: u64, rsp: u64) -> bool {
    &&& image.return_addr == 0x1000_0000
    &&& image.layout.ret_addr_slot == rsp
    &&& image.layout.ctx_addr == rsp + 8
    &&& image.layout.ctx_addr % 16 == 0
    &&& image.layout.ctx_addr + 144 <= user_rsp - 128
    &&& user_rsp - 128 < image.layout.ctx_addr + 160
}

/// Signal `s` is the next to be seen to: no handler runs, and no lower signal waits.
pub open spec fn is_next(state: SignalState, s: u32) -> bool {
    &&& state.frame is None
    &&& s < 64
    &&& state.pending.waits(s as u64)
    &&& forall|i: u64| i < s ==> !#[trigger] state.pending.waits(i)
}

/// Signal `s`, and no other, no longer waits.
pub open spec fn no_longer_waits(before: PendingSet, after: PendingSet, s: u32) -> bool {
    forall|i: u64| i < 64 ==> #[trigger] after.waits(i) == (before.waits(i) && i != s)
}

proof fn lemma_next(state: SignalState)
    requires
        state.frame is None,
        exists|i: u64| i < 64 && #[trigger] state.pending.waits(i),
    ensures
        ({
            let s = choose|s: u64| state.pending.lowest(s);
            state.pending.lowest(s) && is_next(state, s as u32) && s < 64
        }),
{
    let i = choose|i: u64| i < 64 && #[trigger] state.pending.waits(i);
    lemma_lowest(state.pending, i);
}

proof fn lemma_lowest(p: PendingSet, s: u64)
    requires
        s < 64,
        p.waits(s),
    ensures
        exists|i: u64| #[trigger] p.lowest(i),
    decreases s,
{
    if exists|i: u64| i < s && #[trigger] p.waits(i) {
        let i = choose|i: u64| i < s && #[trigger] p.waits(i);
        lemma_lowest(p, i);
    } else {
        assert(p.lowest(s));
    }
}

proof fn lemma_only_next(state: SignalState, s: u32)
    requires
        is_next(state, s),
    ensures
        state.pending.lowest(s as u64),
        (choose|i: u64| state.pending.lowest(i)) == s as u64,
{
    assert(state.pending.lowest(s as u64));
    let i = choose|i: u64| state.pending.lowest(i);
    if i < s {
        assert(!state.pending.waits(i));
    } else if s < i {
        assert(!state.pending.waits(s as u64));
    }
}

/// Where a system call ends in a handler, that is the handler of the next signal
/// that waited, which gets its number; the signal waits no longer. The handler
/// leaves to be resumed what the call would have returned to.
pub proof fn call_is_interrupted_by_a_handler(
    before: &Kernel,
    after: &Kernel,
    frame: SyscallFrame,
    retval: i64,
    cpu_id: u32,
    r: Delivery,
    p: usize,
)
    requires
        before.current(cpu_id) == Some(p),
        0 <= p < before.procs@.len(),
        frame.user_rsp >= 288,
        delivered(before, after, frame, retval, cpu_id, r),
        r is Handler,
    ensures
        ({
            let was = before.procs@[p as int].signals;
            let now = after.procs@[p as int].signals;
            let s = r->signum as u32;
            &&& r->signum < 32
            &&& is_next(was, s)
            &&& s != 9
            &&& was.table.actions@[s as int] == SigAction::Handler { user_fn: r->user_fn }
            &&& no_longer_waits(was.pending, now.pending, s)
            &&& now.frame is Some
            &&& returns_from_call(now.frame->Some_0, frame, retval)
            &&& returns_from_call(r->image.context, frame, retval)
            &&& stack_is_set_up(r->image, frame.user_rsp, r->rsp)
            &&& r->rflags == 0x202
            &&& r->cr3 == before.space_of(p as int).pml4_phys.0 | before.space_of(
                p as int,
            ).pcid as u64
        }),
{
    let was = before.procs@[p as int].signals;
    lemma_next(was);
    let s = choose|s: u64| was.pending.lowest(s);
    assert(was.pending.lowest(s));
    assert(r->signum == s);
}

/// Where an interrupt ends in a handler, that is the handler of the next signal
/// that waited, which gets its number; the signal waits no longer. The handler
/// leaves the interrupted program to be resumed as it was.
pub proof fn program_is_interrupted_by_a_handler(
    before: &Kernel,
    after: &Kernel,
    frame: InterruptFrame,
    changed: InterruptFrame,
    cpu_id: u32,
    r: InterruptDelivery,
    p: usize,
)
    requires
        before.current(cpu_id) == Some(p),
        0 <= p < before.procs@.len(),
        frame.rsp >= 288,
        interrupt_delivered(before, after, frame, changed, cpu_id, r),
        r is Handler,
    ensures
        ({
            let was = before.procs@[p as int].signals;
            let now = after.procs@[p as int].signals;
            let s = changed.rdi as u32;
            let image = r->Handler_0;
            &&& changed.rdi < 32
            &&& is_next(was, s)
            &&& s != 9
            &&& was.table.actions@[s as int] == SigAction::Handler { user_fn: changed.rip }
            &&& no_longer_waits(was.pending, now.pending, s)
            &&& now.frame is Some
            &&& goes_on_from_interrupt(now.frame->Some_0, frame)
            &&& goes_on_from_interrupt(image.context, frame)
            &&& stack_is_set_up(image, frame.rsp, changed.rsp)
            &&& changed.rflags == 0x202
            &&& changed.cs == frame.cs
            &&& changed.rbp == frame.rbp
        }),
{
    let was = before.procs@[p as int].signals;
    lemma_next(was);
    let s = choose|s: u64| was.pending.lowest(s);
    assert(was.pending.lowest(s));
    assert(changed.rdi == s);
}

/// When a handler that was entered at the end of a system call returns, the program
/// goes on as if the call had just returned: its value and every register that
/// outlasts a call are there, and the next signal can be seen to.
pub proof fn call_goes_on_after_its_handler(
    before: &Kernel,
    handling: &Kernel,
    done: &Kernel,
    after: &Kernel,
    frame: SyscallFrame,
    retval: i64,
    cpu_id: u32,
    entered: Delivery,
    r: SyscallAction,
    p: usize,
)
    requires
        before.current(cpu_id) == Some(p),
        0 <= p < before.procs@.len(),
        delivered(before, handling, frame, retval, cpu_id, entered),
        entered is Handler,
        done.current(cpu_id) == Some(p),
        0 <= p < done.procs@.len(),
        done.procs@[p as int].signals.frame == handling.procs@[p as int].signals.frame,
        sigreturn_call(done, after, cpu_id, r),
    ensures
        r is Resume,
        returns_from_call(r->context, frame, retval),
        after.procs@[p as int].signals.frame is None,
        after.procs@[p as int].signals.table == done.procs@[p as int].signals.table,
        after.procs@[p as int].signals.pending == done.procs@[p as int].signals.pending,
{
}

/// When a handler that was entered at the end of an interrupt returns, the program
/// goes on with all its registers as they were.
pub proof fn program_goes_on_after_its_handler(
    before: &Kernel,
    handling: &Kernel,
    done: &Kernel,
    after: &Kernel,
    frame: InterruptFrame,
    changed: InterruptFrame,
    cpu_id: u32,
    entered: InterruptDelivery,
    r: SyscallAction,
    p: usize,
)
    requires
        before.current(cpu_id) == Some(p),
        0 <= p < before.procs@.len(),
        interrupt_delivered(before, handling, frame, changed, cpu_id, entered),
        entered is Handler,
        done.current(cpu_id) == Some(p),
        0 <= p < done.procs@.len(),
        done.procs@[p as int].signals.frame == handling.procs@[p as int].signals.frame,
        sigreturn_call(done, after, cpu_id, r),
    ensures
        r is Resume,
        goes_on_from_interrupt(r->context, frame),
        after.procs@[p as int].signals.frame is None,
{
}

/// While a handler runs, no signal is seen to: calls and interrupts return as they
/// would, and what waits goes on waiting.
pub proof fn handlers_are_not_interrupted(
    before: &Kernel,
    after: &Kernel,
    frame: SyscallFrame,
    retval: i64,
    cpu_id: u32,
    r: Delivery,
    p: usize,
)
    requires
        before.current(cpu_id) == Some(p),
        0 <= p < before.procs@.len(),
        before.procs@[p as int].signals.frame is Some,
        delivered(before, after, frame, retval, cpu_id, r),
    ensures
        r == Delivery::Resume(retval),
        after.procs@ == before.procs@,
{
    assert(after.procs@[p as int] == before.procs@[p as int]);
    assert(after.procs@ =~= before.procs@);
}

/// What the next signal does to a system call that returns: SIGKILL always ends the
/// program, SIGTERM does unless it is handled or ignored, a signal with a handler
/// enters it, and any other is dropped.
pub proof fn next_signal_takes_effect(
    before: &Kernel,
    after: &Kernel,
    frame: SyscallFrame,
    retval: i64,
    cpu_id: u32,
    r: Delivery,
    p: usize,
    s: u32,
)
    requires
        before.current(cpu_id) == Some(p),
        0 <= p < before.procs@.len(),
        is_next(before.procs@[p as int].signals, s),
        delivered(before, after, frame, retval, cpu_id, r),
    ensures
        ({
            let action = before.procs@[p as int].signals.table.actions@[s as int];
            let ends = s == 9 || (s == 15 && action is Default);
            &&& ends ==> {
                &&& r is Leave
                &&& signalled(before, after, p as int, (-s) as i32, cpu_id, r->Leave_0)
            }
            &&& !ends && s < 32 && action is Handler ==> {
                &&& r is Handler
                &&& r->user_fn == action->user_fn
                &&& r->signum == s
            }
            &&& !ends && (s >= 32 || !(action is Handler)) ==> {
                &&& r == Delivery::Resume(retval)
                &&& no_longer_waits(
                    before.procs@[p as int].signals.pending,
                    after.procs@[p as int].signals.pending,
                    s,
                )
                &&& after.procs@[p as int].signals.frame is None
            }
        }),
{
    let was = before.procs@[p as int].signals;
    lemma_only_next(was, s);
    assert(was.pending.waits(s as u64));
}

/// What the next signal does to an interrupted program is what it does at the end of
/// a system call.
pub proof fn next_signal_interrupts(
    before: &Kernel,
    after: &Kernel,
    frame: InterruptFrame,
    changed: InterruptFrame,
    cpu_id: u32,
    r: InterruptDelivery,
    p: usize,
    s: u32,
)
    requires
        before.current(cpu_id) == Some(p),
        0 <= p < before.procs@.len(),
        is_next(before.procs@[p as int].signals, s),
        interrupt_delivered(before, after, frame, changed, cpu_id, r),
    ensures
        ({
            let action = before.procs@[p as int].signals.table.actions@[s as int];
            let ends = s == 9 || (s == 15 && action is Default);
            &&& ends ==> {
                &&& r is Leave
                &&& signalled(before, after, p as int, (-s) as i32, cpu_id, r->Leave_0)
            }
            &&& !ends && s < 32 && action is Handler ==> {
                &&& r is Handler
                &&& changed.rip == action->user_fn
                &&& changed.rdi == s
            }
            &&& !ends && (s >= 32 || !(action is Handler)) ==> {
                &&& r == InterruptDelivery::Resume
                &&& changed == frame
                &&& no_longer_waits(
                    before.procs@[p as int].signals.pending,
                    after.procs@[p as int].signals.pending,
                    s,
                )
                &&& after.procs@[p as int].signals.frame is None
            }
        }),
{
    let was = before.procs@[p as int].signals;
    lemma_only_next(was, s);
    assert(was.pending.waits(s as u64));
}

/// A signal that is sent waits for the process that it was sent to, and for no
/// other; nothing else changes. It is refused only if there is no such signal or
/// process.
pub proof fn sent_signal_waits(
    before: &Kernel,
    after: &Kernel,
    pid: u32,
    signum: u32,
    r: i64,
    p: usize,
    q: int,
)
    requires
        before.ptable.lookup(pid) == Some(p),
        0 <= p < before.procs@.len(),
        0 <= q < before.procs@.len(),
        kill_call(before, after, pid, signum, r),
    ensures
        1 <= signum <= 31 ==> {
            let was = before.procs@[p as int].signals;
            let now = after.procs@[p as int].signals;
            &&& r == 0
            &&& now.pending.waits(signum as u64)
            &&& forall|i: u64|
                i < 64 && i != signum ==> #[trigger] now.pending.waits(i) == was.pending.waits(i)
            &&& now.table == was.table
            &&& now.frame == was.frame
            &&& after.procs@[p as int].state == before.procs@[p as int].state
        },
        q != p ==> after.procs@[q] == before.procs@[q],
        !(1 <= signum <= 31) ==> r == -22 && *after == *before,
{
}

/// A signal for a process that is not there, or that has no such number, goes
/// nowhere.
pub proof fn signal_to_nobody_is_refused(
    before: &Kernel,
    after: &Kernel,
    pid: u32,
    signum: u32,
    r: i64,
)
    requires
        before.ptable.lookup(pid) is None,
        kill_call(before, after, pid, signum, r),
    ensures
        *after == *before,
        1 <= signum <= 31 ==> r == -3,
        !(1 <= signum <= 31) ==> r == -22,
{
}

/// A program that sets what a signal does reads the new disposition from its memory,
/// 0 for the default, 1 to ignore it, anything else the address of a handler; where
/// it asks for the old one, it gets it in the same form. Other signals keep theirs.
/// SIGKILL cannot be set.
pub proof fn disposition_is_set(
    before: &Kernel,
    after: &Kernel,
    signum: u32,
    act_ptr: u64,
    oldact_ptr: u64,
    cpu_id: u32,
    r: Result<i64, u64>,
    p: usize,
)
    requires
        before.current(cpu_id) == Some(p),
        0 <= p < before.procs@.len(),
        sigaction_call(before, after, signum, act_ptr, oldact_ptr, cpu_id, r),
    ensures
        !(1 <= signum <= 31) || signum == 9 ==> r == Ok::<i64, u64>(-22i64) && *after == *before,
        r == Ok::<i64, u64>(0) ==> {
            let was = before.procs@[p as int].signals;
            let now = after.procs@[p as int].signals;
            let word = user_word(&before.space_of(p as int).tables, &before.mem, act_ptr as int);
            let old = was.table.actions@[signum as int];
            &&& 1 <= signum <= 31
            &&& signum != 9
            &&& forall|s: int|
                0 <= s < 32 && s != signum ==> #[trigger] now.table.actions@[s]
                    == was.table.actions@[s]
            &&& act_ptr == 0 ==> now.table.actions@[signum as int] == old
            &&& act_ptr != 0 ==> {
                &&& word is Ok
                &&& (word->Ok_0 == 0) == (now.table.actions@[signum as int] == SigAction::Default)
                &&& (word->Ok_0 == 1) == (now.table.actions@[signum as int] == SigAction::Ignore)
                &&& word->Ok_0 > 1 ==> now.table.actions@[signum as int] == SigAction::Handler {
                    user_fn: word->Ok_0,
                }
            }
            &&& oldact_ptr != 0 ==> {
                &&& after.log@.len() == before.log@.len() + 1
                &&& after.log@.last() == Effect::Store64 {
                    addr: oldact_ptr,
                    value: match old {
                        SigAction::Default => 0,
                        SigAction::Ignore => 1,
                        SigAction::Handler { user_fn } => user_fn,
                    },
                }
            }
            &&& oldact_ptr == 0 ==> after.log@ == before.log@
            &&& now.pending == was.pending
            &&& now.frame == was.frame
        },
{
}

/// A handler that a program installs is the one that runs when its signal is next.
pub proof fn installed_handler_runs(
    before: &Kernel,
    set: &Kernel,
    sent: &Kernel,
    after: &Kernel,
    signum: u32,
    act_ptr: u64,
    oldact_ptr: u64,
    handler: u64,
    frame: SyscallFrame,
    retval: i64,
    cpu_id: u32,
    r: Delivery,
    p: usize,
)
    requires
        before.current(cpu_id) == Some(p),
        0 <= p < before.procs@.len(),
        act_ptr != 0,
        user_word(&before.space_of(p as int).tables, &before.mem, act_ptr as int) == Ok::<u64, u64>(
            handler,
        ),
        handler > 1,
        sigaction_call(before, set, signum, act_ptr, oldact_ptr, cpu_id, Ok(0)),
        sent.current(cpu_id) == Some(p),
        0 <= p < sent.procs@.len(),
        sent.procs@[p as int].signals.table == set.procs@[p as int].signals.table,
        is_next(sent.procs@[p as int].signals, signum),
        delivered(sent, after, frame, retval, cpu_id, r),
    ensures
        r is Handler,
        r->user_fn == handler,
        r->signum == signum,
{
    disposition_is_set(before, set, signum, act_ptr, oldact_ptr, cpu_id, Ok(0), p);
    next_signal_takes_effect(sent, after, frame, retval, cpu_id, r, p, signum);
}

} // verus!
