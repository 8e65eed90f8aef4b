//! Signals: dispositions, pending sets, and delivery on return to user mode.

use vstd::prelude::*;
use crate::bits::{bit, lemma_bit_ops};

verus! {

pub const NSIG: usize = 32;

pub const SIGHUP: u32 = 1;

pub const SIGINT: u32 = 2;

pub const SIGQUIT: u32 = 3;

/// Cannot be caught or ignored.
pub const SIGKILL: u32 = 9;

pub const SIGUSR1: u32 = 10;

pub const SIGUSR2: u32 = 12;

pub const SIGTERM: u32 = 15;

pub const SIGCHLD: u32 = 17;

pub const SYS_SIGACTION: u64 = 13;

pub const SYS_SIGRETURN: u64 = 15;

pub const SYS_KILL: u64 = 62;

/// Where the page that returns from a handler is mapped in every process.
pub const SIGRETURN_TRAMPOLINE_VA: u64 = 0x0000_0000_1000_0000;

/// That page's code: `mov rax, 15; syscall`.
pub const SIGRETURN_TRAMPOLINE_CODE: [u8; 9] = [
    0x48,
    0xc7,
    0xc0,
    0x0f,
    0x00,
    0x00,
    0x00,
    0x0f,
    0x05,
];

/// The flags a handler starts with: interrupts on, nothing else.
pub const SIGNAL_HANDLER_RFLAGS: u64 = 0x202;

/// Bytes of a saved context on the user stack.
pub const SAVED_CONTEXT_SIZE: u64 = 144;

/// Disposition of one signal.
#[derive(Clone, Copy, PartialEq, Eq, Debug, Structural)]
pub enum SigAction {
    Default,
    Ignore,
    Handler { user_fn: u64 },
}

/// The disposition of every signal.
#[derive(Clone, Copy)]
pub struct SigTable {
    pub actions: [SigAction; NSIG],
}

impl SigTable {
    pub fn new() -> (r: Self)
        ensures
            forall|i: int| 0 <= i < NSIG ==> #[trigger] r.actions@[i] == SigAction::Default,
    {
        SigTable { actions: [SigAction::Default;32] }
    }
}

impl Default for SigTable {
    fn default() -> (r: Self)
        ensures
            forall|i: int| 0 <= i < NSIG ==> #[trigger] r.actions@[i] == SigAction::Default,
    {
        SigTable::new()
    }
}

/// The signals that wait to be delivered: bit `n` stands for signal `n`.
#[derive(Clone, Copy, PartialEq, Eq, Debug, Structural)]
pub struct PendingSet {
    pub bits: u64,
}

impl PendingSet {
    /// Signal `signum` waits.
    pub open spec fn waits(&self, signum: u64) -> bool {
        bit(self.bits, signum)
    }

    /// `signum` is the lowest signal that waits.
    pub open spec fn lowest(&self, signum: u64) -> bool {
        &&& signum < 64
        &&& self.waits(signum)
        &&& forall|i: u64| i < signum ==> !#[trigger] self.waits(i)
    }

    pub fn new() -> (r: Self)
        ensures
            r.bits == 0,
            forall|i: u64| i < 64 ==> !#[trigger] r.waits(i),
    {
        let r = PendingSet { bits: 0 };
        proof {
            assert forall|i: u64| i < 64 implies !#[trigger] r.waits(i) by {
                lemma_bit_ops(0, 0, i);
            }
        }
        r
    }

    /// Let `signum` wait.
    pub fn raise(&mut self, signum: u32)
        requires
            signum < 64,
        ensures
            final(self).bits == old(self).bits | (1u64 << (signum as u64)),
            forall|i: u64|
                i < 64 ==> #[trigger] final(self).waits(i) == (old(self).waits(i) || i == signum),
    {
        self.bits = self.bits | (1u64 << (signum as u64));
        proof {
            assert forall|i: u64| i < 64 implies #[trigger] self.waits(i) == (old(self).waits(i) || i
                == signum) by {
                lemma_bit_ops(old(self).bits, signum as u64, i);
            }
        }
    }

    /// Take the lowest signal that waits.
    pub fn take_any(&mut self) -> (r: Option<u32>)
        ensures
            match r {
                None => {
                    &&& *final(self) == *old(self)
                    &&& forall|i: u64| i < 64 ==> !#[trigger] old(self).waits(i)
                },
                Some(s) => {
                    &&& old(self).lowest(s as u64)
                    &&& final(self).bits == old(self).bits & !(1u64 << (s as u64))
                    &&& forall|i: u64|
                        i < 64 ==> #[trigger] final(self).waits(i) == (old(self).waits(i) && i != s)
                },
            },
    {
        let mut s: u64 = 0;
        while s < 64
            invariant
                s <= 64,
                *self == *old(self),
                forall|i: u64| i < s ==> !#[trigger] self.waits(i),
            decreases 64 - s,
        {
            if (self.bits >> s) & 1 == 1 {
                assert(self.waits(s));
                self.bits = self.bits & !(1u64 << s);
                proof {
                    assert forall|i: u64| i < 64 implies #[trigger] self.waits(i) == (old(self).waits(
                        i,
                    ) && i != s) by {
                        lemma_bit_ops(old(self).bits, s, i);
                    }
                }
                return Some(s as u32);
            }
            assert(!self.waits(s));
            s += 1;
        }
        None
    }
}

impl Default for PendingSet {
    fn default() -> (r: Self)
        ensures
            r.bits == 0,
    {
        PendingSet::new()
    }
}

/// The user registers that a handler interrupts and `sigreturn` restores.
#[derive(Clone, Copy, PartialEq, Eq, Debug, Structural)]
pub struct SavedUserContext {
    pub user_rip: u64,
    pub user_rsp: u64,
    pub user_rflags: u64,
    pub rax: u64,
    pub rbx: u64,
    pub rcx: u64,
    pub rdx: u64,
    pub rsi: u64,
    pub rdi: u64,
    pub rbp: u64,
    pub r8: u64,
    pub r9: u64,
    pub r10: u64,
    pub r11: u64,
    pub r12: u64,
    pub r13: u64,
    pub r14: u64,
    pub r15: u64,
}

impl SavedUserContext {
    /// All registers zero.
    pub open spec fn zeroes() -> SavedUserContext {
        SavedUserContext {
            user_rip: 0,
            user_rsp: 0,
            user_rflags: 0,
            rax: 0,
            rbx: 0,
            rcx: 0,
            rdx: 0,
            rsi: 0,
            rdi: 0,
            rbp: 0,
            r8: 0,
            r9: 0,
            r10: 0,
            r11: 0,
            r12: 0,
            r13: 0,
            r14: 0,
            r15: 0,
        }
    }

    pub fn zeroed() -> (r: Self)
        ensures
            r == Self::zeroes(),
    {
        SavedUserContext {
            user_rip: 0,
            user_rsp: 0,
            user_rflags: 0,
            rax: 0,
            rbx: 0,
            rcx: 0,
            rdx: 0,
            rsi: 0,
            rdi: 0,
            rbp: 0,
            r8: 0,
            r9: 0,
            r10: 0,
            r11: 0,
            r12: 0,
            r13: 0,
            r14: 0,
            r15: 0,
        }
    }
}

/// What is to be done about one dequeued signal.
#[derive(Clone, Copy, PartialEq, Eq, Debug, Structural)]
pub enum SignalOutcome {
    /// No signal waits, or it has no effect.
    Nothing,
    /// The process ends with `-signum`.
    Terminate(u32),
    /// The handler at `user_fn` runs with `signum` as its argument.
    Deliver { user_fn: u64, signum: u32 },
}

/// What signal `signum` does under the dispositions `actions`.
pub open spec fn outcome_of(signum: u32, actions: Seq<SigAction>) -> SignalOutcome {
    if signum == SIGKILL {
        SignalOutcome::Terminate(signum)
    } else if signum >= NSIG {
        SignalOutcome::Nothing
    } else {
        match actions[signum as int] {
            SigAction::Handler { user_fn } => SignalOutcome::Deliver { user_fn, signum },
            SigAction::Ignore => SignalOutcome::Nothing,
            SigAction::Default => if signum == SIGTERM {
                SignalOutcome::Terminate(signum)
            } else {
                SignalOutcome::Nothing
            },
        }
    }
}

/// Dequeue the lowest signal that waits and decide what it does.
pub fn decide_next_signal(pending: &mut PendingSet, table: &SigTable) -> (r: SignalOutcome)
    ensures
        (forall|i: u64| i < 64 ==> !#[trigger] old(pending).waits(i)) ==> r == SignalOutcome::Nothing
            && *final(pending) == *old(pending),
        forall|s: u64| #[trigger]
            old(pending).lowest(s) ==> {
                &&& r == outcome_of(s as u32, table.actions@)
                &&& forall|i: u64|
                    i < 64 ==> #[trigger] final(pending).waits(i) == (old(pending).waits(i) && i
                        != s)
            },
{
    let signum: u32 = match pending.take_any() {
        Some(signum) => signum,
        None => return SignalOutcome::Nothing,
    };
    proof {
        assert forall|s: u64| #[trigger] old(pending).lowest(s) implies s == signum by {
            if s < signum {
                assert(!old(pending).waits(s));
            } else if signum < s {
                assert(!old(pending).waits(signum as u64));
            }
        }
        assert(old(pending).waits(signum as u64));
    }
    if signum == SIGKILL {
        return SignalOutcome::Terminate(signum);
    }
    if signum as usize >= NSIG {
        return SignalOutcome::Nothing;
    }
    match table.actions[signum as usize] {
        SigAction::Handler { user_fn } => SignalOutcome::Deliver { user_fn, signum },
        SigAction::Ignore => SignalOutcome::Nothing,
        SigAction::Default => {
            if signum == SIGTERM {
                SignalOutcome::Terminate(signum)
            } else {
                SignalOutcome::Nothing
            }
        },
    }
}

/// A handler may be installed for `signum`.
pub open spec fn catchable(signum: u32) -> bool {
    0 < signum < NSIG && signum != SIGKILL
}

pub fn signal_is_catchable(signum: u32) -> (r: bool)
    ensures
        r == catchable(signum),
{
    signum != 0 && signum != SIGKILL && (signum as usize) < NSIG
}

/// The code segment `cs` runs in user mode.
pub fn returning_to_user(cs: u64) -> (r: bool)
    ensures
        r == (cs & 3 == 3),
{
    cs & 3 == 3
}

/// Where a handler's frame goes on the user stack.
#[derive(Clone, Copy, Debug, PartialEq, Eq, Structural)]
pub struct SignalFrameLayout {
    /// Where the saved context starts; a multiple of 16.
    pub ctx_addr: u64,
    /// Where the handler's return address lies, and its stack pointer points.
    pub ret_addr_slot: u64,
}

/// The frame's place below a stack pointer: past the 128-byte red zone, the
/// context on the next 16-byte boundary down, the return address below it.
pub open spec fn frame_layout(user_rsp: u64) -> SignalFrameLayout {
    let below = user_rsp - 128 - SAVED_CONTEXT_SIZE;
    SignalFrameLayout {
        ctx_addr: (below - below % 16) as u64,
        ret_addr_slot: (below - below % 16 - 8) as u64,
    }
}

/// There is room for a handler's frame below `user_rsp`.
pub open spec fn frame_fits(user_rsp: u64) -> bool {
    user_rsp >= 288
}

pub fn compute_signal_frame_layout(user_rsp: u64) -> (r: SignalFrameLayout)
    requires
        frame_fits(user_rsp),
    ensures
        r == frame_layout(user_rsp),
        r.ctx_addr % 16 == 0,
        r.ret_addr_slot % 16 == 8,
        r.ctx_addr + SAVED_CONTEXT_SIZE <= user_rsp - 128,
        user_rsp - 128 < r.ctx_addr + SAVED_CONTEXT_SIZE + 16,
        r.ret_addr_slot == r.ctx_addr - 8,
{
    let below: u64 = user_rsp - 128 - SAVED_CONTEXT_SIZE;
    let ctx_addr: u64 = below - below % 16;
    SignalFrameLayout { ctx_addr, ret_addr_slot: ctx_addr - 8 }
}

/// The registers that the system-call entry saved.
#[derive(Clone, Copy, PartialEq, Eq, Debug, Structural)]
pub struct SyscallFrame {
    pub user_rip: u64,
    pub user_rsp: u64,
    pub user_rflags: u64,
    pub rbx: u64,
    pub rbp: u64,
    pub r12: u64,
    pub r13: u64,
    pub r14: u64,
    pub r15: u64,
}

/// The registers that an interrupt entry saved.
#[derive(Clone, Copy, PartialEq, Eq, Debug, Structural)]
pub struct InterruptFrame {
    pub rip: u64,
    pub cs: u64,
    pub rflags: u64,
    pub rsp: u64,
    pub error_code: u64,
    pub rax: u64,
    pub rbx: u64,
    pub rcx: u64,
    pub rdx: u64,
    pub rsi: u64,
    pub rdi: u64,
    pub rbp: u64,
    pub r8: u64,
    pub r9: u64,
    pub r10: u64,
    pub r11: u64,
    pub r12: u64,
    pub r13: u64,
    pub r14: u64,
    pub r15: u64,
}

/// What to store on the user stack before a handler runs: `context` at
/// `layout.ctx_addr` and the trampoline's address at `layout.ret_addr_slot`.
#[derive(Clone, Copy, PartialEq, Eq, Debug, Structural)]
pub struct SignalFrameImage {
    pub layout: SignalFrameLayout,
    pub context: SavedUserContext,
    pub return_addr: u64,
}

/// The image of a frame for `context` below `user_rsp`.
pub open spec fn frame_image(context: SavedUserContext, user_rsp: u64) -> SignalFrameImage {
    SignalFrameImage {
        layout: frame_layout(user_rsp),
        context,
        return_addr: SIGRETURN_TRAMPOLINE_VA,
    }
}

fn write_signal_frame(context: &SavedUserContext, user_rsp: u64) -> (r: SignalFrameImage)
    requires
        frame_fits(user_rsp),
    ensures
        r == frame_image(*context, user_rsp),
{
    SignalFrameImage {
        layout: compute_signal_frame_layout(user_rsp),
        context: *context,
        return_addr: SIGRETURN_TRAMPOLINE_VA,
    }
}

/// The signal state of a process.
#[derive(Clone, Copy)]
pub struct SignalState {
    pub table: SigTable,
    pub pending: PendingSet,
    /// What the running handler interrupted.
    pub frame: Option<SavedUserContext>,
}

impl SignalState {
    /// No handler installed, nothing pending, no handler running.
    pub open spec fn is_clean(&self) -> bool {
        &&& forall|i: int| 0 <= i < NSIG ==> #[trigger] self.table.actions@[i] == SigAction::Default
        &&& self.pending.bits == 0
        &&& self.frame is None
    }

    pub fn new() -> (r: Self)
        ensures
            r.is_clean(),
    {
        SignalState { table: SigTable::new(), pending: PendingSet::new(), frame: None }
    }

    /// What the next delivery does: nothing while a handler runs, else what
    /// the lowest waiting signal does.
    pub open spec fn next_outcome(&self) -> SignalOutcome {
        if self.frame is Some || forall|i: u64| i < 64 ==> !#[trigger] self.pending.waits(i) {
            SignalOutcome::Nothing
        } else {
            outcome_of(
                (choose|s: u64| self.pending.lowest(s)) as u32,
                self.table.actions@,
            )
        }
    }
}

/// How a system call returns once signals are seen to.
#[derive(Clone, Copy, PartialEq, Eq, Debug, Structural)]
pub enum SyscallReturn {
    /// To its caller, with this value.
    Resume(i64),
    /// Not at all: the process exits with this code.
    Exit(i32),
    /// Into a handler, after storing `image` on the user stack.
    Handler { user_fn: u64, rsp: u64, rflags: u64, signum: u64, image: SignalFrameImage },
}

/// The context a system call that returns `retval` is resumed with.
pub open spec fn syscall_context(frame: SyscallFrame, retval: i64) -> SavedUserContext {
    SavedUserContext {
        user_rip: frame.user_rip,
        user_rsp: frame.user_rsp,
        user_rflags: frame.user_rflags,
        rax: retval as u64,
        rbx: frame.rbx,
        rbp: frame.rbp,
        r12: frame.r12,
        r13: frame.r13,
        r14: frame.r14,
        r15: frame.r15,
        ..SavedUserContext::zeroes()
    }
}

/// The context an interrupted program is resumed with.
pub open spec fn interrupt_context(frame: InterruptFrame) -> SavedUserContext {
    SavedUserContext {
        user_rip: frame.rip,
        user_rsp: frame.rsp,
        user_rflags: frame.rflags,
        rax: frame.rax,
        rbx: frame.rbx,
        rcx: frame.rcx,
        rdx: frame.rdx,
        rsi: frame.rsi,
        rdi: frame.rdi,
        rbp: frame.rbp,
        r8: frame.r8,
        r9: frame.r9,
        r10: frame.r10,
        r11: frame.r11,
        r12: frame.r12,
        r13: frame.r13,
        r14: frame.r14,
        r15: frame.r15,
    }
}

proof fn lemma_some_lowest(p: PendingSet, s: u64)
    requires
        s < 64,
        p.waits(s),
    ensures
        exists|i: u64| #[trigger] p.lowest(i) && i <= s,
    decreases s,
{
    if exists|i: u64| i < s && #[trigger] p.waits(i) {
        let i = choose|i: u64| i < s && #[trigger] p.waits(i);
        lemma_some_lowest(p, i);
    } else {
        assert(p.lowest(s));
    }
}

/// Dequeue and decide, unless a handler is running.
fn next_signal(state: &mut SignalState) -> (r: SignalOutcome)
    ensures
        r == old(state).next_outcome(),
        final(state).table == old(state).table,
        final(state).frame == old(state).frame,
        old(state).frame is Some ==> final(state).pending == old(state).pending,
        old(state).frame is None ==> dequeued(old(state).pending, final(state).pending),
{
    if state.frame.is_some() {
        return SignalOutcome::Nothing;
    }
    proof {
        if exists|i: u64| i < 64 && #[trigger] state.pending.waits(i) {
            let i = choose|i: u64| i < 64 && #[trigger] state.pending.waits(i);
            lemma_some_lowest(state.pending, i);
            let s = choose|s: u64| state.pending.lowest(s);
            assert(state.pending.lowest(s));
        }
    }
    decide_next_signal(&mut state.pending, &state.table)
}

/// `after` is `before` without its lowest signal, if it has any.
pub open spec fn dequeued(before: PendingSet, after: PendingSet) -> bool {
    &&& (forall|i: u64| i < 64 ==> !#[trigger] before.waits(i)) ==> after == before
    &&& forall|s: u64| #[trigger]
        before.lowest(s) ==> forall|i: u64|
            i < 64 ==> #[trigger] after.waits(i) == (before.waits(i) && i != s)
}

/// Deliver at most one signal to a process whose system call is about to
/// return `retval`.
pub fn deliver_on_syscall_return(state: &mut SignalState, frame: &SyscallFrame, retval: i64) -> (r:
    SyscallReturn)
    requires
        old(state).next_outcome() is Deliver ==> frame_fits(frame.user_rsp),
    ensures
        final(state).table == old(state).table,
        old(state).frame is Some ==> final(state).pending == old(state).pending,
        old(state).frame is None ==> dequeued(old(state).pending, final(state).pending),
        match old(state).next_outcome() {
            SignalOutcome::Nothing => r == SyscallReturn::Resume(retval) && final(state).frame == old(
                state,
            ).frame,
            SignalOutcome::Terminate(signum) => {
                &&& r == SyscallReturn::Exit((-(signum as i32)) as i32)
                &&& final(state).frame == old(state).frame
            },
            SignalOutcome::Deliver { user_fn, signum } => {
                let ctx = syscall_context(*frame, retval);
                &&& r == SyscallReturn::Handler {
                    user_fn,
                    rsp: frame_layout(frame.user_rsp).ret_addr_slot,
                    rflags: SIGNAL_HANDLER_RFLAGS,
                    signum: signum as u64,
                    image: frame_image(ctx, frame.user_rsp),
                }
                &&& final(state).frame == Some(ctx)
            },
        },
{
    match next_signal(state) {
        SignalOutcome::Nothing => SyscallReturn::Resume(retval),
        SignalOutcome::Terminate(signum) => {
            proof {
                lemma_terminates_small(old(state));
            }
            SyscallReturn::Exit(-(signum as i32))
        },
        SignalOutcome::Deliver { user_fn, signum } => {
            let mut ctx = SavedUserContext::zeroed();
            ctx.user_rip = frame.user_rip;
            ctx.user_rsp = frame.user_rsp;
            ctx.user_rflags = frame.user_rflags;
            ctx.rax = retval as u64;
            ctx.rbx = frame.rbx;
            ctx.rbp = frame.rbp;
            ctx.r12 = frame.r12;
            ctx.r13 = frame.r13;
            ctx.r14 = frame.r14;
            ctx.r15 = frame.r15;
            let image = write_signal_frame(&ctx, frame.user_rsp);
            state.frame = Some(ctx);
            SyscallReturn::Handler {
                user_fn,
                rsp: image.layout.ret_addr_slot,
                rflags: SIGNAL_HANDLER_RFLAGS,
                signum: signum as u64,
                image,
            }
        },
    }
}

proof fn lemma_terminates_small(state: &SignalState)
    ensures
        state.next_outcome() matches SignalOutcome::Terminate(s) ==> s == SIGKILL || s == SIGTERM,
{
}

/// What an interrupt return does once signals are seen to.
#[derive(Clone, Copy, PartialEq, Eq, Debug, Structural)]
pub enum InterruptReturn {
    /// Goes on with the interrupt frame as it is.
    Resume,
    /// Not at all: the process exits with this code.
    Exit(i32),
    /// Goes on with the changed frame, after storing the image on the user stack.
    Handler(SignalFrameImage),
}

/// Deliver at most one signal to a process that an interrupt is about to
/// return to: the frame is redirected into the handler.
pub fn check_and_deliver_iret(state: &mut SignalState, frame: &mut InterruptFrame) -> (r:
    InterruptReturn)
    requires
        old(state).next_outcome() is Deliver ==> frame_fits(old(frame).rsp),
    ensures
        final(state).table == old(state).table,
        old(state).frame is Some ==> final(state).pending == old(state).pending,
        old(state).frame is None ==> dequeued(old(state).pending, final(state).pending),
        match old(state).next_outcome() {
            SignalOutcome::Nothing => {
                &&& r == InterruptReturn::Resume
                &&& final(state).frame == old(state).frame
                &&& *final(frame) == *old(frame)
            },
            SignalOutcome::Terminate(signum) => {
                &&& r == InterruptReturn::Exit((-(signum as i32)) as i32)
                &&& final(state).frame == old(state).frame
                &&& *final(frame) == *old(frame)
            },
            SignalOutcome::Deliver { user_fn, signum } => {
                let ctx = interrupt_context(*old(frame));
                &&& r == InterruptReturn::Handler(frame_image(ctx, old(frame).rsp))
                &&& final(state).frame == Some(ctx)
                &&& *final(frame) == (InterruptFrame {
                    rip: user_fn,
                    rsp: frame_layout(old(frame).rsp).ret_addr_slot,
                    rflags: SIGNAL_HANDLER_RFLAGS,
                    rdi: signum as u64,
                    ..*old(frame)
                })
            },
        },
{
    match next_signal(state) {
        SignalOutcome::Nothing => InterruptReturn::Resume,
        SignalOutcome::Terminate(signum) => {
            proof {
                lemma_terminates_small(old(state));
            }
            InterruptReturn::Exit(-(signum as i32))
        },
        SignalOutcome::Deliver { user_fn, signum } => {
            let ctx = SavedUserContext {
                user_rip: frame.rip,
                user_rsp: frame.rsp,
                user_rflags: frame.rflags,
                rax: frame.rax,
                rbx: frame.rbx,
                rcx: frame.rcx,
                rdx: frame.rdx,
                rsi: frame.rsi,
                rdi: frame.rdi,
                rbp: frame.rbp,
                r8: frame.r8,
                r9: frame.r9,
                r10: frame.r10,
                r11: frame.r11,
                r12: frame.r12,
                r13: frame.r13,
                r14: frame.r14,
                r15: frame.r15,
            };
            let image = write_signal_frame(&ctx, frame.rsp);
            state.frame = Some(ctx);
            frame.rip = user_fn;
            frame.rsp = image.layout.ret_addr_slot;
            frame.rflags = SIGNAL_HANDLER_RFLAGS;
            frame.rdi = signum as u64;
            InterruptReturn::Handler(image)
        },
    }
}

/// End the running handler: the context it interrupted, to be resumed.
pub fn finish_handler(state: &mut SignalState) -> (r: Option<SavedUserContext>)
    ensures
        r == old(state).frame,
        final(state).frame is None,
        final(state).table == old(state).table,
        final(state).pending == old(state).pending,
{
    let r = state.frame;
    state.frame = None;
    r
}

/// A handler entered on either path leaves the context it interrupted to be
/// resumed, with every register the program could rely on.
pub proof fn handler_context_is_kept(frame: InterruptFrame, call: SyscallFrame, retval: i64)
    ensures
        interrupt_context(frame).user_rip == frame.rip,
        interrupt_context(frame).user_rsp == frame.rsp,
        interrupt_context(frame).user_rflags == frame.rflags,
        interrupt_context(frame).rax == frame.rax,
        interrupt_context(frame).rbx == frame.rbx,
        interrupt_context(frame).rcx == frame.rcx,
        interrupt_context(frame).rdx == frame.rdx,
        interrupt_context(frame).rsi == frame.rsi,
        interrupt_context(frame).rdi == frame.rdi,
        interrupt_context(frame).rbp == frame.rbp,
        interrupt_context(frame).r8 == frame.r8,
        interrupt_context(frame).r9 == frame.r9,
        interrupt_context(frame).r10 == frame.r10,
        interrupt_context(frame).r11 == frame.r11,
        interrupt_context(frame).r12 == frame.r12,
        interrupt_context(frame).r13 == frame.r13,
        interrupt_context(frame).r14 == frame.r14,
        interrupt_context(frame).r15 == frame.r15,
        syscall_context(call, retval).user_rip == call.user_rip,
        syscall_context(call, retval).user_rsp == call.user_rsp,
        syscall_context(call, retval).user_rflags == call.user_rflags,
        syscall_context(call, retval).rax == retval as u64,
        syscall_context(call, retval).rbx == call.rbx,
        syscall_context(call, retval).rbp == call.rbp,
        syscall_context(call, retval).r12 == call.r12,
        syscall_context(call, retval).r13 == call.r13,
        syscall_context(call, retval).r14 == call.r14,
        syscall_context(call, retval).r15 == call.r15,
{
}

/// A pending SIGKILL ends the process whatever handlers it installed, unless
/// a lower-numbered signal goes first or a handler is running.
pub proof fn sigkill_cannot_be_caught(state: SignalState)
    requires
        state.frame is None,
        state.pending.lowest(SIGKILL as u64),
    ensures
        state.next_outcome() == SignalOutcome::Terminate(SIGKILL),
{
    let s = choose|s: u64| state.pending.lowest(s);
    if s < SIGKILL {
        assert(!state.pending.waits(s));
    } else if s > SIGKILL {
        assert(!state.pending.waits(SIGKILL as u64));
    }
    assert(state.pending.waits(SIGKILL as u64));
}

} // verus!
