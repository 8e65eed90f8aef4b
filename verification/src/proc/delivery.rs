//! Delivering signals to the process that a CPU is about to return to.

use vstd::prelude::*;
use crate::sched::schedule::{can_schedule, Switch};
use super::lifecycle::{exited, lemma_wf_procs};
use super::process::Process;
use super::signal::{check_and_deliver_iret, deliver_on_syscall_return, dequeued, frame_fits, frame_image, frame_layout, interrupt_context, syscall_context, InterruptFrame, InterruptReturn, SignalFrameImage, SignalOutcome, SignalState, SyscallFrame, SyscallReturn, SIGNAL_HANDLER_RFLAGS};
use super::state::{cr3_of, current_process, Kernel};
use super::syscall::signals_changed;

verus! {

/// What a CPU does at the end of a system call.
#[derive(Clone, Copy, PartialEq, Eq, Debug, Structural)]
pub enum Delivery {
    /// It returns this value to the program.
    Resume(i64),
    /// The program was ended: it runs something else.
    Leave(Switch),
    /// It stores `image` on the program's stack and enters a handler.
    Handler { cr3: u64, user_fn: u64, rsp: u64, rflags: u64, signum: u64, image: SignalFrameImage },
}

/// At most one signal was taken from those that wait, none while a handler runs.
pub open spec fn signal_taken(before: SignalState, after: SignalState) -> bool {
    &&& after.table == before.table
    &&& before.frame is Some ==> after.pending == before.pending
    &&& before.frame is None ==> dequeued(before.pending, after.pending)
}

/// The state after process `p` was ended by a signal that waited for it.
pub open spec fn signalled(
    before: &Kernel,
    after: &Kernel,
    p: int,
    code: i32,
    cpu_id: u32,
    next: Switch,
) -> bool {
    exists|mid: Kernel|
        {
            let was = before.procs@[p].signals;
            let now = mid.procs@[p].signals;
            &&& signal_taken(was, now)
            &&& now.frame == was.frame
            &&& signals_changed(before, &mid, p, now)
            &&& #[trigger] exited(&mid, after, p, code, cpu_id, next)
        }
}

/// What is delivered at the end of a system call.
pub open spec fn delivered(
    before: &Kernel,
    after: &Kernel,
    frame: SyscallFrame,
    retval: i64,
    cpu_id: u32,
    r: Delivery,
) -> bool {
    match before.current(cpu_id) {
        None => r == Delivery::Resume(retval) && *after == *before,
        Some(p) => {
            let was = before.procs@[p as int].signals;
            let now = after.procs@[p as int].signals;
            match was.next_outcome() {
                SignalOutcome::Nothing => {
                    &&& r == Delivery::Resume(retval)
                    &&& signal_taken(was, now)
                    &&& now.frame == was.frame
                    &&& signals_changed(before, after, p as int, now)
                },
                SignalOutcome::Terminate(signum) => r matches Delivery::Leave(next) && signalled(
                    before,
                    after,
                    p as int,
                    (-(signum as i32)) as i32,
                    cpu_id,
                    next,
                ),
                SignalOutcome::Deliver { user_fn, signum } => {
                    let ctx = syscall_context(frame, retval);
                    &&& r == Delivery::Handler {
                        cr3: cr3_of(&before.space_of(p as int)),
                        user_fn,
                        rsp: frame_layout(frame.user_rsp).ret_addr_slot,
                        rflags: SIGNAL_HANDLER_RFLAGS,
                        signum: signum as u64,
                        image: frame_image(ctx, frame.user_rsp),
                    }
                    &&& signal_taken(was, now)
                    &&& now.frame == Some(ctx)
                    &&& signals_changed(before, after, p as int, now)
                },
            }
        },
    }
}

/// Deliver at most one signal to the process whose system call on `cpu_id` is
/// about to return `retval`.
pub fn deliver_on_syscall_return_hook(
    k: &mut Kernel,
    frame: &SyscallFrame,
    retval: i64,
    cpu_id: u32,
) -> (r: Delivery)
    requires
        old(k).wf(),
        old(k).sched.unlocked(cpu_id),
        old(k).current(cpu_id) matches Some(p) ==> {
            let outcome = old(k).procs@[p as int].signals.next_outcome();
            &&& outcome is Terminate ==> can_schedule(&old(k).sched, cpu_id)
            &&& outcome is Deliver ==> frame_fits(frame.user_rsp)
        },
    ensures
        final(k).wf(),
        delivered(old(k), final(k), *frame, retval, cpu_id, r),
{
    let p: usize = match current_process(k, cpu_id) {
        Some(p) => p,
        None => return Delivery::Resume(retval),
    };
    let ghost k0 = *k;
    assert(k.live(p as int));
    assert(k.process_wf(p as int));
    let action = deliver_on_syscall_return(&mut k.procs[p].signals, frame, retval);
    let ghost mid = *k;
    proof {
        assert(k.procs@ =~= k0.procs@.update(
            p as int,
            Process { signals: k.procs@[p as int].signals, ..k0.procs@[p as int] },
        ));
        lemma_wf_procs(&k0, k);
    }
    match action {
        SyscallReturn::Resume(v) => Delivery::Resume(v),
        SyscallReturn::Exit(code) => {
            let next = Process::exit(k, p, code, cpu_id);
            proof {
                assert(exited(&mid, k, p as int, code, cpu_id, next));
                assert(signalled(&k0, k, p as int, code, cpu_id, next));
            }
            Delivery::Leave(next)
        },
        SyscallReturn::Handler { user_fn, rsp, rflags, signum, image } => {
            let cr3: u64 = space_cr3(k, p);
            Delivery::Handler { cr3, user_fn, rsp, rflags, signum, image }
        },
    }
}

/// The value that loads the address space of process `p`.
fn space_cr3(k: &Kernel, p: usize) -> (r: u64)
    requires
        k.wf(),
        k.live(p as int),
    ensures
        r == cr3_of(&k.space_of(p as int)),
{
    assert(k.process_wf(p as int));
    let h: usize = k.procs[p].address_space;
    assert(k.spaces.live(h as int));
    match &k.spaces.slots[h] {
        Some(shared) => shared.space.pml4_phys.0 | (shared.space.pcid as u64),
        None => 0,
    }
}

/// What a CPU does at the end of an interrupt of a program.
#[derive(Clone, Copy, PartialEq, Eq, Debug, Structural)]
pub enum InterruptDelivery {
    /// It goes on with the interrupt frame as it is now.
    Resume,
    /// The program was ended: it runs something else.
    Leave(Switch),
    /// It stores the image on the program's stack and goes on with the frame,
    /// which now enters a handler.
    Handler(SignalFrameImage),
}

/// What is delivered at the end of an interrupt.
pub open spec fn interrupt_delivered(
    before: &Kernel,
    after: &Kernel,
    old_frame: InterruptFrame,
    new_frame: InterruptFrame,
    cpu_id: u32,
    r: InterruptDelivery,
) -> bool {
    match before.current(cpu_id) {
        None => r == InterruptDelivery::Resume && *after == *before && new_frame == old_frame,
        Some(p) => {
            let was = before.procs@[p as int].signals;
            let now = after.procs@[p as int].signals;
            match was.next_outcome() {
                SignalOutcome::Nothing => {
                    &&& r == InterruptDelivery::Resume
                    &&& new_frame == old_frame
                    &&& signal_taken(was, now)
                    &&& now.frame == was.frame
                    &&& signals_changed(before, after, p as int, now)
                },
                SignalOutcome::Terminate(signum) => {
                    &&& new_frame == old_frame
                    &&& r matches InterruptDelivery::Leave(next) && signalled(
                        before,
                        after,
                        p as int,
                        (-(signum as i32)) as i32,
                        cpu_id,
                        next,
                    )
                },
                SignalOutcome::Deliver { user_fn, signum } => {
                    let ctx = interrupt_context(old_frame);
                    &&& r == InterruptDelivery::Handler(frame_image(ctx, old_frame.rsp))
                    &&& new_frame == (InterruptFrame {
                        rip: user_fn,
                        rsp: frame_layout(old_frame.rsp).ret_addr_slot,
                        rflags: SIGNAL_HANDLER_RFLAGS,
                        rdi: signum as u64,
                        ..old_frame
                    })
                    &&& signal_taken(was, now)
                    &&& now.frame == Some(ctx)
                    &&& signals_changed(before, after, p as int, now)
                },
            }
        },
    }
}

/// Deliver at most one signal to the process that an interrupt on `cpu_id` is
/// about to return to.
pub fn check_and_deliver_iret_hook(k: &mut Kernel, frame: &mut InterruptFrame, cpu_id: u32) -> (r:
    InterruptDelivery)
    requires
        old(k).wf(),
        old(k).sched.unlocked(cpu_id),
        old(k).current(cpu_id) matches Some(p) ==> {
            let outcome = old(k).procs@[p as int].signals.next_outcome();
            &&& outcome is Terminate ==> can_schedule(&old(k).sched, cpu_id)
            &&& outcome is Deliver ==> frame_fits(old(frame).rsp)
        },
    ensures
        final(k).wf(),
        interrupt_delivered(old(k), final(k), *old(frame), *final(frame), cpu_id, r),
{
    let p: usize = match current_process(k, cpu_id) {
        Some(p) => p,
        None => return InterruptDelivery::Resume,
    };
    let ghost k0 = *k;
    assert(k.live(p as int));
    assert(k.process_wf(p as int));
    let action = check_and_deliver_iret(&mut k.procs[p].signals, frame);
    let ghost mid = *k;
    proof {
        assert(k.procs@ =~= k0.procs@.update(
            p as int,
            Process { signals: k.procs@[p as int].signals, ..k0.procs@[p as int] },
        ));
        lemma_wf_procs(&k0, k);
    }
    match action {
        InterruptReturn::Resume => InterruptDelivery::Resume,
        InterruptReturn::Exit(code) => {
            let next = Process::exit(k, p, code, cpu_id);
            proof {
                assert(exited(&mid, k, p as int, code, cpu_id, next));
                assert(signalled(&k0, k, p as int, code, cpu_id, next));
            }
            InterruptDelivery::Leave(next)
        },
        InterruptReturn::Handler(image) => InterruptDelivery::Handler(image),
    }
}

} // verus!
