//! Kernel threads.

use vstd::prelude::*;
use crate::mem::DIRECT_MAP_BASE;
use vstd::arithmetic::power2::pow2;
use super::queue::{timeslice, MLFQ_LEVELS};

verus! {

pub type ThreadId = u64;

#[derive(Clone, Copy, Debug, PartialEq, Eq, Structural)]
pub enum ThreadState {
    Runnable,
    Running,
    Blocked,
    Dead,
}

/// Size of a kernel stack.
pub const KSTACK_SIZE: usize = 32768;

/// A kernel stack is `2^KSTACK_ORDER` frames.
pub const KSTACK_ORDER: u8 = 3;

/// Size of a thread's register save area.
pub const FPU_AREA_SIZE: usize = 1024;

/// What a thread occupies at the top of its stack, and its alignment there.
pub const THREAD_SIZE: u64 = 1152;

pub const THREAD_ALIGN: u64 = 64;

/// A thread's x87 and SSE state as the processor saves it.
#[derive(Clone, Copy)]
pub struct FpuArea {
    bytes: [u8; FPU_AREA_SIZE],
}

impl FpuArea {
    pub closed spec fn view(&self) -> Seq<u8> {
        self.bytes@
    }

    /// The state a thread starts with: all zero but for the SSE control word
    /// 0x1f80 at offset 24, which masks every exception.
    pub fn new() -> (r: Self)
        ensures
            r@ == Seq::new(1024, |i: int| 0u8).update(24, 0x80).update(25, 0x1f),
    {
        let mut bytes: [u8; FPU_AREA_SIZE] = [0;FPU_AREA_SIZE];
        bytes[24] = 0x80;
        bytes[25] = 0x1f;
        let r = FpuArea { bytes };
        assert(r@ =~= Seq::new(1024, |i: int| 0u8).update(24, 0x80).update(25, 0x1f));
        r
    }

    /// The saved bytes.
    pub fn as_ptr(&self) -> (r: &[u8; FPU_AREA_SIZE])
        ensures
            r@ == self@,
    {
        &self.bytes
    }

    /// The saved bytes, to be overwritten.
    pub fn as_mut_ptr(&mut self) -> (r: &mut [u8; FPU_AREA_SIZE])
        ensures
            r@ == old(self)@,
            final(self)@ == final(r)@,
    {
        &mut self.bytes
    }
}

impl Default for FpuArea {
    fn default() -> (r: Self)
        ensures
            r@ == Seq::new(1024, |i: int| 0u8).update(24, 0x80).update(25, 0x1f),
    {
        FpuArea::new()
    }
}

/// The registers a suspended thread resumes with.
#[derive(Clone, Copy, Debug, PartialEq, Eq, Structural)]
pub struct Context {
    pub r15: u64,
    pub r14: u64,
    pub r13: u64,
    pub r12: u64,
    pub rbx: u64,
    pub rbp: u64,
    pub rip: u64,
    pub rsp: u64,
}

impl Context {
    pub open spec fn zeroes() -> Context {
        Context { r15: 0, r14: 0, r13: 0, r12: 0, rbx: 0, rbp: 0, rip: 0, rsp: 0 }
    }

    /// A thread about to enter `entry` on a stack that ends at `stack_top`.
    pub open spec fn entering(entry: u64, stack_top: u64) -> Context {
        Context { rip: entry, rsp: (stack_top - 8) as u64, ..Self::zeroes() }
    }

    pub fn zero() -> (r: Self)
        ensures
            r == Self::zeroes(),
    {
        Context { r15: 0, r14: 0, r13: 0, r12: 0, rbx: 0, rbp: 0, rip: 0, rsp: 0 }
    }

    pub fn new_kernel(entry: u64, stack_top: u64) -> (r: Self)
        requires
            stack_top % 16 == 0,
            stack_top > 0,
        ensures
            r == Self::entering(entry, stack_top),
            r.rsp % 16 == 8,
    {
        Context { rip: entry, rsp: stack_top - 8, ..Context::zero() }
    }

    /// As `new_kernel`, for an entry point with the C calling convention.
    pub fn new_raw(entry: u64, stack_top: u64) -> (r: Self)
        requires
            stack_top % 16 == 0,
            stack_top > 0,
        ensures
            r == Self::entering(entry, stack_top),
            r.rsp % 16 == 8,
    {
        Context { rip: entry, rsp: stack_top - 8, ..Context::zero() }
    }
}

#[derive(Clone, Copy)]
pub struct Thread {
    pub id: ThreadId,
    pub state: ThreadState,
    pub cpu_id: u32,
    pub priority: u8,
    pub ticks_used: u32,
    pub kstack_top: u64,
    pub kstack_phys: u64,
    pub context: Context,
    pub fpu: FpuArea,
}

/// The end of the usable part of the stack at `stack_phys`: the thread itself
/// lies above it.
pub open spec fn kstack_end(stack_phys: u64) -> int {
    let top = DIRECT_MAP_BASE + stack_phys + KSTACK_SIZE - THREAD_SIZE;
    top - top % 64
}

/// The stack lies inside the direct map.
pub open spec fn kstack_fits(stack_phys: u64) -> bool {
    DIRECT_MAP_BASE + stack_phys + KSTACK_SIZE <= u64::MAX
}

impl Thread {
    /// A thread that will enter `entry` on the stack at `stack_phys`.
    pub fn new_kernel(id: ThreadId, entry: u64, priority: u8, stack_phys: u64) -> (r: Self)
        requires
            kstack_fits(stack_phys),
        ensures
            r.id == id,
            r.state == ThreadState::Runnable,
            r.cpu_id == 0,
            r.priority == (if priority < 8 {
                priority
            } else {
                7
            }),
            r.ticks_used == 0,
            r.kstack_top == kstack_end(stack_phys),
            r.kstack_phys == stack_phys,
            r.context == Context::entering(entry, r.kstack_top),
            r.fpu@ == Seq::new(1024, |i: int| 0u8).update(24, 0x80).update(25, 0x1f),
    {
        let stack_base: u64 = DIRECT_MAP_BASE + stack_phys;
        let stack_end: u64 = stack_base + KSTACK_SIZE as u64;
        let tcb_top: u64 = stack_end - THREAD_SIZE;
        let tcb_aligned: u64 = tcb_top - tcb_top % THREAD_ALIGN;
        let kstack_top: u64 = tcb_aligned - tcb_aligned % 16;
        let level: u8 = if priority < MLFQ_LEVELS as u8 {
            priority
        } else {
            (MLFQ_LEVELS - 1) as u8
        };
        Thread {
            id,
            state: ThreadState::Runnable,
            cpu_id: 0,
            priority: level,
            ticks_used: 0,
            kstack_top,
            kstack_phys: stack_phys,
            context: Context::new_kernel(entry, kstack_top),
            fpu: FpuArea::new(),
        }
    }

    pub fn is_runnable(&self) -> (r: bool)
        ensures
            r == (self.state == ThreadState::Runnable),
    {
        self.state == ThreadState::Runnable
    }
}

/// The thread has used up its timeslice with this tick.
pub open spec fn slice_ends(t: Thread) -> bool {
    t.ticks_used + 1 >= pow2(t.priority as nat)
}

/// The thread after one more tick: at the end of its timeslice it drops one
/// level, down to the last.
pub open spec fn ticked(t: Thread) -> Thread {
    if slice_ends(t) {
        Thread {
            ticks_used: 0,
            priority: if t.priority < 7 {
                (t.priority + 1) as u8
            } else {
                t.priority
            },
            ..t
        }
    } else {
        Thread { ticks_used: (t.ticks_used + 1) as u32, ..t }
    }
}

/// Charge a running thread one tick. True where its timeslice is over.
pub fn charge_tick(thread: &mut Thread) -> (r: bool)
    requires
        old(thread).priority < 32,
    ensures
        r == slice_ends(*old(thread)),
        *final(thread) == ticked(*old(thread)),
{
    let ghost before = *thread;
    thread.ticks_used = thread.ticks_used.saturating_add(1);
    let slice: u32 = timeslice(thread.priority as usize);
    if thread.ticks_used < slice {
        return false;
    }
    thread.ticks_used = 0;
    if thread.priority < (MLFQ_LEVELS - 1) as u8 {
        thread.priority = thread.priority + 1;
    }
    true
}

} // verus!
