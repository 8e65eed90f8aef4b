//! The order in which the machine is brought up.

use vstd::prelude::*;
use crate::sched::percpu::Sched;
use crate::sched::schedule::{can_schedule, schedule, scheduled, Switch};
use crate::smp::trampoline::{TRAMPOLINE_PHYS, TRAMPOLINE_SIZE};

verus! {

/// The interrupt that makes another CPU look at its queue.
pub const RESCHED_VECTOR: u8 = 0xfb;

/// The interrupt of a received packet.
pub const VIRTIO_RX_VECTOR: u8 = 0x40;

/// What is being brought up.
#[derive(Clone, Copy, Debug, PartialEq, Eq, Structural)]
pub enum BootPhase {
    Serial,
    Cpu,
    MemoryMap,
    ExecutableAddress,
    Paging,
    BumpRange,
    KernelRange,
    CopyMemoryMap,
    FrameAllocator,
    /// The local interrupt controllers; the legacy ones are masked.
    Apic,
    Timer,
    Acpi,
    StartCpus,
    AwaitCpus,
    PciReport,
    Virtio,
    Scheduler,
    Keyboard,
    Processes,
    FileSystem,
    InitProcess,
    /// The first thread is about to run.
    Start,
    Running,
}

/// The place of a phase in the order.
pub open spec fn order(p: BootPhase) -> nat {
    match p {
        BootPhase::Serial => 0,
        BootPhase::Cpu => 1,
        BootPhase::MemoryMap => 2,
        BootPhase::ExecutableAddress => 3,
        BootPhase::Paging => 4,
        BootPhase::BumpRange => 5,
        BootPhase::KernelRange => 6,
        BootPhase::CopyMemoryMap => 7,
        BootPhase::FrameAllocator => 8,
        BootPhase::Apic => 9,
        BootPhase::Timer => 10,
        BootPhase::Acpi => 11,
        BootPhase::StartCpus => 12,
        BootPhase::AwaitCpus => 13,
        BootPhase::PciReport => 14,
        BootPhase::Virtio => 15,
        BootPhase::Scheduler => 16,
        BootPhase::Keyboard => 17,
        BootPhase::Processes => 18,
        BootPhase::FileSystem => 19,
        BootPhase::InitProcess => 20,
        BootPhase::Start => 21,
        BootPhase::Running => 22,
    }
}

/// The letters that the console shows once a phase is over; `routed` tells
/// whether the keyboard's interrupt could be routed.
pub open spec fn letters(p: BootPhase, routed: bool) -> Seq<u8> {
    match p {
        BootPhase::Serial => seq![0x4bu8],
        BootPhase::Cpu => seq![0x43u8, 0x4c],
        BootPhase::MemoryMap => seq![0x4eu8],
        BootPhase::ExecutableAddress => seq![0x45u8],
        BootPhase::Paging => seq![0x47u8],
        BootPhase::BumpRange => seq![0x68u8],
        BootPhase::KernelRange => seq![0x69u8],
        BootPhase::CopyMemoryMap => seq![0x6au8],
        BootPhase::FrameAllocator => seq![0x4du8],
        BootPhase::Apic => seq![0x41u8],
        BootPhase::Timer => seq![0x54u8],
        BootPhase::Acpi => seq![0x44u8],
        BootPhase::StartCpus => seq![0x53u8],
        BootPhase::AwaitCpus => seq![0x57u8],
        BootPhase::PciReport => Seq::empty(),
        BootPhase::Virtio => Seq::empty(),
        BootPhase::Scheduler => seq![0x52u8],
        BootPhase::Keyboard => if routed {
            seq![0x4bu8]
        } else {
            seq![0x6bu8]
        },
        BootPhase::Processes => seq![0x50u8],
        BootPhase::FileSystem => seq![0x46u8],
        BootPhase::InitProcess => seq![0x63u8],
        BootPhase::Start => seq![0x73u8],
        BootPhase::Running => Seq::empty(),
    }
}

/// What is brought up after `p`, and what the console shows of `p`. This is the
/// whole course of the start: each phase once, in order.
pub fn kernel_main(p: BootPhase, routed: bool) -> (r: (BootPhase, Vec<u8>))
    requires
        p != BootPhase::Running,
    ensures
        order(r.0) == order(p) + 1,
        r.1@ == letters(p, routed),
{
    let mut shown: Vec<u8> = Vec::new();
    let next = match p {
        BootPhase::Serial => {
            shown.push(0x4b);
            BootPhase::Cpu
        },
        BootPhase::Cpu => {
            shown.push(0x43);
            shown.push(0x4c);
            BootPhase::MemoryMap
        },
        BootPhase::MemoryMap => {
            shown.push(0x4e);
            BootPhase::ExecutableAddress
        },
        BootPhase::ExecutableAddress => {
            shown.push(0x45);
            BootPhase::Paging
        },
        BootPhase::Paging => {
            shown.push(0x47);
            BootPhase::BumpRange
        },
        BootPhase::BumpRange => {
            shown.push(0x68);
            BootPhase::KernelRange
        },
        BootPhase::KernelRange => {
            shown.push(0x69);
            BootPhase::CopyMemoryMap
        },
        BootPhase::CopyMemoryMap => {
            shown.push(0x6a);
            BootPhase::FrameAllocator
        },
        BootPhase::FrameAllocator => {
            shown.push(0x4d);
            BootPhase::Apic
        },
        BootPhase::Apic => {
            shown.push(0x41);
            BootPhase::Timer
        },
        BootPhase::Timer => {
            shown.push(0x54);
            BootPhase::Acpi
        },
        BootPhase::Acpi => {
            shown.push(0x44);
            BootPhase::StartCpus
        },
        BootPhase::StartCpus => {
            shown.push(0x53);
            BootPhase::AwaitCpus
        },
        BootPhase::AwaitCpus => {
            shown.push(0x57);
            BootPhase::PciReport
        },
        BootPhase::PciReport => BootPhase::Virtio,
        BootPhase::Virtio => BootPhase::Scheduler,
        BootPhase::Scheduler => {
            shown.push(0x52);
            BootPhase::Keyboard
        },
        BootPhase::Keyboard => {
            shown.push(
                if routed {
                    0x4b
                } else {
                    0x6b
                },
            );
            BootPhase::Processes
        },
        BootPhase::Processes => {
            shown.push(0x50);
            BootPhase::FileSystem
        },
        BootPhase::FileSystem => {
            shown.push(0x46);
            BootPhase::InitProcess
        },
        BootPhase::InitProcess => {
            shown.push(0x63);
            BootPhase::Start
        },
        _ => {
            shown.push(0x73);
            BootPhase::Running
        },
    };
    assert(shown@ =~= letters(p, routed));
    (next, shown)
}

/// Devices are mapped before the first process has an address space, legacy
/// interrupts are masked before interrupts are on, and the file system is there
/// before a process opens its standard files.
pub proof fn start_order()
    ensures
        order(BootPhase::Virtio) < order(BootPhase::InitProcess),
        order(BootPhase::Apic) < order(BootPhase::Start),
        order(BootPhase::PciReport) < order(BootPhase::Virtio),
        order(BootPhase::Processes) < order(BootPhase::FileSystem),
        order(BootPhase::FileSystem) < order(BootPhase::InitProcess),
        order(BootPhase::FrameAllocator) < order(BootPhase::Apic),
{
}

/// A phase is known by its place.
pub proof fn phases_differ(a: BootPhase, b: BootPhase)
    requires
        order(a) == order(b),
    ensures
        a == b,
{
}

/// The memory that is kept back besides the kernel's: the page that other CPUs
/// start in.
pub fn extra_reserved() -> (r: (u64, u64))
    ensures
        r == (0x8000u64, 0x9000u64),
{
    (TRAMPOLINE_PHYS, TRAMPOLINE_PHYS + TRAMPOLINE_SIZE)
}

/// A tick of the timer on `cpu_id`: it is counted, and the scheduler decides what
/// runs next. One comes every millisecond.
pub fn timer_handler(ticks: &mut u64, s: &mut Sched, cpu_id: u32) -> (r: Switch)
    requires
        old(s).wf(),
        old(s).unlocked(cpu_id),
        can_schedule(old(s), cpu_id),
    ensures
        *final(ticks) == (*old(ticks) + 1) % 0x1_0000_0000_0000_0000,
        final(s).wf(),
        (final(s)@, r) == scheduled(old(s)@, cpu_id),
{
    *ticks = ticks.wrapping_add(1);
    schedule(s, cpu_id)
}

/// Another CPU has queued something: the scheduler decides what runs next, if it
/// has been started.
pub fn resched_handler(s: &mut Sched, started: bool, cpu_id: u32) -> (r: Switch)
    requires
        old(s).wf(),
        old(s).unlocked(cpu_id),
        can_schedule(old(s), cpu_id),
    ensures
        final(s).wf(),
        if started {
            (final(s)@, r) == scheduled(old(s)@, cpu_id)
        } else {
            r == Switch::Stay && *final(s) == *old(s)
        },
{
    if started {
        schedule(s, cpu_id)
    } else {
        Switch::Stay
    }
}

/// Milliseconds since the timer was started.
pub fn uptime_ms(ticks: u64) -> (r: u64)
    ensures
        r == ticks,
{
    ticks
}

} // verus!
