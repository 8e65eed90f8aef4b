//! Starting the other CPUs: the code page they start in, and the order they are
//! brought up in.

use vstd::prelude::*;
use crate::bytes::{le_u16, le_u32, le_u64, lemma_le_u16_same, lemma_le_u32_same, lemma_le_u64_same, overwrite, put_bytes, u16_bytes, u32_bytes, u64_bytes};
use crate::mem::{PhysAddr, PhysMem, DIRECT_MAP_BASE};
use super::acpi::CpuEntry;
use super::cpuinfo::{register_cpu, set_cpu_online, CpuInfo, CpuTable};

verus! {

/// The page that a CPU starts in.
pub const TRAMPOLINE_PHYS: u64 = 0x8000;

pub const TRAMPOLINE_SIZE: u64 = 0x1000;

/// Bytes of the stack that a CPU starts on.
pub const AP_STACK_SIZE: u64 = 0x4000;

/// How often a starting CPU is looked for before it is given up.
pub const AP_STARTUP_SPIN_LIMIT: u64 = 100_000;

/// The page number that a startup interrupt carries.
pub fn trampoline_vector() -> (r: u8)
    ensures
        r == TRAMPOLINE_PHYS / 4096,
{
    (TRAMPOLINE_PHYS / 4096) as u8
}

/// The top of the stack in the four frames at `stack_phys`, as the kernel
/// sees it: a multiple of 16.
pub fn ap_stack_top(stack_phys: u64) -> (r: u64)
    requires
        DIRECT_MAP_BASE + stack_phys + AP_STACK_SIZE <= u64::MAX,
    ensures
        r == (DIRECT_MAP_BASE + stack_phys + AP_STACK_SIZE) / 16 * 16,
{
    let top: u64 = DIRECT_MAP_BASE + stack_phys + AP_STACK_SIZE;
    top - top % 16
}

/// Where in the start code the values lie that differ from CPU to CPU, and its
/// segment table.
#[derive(Clone, Copy, Debug, PartialEq, Eq, Structural)]
pub struct TrampolineLayout {
    /// Four bytes: the top page table.
    pub pml4: usize,
    /// Eight bytes: the top of the stack.
    pub stack_top: usize,
    /// Eight bytes: where the kernel is entered.
    pub entry: usize,
    /// Six bytes: the size and the address of the segment table.
    pub gdt_ptr: usize,
    /// The segment table, of five entries.
    pub gdt: usize,
}

/// `n` bytes at `a` and `m` bytes at `b` have none in common.
pub open spec fn disjoint(a: int, n: int, b: int, m: int) -> bool {
    a + n <= b || b + m <= a
}

impl TrampolineLayout {
    /// The values lie in `len` bytes, none over another.
    pub open spec fn fits(&self, len: nat) -> bool {
        &&& self.pml4 + 4 <= len
        &&& self.stack_top + 8 <= len
        &&& self.entry + 8 <= len
        &&& self.gdt_ptr + 6 <= len
        &&& self.gdt + 40 <= len
        &&& disjoint(self.pml4 as int, 4, self.stack_top as int, 8)
        &&& disjoint(self.pml4 as int, 4, self.entry as int, 8)
        &&& disjoint(self.pml4 as int, 4, self.gdt_ptr as int, 6)
        &&& disjoint(self.stack_top as int, 8, self.entry as int, 8)
        &&& disjoint(self.stack_top as int, 8, self.gdt_ptr as int, 6)
        &&& disjoint(self.entry as int, 8, self.gdt_ptr as int, 6)
    }

    /// Byte `i` of the start code is part of a value.
    pub open spec fn is_slot(&self, i: int) -> bool {
        ||| self.pml4 <= i < self.pml4 + 4
        ||| self.stack_top <= i < self.stack_top + 8
        ||| self.entry <= i < self.entry + 8
        ||| self.gdt_ptr <= i < self.gdt_ptr + 6
    }
}

/// `page` is the start code `image` with its values filled in.
pub open spec fn patched(
    image: Seq<u8>,
    page: Seq<u8>,
    layout: TrampolineLayout,
    pml4: u32,
    stack_top: u64,
    entry: u64,
) -> bool {
    &&& page.len() == image.len()
    &&& le_u32(page, layout.pml4 as int) == pml4
    &&& le_u64(page, layout.stack_top as int) == stack_top
    &&& le_u64(page, layout.entry as int) == entry
    &&& le_u16(page, layout.gdt_ptr as int) == 39
    &&& le_u32(page, layout.gdt_ptr + 2) == TRAMPOLINE_PHYS + layout.gdt
    &&& forall|i: int|
        0 <= i < image.len() && !layout.is_slot(i) ==> #[trigger] page[i] == image[i]
}

/// The start code `image` with its values filled in.
pub fn patch_trampoline(
    image: &[u8],
    layout: &TrampolineLayout,
    pml4: u32,
    stack_top: u64,
    entry: u64,
) -> (r: Vec<u8>)
    requires
        image@.len() <= TRAMPOLINE_SIZE,
        layout.fits(image@.len()),
    ensures
        patched(image@, r@, *layout, pml4, stack_top, entry),
{
    let mut page: Vec<u8> = Vec::new();
    page.extend_from_slice(image);
    assert(page@ =~= image@);
    let b1 = u32_bytes(pml4);
    put_bytes(&mut page, layout.pml4, &b1);
    let b2 = u64_bytes(stack_top);
    put_bytes(&mut page, layout.stack_top, &b2);
    let b3 = u64_bytes(entry);
    put_bytes(&mut page, layout.entry, &b3);
    let b4 = u16_bytes(39);
    put_bytes(&mut page, layout.gdt_ptr, &b4);
    let b5 = u32_bytes((TRAMPOLINE_PHYS + layout.gdt as u64) as u32);
    put_bytes(&mut page, layout.gdt_ptr + 2, &b5);
    proof {
        lemma_le_u32_same(page@, layout.pml4 as int, b1@, 0);
        lemma_le_u64_same(page@, layout.stack_top as int, b2@, 0);
        lemma_le_u64_same(page@, layout.entry as int, b3@, 0);
        lemma_le_u16_same(page@, layout.gdt_ptr as int, b4@, 0);
        lemma_le_u32_same(page@, layout.gdt_ptr + 2, b5@, 0);
    }
    page
}

/// Put the start code for one CPU in its page. It runs on a copy of the top
/// page table at `low_frame`, which a 32-bit register can hold.
pub fn install_trampoline_for_stack(
    mem: &mut PhysMem,
    image: &[u8],
    layout: &TrampolineLayout,
    low_frame: PhysAddr,
    pml4_phys: PhysAddr,
    entry: u64,
    stack_top: u64,
)
    requires
        image@.len() <= TRAMPOLINE_SIZE,
        layout.fits(image@.len()),
        low_frame.0 <= u32::MAX,
        old(mem).holds(low_frame.0),
        old(mem).holds(pml4_phys.0),
        old(mem).holds(TRAMPOLINE_PHYS),
    ensures
        exists|page: Seq<u8>|
            {
                &&& #[trigger] patched(
                    image@,
                    page,
                    *layout,
                    low_frame.0 as u32,
                    stack_top,
                    entry,
                )
                &&& final(mem).bytes@ == overwrite(
                    overwrite(old(mem).bytes@, low_frame.0 as int, old(mem).page(pml4_phys.0)),
                    TRAMPOLINE_PHYS as int,
                    page,
                )
            },
        final(mem).pool == old(mem).pool,
        final(mem).freed == old(mem).freed,
{
    mem.copy_frame(low_frame, pml4_phys);
    let page = patch_trampoline(image, layout, low_frame.0 as u32, stack_top, entry);
    mem.write_bytes(TRAMPOLINE_PHYS, page.as_slice());
}

/// How many of the first `n` CPUs are to be started: all but the booting one.
pub open spec fn aps_below(cpus: Seq<CpuEntry>, bsp: u32, n: int) -> int
    decreases n,
{
    if n <= 0 {
        0
    } else if cpus[n - 1].apic_id != bsp {
        aps_below(cpus, bsp, n - 1) + 1
    } else {
        aps_below(cpus, bsp, n - 1)
    }
}

/// How far the start of the other CPUs has come.
#[derive(Clone, Copy, Debug, PartialEq, Eq, Structural)]
pub struct ApStart {
    /// The first CPU of the list that has not been looked at.
    pub at: usize,
    pub next_cpu_id: u32,
    /// How many have come up.
    pub started: u32,
}

impl ApStart {
    pub open spec fn wf(&self, cpus: Seq<CpuEntry>, bsp: u32) -> bool {
        &&& self.at <= cpus.len() < u32::MAX
        &&& self.next_cpu_id == 1 + aps_below(cpus, bsp, self.at as int)
        &&& self.started < self.next_cpu_id
    }
}

/// One CPU to start: an INIT and two startup interrupts to `apic_id`.
#[derive(Clone, Copy, Debug, PartialEq, Eq, Structural)]
pub struct ApBoot {
    pub cpu_id: u32,
    pub apic_id: u32,
    pub stack_top: u64,
}

/// Enter the booting CPU as number 0, online, and begin to start the others.
pub fn start_aps(t: &mut CpuTable, cpus: &[CpuEntry], bsp: u32) -> (r: ApStart)
    requires
        old(t).wf(),
        cpus@.len() < u32::MAX,
    ensures
        final(t).wf(),
        final(t).cpus@ == old(t).cpus@.update(
            0,
            CpuInfo { cpu_id: 0, apic_id: bsp, online: true, stack_top: 0 },
        ),
        final(t).registered@ == old(t).registered@.update(0, true),
        final(t).count == (if old(t).count > 0 {
            old(t).count
        } else {
            1
        }),
        r == (ApStart { at: 0, next_cpu_id: 1, started: 0 }),
        r.wf(cpus@, bsp),
{
    register_cpu(t, 0, bsp, 0);
    set_cpu_online(t, 0);
    assert(t.cpus@ =~= old(t).cpus@.update(
        0,
        CpuInfo { cpu_id: 0, apic_id: bsp, online: true, stack_top: 0 },
    ));
    ApStart { at: 0, next_cpu_id: 1, started: 0 }
}

/// The place of the next CPU to start, if there is one.
pub fn next_ap(s: &ApStart, cpus: &[CpuEntry], bsp: u32) -> (r: Option<usize>)
    requires
        s.wf(cpus@, bsp),
    ensures
        match r {
            Some(i) => {
                &&& s.at <= i < cpus@.len()
                &&& cpus@[i as int].apic_id != bsp
                &&& forall|j: int| s.at <= j < i ==> (#[trigger] cpus@[j]).apic_id == bsp
            },
            None => forall|j: int|
                s.at <= j < cpus@.len() ==> (#[trigger] cpus@[j]).apic_id == bsp,
        },
{
    let mut i: usize = s.at;
    while i < cpus.len()
        invariant
            s.at <= i <= cpus@.len(),
            forall|j: int| s.at <= j < i ==> (#[trigger] cpus@[j]).apic_id == bsp,
        decreases cpus@.len() - i,
    {
        if cpus[i].apic_id != bsp {
            return Some(i);
        }
        i += 1;
    }
    None
}

proof fn lemma_skips_bsp(cpus: Seq<CpuEntry>, bsp: u32, from: int, to: int)
    requires
        0 <= from <= to <= cpus.len(),
        forall|j: int| from <= j < to ==> (#[trigger] cpus[j]).apic_id == bsp,
    ensures
        aps_below(cpus, bsp, to) == aps_below(cpus, bsp, from),
    decreases to - from,
{
    if from < to {
        lemma_skips_bsp(cpus, bsp, from, to - 1);
    }
}

proof fn lemma_aps_bound(cpus: Seq<CpuEntry>, bsp: u32, n: int)
    requires
        0 <= n,
    ensures
        0 <= aps_below(cpus, bsp, n) <= n,
    decreases n,
{
    if n > 0 {
        lemma_aps_bound(cpus, bsp, n - 1);
    }
}

/// Enter the CPU at place `i`, which [`next_ap`] gave, with its stack in the
/// frames at `stack_phys`. The CPUs are numbered in the order of the list, from
/// 1 on.
pub fn boot_ap(
    s: &mut ApStart,
    t: &mut CpuTable,
    cpus: &[CpuEntry],
    bsp: u32,
    i: usize,
    stack_phys: u64,
) -> (r: ApBoot)
    requires
        old(s).wf(cpus@, bsp),
        old(t).wf(),
        old(s).at <= i < cpus@.len(),
        cpus@[i as int].apic_id != bsp,
        forall|j: int| old(s).at <= j < i ==> (#[trigger] cpus@[j]).apic_id == bsp,
        DIRECT_MAP_BASE + stack_phys + AP_STACK_SIZE <= u64::MAX,
    ensures
        final(s).wf(cpus@, bsp),
        final(t).wf(),
        *final(s) == (ApStart {
            at: (i + 1) as usize,
            next_cpu_id: (old(s).next_cpu_id + 1) as u32,
            started: old(s).started,
        }),
        r.cpu_id == 1 + aps_below(cpus@, bsp, i as int),
        r.apic_id == cpus@[i as int].apic_id,
        r.stack_top == (DIRECT_MAP_BASE + stack_phys + AP_STACK_SIZE) / 16 * 16,
        if r.cpu_id < 64 {
            &&& final(t).cpus@ == old(t).cpus@.update(
                r.cpu_id as int,
                CpuInfo {
                    cpu_id: r.cpu_id,
                    apic_id: r.apic_id,
                    online: false,
                    stack_top: r.stack_top,
                },
            )
            &&& final(t).registered@ == old(t).registered@.update(r.cpu_id as int, true)
            &&& final(t).count == (if old(t).count > r.cpu_id {
                old(t).count
            } else {
                (r.cpu_id + 1) as u32
            })
        } else {
            *final(t) == *old(t)
        },
{
    proof {
        lemma_skips_bsp(cpus@, bsp, s.at as int, i as int);
        lemma_aps_bound(cpus@, bsp, i as int);
    }
    let cpu_id: u32 = s.next_cpu_id;
    let apic_id: u32 = cpus[i].apic_id;
    let top: u64 = ap_stack_top(stack_phys);
    register_cpu(t, cpu_id, apic_id, top);
    s.at = i + 1;
    s.next_cpu_id = cpu_id + 1;
    ApBoot { cpu_id, apic_id, stack_top: top }
}

/// What a look at the count of CPUs that came up tells.
#[derive(Clone, Copy, Debug, PartialEq, Eq, Structural)]
pub enum ReadyPoll {
    Ready,
    TimedOut,
    /// Look again.
    Again,
}

/// Look for a CPU that makes the count reach `target`, when it is `seen` after
/// `spins` looks in vain.
pub fn wait_for_ready(seen: u32, target: u32, spins: u64) -> (r: ReadyPoll)
    requires
        spins < u64::MAX,
    ensures
        r == (if seen >= target {
            ReadyPoll::Ready
        } else if spins + 1 > AP_STARTUP_SPIN_LIMIT {
            ReadyPoll::TimedOut
        } else {
            ReadyPoll::Again
        }),
{
    if seen >= target {
        ReadyPoll::Ready
    } else if spins + 1 > AP_STARTUP_SPIN_LIMIT {
        ReadyPoll::TimedOut
    } else {
        ReadyPoll::Again
    }
}

/// Count the CPU that was started last, if it came up.
pub fn ap_answered(s: &mut ApStart, ready: bool)
    requires
        old(s).started + 1 < old(s).next_cpu_id,
    ensures
        *final(s) == (ApStart {
            started: (if ready {
                old(s).started + 1
            } else {
                old(s).started as int
            }) as u32,
            ..*old(s)
        }),
        final(s).started < final(s).next_cpu_id,
{
    if ready {
        s.started = s.started + 1;
    }
}

} // verus!
