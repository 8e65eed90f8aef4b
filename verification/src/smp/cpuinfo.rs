//! The CPUs that are in use.

use vstd::prelude::*;
use super::acpi::MAX_CPUS;

verus! {

/// What is known of one CPU.
#[derive(Clone, Copy, Debug, PartialEq, Eq, Structural)]
pub struct CpuInfo {
    pub cpu_id: u32,
    pub apic_id: u32,
    pub online: bool,
    pub stack_top: u64,
}

impl CpuInfo {
    pub open spec fn blank() -> CpuInfo {
        CpuInfo { cpu_id: 0, apic_id: 0, online: false, stack_top: 0 }
    }

    pub fn zeroed() -> (r: Self)
        ensures
            r == CpuInfo::blank(),
    {
        CpuInfo { cpu_id: 0, apic_id: 0, online: false, stack_top: 0 }
    }
}

/// The CPUs by number, which numbers have been entered, and how many numbers
/// are in use.
pub struct CpuTable {
    pub cpus: [CpuInfo; MAX_CPUS],
    pub registered: [bool; MAX_CPUS],
    pub count: u32,
}

impl CpuTable {
    /// A CPU has been entered under number `i`.
    pub open spec fn entered(&self, i: int) -> bool {
        0 <= i < 64 && self.registered@[i]
    }

    pub open spec fn wf(&self) -> bool {
        &&& self.count <= 64
        &&& forall|i: int| #[trigger]
            self.entered(i) ==> i < self.count && self.cpus@[i].cpu_id == i
    }

    pub fn new() -> (r: Self)
        ensures
            r.wf(),
            r.count == 0,
            forall|i: int| 0 <= i < 64 ==> #[trigger] r.cpus@[i] == CpuInfo::blank(),
            forall|i: int| 0 <= i < 64 ==> !#[trigger] r.registered@[i],
    {
        CpuTable {
            cpus: [CpuInfo { cpu_id: 0, apic_id: 0, online: false, stack_top: 0 };64],
            registered: [false;64],
            count: 0,
        }
    }
}

/// Enter a CPU, not yet online. A number that is too large is ignored.
pub fn register_cpu(t: &mut CpuTable, cpu_id: u32, apic_id: u32, stack_top: u64)
    requires
        old(t).wf(),
    ensures
        final(t).wf(),
        if cpu_id < 64 {
            &&& final(t).cpus@ == old(t).cpus@.update(
                cpu_id as int,
                CpuInfo { cpu_id, apic_id, online: false, stack_top },
            )
            &&& final(t).registered@ == old(t).registered@.update(cpu_id as int, true)
            &&& final(t).count == (if old(t).count > cpu_id {
                old(t).count
            } else {
                (cpu_id + 1) as u32
            })
        } else {
            *final(t) == *old(t)
        },
{
    let i: usize = cpu_id as usize;
    if i >= MAX_CPUS {
        return;
    }
    t.cpus[i] = CpuInfo { cpu_id, apic_id, online: false, stack_top };
    t.registered[i] = true;
    if t.count < cpu_id + 1 {
        t.count = cpu_id + 1;
    }
    assert forall|k: int| #[trigger] t.entered(k) implies k < t.count && t.cpus@[k].cpu_id
        == k by {
        if k != cpu_id {
            assert(old(t).entered(k));
        }
    }
}

/// Mark a CPU as running.
pub fn set_cpu_online(t: &mut CpuTable, cpu_id: u32)
    requires
        old(t).wf(),
    ensures
        final(t).wf(),
        final(t).count == old(t).count,
        final(t).registered == old(t).registered,
        if cpu_id < 64 {
            final(t).cpus@ == old(t).cpus@.update(
                cpu_id as int,
                CpuInfo { online: true, ..old(t).cpus@[cpu_id as int] },
            )
        } else {
            *final(t) == *old(t)
        },
{
    let i: usize = cpu_id as usize;
    if i >= MAX_CPUS {
        return;
    }
    let mut info = t.cpus[i];
    info.online = true;
    t.cpus[i] = info;
    assert forall|k: int| #[trigger] t.entered(k) implies k < t.count && t.cpus@[k].cpu_id
        == k by {
        assert(old(t).entered(k));
    }
}

/// The lowest number below `n` that was entered for the given APIC number.
pub open spec fn with_apic_id(t: &CpuTable, apic_id: u32, n: nat) -> Option<u32>
    decreases n,
{
    if n == 0 {
        None
    } else {
        match with_apic_id(t, apic_id, (n - 1) as nat) {
            Some(i) => Some(i),
            None => if t.entered(n - 1) && t.cpus@[n - 1].apic_id == apic_id {
                Some((n - 1) as u32)
            } else {
                None
            },
        }
    }
}

proof fn lemma_found_stays(t: &CpuTable, apic_id: u32, m: nat, n: nat)
    requires
        m <= n,
        with_apic_id(t, apic_id, m) is Some,
    ensures
        with_apic_id(t, apic_id, n) == with_apic_id(t, apic_id, m),
    decreases n,
{
    if m < n {
        lemma_found_stays(t, apic_id, m, (n - 1) as nat);
    }
}

proof fn lemma_none_behind(t: &CpuTable, apic_id: u32, m: nat, n: nat)
    requires
        t.wf(),
        t.count <= m <= n,
        with_apic_id(t, apic_id, m) is None,
    ensures
        with_apic_id(t, apic_id, n) is None,
    decreases n,
{
    if m < n {
        lemma_none_behind(t, apic_id, m, (n - 1) as nat);
    }
}

/// The number of the CPU that was entered with the given APIC number.
pub fn apic_id_to_cpu_id(t: &CpuTable, apic_id: u32) -> (r: Option<u32>)
    requires
        t.wf(),
    ensures
        r == with_apic_id(t, apic_id, 64),
        match r {
            Some(cpu_id) => {
                &&& t.entered(cpu_id as int)
                &&& t.cpus@[cpu_id as int].apic_id == apic_id
            },
            None => forall|i: int|
                0 <= i < 64 && #[trigger] t.registered@[i] ==> t.cpus@[i].apic_id != apic_id,
        },
{
    proof {
        lookup_finds_first(t, apic_id, 64);
    }
    let n: usize = t.count as usize;
    let mut i: usize = 0;
    while i < n
        invariant
            i <= n <= 64,
            n == t.count,
            t.wf(),
            with_apic_id(t, apic_id, i as nat) is None,
        decreases n - i,
    {
        if t.registered[i] && t.cpus[i].apic_id == apic_id {
            assert(t.entered(i as int));
            proof {
                lemma_found_stays(t, apic_id, (i + 1) as nat, 64);
            }
            return Some(t.cpus[i].cpu_id);
        }
        i += 1;
    }
    proof {
        lemma_none_behind(t, apic_id, n as nat, 64);
        assert forall|j: int| 0 <= j < 64 && #[trigger] t.registered@[j] implies t.cpus@[j].apic_id
            != apic_id by {
            assert(t.entered(j));
        }
    }
    None
}

/// The APIC number of a CPU, or nothing if it was never entered.
pub fn apic_id_for_cpu(t: &CpuTable, cpu_id: u32) -> (r: Option<u32>)
    ensures
        r == (if cpu_id < 64 && t.registered@[cpu_id as int] {
            Some(t.cpus@[cpu_id as int].apic_id)
        } else {
            None
        }),
{
    if cpu_id as usize >= MAX_CPUS || !t.registered[cpu_id as usize] {
        return None;
    }
    Some(t.cpus[cpu_id as usize].apic_id)
}

/// How many CPUs run, when `ready` besides the booting one do.
pub fn online_count(ready: u32) -> (r: u32)
    requires
        ready < u32::MAX,
    ensures
        r == ready + 1,
{
    ready + 1
}

pub fn cpu_count(t: &CpuTable) -> (r: u32)
    ensures
        r == t.count,
{
    t.count
}

/// The top of the stack that a CPU started on, if it was given one.
pub fn stack_top(t: &CpuTable, cpu_id: u32) -> (r: Option<u64>)
    ensures
        r == (if cpu_id < 64 && t.cpus@[cpu_id as int].stack_top != 0 {
            Some(t.cpus@[cpu_id as int].stack_top)
        } else {
            None
        }),
{
    if cpu_id as usize >= MAX_CPUS {
        return None;
    }
    let stack: u64 = t.cpus[cpu_id as usize].stack_top;
    if stack == 0 {
        None
    } else {
        Some(stack)
    }
}

/// A CPU found by its APIC number was entered with it, and no lower number was.
pub proof fn lookup_finds_first(t: &CpuTable, apic_id: u32, n: nat)
    requires
        n <= 64,
    ensures
        match with_apic_id(t, apic_id, n) {
            Some(i) => {
                &&& i < n
                &&& t.entered(i as int)
                &&& t.cpus@[i as int].apic_id == apic_id
                &&& forall|j: int|
                    0 <= j < i && #[trigger] t.entered(j) ==> t.cpus@[j].apic_id != apic_id
            },
            None => forall|j: int|
                0 <= j < n && #[trigger] t.entered(j) ==> t.cpus@[j].apic_id != apic_id,
        },
    decreases n,
{
    if n > 0 {
        lookup_finds_first(t, apic_id, (n - 1) as nat);
    }
}

/// A CPU entered under an APIC number that no other has is found by it, and its
/// APIC number by the CPU's. No other number counts as entered that was not.
pub proof fn registered_cpu_is_found(
    before: &CpuTable,
    after: &CpuTable,
    cpu_id: u32,
    apic_id: u32,
    stack_top: u64,
)
    requires
        before.wf(),
        cpu_id < 64,
        after.cpus@ == before.cpus@.update(
            cpu_id as int,
            CpuInfo { cpu_id, apic_id, online: false, stack_top },
        ),
        after.registered@ == before.registered@.update(cpu_id as int, true),
        forall|i: int| #[trigger]
            before.entered(i) && i != cpu_id ==> before.cpus@[i].apic_id != apic_id,
    ensures
        with_apic_id(after, apic_id, 64) == Some(cpu_id),
        after.entered(cpu_id as int),
        after.cpus@[cpu_id as int].apic_id == apic_id,
        forall|i: int| i != cpu_id ==> #[trigger] after.entered(i) == before.entered(i),
{
    lookup_finds_first(after, apic_id, 64);
    assert(after.entered(cpu_id as int));
    assert forall|i: int| #[trigger] after.entered(i) && after.cpus@[i].apic_id == apic_id implies i
        == cpu_id by {
        if i != cpu_id {
            assert(before.entered(i));
        }
    }
}

} // verus!
