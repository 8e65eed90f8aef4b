//! What a CPU does when it comes up.

use vstd::prelude::*;
use super::cpuinfo::{apic_id_to_cpu_id, lookup_finds_first, set_cpu_online, with_apic_id, CpuInfo, CpuTable};

verus! {

/// The CPU with APIC number `apic_id` has come up: mark it as running and count
/// it in `ready`. Returns its number.
pub fn ap_entry(t: &mut CpuTable, ready: &mut u32, apic_id: u32) -> (cpu_id: u32)
    requires
        old(t).wf(),
        with_apic_id(old(t), apic_id, 64) is Some,
        *old(ready) < u32::MAX,
    ensures
        final(t).wf(),
        with_apic_id(old(t), apic_id, 64) == Some(cpu_id),
        cpu_id < 64,
        final(t).count == old(t).count,
        final(t).registered == old(t).registered,
        final(t).cpus@ == old(t).cpus@.update(
            cpu_id as int,
            CpuInfo { online: true, ..old(t).cpus@[cpu_id as int] },
        ),
        *final(ready) == *old(ready) + 1,
{
    proof {
        lookup_finds_first(t, apic_id, 64);
    }
    let cpu_id: u32 = apic_id_to_cpu_id(t, apic_id).unwrap();
    set_cpu_online(t, cpu_id);
    *ready = *ready + 1;
    cpu_id
}

} // verus!
