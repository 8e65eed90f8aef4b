//! Finding the CPUs and bringing them up.

pub mod acpi;
pub mod ap_entry;
pub mod cpuinfo;
pub mod firmware;
pub mod trampoline;
