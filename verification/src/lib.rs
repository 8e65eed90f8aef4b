//! The parts of a small x86-64 kernel that can be stated and proved: address
//! spaces, processes, signals, scheduling and the formats it reads.

pub mod bits;
pub mod bytes;
pub mod kernel;
pub mod liblow;
pub mod lines;
pub mod mem;
pub mod numbers;
pub mod paging;
pub mod proc;
pub mod repro;
pub mod sched;
pub mod shell;
pub mod smp;
pub mod sync;
pub mod text;
pub mod tools;
pub mod virtio;
pub mod xtask;
