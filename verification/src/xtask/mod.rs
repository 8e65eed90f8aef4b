//! Building and testing the system.

pub mod archive;
pub mod cpio;
pub mod expected;
pub mod keys;
pub mod qemu;
pub mod serial;
