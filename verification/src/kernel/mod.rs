//! Bringing the machine up.

pub mod address;
pub mod boot;
pub mod console;
pub mod limine;
pub mod report;
pub mod serial;
pub mod start;
