//! What programs share: system calls, arguments and output.

pub mod args;
pub mod call;
pub mod exec;
pub mod fmt;
