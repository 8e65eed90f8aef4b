//! The small programs.

pub mod cat;
pub mod echo;
