//! The shell: reading lines, parsing them, and running what they say.

pub mod exec;
pub mod input;
pub mod language;
pub mod parse;
pub mod plumbing;
pub mod repl;
pub mod selftest;
