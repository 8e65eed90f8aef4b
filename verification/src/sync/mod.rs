//! Locks, each seen as a state that one operation at a time changes.

pub mod backoff;
pub mod seqlock;
pub mod spin;
