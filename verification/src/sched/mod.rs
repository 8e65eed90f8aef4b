//! The scheduler: threads, run queues and wait queues.

pub mod block;
pub mod conserve;
pub mod futex;
pub mod order;
pub mod percpu;
pub mod queue;
pub mod schedule;
pub mod steal;
pub mod thread;
pub mod turns;
pub mod waitqueue;
pub mod waits;
