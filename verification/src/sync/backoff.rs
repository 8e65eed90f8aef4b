//! How long to wait between two looks at a lock.

use vstd::prelude::*;

verus! {

#[derive(Clone, Copy, Debug)]
pub struct Backoff {
    pub step: u32,
    pub max_step: u32,
}

/// The step after `step`: twice as long, at most `max_step`, at least 1.
pub open spec fn next_step(step: u32, max_step: u32) -> u32 {
    let doubled = (2 * step) % 0x1_0000_0000;
    let capped = if doubled < max_step {
        doubled
    } else {
        max_step as int
    };
    if capped < 1 {
        1
    } else {
        capped as u32
    }
}

/// The step after `n` waits from `step`.
pub open spec fn step_after(step: u32, max_step: u32, n: nat) -> u32
    decreases n,
{
    if n == 0 {
        step
    } else {
        next_step(step_after(step, max_step, (n - 1) as nat), max_step)
    }
}

impl Backoff {
    pub fn new() -> (r: Self)
        ensures
            r.step == 1,
            r.max_step == 64,
    {
        Backoff { step: 1, max_step: 64 }
    }

    pub fn with_max(max_step: u32) -> (r: Self)
        ensures
            r.step == 1,
            r.max_step == max_step,
    {
        Backoff { step: 1, max_step }
    }

    /// How many pauses to make now; the next wait is longer.
    pub fn snooze(&mut self) -> (pauses: u32)
        ensures
            pauses == old(self).step,
            final(self).step == next_step(old(self).step, old(self).max_step),
            final(self).max_step == old(self).max_step,
    {
        let pauses: u32 = self.step;
        let doubled: u32 = self.step.wrapping_mul(2);
        let capped: u32 = if doubled < self.max_step {
            doubled
        } else {
            self.max_step
        };
        self.step = if capped < 1 {
            1
        } else {
            capped
        };
        pauses
    }

    pub fn reset(&mut self)
        ensures
            *final(self) == (Backoff { step: 1, ..*old(self) }),
    {
        self.step = 1;
    }
}

impl Default for Backoff {
    fn default() -> (r: Self)
        ensures
            r.step == 1,
            r.max_step == 64,
    {
        Backoff::new()
    }
}

/// A wait is never empty and, with a cap of at least 1, never longer than the
/// cap.
pub proof fn waits_are_bounded(max_step: u32, n: nat)
    requires
        max_step >= 1,
    ensures
        1 <= step_after(1, max_step, n) <= max_step,
    decreases n,
{
    if n > 0 {
        waits_are_bounded(max_step, (n - 1) as nat);
    }
}

/// A waiter pauses twice as long each time, until it pauses as long as it may.
pub proof fn waits_double(max_step: u32, n: nat)
    requires
        1 <= max_step <= 0x7fff_ffff,
    ensures
        step_after(1, max_step, 0) == 1,
        2 * step_after(1, max_step, n) <= max_step ==> step_after(1, max_step, n + 1) == 2 * step_after(
            1,
            max_step,
            n,
        ),
        2 * step_after(1, max_step, n) > max_step ==> step_after(1, max_step, n + 1) == max_step,
{
    lemma_step_bounds(max_step, n);
}

proof fn lemma_step_bounds(max_step: u32, n: nat)
    requires
        1 <= max_step <= 0x7fff_ffff,
    ensures
        1 <= step_after(1, max_step, n) <= 0x7fff_ffff,
    decreases n,
{
    if n > 0 {
        lemma_step_bounds(max_step, (n - 1) as nat);
    }
}

} // verus!
