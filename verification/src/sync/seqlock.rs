//! A value that readers copy without locking.

use vstd::prelude::*;

verus! {

/// The sequence number is odd exactly while a write is under way.
pub struct SeqLock<T: Copy> {
    pub sequence: u64,
    pub value: T,
}

impl<T: Copy> SeqLock<T> {
    /// A write is under way.
    pub open spec fn writing(&self) -> bool {
        self.sequence % 2 == 1
    }

    pub fn new(value: T) -> (r: Self)
        ensures
            r.sequence == 0,
            r.value == value,
    {
        SeqLock { sequence: 0, value }
    }

    /// One attempt to read: the value, unless a write is under way or one
    /// came between `before`, the sequence number seen first, and now.
    pub fn try_read(&self, before: u64) -> (r: Option<T>)
        ensures
            r == (if before % 2 == 0 && before == self.sequence {
                Some(self.value)
            } else {
                None
            }),
    {
        if before % 2 != 0 || before != self.sequence {
            None
        } else {
            Some(self.value)
        }
    }

    /// Read the value. A reader that meets a write tries again.
    pub fn read(&self) -> (r: T)
        requires
            !self.writing(),
        ensures
            r == self.value,
    {
        self.value
    }

    /// Replace the value by what `f` makes of it.
    pub fn write<F: FnOnce(T) -> T>(&mut self, f: F)
        requires
            !old(self).writing(),
            call_requires(f, (old(self).value,)),
        ensures
            call_ensures(f, (old(self).value,), final(self).value),
            final(self).sequence == old(self).sequence.wrapping_add(2),
            !final(self).writing(),
    {
        self.sequence = self.sequence.wrapping_add(1);
        self.value = f(self.value);
        self.sequence = self.sequence.wrapping_add(1);
    }
}

/// A reader that saw the sequence number before a write does not take the
/// value after it.
pub proof fn stale_read_is_refused(before: u64)
    requires
        before % 2 == 0,
    ensures
        before.wrapping_add(1) % 2 == 1,
        before.wrapping_add(2) != before,
{
}

} // verus!
