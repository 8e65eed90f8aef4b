//! A spin lock.

use vstd::prelude::*;

verus! {

/// A value, and whether some CPU holds the lock on it.
pub struct SpinLock<T> {
    pub locked: bool,
    pub value: T,
}

/// Given to the one that holds a lock.
pub struct SpinLockGuard(());

impl<T> SpinLock<T> {
    pub fn new(value: T) -> (r: Self)
        ensures
            !r.locked,
            r.value == value,
    {
        SpinLock { locked: false, value }
    }

    /// Take the lock, if it is free.
    pub fn try_lock(&mut self) -> (r: Option<SpinLockGuard>)
        ensures
            r is Some == !old(self).locked,
            final(self).locked,
            final(self).value == old(self).value,
    {
        if self.locked {
            None
        } else {
            self.locked = true;
            Some(SpinLockGuard(()))
        }
    }

    /// Take the lock. A CPU that finds it taken waits until it is free.
    pub fn lock(&mut self) -> (r: SpinLockGuard)
        requires
            !old(self).locked,
        ensures
            final(self).locked,
            final(self).value == old(self).value,
    {
        self.locked = true;
        SpinLockGuard(())
    }

    /// Give the lock back.
    pub fn unlock(&mut self, _guard: SpinLockGuard)
        ensures
            !final(self).locked,
            final(self).value == old(self).value,
    {
        self.locked = false;
    }
}

} // verus!
