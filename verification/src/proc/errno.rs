//! The errors that system calls return.

use vstd::prelude::*;

verus! {

pub const ENOENT: i64 = -2;

pub const ESRCH: i64 = -3;

pub const EBADF: i64 = -9;

pub const ECHILD: i64 = -10;

pub const EAGAIN: i64 = -11;

pub const ENOMEM: i64 = -12;

pub const EACCES: i64 = -13;

pub const EFAULT: i64 = -14;

pub const EINVAL: i64 = -22;

/// The call is not one that is handled here.
pub const ENOSYS: i64 = -38;

} // verus!
