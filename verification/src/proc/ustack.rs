//! Where the user stack lies.

use vstd::prelude::*;

verus! {

pub const USTACK_TOP: u64 = 0x0000_7fff_ffff_0000;

/// 256 KiB, mapped in full when an image is built.
pub const USTACK_SIZE: u64 = 0x4_0000;

pub const USTACK_PAGES: u64 = 64;

} // verus!
