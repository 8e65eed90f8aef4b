//! Single bits of machine words.

use vstd::prelude::*;

verus! {

/// Bit `i` of `m` is set.
pub open spec fn bit(m: u64, i: u64) -> bool {
    (m >> i) & 1 == 1
}

/// The lowest `n` bits of `m` that are set.
pub open spec fn ones_below(m: u64, n: nat) -> nat
    decreases n,
{
    if n == 0 {
        0
    } else {
        ones_below(m, (n - 1) as nat) + if bit(m, (n - 1) as u64) {
            1nat
        } else {
            0nat
        }
    }
}

/// How setting, clearing and testing bit `c` act on bit `d`.
pub proof fn lemma_bit_ops(m: u64, c: u64, d: u64)
    by (bit_vector)
    requires
        c < 64,
        d < 64,
    ensures
        (((m | (1u64 << c)) >> d) & 1 == 1) == ((m >> d) & 1 == 1 || c == d),
        (((m & !(1u64 << c)) >> d) & 1 == 1) == ((m >> d) & 1 == 1 && c != d),
        (m & (1u64 << c) != 0) == ((m >> c) & 1 == 1),
        (0u64 >> d) & 1 == 0,
{
}

pub proof fn lemma_ones_bound(m: u64, n: nat)
    ensures
        ones_below(m, n) <= n,
    decreases n,
{
    if n > 0 {
        lemma_ones_bound(m, (n - 1) as nat);
    }
}

/// How many bits of `m` are set.
pub fn count_ones(m: u64) -> (r: u32)
    ensures
        r == ones_below(m, 64),
        r <= 64,
{
    let mut r: u32 = 0;
    let mut i: u64 = 0;
    while i < 64
        invariant
            i <= 64,
            r == ones_below(m, i as nat),
            r <= i,
        decreases 64 - i,
    {
        if (m >> i) & 1 == 1 {
            r += 1;
        }
        i += 1;
    }
    r
}

} // verus!
