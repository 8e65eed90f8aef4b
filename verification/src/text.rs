//! Numbers and strings as text.

use vstd::prelude::*;
use vstd::string::*;

verus! {

/// The hexadecimal digit of `n`.
pub open spec fn hex_digit(n: nat) -> u8 {
    if n < 10 {
        (48 + n) as u8
    } else {
        (87 + n) as u8
    }
}

/// `n` in hexadecimal digits, at least `width` of them.
pub open spec fn hex(n: nat, width: nat) -> Seq<u8>
    decreases n, width,
{
    if n < 16 && width <= 1 {
        seq![hex_digit(n)]
    } else {
        hex(
            n / 16,
            if width == 0 {
                0
            } else {
                (width - 1) as nat
            },
        ).push(hex_digit(n % 16))
    }
}

/// `n` in decimal digits.
pub open spec fn dec(n: nat) -> Seq<u8>
    decreases n,
{
    if n < 10 {
        seq![(48 + n) as u8]
    } else {
        dec(n / 10).push((48 + n % 10) as u8)
    }
}

/// Append a string.
pub fn push_str(out: &mut Vec<u8>, s: &str)
    ensures
        final(out)@ == old(out)@ + s.spec_bytes(),
{
    out.extend_from_slice(s.as_bytes());
}

/// Append `n` in hexadecimal digits, at least `width` of them.
pub fn push_hex(out: &mut Vec<u8>, n: u64, width: usize)
    ensures
        final(out)@ == old(out)@ + hex(n as nat, width as nat),
    decreases n, width,
{
    if n < 16 && width <= 1 {
        out.push(digit(n));
        assert(out@ =~= old(out)@ + hex(n as nat, width as nat));
    } else {
        push_hex(
            out,
            n / 16,
            if width == 0 {
                0
            } else {
                width - 1
            },
        );
        out.push(digit(n % 16));
        assert(out@ =~= old(out)@ + hex(n as nat, width as nat));
    }
}

fn digit(n: u64) -> (r: u8)
    requires
        n < 16,
    ensures
        r == hex_digit(n as nat),
{
    if n < 10 {
        48 + n as u8
    } else {
        87 + n as u8
    }
}

/// Append `n` in decimal digits.
pub fn push_dec(out: &mut Vec<u8>, n: u64)
    ensures
        final(out)@ == old(out)@ + dec(n as nat),
    decreases n,
{
    if n < 10 {
        out.push(48 + n as u8);
        assert(out@ =~= old(out)@ + dec(n as nat));
    } else {
        push_dec(out, n / 10);
        out.push(48 + (n % 10) as u8);
        assert(out@ =~= old(out)@ + dec(n as nat));
    }
}

} // verus!
