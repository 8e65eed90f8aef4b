//! How numbers are written: as bytes, as digits and as the bits of a page's flags.

use vstd::prelude::*;
use crate::bytes::{bytes16, bytes32, bytes64, le_u16, le_u32, le_u64};
use crate::lines::{line_end, lines_from, trim_end, trim_start, white};
use crate::mem::PageFlags;
use crate::text::{dec, hex};

verus! {

/// The number that `n` bytes at `at` stand for: the first counts least.
pub open spec fn number_at(s: Seq<u8>, at: int, n: nat) -> int
    decreases n,
{
    if n == 0 {
        0
    } else {
        s[at] + 256 * number_at(s, at + 1, (n - 1) as nat)
    }
}

/// Fields of two, four and eight bytes are read with the least byte first.
pub proof fn fields_are_read_least_byte_first(s: Seq<u8>, at: int)
    ensures
        le_u16(s, at) == number_at(s, at, 2),
        le_u32(s, at) == number_at(s, at, 4),
        le_u64(s, at) == number_at(s, at, 8),
{
    reveal(le_u16);
    reveal(le_u32);
    reveal(le_u64);
    reveal_with_fuel(number_at, 9);
}

/// Fields are written with the least byte first.
pub proof fn fields_are_written_least_byte_first(a: u16, b: u32, c: u64)
    ensures
        bytes16(a).len() == 2,
        number_at(bytes16(a), 0, 2) == a,
        bytes32(b).len() == 4,
        number_at(bytes32(b), 0, 4) == b,
        bytes64(c).len() == 8,
        number_at(bytes64(c), 0, 8) == c,
{
    crate::bytes::bytes_round_trip(a, b, c);
    fields_are_read_least_byte_first(bytes16(a), 0);
    fields_are_read_least_byte_first(bytes32(b), 0);
    fields_are_read_least_byte_first(bytes64(c), 0);
}

/// What a digit stands for: 0 to 9, then a to f.
pub open spec fn digit_value(c: u8) -> Option<int> {
    if 0x30 <= c <= 0x39 {
        Some(c - 0x30)
    } else if 0x61 <= c <= 0x66 {
        Some(c - 0x61 + 10)
    } else {
        None
    }
}

/// What a row of digits stands for in a number system.
pub open spec fn digits_value(s: Seq<u8>, base: int) -> Option<int>
    decreases s.len(),
{
    if s.len() == 0 {
        Some(0)
    } else {
        match (digits_value(s.drop_last(), base), digit_value(s.last())) {
            (Some(v), Some(d)) if d < base => Some(v * base + d),
            _ => None,
        }
    }
}

/// A number in hexadecimal digits reads as the number, and has as many digits as
/// were asked for at least. It has more only where its first digit counts.
pub proof fn hexadecimal_reads_back(n: nat, width: nat)
    ensures
        digits_value(hex(n, width), 16) == Some(n as int),
        hex(n, width).len() >= width,
        hex(n, width).len() >= 1,
        n < 16 && width > 0 ==> hex(n, width).len() == width,
        n > 0 && hex(n, width).len() > width ==> hex(n, width)[0] != 0x30,
    decreases n, width,
{
    let s = hex(n, width);
    if n < 16 && width <= 1 {
        assert(s.drop_last() =~= Seq::<u8>::empty());
        assert(digits_value(s.drop_last(), 16) == Some(0int));
    } else {
        let rest = if width == 0 {
            0
        } else {
            (width - 1) as nat
        };
        hexadecimal_reads_back(n / 16, rest);
        assert(s.drop_last() =~= hex(n / 16, rest));
        assert(s[0] == hex(n / 16, rest)[0]);
    }
}

/// A number in decimal digits reads as the number, with no zero in front.
pub proof fn decimal_reads_back(n: nat)
    ensures
        digits_value(dec(n), 10) == Some(n as int),
        dec(n).len() >= 1,
        dec(n).len() > 1 ==> dec(n)[0] != 0x30,
        n > 0 ==> dec(n)[0] != 0x30,
    decreases n,
{
    let s = dec(n);
    if n < 10 {
        assert(s.drop_last() =~= Seq::<u8>::empty());
        assert(digits_value(s.drop_last(), 10) == Some(0int));
    } else {
        decimal_reads_back(n / 10);
        assert(s.drop_last() =~= dec(n / 10));
        assert(s[0] == dec(n / 10)[0]);
    }
}

/// The processor reads a page's flags where it expects them: whether it is present,
/// writable and the user's in the three lowest bits, whether it is large in the
/// eighth, and that it holds no code in the highest. The kernel's own mark lies in a
/// bit that the processor leaves alone.
pub proof fn flags_are_bits(f: PageFlags, r: u64)
    requires
        call_ensures(PageFlags::as_u64, (&f,), r),
    ensures
        (r & 1 != 0) == f.present,
        (r & 2 != 0) == f.writable,
        (r & 4 != 0) == f.user,
        (r & 0x80 != 0) == f.huge,
        (r & 0x200 != 0) == f.cow,
        (r & 0x8000_0000_0000_0000 != 0) == f.no_execute,
        r & 0x7fff_ffff_ffff_fd78 == 0,
{
    let a: u64 = if f.present { 1 } else { 0 };
    let b: u64 = if f.writable { 2 } else { 0 };
    let c: u64 = if f.user { 4 } else { 0 };
    let d: u64 = if f.huge { 0x80 } else { 0 };
    let e: u64 = if f.cow { 0x200 } else { 0 };
    let g: u64 = if f.no_execute { 0x8000_0000_0000_0000 } else { 0 };
    assert(r == a + b + c + d + e + g);
    assert((r & 1 != 0) == (a == 1) && (r & 2 != 0) == (b == 2) && (r & 4 != 0) == (c == 4) && (r
        & 0x80 != 0) == (d == 0x80) && (r & 0x200 != 0) == (e == 0x200) && (r
        & 0x8000_0000_0000_0000 != 0) == (g == 0x8000_0000_0000_0000) && r
        & 0x7fff_ffff_ffff_fd78 == 0) by (bit_vector)
        requires
            r == a + b + c + d + e + g,
            a == 0 || a == 1,
            b == 0 || b == 2,
            c == 0 || c == 4,
            d == 0 || d == 0x80,
            e == 0 || e == 0x200,
            g == 0 || g == 0x8000_0000_0000_0000,
    ;
}

proof fn lemma_line(c: Seq<char>, i: int)
    requires
        0 <= i <= c.len(),
    ensures
        i <= line_end(c, i) <= c.len(),
        line_end(c, i) < c.len() ==> c[line_end(c, i)] == '\n',
        forall|k: int| i <= k < line_end(c, i) ==> #[trigger] c[k] != '\n',
    decreases c.len() - i,
{
    if i < c.len() && c[i] != '\n' {
        lemma_line(c, i + 1);
    }
}

/// A text is cut into lines where they end and nowhere else: no line holds the
/// character that ends one, each starts where the text starts or right after such a
/// character, and every other character is in one of them, except a carriage return
/// right before the end of a line.
pub proof fn lines_end_at_newlines(c: Seq<char>, start: int, at: int)
    requires
        0 <= start <= at < c.len(),
        start == 0 || c[start - 1] == '\n',
    ensures
        forall|k: int|
            0 <= k < lines_from(c, start).len() ==> {
                let (lo, hi) = #[trigger] lines_from(c, start)[k];
                &&& start <= lo <= hi <= c.len()
                &&& lo == 0 || c[lo - 1] == '\n'
                &&& forall|x: int| lo <= x < hi ==> #[trigger] c[x] != '\n'
            },
        c[at] != '\n' && !(c[at] == '\r' && at + 1 < c.len() && c[at + 1] == '\n') ==> exists|k: int|
            0 <= k < lines_from(c, start).len() && (#[trigger] lines_from(c, start)[k]).0 <= at
                < lines_from(c, start)[k].1,
    decreases c.len() - start,
{
    lemma_line(c, start);
    let e = line_end(c, start);
    let all = lines_from(c, start);
    assert(all[0].0 == start);
    if e < c.len() {
        let rest = lines_from(c, e + 1);
        let shown = all[0].1;
        assert(all =~= seq![(start, shown)] + rest);
        if e + 1 < c.len() {
            let far = if at > e {
                at
            } else {
                e + 1
            };
            lines_end_at_newlines(c, e + 1, far);
            assert forall|k: int| 0 <= k < all.len() implies {
                let (lo, hi) = #[trigger] all[k];
                &&& start <= lo <= hi <= c.len()
                &&& lo == 0 || c[lo - 1] == '\n'
                &&& forall|x: int| lo <= x < hi ==> #[trigger] c[x] != '\n'
            } by {
                if k > 0 {
                    assert(all[k] == rest[k - 1]);
                }
            }
            if at > e && c[at] != '\n' && !(c[at] == '\r' && at + 1 < c.len() && c[at + 1] == '\n') {
                let k = choose|k: int| 0 <= k < rest.len() && (#[trigger] rest[k]).0 <= at < rest[k].1;
                assert(all[k + 1] == rest[k]);
            }
        } else {
            assert(rest =~= Seq::<(int, int)>::empty());
        }
    }
}

/// Trimming takes blanks from the ends and nothing else: what is taken is blank, and
/// what is left, if anything, neither starts nor ends with one.
pub proof fn trimming_takes_only_blanks(c: Seq<char>, lo: int, hi: int)
    requires
        0 <= lo <= hi <= c.len(),
    ensures
        lo <= trim_start(c, lo, hi) <= hi,
        forall|k: int| lo <= k < trim_start(c, lo, hi) ==> #[trigger] white(c[k]),
        trim_start(c, lo, hi) < hi ==> !white(c[trim_start(c, lo, hi)]),
        lo <= trim_end(c, lo, hi) <= hi,
        forall|k: int| trim_end(c, lo, hi) <= k < hi ==> #[trigger] white(c[k]),
        lo < trim_end(c, lo, hi) ==> !white(c[trim_end(c, lo, hi) - 1]),
        white(' ') && white('\t') && white('\n') && white('\r') && !white('a') && !white('0')
            && !white('/') && !white('-'),
    decreases hi - lo,
{
    if lo < hi && white(c[lo]) {
        trimming_takes_only_blanks(c, lo + 1, hi);
    }
    if lo < hi && white(c[hi - 1]) {
        trimming_takes_only_blanks(c, lo, hi - 1);
    }
}

} // verus!
