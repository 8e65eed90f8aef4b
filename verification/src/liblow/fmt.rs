//! Output of programs.

use vstd::prelude::*;
use vstd::string::*;
use vstd::utf8::*;
use crate::proc::usermem::text_of;
use crate::text::dec;
use super::call::{STDERR, STDOUT};

verus! {

/// Bytes to be written to a file, all of them.
pub struct Output {
    pub fd: i32,
    pub bytes: Vec<u8>,
}

/// How writing a buffer goes on.
#[derive(Clone, Copy, Debug, PartialEq, Eq, Structural)]
pub enum WriteStep {
    /// The bytes from here on are still to be written.
    Write { from: usize },
    /// It is over; whether everything has been written.
    Done(bool),
}

/// Begin to write `len` bytes.
pub fn write_all(len: usize) -> (r: WriteStep)
    ensures
        r == (if len == 0 {
            WriteStep::Done(true)
        } else {
            WriteStep::Write { from: 0 }
        }),
{
    if len == 0 {
        WriteStep::Done(true)
    } else {
        WriteStep::Write { from: 0 }
    }
}

/// How writing goes on when writing the bytes from `from` on gave `n`: an error
/// or no progress ends it.
pub open spec fn write_next(len: usize, from: usize, n: i64) -> WriteStep {
    if n <= 0 {
        WriteStep::Done(false)
    } else if from + n >= len {
        WriteStep::Done(true)
    } else {
        WriteStep::Write { from: (from + n) as usize }
    }
}

/// Go on with writing `len` bytes, after writing those from `from` on gave `n`.
pub fn write_all_next(len: usize, from: usize, n: i64) -> (r: WriteStep)
    requires
        from < len,
    ensures
        r == write_next(len, from, n),
        r matches WriteStep::Write { from: f } ==> from < f < len,
{
    if n <= 0 {
        return WriteStep::Done(false);
    }
    if n as u64 >= (len - from) as u64 {
        WriteStep::Done(true)
    } else {
        WriteStep::Write { from: from + n as usize }
    }
}

/// Where writing `len` bytes has come to after the given results.
pub open spec fn write_run(len: usize, results: Seq<i64>) -> WriteStep
    decreases results.len(),
{
    if results.len() == 0 {
        if len == 0 {
            WriteStep::Done(true)
        } else {
            WriteStep::Write { from: 0 }
        }
    } else {
        match write_run(len, results.drop_last()) {
            WriteStep::Write { from } => write_next(len, from, results.last()),
            done => done,
        }
    }
}

/// The sum of some results.
pub open spec fn total(results: Seq<i64>) -> int
    decreases results.len(),
{
    if results.len() == 0 {
        0
    } else {
        total(results.drop_last()) + results.last()
    }
}

/// Short writes are no failure: however the bytes are split up, writing goes on
/// where it stopped until all of them are out.
pub proof fn short_writes_add_up(len: usize, results: Seq<i64>)
    requires
        len > 0,
        forall|i: int| 0 <= i < results.len() ==> #[trigger] results[i] > 0,
        total(results) <= len,
    ensures
        write_run(len, results) == (if total(results) == len {
            WriteStep::Done(true)
        } else {
            WriteStep::Write { from: total(results) as usize }
        }),
        total(results) >= 0,
    decreases results.len(),
{
    if results.len() > 0 {
        let before = results.drop_last();
        assert(results.last() == results[results.len() - 1]);
        assert forall|i: int| 0 <= i < before.len() implies #[trigger] before[i] > 0 by {
            assert(results[i] > 0);
        }
        short_writes_add_up(len, before);
    }
}

/// Write a string.
pub fn puts_fd(fd: i32, s: &str) -> (r: Output)
    ensures
        r.fd == fd,
        r.bytes@ == s.spec_bytes(),
{
    let mut bytes: Vec<u8> = Vec::new();
    bytes.extend_from_slice(s.as_bytes());
    assert(bytes@ =~= s.spec_bytes());
    Output { fd, bytes }
}

fn newline(fd: i32) -> (r: Output)
    ensures
        r.fd == fd,
        r.bytes@ == seq![10u8],
{
    let mut bytes: Vec<u8> = Vec::new();
    bytes.push(10);
    assert(bytes@ =~= seq![10u8]);
    Output { fd, bytes }
}

/// `v` is the one output of `bytes` to `fd`.
pub open spec fn is_output(v: Output, fd: i32, bytes: Seq<u8>) -> bool {
    v.fd == fd && v.bytes@ == bytes
}

/// Write a string to the standard output.
pub fn print(s: &str) -> (r: Output)
    ensures
        is_output(r, STDOUT, s.spec_bytes()),
{
    puts_fd(STDOUT, s)
}

/// Write a string and a newline to the standard output.
pub fn println(s: &str) -> (r: Vec<Output>)
    ensures
        r@.len() == 2,
        is_output(r@[0], STDOUT, s.spec_bytes()),
        is_output(r@[1], STDOUT, seq![10u8]),
{
    let mut out: Vec<Output> = Vec::new();
    out.push(puts_fd(STDOUT, s));
    out.push(newline(STDOUT));
    out
}

/// Write a string and a newline to the error output.
pub fn eprintln(s: &str) -> (r: Vec<Output>)
    ensures
        r@.len() == 2,
        is_output(r@[0], STDERR, s.spec_bytes()),
        is_output(r@[1], STDERR, seq![10u8]),
{
    let mut out: Vec<Output> = Vec::new();
    out.push(puts_fd(STDERR, s));
    out.push(newline(STDERR));
    out
}

/// Write strings one after the other, and a newline.
pub fn write_parts(fd: i32, parts: &[&str]) -> (r: Vec<Output>)
    ensures
        r@.len() == parts@.len() + 1,
        forall|i: int|
            0 <= i < parts@.len() ==> is_output(#[trigger] r@[i], fd, parts@[i].spec_bytes()),
        is_output(r@[parts@.len() as int], fd, seq![10u8]),
{
    let mut out: Vec<Output> = Vec::new();
    let mut i: usize = 0;
    while i < parts.len()
        invariant
            i <= parts@.len(),
            out@.len() == i,
            forall|j: int|
                0 <= j < i ==> is_output(#[trigger] out@[j], fd, parts@[j].spec_bytes()),
        decreases parts@.len() - i,
    {
        out.push(puts_fd(fd, parts[i]));
        i += 1;
    }
    out.push(newline(fd));
    out
}

/// `v` as a decimal number.
pub open spec fn decimal(v: int) -> Seq<u8> {
    if v < 0 {
        seq![45u8] + dec((-v) as nat)
    } else {
        dec(v as nat)
    }
}

/// Bytes below 128 are valid UTF-8.
pub proof fn lemma_ascii_valid(b: Seq<u8>)
    requires
        forall|i: int| 0 <= i < b.len() ==> #[trigger] b[i] < 0x80,
    ensures
        valid_utf8(b),
    decreases b.len(),
{
    if b.len() > 0 {
        let c = b[0];
        assert((c & 0x7f) as u32 <= 0x7f) by (bit_vector);
        assert(valid_first_scalar(b));
        lemma_ascii_valid(pop_first_scalar(b));
    }
}

/// Ten to the power of `k`.
spec fn tens(k: nat) -> nat
    decreases k,
{
    if k == 0 {
        1
    } else {
        10 * tens((k - 1) as nat)
    }
}

/// A number below ten to the power of `k` has at most `k` digits.
proof fn lemma_digits(n: nat, k: nat)
    requires
        n < tens(k),
        k >= 1,
    ensures
        1 <= dec(n).len() <= k,
        forall|i: int| 0 <= i < dec(n).len() ==> 48 <= #[trigger] dec(n)[i] < 58,
    decreases k,
{
    if n >= 10 {
        assert(k > 1) by {
            reveal_with_fuel(tens, 2);
        }
        lemma_digits(n / 10, (k - 1) as nat);
    }
}

/// Render `v` as a decimal number in `buf`, at its end, and return it.
pub fn i64_to_str(v: i64, buf: &mut [u8; 24]) -> (r: String)
    ensures
        encode_utf8(r@) == decimal(v as int),
        decimal(v as int).len() <= 20,
        final(buf)@ == old(buf)@.take(24 - decimal(v as int).len()) + decimal(v as int),
{
    let neg = v < 0;
    let mag0: u64 = if neg {
        (-(v as i128)) as u64
    } else {
        v as u64
    };
    let mut mag: u64 = mag0;
    let mut i: usize = 24;
    proof {
        assert(tens(19) > mag0) by {
            reveal_with_fuel(tens, 20);
        }
        lemma_digits(mag0 as nat, 19);
    }
    if mag == 0 {
        i -= 1;
        buf[i] = 48;
        assert(buf@.subrange(23, 24) =~= dec(0));
    } else {
        assert(dec(mag as nat) + buf@.subrange(24, 24) =~= dec(mag0 as nat));
        while mag > 0
            invariant
                i <= 24,
                buf@.take(i as int) == old(buf)@.take(i as int),
                mag > 0 ==> dec(mag as nat).len() <= i - 4,
                mag == 0 ==> 3 < i,
                mag > 0 ==> dec(mag as nat) + buf@.subrange(i as int, 24) == dec(
                    mag0 as nat,
                ),
                mag == 0 ==> buf@.subrange(i as int, 24) == dec(mag0 as nat),
            decreases mag,
        {
            let ghost tail = buf@.subrange(i as int, 24);
            let ghost d = dec(mag as nat);
            i -= 1;
            buf[i] = 48 + (mag % 10) as u8;
            assert(buf@.take(i as int) =~= old(buf)@.take(i as int));
            assert(buf@.subrange(i as int, 24) =~= seq![(48 + mag % 10) as u8] + tail);
            if mag < 10 {
                assert(buf@.subrange(i as int, 24) =~= d + tail);
            } else {
                assert(dec(mag as nat / 10) + buf@.subrange(i as int, 24) =~= d + tail);
            }
            mag = mag / 10;
        }
    }
    if neg {
        i -= 1;
        let ghost tail = buf@.subrange(i + 1, 24);
        buf[i] = 45;
        assert(buf@.subrange(i as int, 24) =~= seq![45u8] + tail);
    }
    let text = vstd::slice::slice_subrange(buf.as_slice(), i, 24);
    proof {
        assert(text@ == decimal(v as int));
        assert(buf@ =~= old(buf)@.take(i as int) + text@) by {
            assert(buf@.take(i as int) =~= old(buf)@.take(i as int));
        }
        assert forall|j: int| 0 <= j < text@.len() implies #[trigger] text@[j] < 0x80 by {
            if neg {
                if j > 0 {
                    assert(text@[j] == dec(mag0 as nat)[j - 1]);
                }
            } else {
                assert(text@[j] == dec(mag0 as nat)[j]);
            }
        }
        lemma_ascii_valid(text@);
    }
    text_of(text).unwrap().to_owned()
}

/// A number that is printed reads as the number: its digits in the decimal system, after
/// a minus if it is negative.
pub proof fn printed_number_reads_back(v: int)
    ensures
        v >= 0 ==> crate::numbers::digits_value(decimal(v), 10) == Some(v),
        v < 0 ==> decimal(v)[0] == 0x2d && crate::numbers::digits_value(decimal(v).skip(1), 10)
            == Some(-v),
{
    if v < 0 {
        crate::numbers::decimal_reads_back((-v) as nat);
        assert(decimal(v).skip(1) =~= crate::text::dec((-v) as nat));
    } else {
        crate::numbers::decimal_reads_back(v as nat);
    }
}

} // verus!
