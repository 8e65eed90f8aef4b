//! `cat`: a file, or the standard input, to the standard output.

use vstd::prelude::*;
use vstd::string::*;

verus! {

/// Bytes that are read at a time.
pub const BUF_SIZE: usize = 4096;

/// What is to be copied.
#[derive(Clone, Copy, Debug, PartialEq, Eq, Structural)]
pub enum CatSource {
    StandardInput,
    /// The file that the first argument names.
    FirstArgument,
}

/// What `cat` copies; further arguments are ignored.
pub fn cat_source(args: &[Vec<u8>]) -> (r: CatSource)
    ensures
        r == (if args@.len() == 0 {
            CatSource::StandardInput
        } else {
            CatSource::FirstArgument
        }),
{
    if args.len() == 0 {
        CatSource::StandardInput
    } else {
        CatSource::FirstArgument
    }
}

/// How copying goes on when a read gave `n`.
#[derive(Clone, Copy, Debug, PartialEq, Eq, Structural)]
pub enum CatStep {
    /// Write that many bytes, and read on if they are out.
    Write(usize),
    /// It is over; whether everything was copied.
    Done(bool),
}

/// Go on with copying after a read that gave `n`: 0 is the end, a negative
/// number an error.
pub fn cat_fd(n: i64) -> (r: CatStep)
    requires
        n <= BUF_SIZE,
    ensures
        r == (if n == 0 {
            CatStep::Done(true)
        } else if n < 0 {
            CatStep::Done(false)
        } else {
            CatStep::Write(n as usize)
        }),
{
    if n == 0 {
        CatStep::Done(true)
    } else if n < 0 {
        CatStep::Done(false)
    } else {
        CatStep::Write(n as usize)
    }
}

/// The exit code of `cat`.
pub fn cat_exit_code(ok: bool) -> (r: i32)
    ensures
        r == (if ok {
            0int
        } else {
            1
        }),
{
    if ok {
        0
    } else {
        1
    }
}

/// What is said of a file that cannot be opened.
pub fn cannot_open(path: &[u8]) -> (r: Vec<u8>)
    ensures
        r@ == "cat: cannot open ".spec_bytes() + path@ + seq![10u8],
{
    let mut out: Vec<u8> = Vec::new();
    out.extend_from_slice("cat: cannot open ".as_bytes());
    out.extend_from_slice(path);
    out.push(10);
    assert(out@ =~= "cat: cannot open ".spec_bytes() + path@ + seq![10u8]);
    out
}

} // verus!
