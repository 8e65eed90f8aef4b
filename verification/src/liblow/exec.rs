//! `execve` as a program makes it.

use vstd::prelude::*;
use crate::proc::usermem::{before_nul, nul_ends_string};
use vstd::string::*;
use crate::proc::syscall::Call;
use super::call::{call4, SYS_EXECVE};

verus! {

/// Most arguments: as many as the kernel takes.
pub const MAX_ARGV: usize = 32;

/// Bytes of an argument, the NUL at its end included.
pub const MAX_ARG_LEN: usize = 128;

/// Bytes of the path, the NUL at its end included.
pub const MAX_PATH_LEN: usize = 256;

pub const ENAMETOOLONG: i64 = -36;

pub const E2BIG: i64 = -7;

/// The path and the arguments as the kernel reads them, each ended by NULs.
pub struct ExecImage {
    pub path: Vec<u8>,
    pub args: Vec<Vec<u8>>,
}

/// `s` with NULs up to `n` bytes.
pub open spec fn nul_padded(s: Seq<u8>, n: int) -> Seq<u8> {
    Seq::new(
        n as nat,
        |i: int|
            if i < s.len() {
                s[i]
            } else {
                0
            },
    )
}

/// The error of calling `execve` so, if there is one.
pub open spec fn exec_refusal(path: Seq<u8>, argv: Seq<&str>) -> Option<i64> {
    if path.len() >= 256 {
        Some(ENAMETOOLONG)
    } else if argv.len() > MAX_ARGV || exists|i: int|
        0 <= i < argv.len() && (#[trigger] argv[i]).spec_bytes().len() >= 128 {
        Some(E2BIG)
    } else {
        None
    }
}

fn pad(s: &[u8], n: usize) -> (r: Vec<u8>)
    requires
        s@.len() < n,
    ensures
        r@ == nul_padded(s@, n as int),
{
    let mut out: Vec<u8> = Vec::new();
    let mut i: usize = 0;
    while i < n
        invariant
            i <= n,
            s@.len() < n,
            out@ == nul_padded(s@, i as int),
        decreases n - i,
    {
        if i < s.len() {
            out.push(s[i]);
        } else {
            out.push(0);
        }
        i += 1;
        assert(out@ =~= nul_padded(s@, i as int));
    }
    out
}

/// Prepare to become the program at `path`, with the given arguments and no
/// environment.
pub fn execve(path: &str, argv: &[&str]) -> (r: Result<ExecImage, i64>)
    ensures
        match exec_refusal(path.spec_bytes(), argv@) {
            Some(e) => r == Err::<ExecImage, i64>(e),
            None => r matches Ok(image) && {
                &&& image.path@ == nul_padded(path.spec_bytes(), 256)
                &&& image.args@.len() == argv@.len()
                &&& forall|i: int|
                    0 <= i < argv@.len() ==> (#[trigger] image.args@[i])@ == nul_padded(
                        argv@[i].spec_bytes(),
                        128,
                    )
            },
        },
{
    let bytes = path.as_bytes();
    if bytes.len() >= MAX_PATH_LEN {
        return Err(ENAMETOOLONG);
    }
    let path_buf = pad(bytes, MAX_PATH_LEN);
    if argv.len() > MAX_ARGV {
        return Err(E2BIG);
    }
    let mut args: Vec<Vec<u8>> = Vec::new();
    let mut i: usize = 0;
    while i < argv.len()
        invariant
            i <= argv@.len() <= MAX_ARGV,
            path.spec_bytes().len() < 256,
            args@.len() == i,
            forall|j: int|
                0 <= j < i ==> (#[trigger] argv@[j]).spec_bytes().len() < 128 && args@[j]@
                    == nul_padded(argv@[j].spec_bytes(), 128),
        decreases argv@.len() - i,
    {
        let a = argv[i].as_bytes();
        if a.len() >= MAX_ARG_LEN {
            assert(argv@[i as int].spec_bytes().len() >= 128);
            return Err(E2BIG);
        }
        args.push(pad(a, MAX_ARG_LEN));
        i += 1;
    }
    proof {
        assert forall|j: int| 0 <= j < argv@.len() implies (#[trigger] args@[j])@ == nul_padded(
            argv@[j].spec_bytes(),
            128,
        ) by {
            assert(argv@[j].spec_bytes().len() < 128);
        }
    }
    Ok(ExecImage { path: path_buf, args })
}

/// The call, once the path is at `path`, the pointers to the arguments are at
/// `argv`, ended by a null pointer, and a null pointer is at `envp`.
pub fn execve_call(path: u64, argv: u64, envp: u64) -> (r: Call)
    ensures
        r == call4(SYS_EXECVE, path, argv, envp, 0),
{
    Call { nr: SYS_EXECVE, a1: path, a2: argv, a3: envp, a4: 0, a5: 0, a6: 0 }
}

/// What a program passes as a path or an argument, the kernel reads back: the
/// bytes before the first NUL of the padded text are the text, unless it holds a
/// NUL itself.
pub proof fn padded_text_reads_back(s: Seq<u8>, n: int)
    requires
        s.len() <= n,
        forall|i: int| 0 <= i < s.len() ==> #[trigger] s[i] != 0,
    ensures
        before_nul(nul_padded(s, n)) == s.len(),
        nul_padded(s, n).take(before_nul(nul_padded(s, n))) == s,
{
    let p = nul_padded(s, n);
    nul_ends_string(p);
    if before_nul(p) < s.len() {
        assert(p[before_nul(p)] == s[before_nul(p)]);
    }
    if before_nul(p) > s.len() {
        assert(p[s.len() as int] != 0);
    }
    assert(p.take(s.len() as int) =~= s);
}

/// A program is asked for unless its path or its arguments are too long: -36 for a path
/// of 256 bytes or more, -7 for more than 32 arguments or one of 128 bytes or more.
pub proof fn long_requests_are_refused(path: Seq<u8>, argv: Seq<&str>, i: int)
    ensures
        path.len() >= 256 ==> exec_refusal(path, argv) == Some(-36i64),
        path.len() < 256 && argv.len() > 32 ==> exec_refusal(path, argv) == Some(-7i64),
        path.len() < 256 && 0 <= i < argv.len() && argv[i].spec_bytes().len() >= 128 ==> exec_refusal(
            path,
            argv,
        ) == Some(-7i64),
        path.len() < 256 && argv.len() <= 32 && (forall|k: int|
            0 <= k < argv.len() ==> (#[trigger] argv[k]).spec_bytes().len() < 128) ==> exec_refusal(
            path,
            argv,
        ) is None,
{
}

} // verus!
