//! Reading the memory of a program on its behalf.

use vstd::prelude::*;
use vstd::string::*;
use vstd::utf8::valid_utf8;
use crate::bytes::{le_u64, read_u64};
use crate::mem::PhysMem;
use crate::paging::{UserTables, USER_HALF_END};
use super::errno::{EFAULT, ENOENT};
use super::exec::{args_fit, phys_of, stack_strings, string_addr, MAX_ARGV, MAX_ENVP};
use super::syscall::{USER_MIN, USER_TOP};
use super::ustack::USTACK_TOP;

verus! {

/// Bytes taken of each string that a program passes.
pub const USER_STR_MAX: usize = 256;

/// Why something could not be read from a program's memory.
#[derive(Clone, Copy, Debug, PartialEq, Eq, Structural)]
pub enum UserError {
    /// The call fails with this error.
    Errno(i64),
    /// Nothing is mapped at this address: the read faults there, and is made
    /// again once the fault has been resolved.
    Fault(u64),
}

/// `addr .. addr + len` lies in user memory, above the null page.
pub open spec fn user_span(addr: int, len: int) -> bool {
    addr >= 4096 && addr + len <= 0x0000_8000_0000_0000
}

pub(crate) fn is_user_span(addr: u64, len: u64) -> (r: bool)
    ensures
        r == user_span(addr as int, len as int),
{
    match addr.checked_add(len) {
        Some(end) => addr >= USER_MIN as u64 && end <= USER_TOP,
        None => false,
    }
}

/// The byte that a program sees at `addr`, if its memory has one there.
pub open spec fn user_byte(t: &UserTables, mem: &PhysMem, addr: int) -> Option<u8> {
    let e = t.pte(addr as u64);
    if 0 <= addr < USER_HALF_END && e.flags.present && mem.holds(e.frame.0) {
        Some(mem.bytes@[phys_of(t, addr)])
    } else {
        None
    }
}

/// The `len` bytes that a program sees at `addr`, or where reading them faults.
pub open spec fn user_read(t: &UserTables, mem: &PhysMem, addr: int, len: nat) -> Result<
    Seq<u8>,
    u64,
>
    decreases len,
{
    if len == 0 {
        Ok(Seq::empty())
    } else {
        match user_read(t, mem, addr, (len - 1) as nat) {
            Err(at) => Err(at),
            Ok(s) => match user_byte(t, mem, addr + len - 1) {
                Some(b) => Ok(s.push(b)),
                None => Err((addr + len - 1) as u64),
            },
        }
    }
}

/// What has been read is as long as was asked for.
pub proof fn lemma_user_read(t: &UserTables, mem: &PhysMem, addr: int, len: nat)
    ensures
        user_read(t, mem, addr, len) matches Ok(s) ==> {
            &&& s.len() == len
            &&& forall|i: int| 0 <= i < len ==> Some(#[trigger] s[i]) == user_byte(t, mem, addr + i)
        },
    decreases len,
{
    if len > 0 {
        lemma_user_read(t, mem, addr, (len - 1) as nat);
    }
}

/// Where a read faults, a longer read from the same address faults too.
proof fn lemma_fault_sticks(t: &UserTables, mem: &PhysMem, addr: int, n: nat, len: nat)
    requires
        n <= len,
        user_read(t, mem, addr, n) is Err,
    ensures
        user_read(t, mem, addr, len) == user_read(t, mem, addr, n),
    decreases len,
{
    if n < len {
        lemma_fault_sticks(t, mem, addr, n, (len - 1) as nat);
    }
}

/// Copy `len` bytes from `src` in a program's memory.
pub fn copy_from_user(t: &UserTables, mem: &PhysMem, src: u64, len: usize) -> (r: Result<
    Vec<u8>,
    u64,
>)
    requires
        t.wf(),
        src + len <= u64::MAX,
    ensures
        match (r, user_read(t, mem, src as int, len as nat)) {
            (Ok(v), Ok(s)) => v@ == s,
            (Err(a), Err(b)) => a == b,
            _ => false,
        },
{
    let mut out: Vec<u8> = Vec::new();
    let mut i: usize = 0;
    assert(out@ =~= Seq::<u8>::empty());
    while i < len
        invariant
            i <= len,
            t.wf(),
            src + len <= u64::MAX,
            user_read(t, mem, src as int, i as nat) == Ok::<Seq<u8>, u64>(out@),
        decreases len - i,
    {
        let addr: u64 = src + i as u64;
        assert(user_read(t, mem, src as int, (i + 1) as nat) == match user_byte(
            t,
            mem,
            addr as int,
        ) {
            Some(b) => Ok::<Seq<u8>, u64>(out@.push(b)),
            None => Err(addr),
        });
        let mut frame: Option<u64> = None;
        if addr < USER_HALF_END {
            proof {
                t.lemma_missing_bound(addr);
            }
            match t.leaf(addr) {
                Some(e) => {
                    if e.is_present() && e.frame.0 % 4096 == 0 && mem.bytes.len() >= 4096
                        && e.frame.0 <= (mem.bytes.len() - 4096) as u64 {
                        frame = Some(e.frame.0);
                    }
                },
                None => {},
            }
        }
        match frame {
            Some(f) => {
                assert(mem.holds(f));
                let at: usize = f as usize + (addr % 4096) as usize;
                out.push(mem.bytes[at]);
            },
            None => {
                proof {
                    assert(mem.bytes@.len() == mem.bytes.len());
                    assert(user_byte(t, mem, addr as int) is None);
                    lemma_fault_sticks(t, mem, src as int, (i + 1) as nat, len as nat);
                }
                return Err(addr);
            },
        }
        i += 1;
    }
    Ok(out)
}

/// The eight-byte word that a program sees at `addr`.
pub open spec fn user_word(t: &UserTables, mem: &PhysMem, addr: int) -> Result<u64, u64> {
    match user_read(t, mem, addr, 8) {
        Ok(s) => Ok(le_u64(s, 0)),
        Err(at) => Err(at),
    }
}

/// The word at `ptr` in a program's memory.
pub fn read_u64_from_user(t: &UserTables, mem: &PhysMem, ptr: u64) -> (r: Result<u64, u64>)
    requires
        t.wf(),
        ptr + 8 <= u64::MAX,
    ensures
        r == user_word(t, mem, ptr as int),
{
    proof {
        lemma_user_read(t, mem, ptr as int, 8);
    }
    match copy_from_user(t, mem, ptr, 8) {
        Ok(bytes) => Ok(read_u64(bytes.as_slice(), 0)),
        Err(at) => Err(at),
    }
}

/// How many bytes of `s` precede its first NUL, or all of them.
pub open spec fn before_nul(s: Seq<u8>) -> int
    decreases s.len(),
{
    if s.len() == 0 || s[0] == 0 {
        0
    } else {
        1 + before_nul(s.skip(1))
    }
}

/// The first NUL is where `before_nul` says.
pub proof fn nul_ends_string(s: Seq<u8>)
    ensures
        0 <= before_nul(s) <= s.len(),
        before_nul(s) < s.len() ==> s[before_nul(s)] == 0,
        forall|i: int| 0 <= i < before_nul(s) ==> #[trigger] s[i] != 0,
    decreases s.len(),
{
    if s.len() > 0 && s[0] != 0 {
        nul_ends_string(s.skip(1));
        assert forall|i: int| 0 <= i < before_nul(s) implies #[trigger] s[i] != 0 by {
            if i > 0 {
                assert(s.skip(1)[i - 1] == s[i]);
            }
        }
    }
}

pub fn nul_terminated_len(buf: &[u8]) -> (r: usize)
    ensures
        r == before_nul(buf@),
{
    let mut i: usize = 0;
    assert(buf@.skip(0) =~= buf@);
    while i < buf.len() && buf[i] != 0
        invariant
            i <= buf@.len(),
            before_nul(buf@) == i + before_nul(buf@.skip(i as int)),
        decreases buf@.len() - i,
    {
        assert(buf@.skip(i as int).skip(1) =~= buf@.skip(i + 1));
        i += 1;
    }
    i
}

/// The string that a program passes at `addr`: of the 256 bytes there, those
/// before the first NUL.
pub open spec fn user_string(t: &UserTables, mem: &PhysMem, addr: int) -> Result<Seq<u8>, u64> {
    match user_read(t, mem, addr, 256) {
        Ok(s) => Ok(s.take(before_nul(s))),
        Err(at) => Err(at),
    }
}

fn read_string_from_user(t: &UserTables, mem: &PhysMem, ptr: u64) -> (r: Result<Vec<u8>, u64>)
    requires
        t.wf(),
        ptr + 256 <= u64::MAX,
    ensures
        match (r, user_string(t, mem, ptr as int)) {
            (Ok(v), Ok(s)) => v@ == s,
            (Err(a), Err(b)) => a == b,
            _ => false,
        },
{
    match copy_from_user(t, mem, ptr, USER_STR_MAX) {
        Ok(mut bytes) => {
            proof {
                nul_ends_string(bytes@);
            }
            let n: usize = nul_terminated_len(bytes.as_slice());
            bytes.truncate(n);
            Ok(bytes)
        },
        Err(at) => Err(at),
    }
}

/// The strings of the array at `ptr`, after `got`: up to a null pointer, and
/// at most `left` more.
pub open spec fn user_strings(
    t: &UserTables,
    mem: &PhysMem,
    ptr: int,
    got: Seq<Seq<u8>>,
    left: nat,
) -> Result<Seq<Seq<u8>>, UserError>
    decreases left,
{
    if left == 0 {
        Ok(got)
    } else if !user_span(ptr, 8) {
        Err(UserError::Errno(EFAULT))
    } else {
        match user_word(t, mem, ptr) {
            Err(at) => Err(UserError::Fault(at)),
            Ok(0) => Ok(got),
            Ok(arg) => if !user_span(arg as int, 1) {
                Err(UserError::Errno(EFAULT))
            } else {
                match user_string(t, mem, arg as int) {
                    Err(at) => Err(UserError::Fault(at)),
                    Ok(s) => user_strings(t, mem, ptr + 8, got.push(s), (left - 1) as nat),
                }
            },
        }
    }
}

/// The strings of the array at `ptr`; none if `ptr` is null.
pub open spec fn user_args(t: &UserTables, mem: &PhysMem, ptr: u64, max: nat) -> Result<
    Seq<Seq<u8>>,
    UserError,
> {
    if ptr == 0 {
        Ok(Seq::empty())
    } else {
        user_strings(t, mem, ptr as int, Seq::empty(), max)
    }
}

/// The bytes of each string.
pub open spec fn contents(v: Seq<Vec<u8>>) -> Seq<Seq<u8>> {
    v.map_values(|s: Vec<u8>| s@)
}

fn copy_strings(t: &UserTables, mem: &PhysMem, ptr: u64, max: usize) -> (r: Result<
    Vec<Vec<u8>>,
    UserError,
>)
    requires
        t.wf(),
    ensures
        match (r, user_args(t, mem, ptr, max as nat)) {
            (Ok(v), Ok(s)) => contents(v@) == s && v@.len() <= max,
            (Err(a), Err(b)) => a == b,
            _ => false,
        },
{
    let mut out: Vec<Vec<u8>> = Vec::new();
    assert(contents(out@) =~= Seq::<Seq<u8>>::empty());
    if ptr == 0 {
        return Ok(out);
    }
    let mut at: u64 = ptr;
    while out.len() < max
        invariant
            t.wf(),
            out@.len() <= max,
            ptr != 0,
            user_args(t, mem, ptr, max as nat) == user_strings(
                t,
                mem,
                at as int,
                contents(out@),
                (max - out@.len()) as nat,
            ),
        decreases max - out@.len(),
    {
        if !is_user_span(at, 8) {
            return Err(UserError::Errno(EFAULT));
        }
        let arg: u64 = match read_u64_from_user(t, mem, at) {
            Ok(arg) => arg,
            Err(f) => return Err(UserError::Fault(f)),
        };
        if arg == 0 {
            return Ok(out);
        }
        if !is_user_span(arg, 1) {
            return Err(UserError::Errno(EFAULT));
        }
        let s: Vec<u8> = match read_string_from_user(t, mem, arg) {
            Ok(s) => s,
            Err(f) => return Err(UserError::Fault(f)),
        };
        let ghost before = out@;
        out.push(s);
        assert(contents(out@) =~= contents(before).push(s@));
        at = at + 8;
    }
    Ok(out)
}

/// `core::str::from_utf8`: the text that `bytes` encodes, or nothing if they
/// are not valid UTF-8.
#[verifier::external_body]
pub(crate) fn text_of(bytes: &[u8]) -> (r: Option<&str>)
    ensures
        r is Some == valid_utf8(bytes@),
        r matches Some(s) ==> s.spec_bytes() == bytes@,
{
    core::str::from_utf8(bytes).ok()
}

/// What `execve` was called with.
pub struct ExecRequest {
    pub path: Vec<u8>,
    pub argv: Vec<Vec<u8>>,
    pub envp: Vec<Vec<u8>>,
}

/// What `execve(path_ptr, argv_ptr, envp_ptr)` asks for.
pub open spec fn exec_request(
    t: &UserTables,
    mem: &PhysMem,
    path_ptr: u64,
    argv_ptr: u64,
    envp_ptr: u64,
) -> Result<(Seq<u8>, Seq<Seq<u8>>, Seq<Seq<u8>>), UserError> {
    if !user_span(path_ptr as int, 1) {
        Err(UserError::Errno(EFAULT))
    } else {
        match user_string(t, mem, path_ptr as int) {
            Err(at) => Err(UserError::Fault(at)),
            Ok(path) => if !valid_utf8(path) {
                Err(UserError::Errno(ENOENT))
            } else {
                match user_args(t, mem, argv_ptr, 32) {
                    Err(e) => Err(e),
                    Ok(argv) => match user_args(t, mem, envp_ptr, 32) {
                        Err(e) => Err(e),
                        Ok(envp) => Ok((path, argv, envp)),
                    },
                }
            },
        }
    }
}

/// Take the path, the arguments and the environment of `execve` out of the
/// memory of the program that called it.
pub fn sys_execve(t: &UserTables, mem: &PhysMem, path_ptr: u64, argv_ptr: u64, envp_ptr: u64) -> (r:
    Result<ExecRequest, UserError>)
    requires
        t.wf(),
    ensures
        match (r, exec_request(t, mem, path_ptr, argv_ptr, envp_ptr)) {
            (Ok(q), Ok((path, argv, envp))) => {
                &&& q.path@ == path
                &&& contents(q.argv@) == argv
                &&& contents(q.envp@) == envp
                &&& q.argv@.len() <= MAX_ARGV
                &&& q.envp@.len() <= MAX_ENVP
            },
            (Err(a), Err(b)) => a == b,
            _ => false,
        },
{
    if !is_user_span(path_ptr, 1) {
        return Err(UserError::Errno(EFAULT));
    }
    let path: Vec<u8> = match read_string_from_user(t, mem, path_ptr) {
        Ok(path) => path,
        Err(at) => return Err(UserError::Fault(at)),
    };
    if text_of(path.as_slice()).is_none() {
        return Err(UserError::Errno(ENOENT));
    }
    let argv: Vec<Vec<u8>> = copy_strings(t, mem, argv_ptr, MAX_ARGV)?;
    let envp: Vec<Vec<u8>> = copy_strings(t, mem, envp_ptr, MAX_ENVP)?;
    Ok(ExecRequest { path, argv, envp })
}

/// The bytes that a string is passed on as: those of a string that is not
/// valid UTF-8 are dropped.
pub open spec fn as_text(s: Seq<u8>) -> Seq<u8> {
    if valid_utf8(s) {
        s
    } else {
        Seq::empty()
    }
}

/// The strings of `v` as text; one that is not valid UTF-8 becomes empty.
pub fn texts(v: &Vec<Vec<u8>>) -> (r: Vec<&str>)
    ensures
        r@.len() == v@.len(),
        forall|i: int| 0 <= i < r@.len() ==> (#[trigger] r@[i]).spec_bytes() == as_text(v@[i]@),
{
    let mut out: Vec<&str> = Vec::new();
    let mut i: usize = 0;
    while i < v.len()
        invariant
            i <= v@.len(),
            out@.len() == i,
            forall|j: int|
                0 <= j < out@.len() ==> (#[trigger] out@[j]).spec_bytes() == as_text(v@[j]@),
        decreases v@.len() - i,
    {
        match text_of(v[i].as_slice()) {
            Some(s) => out.push(s),
            None => {
                proof {
                    reveal_strlit("");
                    assert(""@ =~= Seq::<char>::empty());
                }
                out.push("")
            },
        }
        i += 1;
    }
    out
}

/// A string that a program passes has at most 256 bytes, and an array at most
/// `left` more strings than `got`.
proof fn lemma_strings_short(
    t: &UserTables,
    mem: &PhysMem,
    ptr: int,
    got: Seq<Seq<u8>>,
    left: nat,
)
    requires
        forall|i: int| 0 <= i < got.len() ==> (#[trigger] got[i]).len() <= 256,
    ensures
        user_strings(t, mem, ptr, got, left) matches Ok(v) ==> {
            &&& v.len() <= got.len() + left
            &&& forall|i: int| 0 <= i < v.len() ==> (#[trigger] v[i]).len() <= 256
        },
    decreases left,
{
    if left > 0 && user_span(ptr, 8) {
        if let Ok(arg) = user_word(t, mem, ptr) {
            if let Ok(s) = user_string(t, mem, arg as int) {
                lemma_user_read(t, mem, arg as int, 256);
                nul_ends_string(user_read(t, mem, arg as int, 256)->Ok_0);
                lemma_strings_short(t, mem, ptr + 8, got.push(s), (left - 1) as nat);
            }
        }
    }
}

/// Short strings take little of the stack.
proof fn lemma_short_strings_fit(strs: Seq<Seq<u8>>, top: int, n: nat)
    requires
        n <= strs.len(),
        forall|i: int| 0 <= i < strs.len() ==> (#[trigger] strs[i]).len() <= 256,
    ensures
        string_addr(strs, top, n) >= top - 257 * n,
    decreases n,
{
    if n > 0 {
        lemma_short_strings_fit(strs, top, (n - 1) as nat);
        assert(strs[n - 1].len() <= 256);
    }
}

/// The arguments and the environment that a program asks for with `execve` fit on
/// the stack of the new image.
pub proof fn requested_args_fit(
    t: &UserTables,
    mem: &PhysMem,
    path_ptr: u64,
    argv_ptr: u64,
    envp_ptr: u64,
    argv: Seq<&str>,
    envp: Seq<&str>,
)
    requires
        exec_request(t, mem, path_ptr, argv_ptr, envp_ptr) matches Ok((_, args, env))
            && argv.len() == args.len() && envp.len() == env.len() && (forall|i: int|
            0 <= i < argv.len() ==> (#[trigger] argv[i]).spec_bytes() == as_text(args[i])) && (
        forall|i: int|
            0 <= i < envp.len() ==> (#[trigger] envp[i]).spec_bytes() == as_text(env[i])),
    ensures
        argv.len() <= MAX_ARGV,
        envp.len() <= MAX_ENVP,
        args_fit(argv, envp),
{
    let (_, args, env) = exec_request(t, mem, path_ptr, argv_ptr, envp_ptr)->Ok_0;
    lemma_strings_short(t, mem, argv_ptr as int, Seq::empty(), 32);
    lemma_strings_short(t, mem, envp_ptr as int, Seq::empty(), 32);
    let strs = stack_strings(argv, envp);
    assert forall|i: int| 0 <= i < strs.len() implies (#[trigger] strs[i]).len() <= 256 by {
        if i < argv.len() {
            assert(strs[i] == argv[i].spec_bytes());
            assert(args[i].len() <= 256);
        } else {
            assert(strs[i] == envp[i - argv.len()].spec_bytes());
            assert(env[i - argv.len()].len() <= 256);
        }
    }
    lemma_short_strings_fit(strs, USTACK_TOP - 8, strs.len());
}

} // verus!
