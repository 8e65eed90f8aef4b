//! The system calls that programs make: what goes into the registers, and what
//! comes out of the results. Buffers are named by their addresses.

use vstd::prelude::*;
use crate::proc::syscall::Call;

verus! {

pub const SYS_READ: u64 = 0;

pub const SYS_WRITE: u64 = 1;

pub const SYS_OPEN: u64 = 2;

pub const SYS_CLOSE: u64 = 3;

pub const SYS_PIPE: u64 = 22;

pub const SYS_DUP: u64 = 32;

pub const SYS_DUP2: u64 = 33;

pub const SYS_GETPID: u64 = 39;

pub const SYS_FORK: u64 = 57;

pub const SYS_EXECVE: u64 = 59;

pub const SYS_EXIT: u64 = 60;

pub const SYS_WAIT4: u64 = 61;

pub const O_RDONLY: u32 = 0;

pub const O_WRONLY: u32 = 1;

pub const O_RDWR: u32 = 2;

pub const O_CREAT: u32 = 64;

pub const O_TRUNC: u32 = 512;

pub const STDIN: i32 = 0;

pub const STDOUT: i32 = 1;

pub const STDERR: i32 = 2;

/// A call with up to four arguments.
pub open spec fn call4(nr: u64, a1: u64, a2: u64, a3: u64, a4: u64) -> Call {
    Call { nr, a1, a2, a3, a4, a5: 0, a6: 0 }
}

/// A number as it goes into a register: sign-extended.
pub open spec fn register(v: i32) -> u64 {
    (v as i64) as u64
}

fn make_call(nr: u64, a1: u64, a2: u64, a3: u64, a4: u64) -> (r: Call)
    ensures
        r == call4(nr, a1, a2, a3, a4),
{
    Call { nr, a1, a2, a3, a4, a5: 0, a6: 0 }
}

/// Read up to `len` bytes into the buffer at `buf`: how many were read, 0 at
/// the end, or an error.
pub fn read(fd: i32, buf: u64, len: u64) -> (r: Call)
    ensures
        r == call4(SYS_READ, register(fd), buf, len, 0),
{
    make_call(SYS_READ, (fd as i64) as u64, buf, len, 0)
}

/// Write the `len` bytes at `buf`: how many were written, or an error.
pub fn write(fd: i32, buf: u64, len: u64) -> (r: Call)
    ensures
        r == call4(SYS_WRITE, register(fd), buf, len, 0),
{
    make_call(SYS_WRITE, (fd as i64) as u64, buf, len, 0)
}

/// Open the file whose path is the `len` bytes at `path`: no NUL ends it.
pub fn open(path: u64, len: u64, flags: u32) -> (r: Call)
    ensures
        r == call4(SYS_OPEN, path, len, flags as u64, 0),
{
    make_call(SYS_OPEN, path, len, flags as u64, 0)
}

pub fn close(fd: i32) -> (r: Call)
    ensures
        r == call4(SYS_CLOSE, register(fd), 0, 0, 0),
{
    make_call(SYS_CLOSE, (fd as i64) as u64, 0, 0, 0)
}

/// Fork: 0 in the child, its number in the parent.
pub fn fork() -> (r: Call)
    ensures
        r == call4(SYS_FORK, 0, 0, 0, 0),
{
    make_call(SYS_FORK, 0, 0, 0, 0)
}

pub fn dup2(old_fd: i32, new_fd: i32) -> (r: Call)
    ensures
        r == call4(SYS_DUP2, register(old_fd), register(new_fd), 0, 0),
{
    make_call(SYS_DUP2, (old_fd as i64) as u64, (new_fd as i64) as u64, 0, 0)
}

pub fn dup(old_fd: i32) -> (r: Call)
    ensures
        r == call4(SYS_DUP, register(old_fd), 0, 0, 0),
{
    make_call(SYS_DUP, (old_fd as i64) as u64, 0, 0, 0)
}

pub fn getpid() -> (r: Call)
    ensures
        r == call4(SYS_GETPID, 0, 0, 0, 0),
{
    make_call(SYS_GETPID, 0, 0, 0, 0)
}

/// Make a pipe: its two ends are stored at `fds`.
pub fn pipe(fds: u64) -> (r: Call)
    ensures
        r == call4(SYS_PIPE, fds, 0, 0, 0),
{
    make_call(SYS_PIPE, fds, 0, 0, 0)
}

/// The ends of a pipe, to read and to write, or the error.
pub fn pipe_ends(result: i64, fds: [i32; 2]) -> (r: Result<(i32, i32), i64>)
    ensures
        r == (if result < 0 {
            Err::<(i32, i32), i64>(result)
        } else {
            Ok((fds@[0], fds@[1]))
        }),
{
    if result < 0 {
        Err(result)
    } else {
        Ok((fds[0], fds[1]))
    }
}

/// Wait for child `pid` to end, or for any if it is -1; how it ended is stored
/// at `status`.
pub fn wait4(pid: i64, status: u64) -> (r: Call)
    ensures
        r == call4(SYS_WAIT4, pid as u64, status, 0, 0),
{
    make_call(SYS_WAIT4, pid as u64, status, 0, 0)
}

/// End the program.
pub fn exit(code: i32) -> (r: Call)
    ensures
        r == call4(SYS_EXIT, register(code), 0, 0, 0),
{
    make_call(SYS_EXIT, (code as i64) as u64, 0, 0, 0)
}

/// A child ended by exiting.
pub fn wifexited(status: i32) -> (r: bool)
    ensures
        r == (status & 0x7f == 0),
{
    status & 0x7f == 0
}

/// The exit code of a child that exited, as far as it fits in eight bits.
pub fn wexitstatus(status: i32) -> (r: i32)
    ensures
        r == (status >> 8) & 0xff,
{
    (status >> 8) & 0xff
}

/// How a child ended, as the kernel encodes it, is read back: it exited, and
/// with which code.
pub proof fn exit_status_is_read_back(code: i32)
    ensures
        ({
            let status = ((code as int % 256) * 256) as u32 as i32;
            &&& status & 0x7f == 0
            &&& (status >> 8) & 0xff == code as int % 256
        }),
{
    let low = (code as int % 256) as u32;
    assert(low < 256);
    assert(low * 256 <= 65280);
    let s = (low * 256) as u32 as i32;
    assert((low * 256) as u32 as i32 & 0x7f == 0 && ((low * 256) as u32 as i32 >> 8) & 0xff
        == low as i32) by (bit_vector)
        requires
            low < 256,
    ;
}

} // verus!
