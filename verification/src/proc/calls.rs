//! What programs get from the calls that they make.

use vstd::prelude::*;
use crate::liblow::call;
use super::clone::clone_call;
use super::effects::Effect;
use super::fork::fork_call;
use super::lifecycle::exited;
use super::mmap::{mmap_call, munmap_call};
use super::state::Kernel;
use super::syscall::{call_done, chained_call, dup_call, kill_call, sigaction_call, sigreturn_call, Call, CallEnv, SyscallAction};
use super::usermem::{contents, exec_request};
use super::wait::{wait_call, WaitOutcome};

verus! {

proof fn lemma_register(v: i32)
    ensures
        ((v as i64) as u64) as i32 == v,
        ((v as i64) as u64) as u32 as i32 == v,
{
    assert(((v as i64) as u64) as i32 == v) by (bit_vector);
    assert(((v as i64) as u64) as u32 as i32 == v) by (bit_vector);
}

proof fn lemma_word(v: i64)
    ensures
        (v as u64) as i64 == v,
{
    assert((v as u64) as i64 == v) by (bit_vector);
}

/// A program that exits ends with the code that it passes, and does not go on.
pub proof fn exit_ends_the_program(
    before: &Kernel,
    after: &Kernel,
    code: i32,
    c: Call,
    env: CallEnv,
    r: SyscallAction,
    p: usize,
)
    requires
        call_ensures(call::exit, (code,), c),
        before.current(env.cpu_id) == Some(p),
        call_done(before, after, c, env, r),
    ensures
        r is Leave,
        exited(before, after, p as int, code, env.cpu_id, r->Leave_0),
{
    lemma_register(code);
}

/// A program that asks for its number gets it, and nothing changes.
pub proof fn getpid_gives_the_number(
    before: &Kernel,
    after: &Kernel,
    c: Call,
    env: CallEnv,
    r: SyscallAction,
    p: usize,
)
    requires
        call_ensures(call::getpid, (), c),
        before.current(env.cpu_id) == Some(p),
        call_done(before, after, c, env, r),
    ensures
        r == SyscallAction::Return(before.procs@[p as int].pid as i64),
        *after == *before,
{
}

/// A program that forks has a child that returns from the same call: it is made from
/// the registers that the call's entry saved.
pub proof fn fork_is_made(
    before: &Kernel,
    after: &Kernel,
    c: Call,
    env: CallEnv,
    r: SyscallAction,
)
    requires
        call_ensures(call::fork, (), c),
        call_done(before, after, c, env, r),
    ensures
        r is Return,
        fork_call(
            before,
            after,
            env.frame,
            env.pcid,
            env.entry,
            env.kstack,
            env.cpu_id,
            r->Return_0,
        ),
{
}

/// A descriptor is duplicated under the number that the program asks for.
pub proof fn dup2_is_made(
    before: &Kernel,
    after: &Kernel,
    old_fd: i32,
    new_fd: i32,
    c: Call,
    env: CallEnv,
    r: SyscallAction,
    p: usize,
)
    requires
        call_ensures(call::dup2, (old_fd, new_fd), c),
        before.current(env.cpu_id) == Some(p),
        0 <= p < before.procs@.len(),
        call_done(before, after, c, env, r),
        0 <= old_fd < 64,
        0 <= new_fd < 64,
        before.procs@[p as int].fd_table.fds@[old_fd as int] is Some,
    ensures
        r == SyscallAction::Return(new_fd as i64),
        after.procs@[p as int].fd_table.fds@[new_fd as int]
            == before.procs@[p as int].fd_table.fds@[old_fd as int],
{
    lemma_register(old_fd);
    lemma_register(new_fd);
}

/// A descriptor is duplicated under the lowest free number.
pub proof fn dup_is_made(
    before: &Kernel,
    after: &Kernel,
    old_fd: i32,
    c: Call,
    env: CallEnv,
    r: SyscallAction,
)
    requires
        call_ensures(call::dup, (old_fd,), c),
        call_done(before, after, c, env, r),
    ensures
        r is Return,
        dup_call(before, after, old_fd, env.cpu_id, r->Return_0),
{
    lemma_register(old_fd);
}

/// A program that waits for a child waits for the one that it asks for, learns how
/// it ended where it asks to, and sleeps where it has not ended.
pub proof fn wait_is_made(
    before: &Kernel,
    after: &Kernel,
    pid: i64,
    status: u64,
    c: Call,
    env: CallEnv,
    r: SyscallAction,
)
    requires
        call_ensures(call::wait4, (pid, status), c),
        call_done(before, after, c, env, r),
    ensures
        r is Return || r is Leave,
        r is Return ==> wait_call(
            before,
            after,
            pid,
            status,
            0,
            env.cpu_id,
            WaitOutcome::Return(r->Return_0),
        ),
        r is Leave ==> wait_call(
            before,
            after,
            pid,
            status,
            0,
            env.cpu_id,
            WaitOutcome::Sleep(r->Leave_0),
        ),
{
    lemma_word(pid);
    assert(0u64 as u32 == 0u32);
}

/// The calls that are numbered but that no function here makes: each reaches what it
/// is for, with the program's arguments in order.
pub proof fn numbered_calls_are_made(
    before: &Kernel,
    after: &Kernel,
    c: Call,
    env: CallEnv,
    r: SyscallAction,
)
    requires
        call_done(before, after, c, env, r),
        c.a1 <= 0x7fff_ffff,
    ensures
        c.nr == 9 && c.a3 <= 0x7fff_ffff && c.a4 <= 0x7fff_ffff && c.a5 <= 0x7fff_ffff ==> r is Return
            && mmap_call(
            before,
            after,
            c.a1,
            c.a2,
            c.a3 as u32,
            c.a4 as u32,
            c.a5 as i64,
            c.a6,
            env.cpu_id,
            r->Return_0,
        ),
        c.nr == 11 ==> r is Return && munmap_call(
            before,
            after,
            c.a1,
            c.a2,
            env.cpu_id,
            r->Return_0,
        ),
        c.nr == 13 && r is Return ==> sigaction_call(
            before,
            after,
            c.a1 as u32,
            c.a2,
            c.a3,
            env.cpu_id,
            Ok(r->Return_0),
        ),
        c.nr == 13 && r is Fault ==> sigaction_call(
            before,
            after,
            c.a1 as u32,
            c.a2,
            c.a3,
            env.cpu_id,
            Err(r->Fault_0),
        ),
        c.nr == 13 ==> r is Return || r is Fault,
        c.nr == 15 ==> sigreturn_call(before, after, env.cpu_id, r),
        c.nr == 56 ==> r is Return && clone_call(
            before,
            after,
            c.a1 as u32,
            c.a2,
            env.frame,
            env.pcid,
            env.entry,
            env.kstack,
            env.cpu_id,
            r->Return_0,
        ),
        c.nr == 57 ==> r is Return && fork_call(
            before,
            after,
            env.frame,
            env.pcid,
            env.entry,
            env.kstack,
            env.cpu_id,
            r->Return_0,
        ),
        c.nr == 62 && c.a2 <= 0x7fff_ffff ==> r is Return && kill_call(
            before,
            after,
            c.a1 as u32,
            c.a2 as u32,
            r->Return_0,
        ),
        !(c.nr == 9 || c.nr == 11 || c.nr == 13 || c.nr == 15 || c.nr == 32 || c.nr == 33 || c.nr == 39
            || c.nr == 56 || c.nr == 57 || c.nr == 59 || c.nr == 60 || c.nr == 61 || c.nr == 62
            || c.nr == 157) ==> r == SyscallAction::Chain && *after == *before,
{
    let fd = c.a5;
    if fd <= 0x7fff_ffff {
        assert(((fd as u32) as i32) as i64 == fd as i64) by (bit_vector)
            requires
                fd <= 0x7fff_ffff,
        ;
    }
}

/// A program that asks for its name has its sixteen bytes stored where it wants them.
pub proof fn name_is_stored(
    before: &Kernel,
    after: &Kernel,
    c: Call,
    env: CallEnv,
    r: SyscallAction,
    p: usize,
)
    requires
        before.current(env.cpu_id) == Some(p),
        c.nr == 157,
        call_done(before, after, c, env, r),
    ensures
        c.a1 != 16 ==> r == SyscallAction::Return(-22i64) && *after == *before,
        c.a1 == 16 && r == SyscallAction::Return(0i64) ==> {
            &&& after.log@.len() == before.log@.len() + 1
            &&& after.log@.last() == Effect::StoreName {
                addr: c.a2,
                name: before.procs@[p as int].name,
            }
            &&& 0 < c.a2
            &&& c.a2 + 16 <= 0x8000_0000_0000
            &&& after.procs == before.procs
        },
        c.a1 == 16 && 4096 <= c.a2 <= 0x7fff_ffff_fff0 ==> r == SyscallAction::Return(0i64),
        r is Return,
{
}

/// Before there are files, what a program writes to its standard output or error is
/// sent to the serial line, whole; anything else is refused.
pub proof fn early_output_is_printed(
    before: &Kernel,
    after: &Kernel,
    fd: i32,
    buf: u64,
    len: u64,
    c: Call,
    answer: Option<i64>,
    r: i64,
)
    requires
        call_ensures(call::write, (fd, buf, len), c),
        chained_call(before, after, c, answer, r),
    ensures
        answer is None && (fd == 1 || fd == 2) && 4096 <= buf && buf + len <= 0x8000_0000_0000 && 0
            < len ==> {
            &&& r == len
            &&& after.log@ == before.log@.push(Effect::Print { addr: buf, len })
        },
        answer is None && fd != 1 && fd != 2 ==> r == -38 && *after == *before,
        answer is Some && answer != Some(-38i64) ==> r == answer->Some_0 && *after == *before,
{
    lemma_register(fd);
}

/// A program that asks for another one in its place names it by the strings in its
/// memory.
pub proof fn execve_is_asked_for(
    before: &Kernel,
    after: &Kernel,
    c: Call,
    env: CallEnv,
    r: SyscallAction,
    p: usize,
)
    requires
        before.current(env.cpu_id) == Some(p),
        c.nr == 59,
        call_done(before, after, c, env, r),
    ensures
        *after == *before,
        r matches SyscallAction::Exec(q) ==> {
            let asked = exec_request(
                &before.space_of(p as int).tables,
                &before.mem,
                c.a1,
                c.a2,
                c.a3,
            );
            &&& asked is Ok
            &&& q.path@ == asked->Ok_0.0
            &&& contents(q.argv@) == asked->Ok_0.1
            &&& contents(q.envp@) == asked->Ok_0.2
        },
{
}

} // verus!
