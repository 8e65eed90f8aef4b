//! The system calls of processes.

use vstd::prelude::*;
use crate::sched::schedule::{can_schedule, Switch};
use super::clone::{can_clone, clone_call, sys_clone, SYS_CLONE};
use super::effects::Effect;
use super::errno::{EFAULT, EINVAL, ENOSYS, ESRCH};
use super::fd::{dup2_done, dup_done};
use super::fork::{can_fork, fork_call, sys_fork, SYS_FORK};
use super::lifecycle::{exited, lemma_wf_procs};
use super::mmap::{can_mmap, can_munmap, mmap_call, munmap_call, sys_mmap, sys_munmap};
use super::process::Process;
use super::ptable::ptable_find;
use super::signal::{catchable, finish_handler, signal_is_catchable, SavedUserContext, SigAction, SigTable, SignalState, SyscallFrame, NSIG, SYS_KILL, SYS_SIGACTION, SYS_SIGRETURN};
use super::state::{cr3_of, current_process, Kernel};
use super::usermem::{contents, exec_request, is_user_span, read_u64_from_user, sys_execve, user_span, user_word, ExecRequest, UserError};
use super::vma::{SYS_MMAP, SYS_MUNMAP};
use super::wait::{can_wait, sys_wait4, wait_call, WaitOutcome, SYS_WAIT4};

verus! {

pub const SYS_READ: u64 = 0;

pub const SYS_WRITE: u64 = 1;

pub const SYS_DUP: u64 = 32;

pub const SYS_DUP2: u64 = 33;

pub const SYS_GETPID: u64 = 39;

pub const SYS_EXECVE: u64 = 59;

pub const SYS_EXIT: u64 = 60;

pub const SYS_PRCTL: u64 = 157;

/// The option of `prctl` that asks for the process name.
pub const PR_GET_NAME: u64 = 16;

/// The exit code of a process that SIGKILL ends.
pub const KILLED: i32 = -9;

/// First address above user memory.
pub const USER_TOP: u64 = 0x0000_8000_0000_0000;

/// First address of user memory that a program may pass.
pub const USER_MIN: usize = 4096;

/// `addr .. addr + len` lies in user memory, above the null page.
pub open spec fn user_range(addr: usize, len: usize) -> bool {
    addr >= 4096 && addr + len <= 0x0000_8000_0000_0000 && addr + len <= usize::MAX
}

pub fn is_user_ptr(addr: usize, len: usize) -> (r: bool)
    ensures
        r == user_range(addr, len),
{
    match addr.checked_add(len) {
        Some(end) => addr >= USER_MIN && end as u64 <= USER_TOP,
        None => false,
    }
}

/// Name the vnode that new processes have as their standard files.
pub fn set_serial_vnode(k: &mut Kernel, vnode: usize)
    ensures
        *final(k) == (Kernel { serial_vnode: vnode, ..*old(k) }),
{
    k.serial_vnode = vnode;
}

/// `after` is `before` with other signals for process `p`.
pub open spec fn signals_changed(before: &Kernel, after: &Kernel, p: int, to: SignalState) -> bool {
    &&& after.procs@ == before.procs@.update(p, Process { signals: to, ..before.procs@[p] })
    &&& *after == (Kernel { procs: after.procs, ..*before })
}

/// `getpid()` by the process that runs on `cpu_id`.
pub fn sys_getpid(k: &Kernel, cpu_id: u32) -> (r: i64)
    requires
        k.wf(),
        k.sched.unlocked(cpu_id),
    ensures
        r == (match k.current(cpu_id) {
            Some(p) => k.procs@[p as int].pid as i64,
            None => EFAULT,
        }),
{
    match current_process(k, cpu_id) {
        Some(p) => k.procs[p].pid as i64,
        None => EFAULT,
    }
}

/// What `prctl` does and returns.
pub open spec fn prctl_call(
    before: &Kernel,
    after: &Kernel,
    option: u64,
    arg2: u64,
    cpu_id: u32,
    r: i64,
) -> bool {
    if option != PR_GET_NAME {
        r == -22 && *after == *before
    } else if !user_span(arg2 as int, 16) {
        r == -14 && *after == *before
    } else {
        match before.current(cpu_id) {
            None => r == -14 && *after == *before,
            Some(p) => {
                &&& r == 0
                &&& after.log@ == before.log@.push(
                    Effect::StoreName { addr: arg2, name: before.procs@[p as int].name },
                )
                &&& *after == (Kernel { log: after.log, ..*before })
            },
        }
    }
}

/// `prctl` can be called on `cpu_id`: only a name that can be stored makes it look
/// for the process.
pub open spec fn can_prctl(k: &Kernel, option: u64, arg2: u64, cpu_id: u32) -> bool {
    option == PR_GET_NAME && user_span(arg2 as int, 16) ==> k.sched.unlocked(cpu_id)
}

/// `prctl(option, arg2)` by the process that runs on `cpu_id`: only its name
/// can be asked for.
pub fn sys_prctl(k: &mut Kernel, option: u64, arg2: u64, cpu_id: u32) -> (r: i64)
    requires
        old(k).wf(),
        can_prctl(old(k), option, arg2, cpu_id),
    ensures
        final(k).wf(),
        prctl_call(old(k), final(k), option, arg2, cpu_id, r),
{
    if option != PR_GET_NAME {
        return EINVAL;
    }
    if !is_user_span(arg2, 16) {
        return EFAULT;
    }
    let p: usize = match current_process(k, cpu_id) {
        Some(p) => p,
        None => return EFAULT,
    };
    let name: [u8; 16] = k.procs[p].name;
    k.log.push(Effect::StoreName { addr: arg2, name });
    proof {
        lemma_wf_procs(old(k), k);
    }
    0
}

/// What `dup` does and returns.
pub open spec fn dup_call(
    before: &Kernel,
    after: &Kernel,
    old_fd: i32,
    cpu_id: u32,
    r: i64,
) -> bool {
    match before.current(cpu_id) {
        None => r == -14 && *after == *before,
        Some(p) => {
            let was = before.procs@[p as int];
            let is = after.procs@[p as int];
            &&& -24 <= r < 64
            &&& dup_done(was.fd_table, is.fd_table, before.log@, after.log@, old_fd, r as i32)
            &&& after.procs@ == before.procs@.update(
                p as int,
                Process { fd_table: is.fd_table, ..was },
            )
            &&& *after == (Kernel { procs: after.procs, log: after.log, ..*before })
        },
    }
}

/// `dup(old_fd)` by the process that runs on `cpu_id`.
pub fn sys_dup(k: &mut Kernel, old_fd: i32, cpu_id: u32) -> (r: i64)
    requires
        old(k).wf(),
        old(k).sched.unlocked(cpu_id),
    ensures
        final(k).wf(),
        dup_call(old(k), final(k), old_fd, cpu_id, r),
{
    let p: usize = match current_process(k, cpu_id) {
        Some(p) => p,
        None => return EFAULT,
    };
    let r: i32 = k.procs[p].fd_table.dup(&mut k.log, old_fd);
    proof {
        assert(k.procs@ =~= old(k).procs@.update(p as int, k.procs@[p as int]));
        lemma_wf_procs(old(k), k);
    }
    r as i64
}

/// What `dup2` does and returns.
pub open spec fn dup2_call(
    before: &Kernel,
    after: &Kernel,
    old_fd: i32,
    new_fd: i32,
    cpu_id: u32,
    r: i64,
) -> bool {
    match before.current(cpu_id) {
        None => r == -14 && *after == *before,
        Some(p) => {
            let was = before.procs@[p as int];
            let is = after.procs@[p as int];
            &&& -9 <= r < 64
            &&& dup2_done(
                was.fd_table,
                is.fd_table,
                before.log@,
                after.log@,
                old_fd,
                new_fd,
                r as i32,
            )
            &&& after.procs@ == before.procs@.update(
                p as int,
                Process { fd_table: is.fd_table, ..was },
            )
            &&& *after == (Kernel { procs: after.procs, log: after.log, ..*before })
        },
    }
}

/// `dup2(old_fd, new_fd)` by the process that runs on `cpu_id`.
pub fn sys_dup2(k: &mut Kernel, old_fd: i32, new_fd: i32, cpu_id: u32) -> (r: i64)
    requires
        old(k).wf(),
        old(k).sched.unlocked(cpu_id),
    ensures
        final(k).wf(),
        dup2_call(old(k), final(k), old_fd, new_fd, cpu_id, r),
{
    let p: usize = match current_process(k, cpu_id) {
        Some(p) => p,
        None => return EFAULT,
    };
    let r: i32 = k.procs[p].fd_table.dup2(&mut k.log, old_fd, new_fd);
    proof {
        assert(k.procs@ =~= old(k).procs@.update(p as int, k.procs@[p as int]));
        lemma_wf_procs(old(k), k);
    }
    r as i64
}

/// What `kill` does and returns.
pub open spec fn kill_call(before: &Kernel, after: &Kernel, pid: u32, signum: u32, r: i64) -> bool {
    if signum == 0 || signum >= NSIG {
        r == -22 && *after == *before
    } else {
        match before.ptable.lookup(pid) {
            None => r == -3 && *after == *before,
            Some(p) => {
                let now = after.procs@[p as int].signals;
                &&& r == 0
                &&& signals_changed(
                    before,
                    after,
                    p as int,
                    SignalState { pending: now.pending, ..before.procs@[p as int].signals },
                )
                &&& forall|i: u64|
                    i < 64 ==> #[trigger] now.pending.waits(i) == (
                    before.procs@[p as int].signals.pending.waits(i) || i == signum)
            },
        }
    }
}

/// `kill(pid, signum)`: the signal waits until the target next returns to user
/// mode.
pub fn sys_kill(k: &mut Kernel, pid: u32, signum: u32) -> (r: i64)
    requires
        old(k).wf(),
    ensures
        final(k).wf(),
        kill_call(old(k), final(k), pid, signum, r),
{
    if signum == 0 || signum as usize >= NSIG {
        return EINVAL;
    }
    match ptable_find(&k.ptable, pid) {
        Some(p) => {
            assert(k.ptable.lookup(pid) == Some(p));
            k.procs[p].signals.pending.raise(signum);
            proof {
                assert(k.procs@ =~= old(k).procs@.update(p as int, k.procs@[p as int]));
                lemma_wf_procs(old(k), k);
            }
            0
        },
        None => ESRCH,
    }
}

/// The word that stands for a disposition in a program's memory: 0 for the
/// default, 1 to ignore, else the address of the handler.
pub open spec fn action_word(action: SigAction) -> u64 {
    match action {
        SigAction::Default => 0,
        SigAction::Ignore => 1,
        SigAction::Handler { user_fn } => user_fn,
    }
}

/// The disposition that a word stands for.
pub open spec fn word_action(value: u64) -> SigAction {
    if value == 0 {
        SigAction::Default
    } else if value == 1 {
        SigAction::Ignore
    } else {
        SigAction::Handler { user_fn: value }
    }
}

pub fn action_to_user(action: SigAction) -> (r: u64)
    ensures
        r == action_word(action),
{
    match action {
        SigAction::Default => 0,
        SigAction::Ignore => 1,
        SigAction::Handler { user_fn } => user_fn,
    }
}

pub fn action_from_user(value: u64) -> (r: SigAction)
    ensures
        r == word_action(value),
{
    if value == 0 {
        SigAction::Default
    } else if value == 1 {
        SigAction::Ignore
    } else {
        SigAction::Handler { user_fn: value }
    }
}

/// A disposition that a program sets is the one it reads back.
pub proof fn action_round_trip(value: u64)
    ensures
        action_word(word_action(value)) == value,
{
}

/// What `sigaction` does and returns; `Err` is where reading the new
/// disposition faults.
pub open spec fn sigaction_call(
    before: &Kernel,
    after: &Kernel,
    signum: u32,
    act_ptr: u64,
    oldact_ptr: u64,
    cpu_id: u32,
    r: Result<i64, u64>,
) -> bool {
    if !catchable(signum) {
        r == Ok::<i64, u64>(EINVAL) && *after == *before
    } else {
        match before.current(cpu_id) {
            None => r == Ok::<i64, u64>(EFAULT) && *after == *before,
            Some(p) => {
                let was = before.procs@[p as int].signals;
                let is = after.procs@[p as int].signals;
                let word = user_word(
                    &before.space_of(p as int).tables,
                    &before.mem,
                    act_ptr as int,
                );
                let old_ok = oldact_ptr == 0 || user_span(oldact_ptr as int, 8);
                if act_ptr != 0 && !user_span(act_ptr as int, 8) {
                    r == Ok::<i64, u64>(EFAULT) && *after == *before
                } else if act_ptr != 0 && word is Err {
                    r == Err::<i64, u64>(word->Err_0) && *after == *before
                } else {
                    &&& r == Ok::<i64, u64>(if old_ok {
                        0
                    } else {
                        EFAULT
                    })
                    &&& is.table.actions@ == (if act_ptr != 0 {
                        was.table.actions@.update(signum as int, word_action(word->Ok_0))
                    } else {
                        was.table.actions@
                    })
                    &&& is == (SignalState { table: is.table, ..was })
                    &&& after.procs@ == before.procs@.update(
                        p as int,
                        Process { signals: is, ..before.procs@[p as int] },
                    )
                    &&& after.log@ == (if oldact_ptr != 0 && old_ok {
                        before.log@.push(
                            Effect::Store64 {
                                addr: oldact_ptr,
                                value: action_word(was.table.actions@[signum as int]),
                            },
                        )
                    } else {
                        before.log@
                    })
                    &&& *after == (Kernel { procs: after.procs, log: after.log, ..*before })
                }
            },
        }
    }
}

/// `sigaction(signum, act_ptr, oldact_ptr)` by the process that runs on
/// `cpu_id`: set and read back the disposition of a signal.
pub fn sys_sigaction(
    k: &mut Kernel,
    signum: u32,
    act_ptr: u64,
    oldact_ptr: u64,
    cpu_id: u32,
) -> (r: Result<i64, u64>)
    requires
        old(k).wf(),
        catchable(signum) ==> old(k).sched.unlocked(cpu_id),
    ensures
        final(k).wf(),
        sigaction_call(old(k), final(k), signum, act_ptr, oldact_ptr, cpu_id, r),
{
    if !signal_is_catchable(signum) {
        return Ok(EINVAL);
    }
    let p: usize = match current_process(k, cpu_id) {
        Some(p) => p,
        None => return Ok(EFAULT),
    };
    assert(k.live(p as int));
    assert(k.process_wf(p as int));
    let previous = k.procs[p].signals.table.actions[signum as usize];
    if act_ptr != 0 {
        if !is_user_span(act_ptr, 8) {
            return Ok(EFAULT);
        }
        let h: usize = k.procs[p].address_space;
        assert(k.spaces.live(h as int));
        let value: u64 = match &k.spaces.slots[h] {
            Some(shared) => match read_u64_from_user(&shared.space.tables, &k.mem, act_ptr) {
                Ok(value) => value,
                Err(at) => return Err(at),
            },
            None => 0,
        };
        let mut table: SigTable = k.procs[p].signals.table;
        table.actions[signum as usize] = action_from_user(value);
        k.procs[p].signals.table = table;
    }
    let ghost mid = *k;
    proof {
        assert(k.procs@ =~= old(k).procs@.update(p as int, k.procs@[p as int]));
        lemma_wf_procs(old(k), k);
    }
    if oldact_ptr != 0 {
        if !is_user_span(oldact_ptr, 8) {
            return Ok(EFAULT);
        }
        k.log.push(Effect::Store64 { addr: oldact_ptr, value: action_to_user(previous) });
        proof {
            lemma_wf_procs(&mid, k);
        }
    }
    Ok(0)
}

/// How a system call goes on.
pub enum SyscallAction {
    /// It returns this value to the program.
    Return(i64),
    /// Its thread gives up the CPU.
    Leave(Switch),
    /// The executable that it names is read and takes the program's place.
    Exec(ExecRequest),
    /// The program resumes with these registers.
    Resume { context: SavedUserContext, cr3: u64 },
    /// Reading the program's memory faults at this address.
    Fault(u64),
    /// It is not a call of processes: the file system is asked.
    Chain,
}

/// What `sigreturn` does.
pub open spec fn sigreturn_call(before: &Kernel, after: &Kernel, cpu_id: u32, r: SyscallAction) -> bool {
    match before.current(cpu_id) {
        None => r == SyscallAction::Return(EFAULT) && *after == *before,
        Some(p) => match before.procs@[p as int].signals.frame {
            Some(context) => {
                &&& r == SyscallAction::Resume {
                    context,
                    cr3: cr3_of(&before.space_of(p as int)),
                }
                &&& signals_changed(
                    before,
                    after,
                    p as int,
                    SignalState { frame: None, ..before.procs@[p as int].signals },
                )
            },
            None => r matches SyscallAction::Leave(next) && exited(
                before,
                after,
                p as int,
                KILLED,
                cpu_id,
                next,
            ),
        },
    }
}

/// `sigreturn` can be called on `cpu_id`: where no handler runs, the process ends.
pub open spec fn can_sigreturn(k: &Kernel, cpu_id: u32) -> bool {
    &&& k.sched.unlocked(cpu_id)
    &&& k.current(cpu_id) matches Some(p) ==> k.procs@[p as int].signals.frame is None
        ==> can_schedule(&k.sched, cpu_id)
}

/// `sigreturn()` by the process that runs on `cpu_id`: go back to what its
/// handler interrupted. Without a handler to return from, the process ends.
pub fn sys_sigreturn(k: &mut Kernel, cpu_id: u32) -> (r: SyscallAction)
    requires
        old(k).wf(),
        can_sigreturn(old(k), cpu_id),
    ensures
        final(k).wf(),
        sigreturn_call(old(k), final(k), cpu_id, r),
{
    let p: usize = match current_process(k, cpu_id) {
        Some(p) => p,
        None => return SyscallAction::Return(EFAULT),
    };
    assert(k.live(p as int));
    assert(k.process_wf(p as int));
    let context: SavedUserContext = match k.procs[p].signals.frame {
        Some(context) => context,
        None => {
            return SyscallAction::Leave(Process::exit(k, p, KILLED, cpu_id));
        },
    };
    let _ = finish_handler(&mut k.procs[p].signals);
    let h: usize = k.procs[p].address_space;
    assert(k.spaces.live(h as int));
    let cr3: u64 = match &k.spaces.slots[h] {
        Some(shared) => shared.space.pml4_phys.0 | (shared.space.pcid as u64),
        None => 0,
    };
    proof {
        assert(k.procs@ =~= old(k).procs@.update(p as int, k.procs@[p as int]));
        lemma_wf_procs(old(k), k);
    }
    SyscallAction::Resume { context, cr3 }
}

/// `exit(code)` by the process that runs on `cpu_id`.
pub fn sys_exit(k: &mut Kernel, code: i32, cpu_id: u32) -> (r: Switch)
    requires
        old(k).wf(),
        old(k).sched.unlocked(cpu_id),
        can_schedule(&old(k).sched, cpu_id),
        old(k).current(cpu_id) is Some,
    ensures
        final(k).wf(),
        exited(old(k), final(k), old(k).current(cpu_id)->Some_0 as int, code, cpu_id, r),
{
    let p: usize = current_process(k, cpu_id).unwrap();
    Process::exit(k, p, code, cpu_id)
}

/// What a write to a standard file does before the file system is up.
pub open spec fn write_direct_call(
    before: &Kernel,
    after: &Kernel,
    fd: i32,
    buf: u64,
    len: u64,
    r: i64,
) -> bool {
    if fd != 1 && fd != 2 {
        r == -38 && *after == *before
    } else if !user_span(buf as int, len as int) {
        r == -14 && *after == *before
    } else {
        &&& r == len
        &&& after.log@ == before.log@.push(Effect::Print { addr: buf, len })
        &&& *after == (Kernel { log: after.log, ..*before })
    }
}

/// Send what a program writes to one of its output files to the serial line.
pub fn sys_write_direct(k: &mut Kernel, fd: i32, buf: u64, len: u64) -> (r: i64)
    requires
        old(k).wf(),
    ensures
        final(k).wf(),
        write_direct_call(old(k), final(k), fd, buf, len, r),
{
    if fd != 1 && fd != 2 {
        return ENOSYS;
    }
    if !is_user_span(buf, len) {
        return EFAULT;
    }
    k.log.push(Effect::Print { addr: buf, len });
    proof {
        lemma_wf_procs(old(k), k);
    }
    len as i64
}

/// What a system call needs besides its number and its arguments.
#[derive(Clone, Copy)]
pub struct CallEnv {
    /// The registers that the entry saved.
    pub frame: SyscallFrame,
    /// The tag for the address space of a new process.
    pub pcid: u16,
    /// Where the thread of a new process starts.
    pub entry: u64,
    /// The kernel stack of that thread.
    pub kstack: u64,
    pub cpu_id: u32,
}

/// A call's number and arguments.
#[derive(Clone, Copy, Debug, PartialEq, Eq, Structural)]
pub struct Call {
    pub nr: u64,
    pub a1: u64,
    pub a2: u64,
    pub a3: u64,
    pub a4: u64,
    pub a5: u64,
    pub a6: u64,
}

/// The file descriptor that a register passes: its low half, as a signed number.
pub open spec fn fd_arg(a: u64) -> i64 {
    ((a as u32) as i32) as i64
}

/// The call can be made. What a call refuses by its arguments alone it refuses
/// whatever holds the scheduler's lock.
pub open spec fn can_call(k: &Kernel, c: Call, env: CallEnv) -> bool {
    let cpu = env.cpu_id;
    if c.nr == SYS_EXIT {
        k.sched.unlocked(cpu) && can_schedule(&k.sched, cpu) && k.current(cpu) is Some
    } else if c.nr == SYS_GETPID || c.nr == SYS_DUP || c.nr == SYS_DUP2 {
        k.sched.unlocked(cpu)
    } else if c.nr == SYS_EXECVE {
        user_span(c.a1 as int, 1) ==> k.sched.unlocked(cpu) && k.current(cpu) is Some
    } else if c.nr == SYS_FORK {
        can_fork(k, env.kstack, cpu)
    } else if c.nr == SYS_CLONE {
        can_clone(k, c.a1 as u32, c.a2, env.kstack, cpu)
    } else if c.nr == SYS_SIGACTION {
        catchable(c.a1 as u32) ==> k.sched.unlocked(cpu)
    } else if c.nr == SYS_SIGRETURN {
        can_sigreturn(k, cpu)
    } else if c.nr == SYS_PRCTL {
        can_prctl(k, c.a1, c.a2, cpu)
    } else if c.nr == SYS_WAIT4 {
        can_wait(k, c.a1 as i64, c.a3 as u32, cpu)
    } else if c.nr == SYS_MMAP {
        can_mmap(k, c.a1, c.a2, c.a3 as u32, c.a4 as u32, fd_arg(c.a5), c.a6, cpu)
    } else if c.nr == SYS_MUNMAP {
        can_munmap(k, c.a1, c.a2, cpu)
    } else {
        true
    }
}

/// What `execve` asks for.
pub open spec fn execve_call(
    before: &Kernel,
    after: &Kernel,
    c: Call,
    cpu_id: u32,
    r: SyscallAction,
) -> bool {
    let p = before.current(cpu_id)->Some_0 as int;
    &&& *after == *before
    &&& match (exec_request(&before.space_of(p).tables, &before.mem, c.a1, c.a2, c.a3), r) {
        (Ok((path, argv, envp)), SyscallAction::Exec(q)) => {
            &&& q.path@ == path
            &&& contents(q.argv@) == argv
            &&& contents(q.envp@) == envp
        },
        (Err(UserError::Errno(e)), SyscallAction::Return(v)) => v == e,
        (Err(UserError::Fault(a)), SyscallAction::Fault(at)) => at == a,
        _ => false,
    }
}

/// What a system call does, and how it goes on.
pub open spec fn call_done(
    before: &Kernel,
    after: &Kernel,
    c: Call,
    env: CallEnv,
    r: SyscallAction,
) -> bool {
    let cpu = env.cpu_id;
    if c.nr == SYS_EXIT {
        r matches SyscallAction::Leave(next) && exited(
            before,
            after,
            before.current(cpu)->Some_0 as int,
            c.a1 as i32,
            cpu,
            next,
        )
    } else if c.nr == SYS_GETPID {
        &&& *after == *before
        &&& r == SyscallAction::Return(
            match before.current(cpu) {
                Some(p) => before.procs@[p as int].pid as i64,
                None => EFAULT,
            },
        )
    } else if c.nr == SYS_EXECVE {
        execve_call(before, after, c, cpu, r)
    } else if c.nr == SYS_FORK {
        r matches SyscallAction::Return(v) && fork_call(
            before,
            after,
            env.frame,
            env.pcid,
            env.entry,
            env.kstack,
            cpu,
            v,
        )
    } else if c.nr == SYS_CLONE {
        r matches SyscallAction::Return(v) && clone_call(
            before,
            after,
            c.a1 as u32,
            c.a2,
            env.frame,
            env.pcid,
            env.entry,
            env.kstack,
            cpu,
            v,
        )
    } else if c.nr == SYS_SIGACTION {
        match r {
            SyscallAction::Return(v) => sigaction_call(
                before,
                after,
                c.a1 as u32,
                c.a2,
                c.a3,
                cpu,
                Ok(v),
            ),
            SyscallAction::Fault(at) => sigaction_call(
                before,
                after,
                c.a1 as u32,
                c.a2,
                c.a3,
                cpu,
                Err(at),
            ),
            _ => false,
        }
    } else if c.nr == SYS_KILL {
        r matches SyscallAction::Return(v) && kill_call(
            before,
            after,
            c.a1 as u32,
            c.a2 as u32,
            v,
        )
    } else if c.nr == SYS_SIGRETURN {
        sigreturn_call(before, after, cpu, r)
    } else if c.nr == SYS_PRCTL {
        r matches SyscallAction::Return(v) && prctl_call(before, after, c.a1, c.a2, cpu, v)
    } else if c.nr == SYS_DUP {
        r matches SyscallAction::Return(v) && dup_call(before, after, c.a1 as i32, cpu, v)
    } else if c.nr == SYS_DUP2 {
        r matches SyscallAction::Return(v) && dup2_call(
            before,
            after,
            c.a1 as i32,
            c.a2 as i32,
            cpu,
            v,
        )
    } else if c.nr == SYS_WAIT4 {
        match r {
            SyscallAction::Return(v) => wait_call(
                before,
                after,
                c.a1 as i64,
                c.a2,
                c.a3 as u32,
                cpu,
                WaitOutcome::Return(v),
            ),
            SyscallAction::Leave(next) => wait_call(
                before,
                after,
                c.a1 as i64,
                c.a2,
                c.a3 as u32,
                cpu,
                WaitOutcome::Sleep(next),
            ),
            _ => false,
        }
    } else if c.nr == SYS_MMAP {
        r matches SyscallAction::Return(v) && mmap_call(
            before,
            after,
            c.a1,
            c.a2,
            c.a3 as u32,
            c.a4 as u32,
            fd_arg(c.a5),
            c.a6,
            cpu,
            v,
        )
    } else if c.nr == SYS_MUNMAP {
        r matches SyscallAction::Return(v) && munmap_call(before, after, c.a1, c.a2, cpu, v)
    } else {
        r == SyscallAction::Chain && *after == *before
    }
}

/// Perform a system call of the process that runs on `env.cpu_id`. A call that
/// is not one of processes goes to the file system first, and then to
/// [`chained_syscall`].
pub fn proc_syscall_handler(k: &mut Kernel, c: Call, env: &CallEnv) -> (r: SyscallAction)
    requires
        old(k).wf(),
        can_call(old(k), c, *env),
    ensures
        final(k).wf(),
        call_done(old(k), final(k), c, *env, r),
{
    let cpu_id: u32 = env.cpu_id;
    match c.nr {
        SYS_EXIT => SyscallAction::Leave(sys_exit(k, c.a1 as i32, cpu_id)),
        SYS_GETPID => SyscallAction::Return(sys_getpid(k, cpu_id)),
        SYS_EXECVE => {
            if !is_user_span(c.a1, 1) {
                return SyscallAction::Return(EFAULT);
            }
            let p: usize = current_process(k, cpu_id).unwrap();
            assert(k.process_wf(p as int));
            let h: usize = k.procs[p].address_space;
            assert(k.spaces.live(h as int));
            match &k.spaces.slots[h] {
                Some(shared) => match sys_execve(&shared.space.tables, &k.mem, c.a1, c.a2, c.a3) {
                    Ok(request) => SyscallAction::Exec(request),
                    Err(UserError::Errno(e)) => SyscallAction::Return(e),
                    Err(UserError::Fault(at)) => SyscallAction::Fault(at),
                },
                None => SyscallAction::Chain,
            }
        },
        SYS_FORK => SyscallAction::Return(
            sys_fork(k, &env.frame, env.pcid, env.entry, env.kstack, cpu_id),
        ),
        SYS_CLONE => SyscallAction::Return(
            sys_clone(
                k,
                c.a1 as u32,
                c.a2,
                &env.frame,
                env.pcid,
                env.entry,
                env.kstack,
                cpu_id,
            ),
        ),
        SYS_SIGACTION => match sys_sigaction(k, c.a1 as u32, c.a2, c.a3, cpu_id) {
            Ok(v) => SyscallAction::Return(v),
            Err(at) => SyscallAction::Fault(at),
        },
        SYS_KILL => SyscallAction::Return(sys_kill(k, c.a1 as u32, c.a2 as u32)),
        SYS_SIGRETURN => sys_sigreturn(k, cpu_id),
        SYS_PRCTL => SyscallAction::Return(sys_prctl(k, c.a1, c.a2, cpu_id)),
        SYS_DUP => SyscallAction::Return(sys_dup(k, c.a1 as i32, cpu_id)),
        SYS_DUP2 => SyscallAction::Return(sys_dup2(k, c.a1 as i32, c.a2 as i32, cpu_id)),
        SYS_WAIT4 => match sys_wait4(k, c.a1 as i64, c.a2, c.a3 as u32, cpu_id) {
            WaitOutcome::Return(v) => SyscallAction::Return(v),
            WaitOutcome::Sleep(next) => SyscallAction::Leave(next),
        },
        SYS_MMAP => {
            let fd: i64 = ((c.a5 as u32) as i32) as i64;
            SyscallAction::Return(
                sys_mmap(k, c.a1, c.a2, c.a3 as u32, c.a4 as u32, fd, c.a6, cpu_id),
            )
        },
        SYS_MUNMAP => SyscallAction::Return(sys_munmap(k, c.a1, c.a2, cpu_id)),
        _ => SyscallAction::Chain,
    }
}

/// What becomes of a call that is not one of processes: what the file system
/// answered counts, unless it has no such call either; then a write to an
/// output file goes to the serial line.
pub open spec fn chained_call(
    before: &Kernel,
    after: &Kernel,
    c: Call,
    answer: Option<i64>,
    r: i64,
) -> bool {
    if answer is Some && answer != Some(ENOSYS) {
        r == answer->Some_0 && *after == *before
    } else if c.nr == SYS_WRITE {
        write_direct_call(before, after, c.a1 as i32, c.a2, c.a3, r)
    } else {
        r == ENOSYS && *after == *before
    }
}

/// Finish a call that the file system was asked about; `answer` is none while
/// there is no file system.
pub fn chained_syscall(k: &mut Kernel, c: Call, answer: Option<i64>) -> (r: i64)
    requires
        old(k).wf(),
    ensures
        final(k).wf(),
        chained_call(old(k), final(k), c, answer, r),
{
    match answer {
        Some(v) => {
            if v != ENOSYS {
                return v;
            }
        },
        None => {},
    }
    if c.nr == SYS_WRITE {
        sys_write_direct(k, c.a1 as i32, c.a2, c.a3)
    } else {
        ENOSYS
    }
}

/// An anonymous mapping is asked for with a descriptor of -1, whether the
/// program set the whole register or only its low half.
pub proof fn minus_one_is_a_descriptor(a: u64)
    requires
        a == 0xffff_ffff || a == 0xffff_ffff_ffff_ffff,
    ensures
        fd_arg(a) == -1,
{
    assert(((a as u32) as i32) as i64 == -1i64) by (bit_vector)
        requires
            a == 0xffff_ffffu64 || a == 0xffff_ffff_ffff_ffffu64,
    ;
}

} // verus!
