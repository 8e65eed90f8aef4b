//! Processes.

use vstd::prelude::*;
use vstd::string::*;
use crate::sched::waitqueue::WaitQueue;
use super::fd::FdTable;
use super::signal::SignalState;

verus! {

pub type Pid = u32;

#[derive(Debug, Clone, Copy, PartialEq, Eq, Structural)]
pub enum ProcessState {
    Running,
    Zombie,
}

/// Most children that a process has at a time.
pub const MAX_CHILDREN: usize = 32;

/// Bytes of a process name.
pub const NAME_SIZE: usize = 16;

/// A process. Its address space and its thread are named by their indices.
pub struct Process {
    pub pid: Pid,
    pub state: ProcessState,
    pub exit_code: i32,
    pub address_space: usize,
    pub thread: Option<usize>,
    pub name: [u8; NAME_SIZE],
    pub user_rip: u64,
    pub user_rsp: u64,
    pub user_rflags: u64,
    pub user_rax: i64,
    /// rbx, rbp and r12 to r15, with which a forked child resumes.
    pub user_callee: [u64; 6],
    pub fd_table: FdTable,
    /// The process that made this one; 0 for none.
    pub parent_pid: Pid,
    pub signals: SignalState,
    /// The processes made by this one and not yet waited for; 0 is no process.
    pub children: [u32; MAX_CHILDREN],
    pub child_count: u32,
    /// Where this process waits for a child to exit.
    pub wait_queue: WaitQueue,
    /// The frame that the process descriptor occupies.
    pub home: u64,
    /// Not yet waited for.
    pub live: bool,
}

/// The first of the first `n` slots that holds `pid`.
pub open spec fn child_slot(children: Seq<u32>, pid: u32, n: nat) -> Option<int>
    decreases n,
{
    if n == 0 {
        None
    } else {
        match child_slot(children, pid, (n - 1) as nat) {
            Some(i) => Some(i),
            None => if children[n - 1] == pid {
                Some(n - 1)
            } else {
                None
            },
        }
    }
}

/// How many of the first `n` slots hold a child.
pub open spec fn occupied(children: Seq<u32>, n: nat) -> int
    decreases n,
{
    if n == 0 {
        0
    } else {
        occupied(children, (n - 1) as nat) + (if children[n - 1] != 0 {
            1int
        } else {
            0
        })
    }
}

proof fn lemma_child_sticks(children: Seq<u32>, pid: u32, m: nat, n: nat)
    requires
        m <= n,
        child_slot(children, pid, m) is Some,
    ensures
        child_slot(children, pid, n) == child_slot(children, pid, m),
    decreases n,
{
    if m < n {
        lemma_child_sticks(children, pid, m, (n - 1) as nat);
    }
}

pub proof fn lemma_child_slot(children: Seq<u32>, pid: u32, n: nat)
    ensures
        match child_slot(children, pid, n) {
            Some(i) => 0 <= i < n && children[i] == pid && forall|k: int|
                0 <= k < i ==> #[trigger] children[k] != pid,
            None => forall|k: int| 0 <= k < n ==> #[trigger] children[k] != pid,
        },
    decreases n,
{
    if n > 0 {
        lemma_child_slot(children, pid, (n - 1) as nat);
    }
}

/// The slot that holds `pid`.
fn find_child(children: &[u32; MAX_CHILDREN], pid: u32) -> (r: Option<usize>)
    ensures
        match r {
            Some(i) => child_slot(children@, pid, 32) == Some(i as int) && i < 32,
            None => child_slot(children@, pid, 32) is None,
        },
{
    let mut i: usize = 0;
    while i < MAX_CHILDREN
        invariant
            i <= 32,
            child_slot(children@, pid, i as nat) is None,
        decreases 32 - i,
    {
        if children[i] == pid {
            proof {
                lemma_child_sticks(children@, pid, (i + 1) as nat, 32);
            }
            return Some(i);
        }
        i += 1;
    }
    None
}

/// Add a child in the first free slot. False where none is free.
pub fn add_child(parent: &mut Process, child_pid: u32) -> (r: bool)
    ensures
        match child_slot(old(parent).children@, 0, 32) {
            Some(i) => {
                &&& r
                &&& final(parent).children@ == old(parent).children@.update(i, child_pid)
                &&& *final(parent) == (Process {
                    children: final(parent).children,
                    child_count: old(parent).child_count.wrapping_add(1),
                    ..*old(parent)
                })
            },
            None => !r && *final(parent) == *old(parent),
        },
{
    match find_child(&parent.children, 0) {
        Some(i) => {
            parent.children[i] = child_pid;
            parent.child_count = parent.child_count.wrapping_add(1);
            true
        },
        None => false,
    }
}

/// Remove a child from the first slot that holds it.
pub fn remove_child(parent: &mut Process, child_pid: u32)
    ensures
        match child_slot(old(parent).children@, child_pid, 32) {
            Some(i) => {
                &&& final(parent).children@ == old(parent).children@.update(i, 0)
                &&& *final(parent) == (Process {
                    children: final(parent).children,
                    child_count: old(parent).child_count.wrapping_sub(1),
                    ..*old(parent)
                })
            },
            None => *final(parent) == *old(parent),
        },
{
    match find_child(&parent.children, child_pid) {
        Some(i) => {
            parent.children[i] = 0;
            parent.child_count = parent.child_count.wrapping_sub(1);
        },
        None => {},
    }
}

/// No slot is free.
pub fn children_full(parent: &Process) -> (r: bool)
    ensures
        r == child_slot(parent.children@, 0, 32) is None,
        r == forall|i: int| 0 <= i < 32 ==> #[trigger] parent.children@[i] != 0,
{
    proof {
        lemma_child_slot(parent.children@, 0, 32);
    }
    find_child(&parent.children, 0).is_none()
}

/// `old_name` overwritten from its start by at most 15 bytes of `src`.
pub open spec fn name_copied(old_name: Seq<u8>, src: Seq<u8>) -> Seq<u8> {
    Seq::new(
        16,
        |i: int|
            if i < 15 && i < src.len() {
                src[i]
            } else {
                old_name[i]
            },
    )
}

/// Store at most 15 bytes of a name.
pub fn copy_name(dst: &mut [u8; NAME_SIZE], src: &str)
    ensures
        final(dst)@ == name_copied(old(dst)@, src.spec_bytes()),
{
    let bytes = src.as_bytes();
    let n: usize = if bytes.len() < 15 {
        bytes.len()
    } else {
        15
    };
    let ghost before = dst@;
    let mut i: usize = 0;
    while i < n
        invariant
            i <= n <= 15,
            n <= bytes@.len(),
            bytes@ == src.spec_bytes(),
            dst@.len() == 16,
            before.len() == 16,
            forall|k: int|
                0 <= k < 16 ==> #[trigger] dst@[k] == (if k < i {
                    bytes@[k]
                } else {
                    before[k]
                }),
        decreases n - i,
    {
        dst[i] = bytes[i];
        i += 1;
    }
    assert(dst@ =~= name_copied(before, src.spec_bytes()));
}

proof fn lemma_occupied_update(children: Seq<u32>, i: int, pid: u32, n: nat)
    requires
        0 <= i < children.len(),
        n <= children.len(),
    ensures
        occupied(children.update(i, pid), n) == occupied(children, n) + (if i < n {
            (if pid != 0 {
                1int
            } else {
                0
            }) - (if children[i] != 0 {
                1int
            } else {
                0
            })
        } else {
            0
        }),
    decreases n,
{
    if n > 0 {
        lemma_occupied_update(children, i, pid, (n - 1) as nat);
    }
}

/// Adding a child occupies one more slot, removing it one fewer, so that a
/// count that was right stays right.
pub proof fn child_count_stays_right(children: Seq<u32>, pid: u32)
    requires
        children.len() == 32,
        pid != 0,
    ensures
        child_slot(children, 0, 32) matches Some(i) ==> occupied(children.update(i, pid), 32)
            == occupied(children, 32) + 1,
        child_slot(children, pid, 32) matches Some(i) ==> occupied(children.update(i, 0), 32)
            == occupied(children, 32) - 1,
{
    lemma_child_slot(children, 0, 32);
    lemma_child_slot(children, pid, 32);
    if let Some(i) = child_slot(children, 0, 32) {
        lemma_occupied_update(children, i, pid, 32);
    }
    if let Some(i) = child_slot(children, pid, 32) {
        lemma_occupied_update(children, i, 0, 32);
    }
}

/// Removing a child that was just added restores the slots, unless the
/// process had that number among its children before.
pub proof fn remove_undoes_add(children: Seq<u32>, pid: u32)
    requires
        children.len() == 32,
        pid != 0,
        child_slot(children, 0, 32) is Some,
        child_slot(children, pid, 32) is None,
    ensures
        ({
            let i = child_slot(children, 0, 32)->Some_0;
            let with = children.update(i, pid);
            child_slot(with, pid, 32) == Some(i) && with.update(i, 0) == children
        }),
{
    let i = child_slot(children, 0, 32)->Some_0;
    let with = children.update(i, pid);
    lemma_child_slot(children, 0, 32);
    lemma_child_slot(children, pid, 32);
    lemma_child_slot(with, pid, 32);
    assert(with[i] == pid);
    if let Some(j) = child_slot(with, pid, 32) {
        if j != i {
            assert(with[j] == children[j]);
        }
    }
    assert(with.update(i, 0) =~= children);
}

} // verus!
