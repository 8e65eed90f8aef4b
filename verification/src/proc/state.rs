//! The state that processes live in.

use vstd::prelude::*;
use crate::mem::PhysMem;
use crate::paging::PageTable;
use crate::sched::percpu::{cpu_slot, CpuView, Sched};
use crate::sched::schedule::current_thread;
use crate::sched::waitqueue::{nodes_wf, WaitNode};
use super::address_space::{AddressSpace, SharedSpace, SpaceTable};
use super::cow::CowTable;
use super::effects::Effect;
use super::process::{Pid, Process};
use super::ptable::PTable;
use super::shootdown::cpu_bit;

verus! {

/// Most processes that have a thread at a time.
pub const MAX_PROCESSES: usize = 64;

/// Everything that the system calls of a process change. Processes, address
/// spaces, threads and waits are named by their indices.
pub struct Kernel {
    pub mem: PhysMem,
    pub cow: CowTable,
    pub spaces: SpaceTable,
    /// The table whose upper half every address space has.
    pub kernel_table: PageTable,
    pub procs: Vec<Process>,
    pub ptable: PTable,
    /// The processes that have a thread.
    pub registered: Vec<Option<usize>>,
    pub next_pid: Pid,
    /// The vnode that a new process has as its standard files; 0 for none.
    pub serial_vnode: usize,
    /// The address space that each CPU has loaded.
    pub cpu_spaces: Vec<Option<usize>>,
    pub sched: Sched,
    pub nodes: Vec<WaitNode>,
    pub log: Vec<Effect>,
}

/// The process that has `thread`, as the first `n` slots tell.
pub open spec fn owner_of(
    registered: Seq<Option<usize>>,
    procs: Seq<Process>,
    thread: usize,
    n: nat,
) -> Option<usize>
    decreases n,
{
    if n == 0 {
        None
    } else {
        match owner_of(registered, procs, thread, (n - 1) as nat) {
            Some(p) => Some(p),
            None => match registered[n - 1] {
                Some(p) if procs[p as int].thread == Some(thread) => Some(p),
                _ => None,
            },
        }
    }
}

/// The first of the first `n` slots that is free.
pub open spec fn free_entry(registered: Seq<Option<usize>>, n: nat) -> Option<int>
    decreases n,
{
    if n == 0 {
        None
    } else {
        match free_entry(registered, (n - 1) as nat) {
            Some(i) => Some(i),
            None => if registered[n - 1] is None {
                Some(n - 1)
            } else {
                None
            },
        }
    }
}

/// The slots without process `p`.
pub open spec fn unregistered(registered: Seq<Option<usize>>, p: usize) -> Seq<Option<usize>> {
    Seq::new(
        registered.len(),
        |i: int|
            if registered[i] == Some(p) {
                None
            } else {
                registered[i]
            },
    )
}

proof fn lemma_owner_sticks(
    registered: Seq<Option<usize>>,
    procs: Seq<Process>,
    thread: usize,
    m: nat,
    n: nat,
)
    requires
        m <= n,
        owner_of(registered, procs, thread, m) is Some,
    ensures
        owner_of(registered, procs, thread, n) == owner_of(registered, procs, thread, m),
    decreases n,
{
    if m < n {
        lemma_owner_sticks(registered, procs, thread, m, (n - 1) as nat);
    }
}

pub proof fn lemma_free_entry(registered: Seq<Option<usize>>, n: nat)
    ensures
        match free_entry(registered, n) {
            Some(i) => 0 <= i < n && registered[i] is None,
            None => forall|k: int| 0 <= k < n ==> #[trigger] registered[k] is Some,
        },
    decreases n,
{
    if n > 0 {
        lemma_free_entry(registered, (n - 1) as nat);
    }
}

proof fn lemma_entry_sticks(registered: Seq<Option<usize>>, m: nat, n: nat)
    requires
        m <= n,
        free_entry(registered, m) is Some,
    ensures
        free_entry(registered, n) == free_entry(registered, m),
    decreases n,
{
    if m < n {
        lemma_entry_sticks(registered, m, (n - 1) as nat);
    }
}

/// How many of the first `n` processes use address space `h` and have not
/// been waited for.
pub open spec fn users(procs: Seq<Process>, h: usize, n: nat) -> int
    decreases n,
{
    if n == 0 {
        0
    } else {
        users(procs, h, (n - 1) as nat) + (if procs[n - 1].live && procs[n - 1].address_space == h {
            1int
        } else {
            0
        })
    }
}

pub proof fn lemma_users_same(a: Seq<Process>, b: Seq<Process>, h: usize, n: nat)
    requires
        forall|i: int|
            0 <= i < n ==> (#[trigger] a[i].live && a[i].address_space == h) == (b[i].live
                && b[i].address_space == h),
    ensures
        users(a, h, n) == users(b, h, n),
    decreases n,
{
    if n > 0 {
        lemma_users_same(a, b, h, (n - 1) as nat);
        assert((a[n - 1].live && a[n - 1].address_space == h) == (b[n - 1].live && b[n
            - 1].address_space == h));
    }
}

/// Replacing one process changes the users of an address space by what that
/// process uses before and after.
pub proof fn lemma_users_update(procs: Seq<Process>, p: int, after: Process, h: usize, n: nat)
    requires
        0 <= p < n <= procs.len(),
    ensures
        users(procs.update(p, after), h, n) == users(procs, h, n) - (if procs[p].live
            && procs[p].address_space == h {
            1int
        } else {
            0
        }) + (if after.live && after.address_space == h {
            1int
        } else {
            0
        }),
    decreases n,
{
    if p < n - 1 {
        lemma_users_update(procs, p, after, h, (n - 1) as nat);
    } else {
        lemma_users_same(procs, procs.update(p, after), h, (n - 1) as nat);
    }
}

pub proof fn lemma_users_push(procs: Seq<Process>, new: Process, h: usize)
    ensures
        users(procs.push(new), h, procs.len() + 1) == users(procs, h, procs.len()) + (if new.live
            && new.address_space == h {
            1int
        } else {
            0
        }),
{
    lemma_users_same(procs, procs.push(new), h, procs.len());
}

pub proof fn lemma_users_positive(procs: Seq<Process>, h: usize, n: nat, p: int)
    requires
        n <= procs.len(),
    ensures
        users(procs, h, n) >= 0,
        0 <= p < n && procs[p].live && procs[p].address_space == h ==> users(procs, h, n) >= 1,
    decreases n,
{
    if n > 0 {
        lemma_users_positive(procs, h, (n - 1) as nat, p);
    }
}

impl Kernel {
    /// Process `p` has not been waited for yet.
    pub open spec fn live(&self, p: int) -> bool {
        0 <= p < self.procs@.len() && self.procs@[p].live
    }

    /// The address space of process `p`.
    pub open spec fn space_of(&self, p: int) -> AddressSpace {
        self.spaces.at(self.procs@[p].address_space as int)
    }

    /// What process `p` names exists, and it is no child of itself.
    pub open spec fn process_wf(&self, p: int) -> bool {
        let q = self.procs@[p];
        &&& self.spaces.live(q.address_space as int)
        &&& q.thread is Some
        &&& q.thread->Some_0 < self.sched.threads@.len()
        &&& q.wait_queue.wf(self.nodes@.len())
        &&& forall|i: int|
            0 <= i < 32 && q.children@[i] != 0 ==> self.ptable.lookup(#[trigger] q.children@[i])
                != Some(p as usize)
    }

    pub open spec fn wf(&self) -> bool {
        &&& self.mem.wf()
        &&& self.cow.wf()
        &&& self.spaces.wf(&self.mem)
        &&& self.kernel_table.wf()
        &&& self.sched.wf()
        &&& self.ptable.wf()
        &&& nodes_wf(self.nodes@, self.sched.threads@.len())
        &&& self.registered@.len() == 64
        &&& self.cpu_spaces@.len() == 64
        &&& forall|p: int| #[trigger] self.live(p) ==> self.process_wf(p)
        &&& forall|h: int| #[trigger]
            self.spaces.live(h) ==> self.spaces.at(h).refcount == users(
                self.procs@,
                h as usize,
                self.procs@.len(),
            )
        &&& forall|pid: u32|
            (#[trigger] self.ptable.lookup(pid) matches Some(p) ==> self.live(p as int)
                && self.procs@[p as int].pid == pid)
        &&& forall|i: int|
            0 <= i < 64 ==> (#[trigger] self.registered@[i] matches Some(p) ==> self.live(p as int))
    }

    /// The process that runs on `cpu_id`.
    pub open spec fn current(&self, cpu_id: u32) -> Option<usize> {
        match self.sched@.cpus[cpu_slot(cpu_id)].current {
            Some(t) => owner_of(self.registered@, self.procs@, t, 64),
            None => None,
        }
    }
}

fn no_entries() -> (r: Vec<Option<usize>>)
    ensures
        r@ == Seq::new(64, |i: int| None::<usize>),
{
    let mut out: Vec<Option<usize>> = Vec::new();
    let mut i: usize = 0;
    while i < MAX_PROCESSES
        invariant
            i <= 64,
            out@ == Seq::new(i as nat, |i: int| None::<usize>),
        decreases 64 - i,
    {
        out.push(None);
        i += 1;
        assert(out@ =~= Seq::new(i as nat, |i: int| None::<usize>));
    }
    out
}

impl Kernel {
    /// No process yet.
    pub fn new(mem: PhysMem, kernel_table: PageTable) -> (r: Self)
        requires
            mem.wf(),
            kernel_table.wf(),
        ensures
            r.wf(),
            r.mem == mem,
            r.kernel_table == kernel_table,
            r.cow@ == Map::<u64, u32>::empty(),
            r.spaces.slots@.len() == 0,
            r.procs@.len() == 0,
            forall|pid: u32| #[trigger] r.ptable.lookup(pid) is None,
            r.registered@ == Seq::new(64, |i: int| None::<usize>),
            r.next_pid == 1,
            r.serial_vnode == 0,
            r.cpu_spaces@ == Seq::new(64, |i: int| None::<usize>),
            r.sched@.threads.len() == 0,
            r.sched@.cpus == Seq::new(64, |i: int| CpuView::blank()),
            r.sched@.locked == Seq::new(64, |i: int| false),
            r.sched@.next_tid == 1,
            r.nodes@.len() == 0,
            r.log@.len() == 0,
    {
        Kernel {
            mem,
            cow: CowTable::new(),
            spaces: SpaceTable::new(),
            kernel_table,
            procs: Vec::new(),
            ptable: PTable::new(),
            registered: no_entries(),
            next_pid: 1,
            serial_vnode: 0,
            cpu_spaces: no_entries(),
            sched: Sched::new(),
            nodes: Vec::new(),
            log: Vec::new(),
        }
    }
}

/// An address space that no process names has no users.
pub proof fn lemma_users_none(procs: Seq<Process>, h: usize, n: nat)
    requires
        n <= procs.len(),
        forall|p: int| 0 <= p < n ==> !((#[trigger] procs[p]).live && procs[p].address_space == h),
    ensures
        users(procs, h, n) == 0,
    decreases n,
{
    if n > 0 {
        lemma_users_none(procs, h, (n - 1) as nat);
    }
}

/// Two processes that name an address space are two users of it.
pub proof fn lemma_users_two(procs: Seq<Process>, h: usize, p: int, q: int)
    requires
        0 <= p < procs.len(),
        0 <= q < procs.len(),
        p != q,
        procs[p].live && procs[p].address_space == h,
        procs[q].live && procs[q].address_space == h,
    ensures
        users(procs, h, procs.len()) >= 2,
{
    let gone = Process { live: false, ..procs[p] };
    lemma_users_update(procs, p, gone, h, procs.len());
    lemma_users_positive(procs.update(p, gone), h, procs.len(), q);
}

/// Frames handed out or handed back, share counts and requests do not disturb
/// the rest.
pub proof fn lemma_wf_frames(before: &Kernel, after: &Kernel)
    requires
        before.wf(),
        *after == (Kernel { mem: after.mem, cow: after.cow, log: after.log, ..*before }),
        after.mem.wf(),
        after.cow.wf(),
        after.mem.pool@.len() <= before.mem.pool@.len(),
        after.mem.pool@ == before.mem.pool@.take(after.mem.pool@.len() as int),
    ensures
        after.wf(),
{
    assert forall|h: int| #[trigger] after.spaces.live(h) implies after.spaces.at(h).wf()
        && after.spaces.at(h).tables.apart(&after.mem) by {
        assert(before.spaces.live(h));
        lemma_apart_shrinks(&before.spaces.at(h), &before.mem, &after.mem);
    }
    assert forall|p: int| #[trigger] after.live(p) implies after.process_wf(p) by {
        assert(before.live(p));
        assert(before.process_wf(p));
    }
    assert forall|pid: u32| (#[trigger] after.ptable.lookup(pid) matches Some(p) ==> after.live(
        p as int,
    ) && after.procs@[p as int].pid == pid) by {
        if let Some(p) = after.ptable.lookup(pid) {
            assert(before.ptable.lookup(pid) == Some(p));
            assert(before.live(p as int));
        }
    }
    assert forall|i: int| 0 <= i < 64 implies (#[trigger] after.registered@[i] matches Some(p)
        ==> after.live(p as int)) by {
        if let Some(p) = after.registered@[i] {
            assert(before.live(p as int));
        }
    }
}

/// Process `c` was added: it has a thread and no children, and it is the only
/// child that any other process may have got.
pub open spec fn only_child_added(k0: &Kernel, k: &Kernel, c: usize) -> bool {
    let pid = k.procs@[c as int].pid;
    &&& k.procs@[c as int].thread is Some
    &&& forall|j: int| 0 <= j < 32 ==> #[trigger] k.procs@[c as int].children@[j] == 0
    &&& k.ptable.lookup(pid) is None || k.ptable.lookup(pid) == Some(c)
    &&& forall|i: int, j: int|
        0 <= i < c && 0 <= j < 32 ==> #[trigger] k.procs@[i].children@[j]
            == k0.procs@[i].children@[j] || k.procs@[i].children@[j] == pid
}

/// A process was added, as number `c`, that uses address space `h`.
pub proof fn lemma_process_added(k0: &Kernel, k: &Kernel, c: usize, h: usize)
    requires
        k0.wf(),
        k.mem.wf(),
        k.cow.wf(),
        k.kernel_table.wf(),
        k.sched.wf(),
        k.sched.threads@.len() >= k0.sched.threads@.len(),
        k.nodes == k0.nodes,
        k.ptable.wf(),
        k.registered@.len() == 64,
        k.cpu_spaces@.len() == 64,
        c == k0.procs@.len(),
        k.procs@.len() == c + 1,
        k.procs@.len() <= usize::MAX,
        forall|i: int|
            0 <= i < c ==> {
                let q = #[trigger] k.procs@[i];
                &&& q.live == k0.procs@[i].live
                &&& q.pid == k0.procs@[i].pid
                &&& q.address_space == k0.procs@[i].address_space
                &&& q.thread == k0.procs@[i].thread
                &&& q.wait_queue == k0.procs@[i].wait_queue
            },
        k.procs@[c as int].live,
        k.procs@[c as int].address_space == h,
        only_child_added(k0, k, c),
        k.procs@[c as int].thread matches Some(t) ==> t < k.sched.threads@.len(),
        k.procs@[c as int].wait_queue.wf(k.nodes@.len()),
        forall|pid: u32| #[trigger]
            k.ptable.lookup(pid) == k0.ptable.lookup(pid) || (k.ptable.lookup(pid) == Some(c)
                && k.procs@[c as int].pid == pid),
        forall|i: int|
            0 <= i < 64 ==> #[trigger] k.registered@[i] == k0.registered@[i] || k.registered@[i]
                == Some(c),
        k.spaces.live(h as int),
        forall|i: int| #[trigger] k0.spaces.live(i) ==> k.spaces.live(i),
        forall|i: int| #[trigger]
            k.spaces.live(i) ==> {
                &&& k.spaces.at(i).wf()
                &&& k.spaces.at(i).tables.apart(&k.mem)
                &&& k.spaces.at(i).refcount == users(k0.procs@, i as usize, c as nat) + (if i == h {
                    1int
                } else {
                    0
                })
            },
        k.spaces.slots@.len() <= usize::MAX,
    ensures
        k.wf(),
{
    let front = k.procs@.take(c as int);
    assert(k.procs@ =~= front.push(k.procs@[c as int]));
    assert forall|i: int| #[trigger] k.spaces.live(i) implies k.spaces.at(i).refcount == users(
        k.procs@,
        i as usize,
        k.procs@.len(),
    ) by {
        lemma_users_same(k0.procs@, front, i as usize, c as nat);
        lemma_users_push(front, k.procs@[c as int], i as usize);
    }
    assert forall|p: int| #[trigger] k.live(p) implies k.process_wf(p) by {
        if p < c {
            assert(k0.live(p));
            assert(k0.process_wf(p));
            assert(k0.spaces.live(k0.procs@[p].address_space as int));
            assert forall|j: int|
                0 <= j < 32 && k.procs@[p].children@[j] != 0 implies k.ptable.lookup(
                #[trigger] k.procs@[p].children@[j],
            ) != Some(p as usize) by {
                if k.procs@[p].children@[j] != k.procs@[c as int].pid {
                    assert(k0.procs@[p].children@[j] == k.procs@[p].children@[j]);
                }
            }
        }
    }
    assert forall|pid: u32| (#[trigger] k.ptable.lookup(pid) matches Some(p) ==> k.live(
        p as int,
    ) && k.procs@[p as int].pid == pid) by {
        if let Some(p) = k.ptable.lookup(pid) {
            if p != c {
                assert(k0.ptable.lookup(pid) == Some(p));
                assert(k0.live(p as int));
            }
        }
    }
    assert forall|i: int| 0 <= i < 64 implies (#[trigger] k.registered@[i] matches Some(p)
        ==> k.live(p as int)) by {
        if let Some(p) = k.registered@[i] {
            if p != c {
                assert(k0.registered@[i] == Some(p));
                assert(k0.live(p as int));
            }
        }
    }
}

/// One address space changed, with frames handed out for it; its users did not.
pub proof fn lemma_space_changed(k0: &Kernel, k: &Kernel, h: int)
    requires
        k0.wf(),
        *k == (Kernel { mem: k.mem, cow: k.cow, spaces: k.spaces, log: k.log, ..*k0 }),
        k.mem.wf(),
        k.cow.wf(),
        k.mem.pool@.len() <= k0.mem.pool@.len(),
        k.mem.pool@ == k0.mem.pool@.take(k.mem.pool@.len() as int),
        k0.spaces.live(h),
        k.spaces.live(h),
        k.spaces.slots@.len() == k0.spaces.slots@.len(),
        forall|i: int|
            0 <= i < k.spaces.slots@.len() && i != h ==> #[trigger] k.spaces.slots@[i]
                == k0.spaces.slots@[i],
        k.spaces.at(h).wf(),
        k.spaces.at(h).tables.apart(&k.mem),
        k.spaces.at(h).refcount == k0.spaces.at(h).refcount,
    ensures
        k.wf(),
{
    assert forall|i: int| #[trigger] k.spaces.live(i) implies k0.spaces.live(i) && k.spaces.at(
        i,
    ).wf() && k.spaces.at(i).tables.apart(&k.mem) && k.spaces.at(i).refcount == users(
        k.procs@,
        i as usize,
        k.procs@.len(),
    ) by {
        if i != h {
            assert(k.spaces.slots@[i] == k0.spaces.slots@[i]);
            assert(k0.spaces.live(i));
            lemma_apart_shrinks(&k0.spaces.at(i), &k0.mem, &k.mem);
        }
    }
    assert forall|p: int| #[trigger] k.live(p) implies k.process_wf(p) by {
        assert(k0.live(p));
        assert(k0.process_wf(p));
        let g = k0.procs@[p].address_space as int;
        assert(k0.spaces.live(g));
        if g != h {
            assert(k.spaces.slots@[g] == k0.spaces.slots@[g]);
        }
    }
    assert forall|pid: u32| (#[trigger] k.ptable.lookup(pid) matches Some(p) ==> k.live(
        p as int,
    ) && k.procs@[p as int].pid == pid) by {
        if let Some(p) = k.ptable.lookup(pid) {
            assert(k0.ptable.lookup(pid) == Some(p));
            assert(k0.live(p as int));
        }
    }
    assert forall|i: int| 0 <= i < 64 implies (#[trigger] k.registered@[i] matches Some(p)
        ==> k.live(p as int)) by {
        if let Some(p) = k.registered@[i] {
            assert(k0.live(p as int));
        }
    }
}

/// Tables that lie in no frame of a pool lie in none of a smaller one.
pub proof fn lemma_apart_shrinks(space: &AddressSpace, before: &PhysMem, after: &PhysMem)
    requires
        space.tables.apart(before),
        after.pool@.len() <= before.pool@.len(),
        after.pool@ == before.pool@.take(after.pool@.len() as int),
    ensures
        space.tables.apart(after),
{
    assert forall|i: int| 0 <= i < after.pool@.len() implies !space.tables.frames().contains(
        #[trigger] after.pool@[i],
    ) by {
        assert(after.pool@[i] == before.pool@[i]);
    }
}

/// Tables in the same frames lie apart from the same pool, or a smaller one.
pub proof fn lemma_apart_same(s0: &AddressSpace, s1: &AddressSpace, m0: &PhysMem, m1: &PhysMem)
    requires
        s0.tables.apart(m0),
        s1.tables.frames() == s0.tables.frames(),
        m1.pool@.len() <= m0.pool@.len(),
        m1.pool@ == m0.pool@.take(m1.pool@.len() as int),
    ensures
        s1.tables.apart(m1),
{
    assert forall|i: int| 0 <= i < m1.pool@.len() implies !s1.tables.frames().contains(
        #[trigger] m1.pool@[i],
    ) by {
        assert(m1.pool@[i] == m0.pool@[i]);
    }
}

/// Number a new process.
pub fn alloc_pid(k: &mut Kernel) -> (r: Pid)
    ensures
        r == old(k).next_pid,
        *final(k) == (Kernel { next_pid: old(k).next_pid.wrapping_add(1), ..*old(k) }),
{
    let pid: u32 = k.next_pid;
    k.next_pid = pid.wrapping_add(1);
    pid
}

/// List a process that has a thread. There must be a free slot.
pub fn register_process(k: &mut Kernel, p: usize)
    requires
        old(k).registered@.len() == 64,
        free_entry(old(k).registered@, 64) is Some,
    ensures
        final(k).registered@ == old(k).registered@.update(
            free_entry(old(k).registered@, 64)->Some_0,
            Some(p),
        ),
        *final(k) == (Kernel { registered: final(k).registered, ..*old(k) }),
{
    let mut i: usize = 0;
    while i < MAX_PROCESSES
        invariant
            i <= 64,
            *k == *old(k),
            k.registered@.len() == 64,
            free_entry(k.registered@, 64) is Some,
            free_entry(k.registered@, i as nat) is None,
        decreases 64 - i,
    {
        if k.registered[i].is_none() {
            proof {
                lemma_entry_sticks(k.registered@, (i + 1) as nat, 64);
            }
            k.registered.set(i, Some(p));
            return ;
        }
        i += 1;
    }
}

/// Take a process off the list.
pub fn unregister_process(k: &mut Kernel, p: usize)
    requires
        old(k).registered@.len() == 64,
    ensures
        final(k).registered@ == unregistered(old(k).registered@, p),
        *final(k) == (Kernel { registered: final(k).registered, ..*old(k) }),
{
    let ghost before = k.registered@;
    let mut i: usize = 0;
    while i < MAX_PROCESSES
        invariant
            i <= 64,
            before == old(k).registered@,
            before.len() == 64,
            k.registered@.len() == 64,
            *k == (Kernel { registered: k.registered, ..*old(k) }),
            forall|j: int|
                0 <= j < 64 ==> #[trigger] k.registered@[j] == (if j < i {
                    unregistered(before, p)[j]
                } else {
                    before[j]
                }),
        decreases 64 - i,
    {
        if let Some(q) = k.registered[i] {
            if q == p {
                k.registered.set(i, None);
            }
        }
        i += 1;
    }
    assert(k.registered@ =~= unregistered(before, p));
}

/// The process that has `thread`.
pub fn process_for_thread(k: &Kernel, thread: Option<usize>) -> (r: Option<usize>)
    requires
        k.wf(),
    ensures
        r == (match thread {
            Some(t) => owner_of(k.registered@, k.procs@, t, 64),
            None => None,
        }),
        r matches Some(p) ==> k.live(p as int) && k.procs@[p as int].thread == thread,
{
    let t: usize = match thread {
        Some(t) => t,
        None => return None,
    };
    let mut i: usize = 0;
    while i < MAX_PROCESSES
        invariant
            i <= 64,
            k.wf(),
            thread == Some(t),
            owner_of(k.registered@, k.procs@, t, i as nat) is None,
        decreases 64 - i,
    {
        if let Some(p) = k.registered[i] {
            assert(k.registered@[i as int] == Some(p));
            assert(k.live(p as int));
            if let Some(u) = k.procs[p].thread {
                if u == t {
                    proof {
                        lemma_owner_sticks(k.registered@, k.procs@, t, (i + 1) as nat, 64);
                    }
                    return Some(p);
                }
            }
        }
        i += 1;
    }
    None
}

/// The process that runs on `cpu_id`, if the running thread belongs to one.
pub fn current_process(k: &Kernel, cpu_id: u32) -> (r: Option<usize>)
    requires
        k.wf(),
        k.sched.unlocked(cpu_id),
    ensures
        r == k.current(cpu_id),
        r matches Some(p) ==> k.live(p as int) && k.procs@[p as int].thread
            == k.sched@.cpus[cpu_slot(cpu_id)].current,
{
    process_for_thread(k, current_thread(&k.sched, cpu_id))
}

/// `after` is `before` with other CPUs marked for address space `h`.
pub open spec fn remarked(before: &SpaceTable, after: &SpaceTable, h: int, mask: u64) -> bool {
    &&& after.live(h)
    &&& after.at(h) == (AddressSpace { active_cpus: after.at(h).active_cpus, ..before.at(h) })
    &&& after.at(h).active_cpus.mask() == mask
    &&& after.slots@[h]->Some_0.home == before.slots@[h]->Some_0.home
}

/// The value that loads an address space.
pub open spec fn cr3_of(space: &AddressSpace) -> u64 {
    space.pml4_phys.0 | (space.pcid as u64)
}

/// What loading address space `h` on `cpu_id` does: nothing where it is loaded
/// already. Else the CPU is marked for it and no longer for the one before.
pub open spec fn activated(before: &Kernel, after: &Kernel, h: int, cpu_id: u32) -> bool {
    let me = cpu_slot(cpu_id);
    let was = before.cpu_spaces@[me];
    let bit = 1u64 << cpu_bit(cpu_id);
    if was == Some(h as usize) {
        *after == *before
    } else {
        &&& *after == (Kernel {
            spaces: after.spaces,
            cpu_spaces: after.cpu_spaces,
            log: after.log,
            ..*before
        })
        &&& after.cpu_spaces@ == before.cpu_spaces@.update(me, Some(h as usize))
        &&& after.log@ == before.log@.push(Effect::LoadSpace { cr3: cr3_of(&before.spaces.at(h)) })
        &&& after.spaces.slots@.len() == before.spaces.slots@.len()
        &&& remarked(
            &before.spaces,
            &after.spaces,
            h,
            before.spaces.at(h).active_cpus.mask() | bit,
        )
        &&& was matches Some(o) ==> remarked(
            &before.spaces,
            &after.spaces,
            o as int,
            before.spaces.at(o as int).active_cpus.mask() & !bit,
        )
        &&& forall|i: int|
            0 <= i < after.spaces.slots@.len() && i != h && was != Some(i as usize)
                ==> #[trigger] after.spaces.slots@[i] == before.spaces.slots@[i]
    }
}

/// Mark or unmark a CPU for address space `h`.
fn mark_cpu(spaces: &mut SpaceTable, h: usize, cpu_id: u32, on: bool)
    requires
        old(spaces).live(h as int),
    ensures
        final(spaces).slots@.len() == old(spaces).slots@.len(),
        remarked(
            old(spaces),
            final(spaces),
            h as int,
            if on {
                old(spaces).at(h as int).active_cpus.mask() | (1u64 << cpu_bit(cpu_id))
            } else {
                old(spaces).at(h as int).active_cpus.mask() & !(1u64 << cpu_bit(cpu_id))
            },
        ),
        forall|i: int|
            0 <= i < final(spaces).slots@.len() && i != h ==> #[trigger] final(spaces).slots@[i]
                == old(spaces).slots@[i],
{
    let mut out: Option<SharedSpace> = None;
    std::mem::swap(&mut out, &mut spaces.slots[h]);
    if let Some(mut shared) = out {
        if on {
            shared.space.active_cpus.mark_active(cpu_id);
        } else {
            shared.space.active_cpus.mark_inactive(cpu_id);
        }
        spaces.slots.set(h, Some(shared));
    }
}

/// Load address space `h` on `cpu_id`.
pub fn activate_address_space(k: &mut Kernel, h: usize, cpu_id: u32)
    requires
        old(k).cpu_spaces@.len() == 64,
        old(k).spaces.live(h as int),
        old(k).cpu_spaces@[cpu_slot(cpu_id)] matches Some(o) ==> old(k).spaces.live(o as int),
    ensures
        activated(old(k), final(k), h as int, cpu_id),
{
    let me: usize = cpu_id as usize % 64;
    let was = k.cpu_spaces[me];
    if let Some(o) = was {
        if o == h {
            return ;
        }
    }
    let ghost before = *k;
    let cr3: u64 = match &k.spaces.slots[h] {
        Some(shared) => shared.space.pml4_phys.0 | (shared.space.pcid as u64),
        None => 0,
    };
    mark_cpu(&mut k.spaces, h, cpu_id, true);
    let ghost mid = k.spaces;
    k.cpu_spaces.set(me, Some(h));
    k.log.push(Effect::LoadSpace { cr3 });
    if let Some(o) = was {
        proof {
            assert(mid.slots@[o as int] == before.spaces.slots@[o as int]);
        }
        mark_cpu(&mut k.spaces, o, cpu_id, false);
    }
}

/// Loading an address space keeps the state well formed.
pub proof fn activation_keeps_wf(before: &Kernel, after: &Kernel, h: usize, cpu_id: u32)
    requires
        before.wf(),
        before.spaces.live(h as int),
        before.spaces.slots@.len() <= usize::MAX,
        before.cpu_spaces@[cpu_slot(cpu_id)] matches Some(o) ==> before.spaces.live(o as int),
        activated(before, after, h as int, cpu_id),
    ensures
        after.wf(),
{
    lemma_activated_spaces(before, after, h, cpu_id);
    if before.cpu_spaces@[cpu_slot(cpu_id)] != Some(h) {
        lemma_same_spaces(before, after);
    }
}

/// Loading an address space changes nothing of any but which CPUs are marked.
pub proof fn lemma_activated_spaces(before: &Kernel, after: &Kernel, h: usize, cpu_id: u32)
    requires
        before.spaces.live(h as int),
        before.spaces.slots@.len() <= usize::MAX,
        before.cpu_spaces@[cpu_slot(cpu_id)] matches Some(o) ==> before.spaces.live(o as int),
        activated(before, after, h as int, cpu_id),
    ensures
        after.spaces.slots@.len() == before.spaces.slots@.len(),
        forall|i: int|
            0 <= i < after.spaces.slots@.len() ==> (#[trigger] after.spaces.slots@[i] is Some) == (
            before.spaces.slots@[i] is Some),
        forall|i: int| #[trigger]
            after.spaces.live(i) ==> after.spaces.at(i) == (AddressSpace {
                active_cpus: after.spaces.at(i).active_cpus,
                ..before.spaces.at(i)
            }) && after.spaces.slots@[i]->Some_0.home == before.spaces.slots@[i]->Some_0.home,
        forall|i: int| #[trigger]
            after.spaces.live(i) ==> {
                let was = before.cpu_spaces@[cpu_slot(cpu_id)];
                let mask = before.spaces.at(i).active_cpus.mask();
                after.spaces.at(i).active_cpus.mask() == if was == Some(h) {
                    mask
                } else if i == h {
                    mask | (1u64 << cpu_bit(cpu_id))
                } else if was == Some(i as usize) {
                    mask & !(1u64 << cpu_bit(cpu_id))
                } else {
                    mask
                }
            },
{
    let was = before.cpu_spaces@[cpu_slot(cpu_id)];
    if was != Some(h) {
        assert forall|i: int| 0 <= i < after.spaces.slots@.len() implies (
        #[trigger] after.spaces.slots@[i] is Some) == (before.spaces.slots@[i] is Some) by {
            if i != h && was != Some(i as usize) {
                assert(after.spaces.slots@[i] == before.spaces.slots@[i]);
            } else if i != h {
                assert(after.spaces.live(i) && before.spaces.live(i));
            } else {
                assert(after.spaces.live(i) && before.spaces.live(i));
            }
        }
        assert forall|i: int| #[trigger] after.spaces.live(i) implies after.spaces.at(i) == (
        AddressSpace { active_cpus: after.spaces.at(i).active_cpus, ..before.spaces.at(i) })
            && after.spaces.slots@[i]->Some_0.home == before.spaces.slots@[i]->Some_0.home by {
            if i != h && was != Some(i as usize) {
                assert(after.spaces.slots@[i] == before.spaces.slots@[i]);
            }
        }
    }
}

/// Changing only which CPUs are marked keeps the state well formed.
proof fn lemma_same_spaces(before: &Kernel, after: &Kernel)
    requires
        before.wf(),
        *after == (Kernel {
            spaces: after.spaces,
            cpu_spaces: after.cpu_spaces,
            log: after.log,
            ..*before
        }),
        after.cpu_spaces@.len() == 64,
        after.spaces.slots@.len() == before.spaces.slots@.len(),
        forall|i: int|
            0 <= i < after.spaces.slots@.len() ==> (#[trigger] after.spaces.slots@[i] is Some) == (
            before.spaces.slots@[i] is Some),
        forall|i: int| #[trigger]
            after.spaces.live(i) ==> after.spaces.at(i) == (AddressSpace {
                active_cpus: after.spaces.at(i).active_cpus,
                ..before.spaces.at(i)
            }),
    ensures
        after.wf(),
{
    assert forall|h: int| #[trigger] after.spaces.live(h) implies after.spaces.at(h).wf()
        && after.spaces.at(h).tables.apart(&after.mem) by {
        assert(after.spaces.slots@[h] is Some);
        assert(before.spaces.live(h));
    }
    assert forall|h: int| #[trigger] after.spaces.live(h) implies after.spaces.at(h).refcount
        == users(after.procs@, h as usize, after.procs@.len()) by {
        assert(after.spaces.slots@[h] is Some);
        assert(before.spaces.live(h));
    }
    assert forall|p: int| #[trigger] after.live(p) implies after.process_wf(p) by {
        assert(before.live(p));
        let h = before.procs@[p].address_space as int;
        assert(before.spaces.live(h));
        assert(after.spaces.slots@[h] is Some);
    }
    assert forall|pid: u32| (#[trigger] after.ptable.lookup(pid) matches Some(p) ==> after.live(
        p as int,
    ) && after.procs@[p as int].pid == pid) by {
        assert(before.ptable.lookup(pid) == after.ptable.lookup(pid));
        if let Some(p) = after.ptable.lookup(pid) {
            assert(before.live(p as int));
        }
    }
    assert forall|i: int| 0 <= i < 64 implies (#[trigger] after.registered@[i] matches Some(p)
        ==> after.live(p as int)) by {
        if let Some(p) = after.registered@[i] {
            assert(before.live(p as int));
        }
    }
}

/// Before a switch to `next` on `cpu_id`: load the address space of its
/// process. A thread without a process runs in whatever is loaded.
pub fn sched_context_switch_hook(k: &mut Kernel, next: usize, cpu_id: u32)
    requires
        old(k).wf(),
        old(k).cpu_spaces@[cpu_slot(cpu_id)] matches Some(o) ==> old(k).spaces.live(o as int),
    ensures
        final(k).wf(),
        match owner_of(old(k).registered@, old(k).procs@, next, 64) {
            Some(p) => activated(
                old(k),
                final(k),
                old(k).procs@[p as int].address_space as int,
                cpu_id,
            ),
            None => *final(k) == *old(k),
        },
{
    if let Some(p) = process_for_thread(k, Some(next)) {
        assert(k.live(p as int) && k.process_wf(p as int));
        let h: usize = k.procs[p].address_space;
        let ghost before = *k;
        assert(k.spaces.slots@.len() == k.spaces.slots.len());
        activate_address_space(k, h, cpu_id);
        proof {
            activation_keeps_wf(&before, k, h, cpu_id);
        }
    }
}

} // verus!
