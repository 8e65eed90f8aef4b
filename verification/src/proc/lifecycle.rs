//! How a process starts and ends.

use vstd::prelude::*;
use vstd::string::*;
use crate::bytes::le_u64;
use crate::mem::PhysMem;
use crate::paging::USER_HALF_END;
use crate::sched::block::wake_one;
use crate::sched::percpu::{cpu_slot, SchedView};
use crate::sched::schedule::{alloc_kernel_thread_raw, can_schedule, is_fresh, schedule, scheduled, Switch};
use crate::sched::thread::{kstack_fits, Thread, ThreadState};
use crate::sched::waitqueue::{lemma_waking_keeps_cpus, waking, WaitQueue};
use super::address_space::{only_taken_changed, pages_not_tables, tables_taken, taken, AddressSpace};
use super::elf::{elf_loads, parse_elf};
use super::exec::{args_fit, exec_error, fresh_space, MAX_ARGV, MAX_ENVP};
use super::execve::{do_execve, exec_done, exec_undone, ExecOutcome, USER_RFLAGS};
use super::fd::{close_releases, no_fds, FdEntry, FdTable, O_RDONLY, O_WRONLY};
use super::image::{build_image, image_frames, page_image, page_is, pages_are, PageImage};
use super::process::{copy_name, name_copied, Process, ProcessState, MAX_CHILDREN, NAME_SIZE};
use super::ptable::{ptable_find, ptable_insert};
use super::signal::{SignalState, SIGCHLD};
use super::state::{alloc_pid, cr3_of, free_entry, lemma_apart_shrinks, lemma_free_entry, lemma_process_added, lemma_users_none, register_process, users, Kernel};
use super::ustack::USTACK_TOP;

verus! {

/// The standard files of a new process: the serial line, where there is one.
pub open spec fn standard_fds(serial: usize) -> Seq<Option<FdEntry>> {
    if serial == 0 {
        no_fds()
    } else {
        no_fds().update(
            0,
            Some(FdEntry { vnode_ptr: serial, offset: 0, flags: O_RDONLY, _reserved: 0 }),
        ).update(
            1,
            Some(FdEntry { vnode_ptr: serial, offset: 0, flags: O_WRONLY, _reserved: 0 }),
        ).update(
            2,
            Some(FdEntry { vnode_ptr: serial, offset: 0, flags: O_WRONLY, _reserved: 0 }),
        )
    }
}

fn open_standard_fds(serial: usize) -> (r: FdTable)
    ensures
        r.fds@ == standard_fds(serial),
{
    let mut fds = FdTable::new();
    if serial != 0 {
        proof {
            super::fd::lowest_is_lowest(fds.fds@, 64);
            assert(fds.fds@[0] is None);
        }
        let _ = fds.alloc_fd(serial, O_RDONLY);
        proof {
            super::fd::lowest_is_lowest(fds.fds@, 64);
            assert(fds.fds@[1] is None);
        }
        let _ = fds.alloc_fd(serial, O_WRONLY);
        proof {
            super::fd::lowest_is_lowest(fds.fds@, 64);
            assert(fds.fds@[2] is None);
        }
        let _ = fds.alloc_fd(serial, O_WRONLY);
        assert(fds.fds@ =~= standard_fds(serial));
    }
    fds
}

/// The state after a process was made from an image: `c` is the process.
pub open spec fn created(
    before: &Kernel,
    after: &Kernel,
    elf: Seq<u8>,
    name: Seq<u8>,
    pcid: u16,
    entry: u64,
    kstack: u64,
) -> bool {
    let c = before.procs@.len() as usize;
    let h = before.spaces.slots@.len() as usize;
    let t = before.sched.threads@.len() as usize;
    let pid = before.next_pid;
    let new = after.procs@[c as int];
    let thread = after.sched@.threads[t as int];
    let used = before.mem.pool@.len() - after.mem.pool@.len();
    // The address space holds the image. The last two frames that were taken are
    // the descriptors of the address space and of the process.
    &&& after.spaces.slots@ == before.spaces.slots@.push(after.spaces.slots@[h as int])
    &&& after.spaces.live(h as int)
    &&& after.spaces.slots@[h as int]->Some_0.home.0 == before.mem.nth_free(used - 2)
    &&& fresh_space(&after.spaces.at(h as int), &before.kernel_table, pcid)
    &&& pages_are(
        &after.spaces.at(h as int),
        &before.mem,
        &after.mem,
        |v: u64| page_image(elf_loads(elf)->Ok_0, elf, v),
    )
    &&& tables_taken(&after.spaces.at(h as int), &before.mem, &after.mem)
    &&& pages_not_tables(&after.spaces.at(h as int))
    &&& only_taken_changed(&before.mem, &after.mem)
    &&& used <= image_frames(elf_loads(elf)->Ok_0) + 2
    // The process.
    &&& after.procs@ == before.procs@.push(new)
    &&& new.pid == pid
    &&& new.state == ProcessState::Running
    &&& new.exit_code == 0
    &&& new.address_space == h
    &&& new.thread == Some(t)
    &&& new.name@ == name_copied(Seq::new(16, |i: int| 0u8), name)
    &&& new.user_rip == le_u64(elf, 24)
    &&& new.user_rsp == USTACK_TOP - 8
    &&& new.user_rflags == 0x202
    &&& new.user_rax == 0
    &&& new.user_callee@ == Seq::new(6, |i: int| 0u64)
    &&& new.fd_table.fds@ == standard_fds(before.serial_vnode)
    &&& new.parent_pid == 0
    &&& new.signals.is_clean()
    &&& new.children@ == Seq::new(32, |i: int| 0u32)
    &&& new.child_count == 0
    &&& new.wait_queue@ == Seq::<usize>::empty()
    &&& new.home == before.mem.nth_free(used - 1)
    &&& new.live
    // It can be found by its number and by its thread, which is not queued yet.
    &&& after.next_pid == pid.wrapping_add(1)
    &&& after.registered@ == before.registered@.update(
        free_entry(before.registered@, 64)->Some_0,
        Some(c),
    )
    &&& after.ptable.lookup(pid) == (if before.ptable.has_slot(pid) {
        Some(c)
    } else {
        None
    })
    &&& forall|other: u32|
        other != pid ==> #[trigger] after.ptable.lookup(other) == before.ptable.lookup(other)
    &&& is_fresh(thread, before.sched.next_tid, entry, 0, kstack)
    &&& after.sched@ == (SchedView {
        next_tid: before.sched.next_tid.wrapping_add(1),
        threads: before.sched@.threads.push(thread),
        ..before.sched@
    })
    &&& *after == (Kernel {
        mem: after.mem,
        spaces: after.spaces,
        procs: after.procs,
        ptable: after.ptable,
        registered: after.registered,
        next_pid: after.next_pid,
        sched: after.sched,
        ..*before
    })
}

/// Pages stay what they are while other frames are handed out.
proof fn lemma_pages_kept(
    space: &AddressSpace,
    m0: &PhysMem,
    m1: &PhysMem,
    m2: &PhysMem,
    want: spec_fn(u64) -> Option<PageImage>,
)
    requires
        m0.wf(),
        pages_are(space, m0, m1, want),
        tables_taken(space, m0, m1),
        only_taken_changed(m0, m1),
        m2.bytes == m1.bytes,
        m2.freed == m1.freed,
        m2.pool@.len() <= m1.pool@.len(),
        m2.pool@ == m1.pool@.take(m2.pool@.len() as int),
    ensures
        pages_are(space, m0, m2, want),
        tables_taken(space, m0, m2),
        only_taken_changed(m0, m2),
{
    assert(m2.pool@ =~= m0.pool@.take(m2.pool@.len() as int));
    assert forall|f: u64| taken(m0, m1, f) implies #[trigger] taken(m0, m2, f) by {
        if m2.pool@.contains(f) {
            let i = choose|i: int| 0 <= i < m2.pool@.len() && m2.pool@[i] == f;
            assert(m1.pool@[i] == f);
        }
    }
    assert forall|f: u64| #[trigger] space.tables.frames().contains(f) implies taken(m0, m2, f) by {
        assert(taken(m0, m1, f));
    }
    assert forall|f: u64| #[trigger] m2.page(f) == m1.page(f) by {}
    assert forall|v: u64| v < USER_HALF_END implies #[trigger] space.pte(v) == space.pte(v)
        && page_is(space, m0, m2, v, want(v)) by {
        assert(page_is(space, m0, m1, v, want(v)));
    }
    assert forall|f: u64| m0.holds(f) && !taken(m0, m2, f) implies #[trigger] m2.page(f)
        == m0.page(f) by {
        assert(!taken(m0, m1, f));
        assert(m1.page(f) == m0.page(f));
    }
}

impl Process {
    /// Make a process from an executable. Its thread has not been queued yet.
    pub fn create(
        k: &mut Kernel,
        elf_data: &[u8],
        name: &str,
        pcid: u16,
        entry: u64,
        kstack: u64,
    ) -> (c: usize)
        requires
            old(k).wf(),
            elf_loads(elf_data@) is Ok,
            old(k).mem.pool@.len() >= image_frames(elf_loads(elf_data@)->Ok_0) + 2,
            kstack_fits(kstack),
            free_entry(old(k).registered@, 64) is Some,
        ensures
            final(k).wf(),
            c == old(k).procs@.len(),
            created(
                old(k),
                final(k),
                elf_data@,
                name.spec_bytes(),
                pcid,
                entry,
                kstack,
            ),
    {
        let ghost k0 = *k;
        let elf = parse_elf(elf_data).unwrap();
        let ghost want = |v: u64| page_image(elf_loads(elf_data@)->Ok_0, elf_data@, v);
        let (space, user_rsp) = build_image(&mut k.mem, &k.kernel_table, pcid, &elf, elf_data);
        let ghost m1 = k.mem;
        let ghost space0 = space;
        assert(pages_are(&space0, &k0.mem, &m1, want));
        let h: usize = AddressSpace::alloc_shared(&mut k.spaces, &mut k.mem, space);
        let thread: usize = alloc_kernel_thread_raw(&mut k.sched, entry, 0, kstack);
        let fd_table = open_standard_fds(k.serial_vnode);
        let home = k.mem.alloc_frame();
        let pid: u32 = alloc_pid(k);
        let mut stored: [u8; NAME_SIZE] = [0;NAME_SIZE];
        assert(stored@ =~= Seq::new(16, |i: int| 0u8));
        copy_name(&mut stored, name);
        let c: usize = k.procs.len();
        let new = Process {
            pid,
            state: ProcessState::Running,
            exit_code: 0,
            address_space: h,
            thread: Some(thread),
            name: stored,
            user_rip: elf.entry,
            user_rsp,
            user_rflags: USER_RFLAGS,
            user_rax: 0,
            user_callee: [0;6],
            fd_table,
            parent_pid: 0,
            signals: SignalState::new(),
            children: [0;MAX_CHILDREN],
            child_count: 0,
            wait_queue: WaitQueue::new(),
            home: home.0,
            live: true,
        };
        let ghost made = new;
        assert(made.children@ =~= Seq::new(32, |i: int| 0u32));
        assert(made.user_callee@ =~= Seq::new(6, |i: int| 0u64));
        k.procs.push(new);
        register_process(k, c);
        ptable_insert(&mut k.ptable, pid, c);
        proof {
            lemma_free_entry(k0.registered@, 64);
            assert(k.mem.pool@ =~= m1.pool@.take(k.mem.pool@.len() as int));
            lemma_pages_kept(&space0, &k0.mem, &m1, &k.mem, want);
            lemma_apart_shrinks(&space0, &m1, &k.mem);
            let t = thread as int;
            assert(k.sched@ =~= (SchedView {
                next_tid: k0.sched.next_tid.wrapping_add(1),
                threads: k0.sched@.threads.push(k.sched@.threads[t]),
                ..k0.sched@
            }));
            assert(k.spaces.slots@.len() == k.spaces.slots.len());
            assert(k.procs@.len() == k.procs.len());
            assert(k.sched.threads@.len() == k.sched.threads.len());
            assert forall|i: int| #[trigger] k.spaces.live(i) implies k.spaces.at(i).wf()
                && k.spaces.at(i).tables.apart(&k.mem) && k.spaces.at(i).refcount == users(
                k0.procs@,
                i as usize,
                c as nat,
            ) + (if i == h {
                1int
            } else {
                0
            }) by {
                if i == h {
                    assert forall|q: int| 0 <= q < c implies !((#[trigger] k0.procs@[q]).live
                        && k0.procs@[q].address_space == h) by {
                        if k0.procs@[q].live {
                            assert(k0.live(q));
                            assert(k0.process_wf(q));
                        }
                    }
                    lemma_users_none(k0.procs@, h, c as nat);
                } else {
                    assert(k.spaces.slots@[i] == k0.spaces.slots@[i]);
                    assert(k0.spaces.live(i));
                    lemma_apart_shrinks(&k0.spaces.at(i), &k0.mem, &k.mem);
                }
            }
            assert forall|i: int| #[trigger] k0.spaces.live(i) implies k.spaces.live(i) by {
                assert(k.spaces.slots@[i] == k0.spaces.slots@[i]);
            }
            k.procs@[c as int].wait_queue.lemma_wf(0);
            lemma_process_added(&k0, k, c, h);
        }
        c
    }
}

/// The process that hears of the end of process `p`.
pub open spec fn parent_of(k: &Kernel, p: int) -> Option<usize> {
    if k.procs@[p].parent_pid != 0 {
        k.ptable.lookup(k.procs@[p].parent_pid)
    } else {
        None
    }
}

/// Process `q` hears that a child has ended: SIGCHLD waits for it, and if it
/// waits itself, one of its waits ends.
pub open spec fn notified(before: Process, after: Process) -> bool {
    &&& after == (Process {
        signals: SignalState { pending: after.signals.pending, ..before.signals },
        wait_queue: after.wait_queue,
        ..before
    })
    &&& after.signals.pending.bits == before.signals.pending.bits | (1u64 << (SIGCHLD as u64))
}

/// What the end of process `p` does before another thread runs: its files are
/// closed, it becomes a zombie, and its parent is told.
pub open spec fn ended(before: &Kernel, after: &Kernel, p: int, code: i32, cpu_id: u32) -> bool {
    let was = before.procs@[p];
    let gone = Process {
        state: ProcessState::Zombie,
        exit_code: code,
        fd_table: after.procs@[p].fd_table,
        ..was
    };
    let procs = before.procs@.update(p, gone);
    &&& after.procs@[p].fd_table.fds@ == no_fds()
    &&& after.log@ == before.log@ + close_releases(was.fd_table.fds@, 64)
    &&& match parent_of(before, p) {
        None => after.procs@ == procs && after.sched == before.sched && after.nodes
            == before.nodes,
        Some(q) => {
            let w = waking(
                before.sched@,
                before.nodes@,
                procs[q as int].wait_queue@,
                0,
                1,
                cpu_id,
            );
            &&& after.procs@ == procs.update(q as int, after.procs@[q as int])
            &&& notified(procs[q as int], after.procs@[q as int])
            &&& after.procs@[q as int].wait_queue@ == w.queue
            &&& after.sched@ == w.sched
            &&& after.nodes@ == w.nodes
        },
    }
    &&& *after == (Kernel {
        procs: after.procs,
        sched: after.sched,
        nodes: after.nodes,
        log: after.log,
        ..*before
    })
}

/// The state after process `p` exited, and what runs next: its thread is dead.
pub open spec fn exited(
    before: &Kernel,
    after: &Kernel,
    p: int,
    code: i32,
    cpu_id: u32,
    next: Switch,
) -> bool {
    exists|mid: Kernel|
        {
            let t = before.procs@[p].thread->Some_0;
            &&& #[trigger] ended(before, &mid, p, code, cpu_id)
            &&& (after.sched@, next) == scheduled(
                mid.sched@.with_thread(
                    t,
                    Thread { state: ThreadState::Dead, ..mid.sched@.threads[t as int] },
                ),
                cpu_id,
            )
            &&& *after == (Kernel { sched: after.sched, ..mid })
        }
}

impl Process {
    /// End process `p`, which runs on `cpu_id`. It stays findable, as a
    /// zombie, until its parent has waited for it.
    pub fn exit(k: &mut Kernel, p: usize, code: i32, cpu_id: u32) -> (r: Switch)
        requires
            old(k).wf(),
            old(k).live(p as int),
            old(k).sched.unlocked(cpu_id),
            can_schedule(&old(k).sched, cpu_id),
        ensures
            final(k).wf(),
            exited(old(k), final(k), p as int, code, cpu_id, r),
    {
        let ghost k0 = *k;
        assert(k.process_wf(p as int));
        k.procs[p].fd_table.close_all(&mut k.log);
        k.procs[p].state = ProcessState::Zombie;
        k.procs[p].exit_code = code;
        let ghost k1 = *k;
        let ghost gone = k1.procs@[p as int];
        let parent_pid: u32 = k.procs[p].parent_pid;
        proof {
            assert(k1.procs@ =~= k0.procs@.update(
                p as int,
                Process {
                    state: ProcessState::Zombie,
                    exit_code: code,
                    fd_table: gone.fd_table,
                    ..k0.procs@[p as int]
                },
            ));
        }
        if parent_pid != 0 {
            if let Some(q) = ptable_find(&k.ptable, parent_pid) {
                proof {
                    assert(k0.ptable.lookup(parent_pid) == Some(q));
                    assert(k0.live(q as int));
                    assert(k0.process_wf(q as int));
                    k.procs@[q as int].wait_queue.lemma_wf(k.nodes@.len());
                    lemma_waking_keeps_cpus(
                        k0.sched@,
                        k0.nodes@,
                        k.procs@[q as int].wait_queue@,
                        0,
                        1,
                        cpu_id,
                    );
                }
                k.procs[q].signals.pending.raise(SIGCHLD);
                let _ = wake_one(&mut k.sched, &mut k.nodes, &mut k.procs[q].wait_queue, cpu_id);
                proof {
                    assert(k.procs@ =~= k1.procs@.update(q as int, k.procs@[q as int]));
                    let me = cpu_slot(cpu_id);
                    assert(k.sched@.locked[me] == k0.sched@.locked[me]);
                    assert(k.sched@.cpus[me].idle == k0.sched@.cpus[me].idle);
                    assert(k.sched@.cpus[me].current == k0.sched@.cpus[me].current);
                }
            }
        }
        let ghost mid = *k;
        proof {
            assert(ended(&k0, &mid, p as int, code, cpu_id));
        }
        let t: usize = k.procs[p].thread.unwrap();
        let mut thread: Thread = k.sched.threads[t];
        assert(k.sched.threads@[t as int].priority < 8);
        thread.state = ThreadState::Dead;
        k.sched.set_thread(t, thread);
        let r = schedule(&mut k.sched, cpu_id);
        proof {
            assert(exited(&k0, k, p as int, code, cpu_id, r));
            lemma_wf_procs(&k0, k);
        }
        r
    }

    /// Replace the image of process `p`; see [`do_execve`].
    pub fn exec(
        k: &mut Kernel,
        p: usize,
        read: i64,
        buf: &[u8],
        buf_phys: u64,
        argv: &[&str],
        envp: &[&str],
        pcid: u16,
        cpu_id: u32,
    ) -> (r: ExecOutcome)
        requires
            old(k).wf(),
            old(k).live(p as int),
            read <= buf@.len(),
            buf_phys + 0x10_0000 <= u64::MAX,
            old(k).cpu_spaces@[cpu_slot(cpu_id)] matches Some(o) ==> old(k).spaces.live(o as int),
            argv@.len() <= MAX_ARGV && envp@.len() <= MAX_ENVP && exec_error(read, buf@) is None
                ==> {
                &&& old(k).mem.pool@.len() > image_frames(elf_loads(buf@.take(read as int))->Ok_0)
                &&& args_fit(argv@, envp@)
            },
        ensures
            final(k).wf(),
            match r {
                ExecOutcome::Failed(e) => if argv@.len() > MAX_ARGV || envp@.len() > MAX_ENVP {
                    e == -7 && *final(k) == *old(k)
                } else {
                    exec_error(read, buf@) == Some(e) && exec_undone(old(k), final(k), buf_phys)
                },
                ExecOutcome::Enter { cr3, rip, rsp, rflags, rax } => {
                    &&& argv@.len() <= MAX_ARGV && envp@.len() <= MAX_ENVP
                    &&& exec_error(read, buf@) is None
                    &&& cr3 == cr3_of(&final(k).spaces.at(old(k).spaces.slots@.len() as int))
                    &&& exec_done(
                        old(k),
                        final(k),
                        p as int,
                        buf@.take(read as int),
                        argv@,
                        envp@,
                        buf_phys,
                        pcid,
                        cpu_id,
                    )
                    &&& rip == final(k).procs@[p as int].user_rip
                    &&& rsp == final(k).procs@[p as int].user_rsp
                    &&& rflags == 0x202
                    &&& rax == 0
                },
            },
    {
        do_execve(k, p, read, buf, buf_phys, argv, envp, pcid, cpu_id)
    }
}

/// Processes that keep their numbers, threads, children and address spaces keep
/// the kernel whole, whatever else of them changes.
pub proof fn lemma_wf_procs(k0: &Kernel, k: &Kernel)
    requires
        k0.wf(),
        *k == (Kernel {
            procs: k.procs,
            sched: k.sched,
            nodes: k.nodes,
            log: k.log,
            ..*k0
        }),
        k.sched.wf(),
        k.sched.threads@.len() == k0.sched.threads@.len(),
        k.nodes@.len() == k0.nodes@.len(),
        crate::sched::waitqueue::nodes_wf(k.nodes@, k.sched.threads@.len()),
        k.procs@.len() == k0.procs@.len(),
        forall|i: int|
            0 <= i < k.procs@.len() ==> {
                let q = #[trigger] k.procs@[i];
                &&& q.live == k0.procs@[i].live
                &&& q.pid == k0.procs@[i].pid
                &&& q.address_space == k0.procs@[i].address_space
                &&& q.thread == k0.procs@[i].thread
                &&& q.children == k0.procs@[i].children
                &&& q.wait_queue == k0.procs@[i].wait_queue || q.wait_queue.wf(k.nodes@.len())
            },
    ensures
        k.wf(),
{
    assert forall|p: int| #[trigger] k.live(p) implies k.process_wf(p) by {
        assert(k0.live(p));
        assert(k0.process_wf(p));
    }
    assert forall|h: int| #[trigger] k.spaces.live(h) implies k.spaces.at(h).refcount == users(
        k.procs@,
        h as usize,
        k.procs@.len(),
    ) by {
        assert(k0.spaces.live(h));
        super::state::lemma_users_same(k0.procs@, k.procs@, h as usize, k.procs@.len());
    }
    assert forall|pid: u32| (#[trigger] k.ptable.lookup(pid) matches Some(p) ==> k.live(
        p as int,
    ) && k.procs@[p as int].pid == pid) by {
        if let Some(p) = k.ptable.lookup(pid) {
            assert(k0.ptable.lookup(pid) == Some(p));
            assert(k0.live(p as int));
        }
    }
    assert forall|i: int| 0 <= i < 64 implies (#[trigger] k.registered@[i] matches Some(p)
        ==> k.live(p as int)) by {
        if let Some(p) = k.registered@[i] {
            assert(k0.live(p as int));
        }
    }
}

} // verus!
