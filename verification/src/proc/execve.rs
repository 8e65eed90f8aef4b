//! `execve`: replacing the image of a process.

use vstd::prelude::*;
use vstd::string::*;
use crate::bytes::le_u64;
use crate::mem::{PhysAddr, PhysMem};
use crate::paging::Reclaim;
use crate::sched::percpu::cpu_slot;
use super::address_space::{others_kept, pages_not_tables, tables_taken, taken, AddressSpace};
use super::effects::Effect;
use super::elf::elf_loads;
use super::exec::{args_fit, exec_error, image_loaded, load_image, E2BIG, ELF_BUF_FRAMES, MAX_ARGV, MAX_ENVP};
use super::image::image_frames;
use super::process::Process;
use super::shootdown::cpu_bit;
use super::signal::SignalState;
use super::state::{activate_address_space, cr3_of, lemma_activated_spaces, lemma_apart_shrinks, lemma_users_none, lemma_users_positive, lemma_users_two, lemma_users_update, lemma_wf_frames, users, Kernel};
use super::usermem::user_byte;

verus! {

/// What `execve` leads to.
#[derive(Clone, Copy, Debug, PartialEq, Eq, Structural)]
pub enum ExecOutcome {
    /// The caller goes on, with this error.
    Failed(i32),
    /// The CPU enters the new image.
    Enter { cr3: u64, rip: u64, rsp: u64, rflags: u64, rax: i64 },
}

/// The flags with which a program starts: interrupts on.
pub const USER_RFLAGS: u64 = 0x202;

/// The frames of the buffer at `base` that an executable was read into.
pub open spec fn elf_buf_frames(base: u64) -> Seq<u64> {
    Seq::new(256, |i: int| (base + i * 4096) as u64)
}

/// Hand back the buffer that an executable was read into.
pub fn free_elf_buf(mem: &mut PhysMem, base: u64)
    requires
        base + 0x10_0000 <= u64::MAX,
    ensures
        final(mem).freed@ == old(mem).freed@ + elf_buf_frames(base),
        final(mem).bytes == old(mem).bytes,
        final(mem).pool == old(mem).pool,
{
    let ghost before = mem.freed@;
    let mut i: u64 = 0;
    assert(before + elf_buf_frames(base).take(0) =~= before);
    while i < ELF_BUF_FRAMES
        invariant
            i <= 256,
            base + 0x10_0000 <= u64::MAX,
            mem.freed@ == before + elf_buf_frames(base).take(i as int),
            mem.bytes == old(mem).bytes,
            mem.pool == old(mem).pool,
        decreases 256 - i,
    {
        mem.free_frame(PhysAddr(base + i * 4096));
        assert(mem.freed@ =~= before + elf_buf_frames(base).take(i + 1));
        i += 1;
    }
    assert(elf_buf_frames(base).take(256) =~= elf_buf_frames(base));
}

/// The state after a failed `execve`: only the buffer has been handed back.
pub open spec fn exec_undone(before: &Kernel, after: &Kernel, buf_phys: u64) -> bool {
    &&& *after == (Kernel { mem: after.mem, ..*before })
    &&& after.mem.bytes == before.mem.bytes
    &&& after.mem.pool == before.mem.pool
    &&& after.mem.freed@ == before.mem.freed@ + elf_buf_frames(buf_phys)
}

/// What an `execve` on `cpu_id` leaves of an address space `i` that was there
/// before: one user fewer where it is `gone`, the one that was replaced, and no
/// mark of the CPU that had it loaded.
pub open spec fn space_kept(before: &Kernel, after: &Kernel, i: int, gone: int, cpu_id: u32) -> bool {
    let s = before.spaces.at(i);
    let t = after.spaces.at(i);
    &&& t == (AddressSpace {
        active_cpus: t.active_cpus,
        refcount: if i == gone {
            s.refcount.wrapping_sub(1)
        } else {
            s.refcount
        },
        ..s
    })
    &&& t.active_cpus.mask() == (if before.cpu_spaces@[cpu_slot(cpu_id)] == Some(i as usize) {
        s.active_cpus.mask() & !(1u64 << cpu_bit(cpu_id))
    } else {
        s.active_cpus.mask()
    })
    &&& after.spaces.slots@[i]->Some_0.home == before.spaces.slots@[i]->Some_0.home
}

/// The state after a successful `execve` of `file` by process `p`.
pub open spec fn exec_done(
    before: &Kernel,
    after: &Kernel,
    p: int,
    file: Seq<u8>,
    argv: Seq<&str>,
    envp: Seq<&str>,
    buf_phys: u64,
    pcid: u16,
    cpu_id: u32,
) -> bool {
    let new = before.spaces.slots@.len() as int;
    let gone = before.procs@[p].address_space as int;
    let space = after.spaces.at(new);
    let image = after.procs@[p];
    let start = Reclaim {
        counts: before.cow@,
        freed: before.mem.freed@ + elf_buf_frames(buf_phys),
    };
    let torn = before.spaces.at(gone).tables.user_half_torn(start);
    let last = before.spaces.at(gone).refcount == 1;
    // The new address space.
    &&& after.spaces.slots@.len() == new + 1
    &&& after.spaces.live(new)
    &&& space.active_cpus.mask() == 0u64 | (1u64 << cpu_bit(cpu_id))
    &&& space.pcid == pcid
    &&& space.mmap_next == super::vma::MMAP_BASE
    &&& space.refcount == 1
    &&& forall|i: int| 0 <= i < 32 ==> #[trigger] space.vmas@[i] is None
    &&& forall|i: int|
        256 <= i < 512 ==> #[trigger] space.tables.top_entry(i)
            == before.kernel_table.entries@[i]
    &&& image_loaded(&space, &before.mem, &after.mem, file, argv, envp, image.user_rsp)
    // Its frames, of which the last is its descriptor's; no other frame changes.
    &&& tables_taken(&space, &before.mem, &after.mem)
    &&& pages_not_tables(&space)
    &&& others_kept(&before.mem, &after.mem)
    &&& after.mem.pool@.len() + image_frames(elf_loads(file)->Ok_0) + 1 >= before.mem.pool@.len()
    &&& after.spaces.slots@[new]->Some_0.home.0 == before.mem.nth_free(
        before.mem.pool@.len() - after.mem.pool@.len() - 1,
    )
    // The process.
    &&& after.procs@ == before.procs@.update(
        p,
        Process {
            address_space: new as usize,
            user_rip: le_u64(file, 24),
            user_rsp: image.user_rsp,
            user_rflags: 0x202,
            user_rax: 0,
            signals: image.signals,
            ..before.procs@[p]
        },
    )
    &&& image.signals.is_clean()
    // The old address spaces.
    &&& forall|i: int|
        0 <= i < new ==> #[trigger] after.spaces.live(i) == (before.spaces.live(i) && !(i == gone
            && last))
    &&& forall|i: int|
        0 <= i < new && #[trigger] after.spaces.live(i) ==> space_kept(
            before,
            after,
            i,
            gone,
            cpu_id,
        )
    &&& after.cow@ == (if last {
        torn.counts
    } else {
        start.counts
    })
    &&& after.mem.freed@ == (if last {
        torn.freed.push(before.spaces.at(gone).pml4_phys.0).push(
            before.spaces.slots@[gone]->Some_0.home.0,
        )
    } else {
        start.freed
    })
    // The CPU.
    &&& after.cpu_spaces@ == before.cpu_spaces@.update(cpu_slot(cpu_id), Some(new as usize))
    &&& after.log@ == before.log@.push(Effect::LoadSpace { cr3: cr3_of(&space) }).push(
        Effect::FlushAll,
    )
    // Everything else.
    &&& *after == (Kernel {
        mem: after.mem,
        cow: after.cow,
        spaces: after.spaces,
        procs: after.procs,
        cpu_spaces: after.cpu_spaces,
        log: after.log,
        ..*before
    })
}

/// Replace the image of process `p`, which runs on `cpu_id`, by the executable
/// in `buf`, of which `read` bytes were read; a negative `read` is the error of
/// reading it. Until the new image is complete nothing of the process changes.
pub fn do_execve(
    k: &mut Kernel,
    p: usize,
    read: i64,
    buf: &[u8],
    buf_phys: u64,
    argv: &[&str],
    envp: &[&str],
    pcid: u16,
    cpu_id: u32,
) -> (r: ExecOutcome)
    requires
        old(k).wf(),
        old(k).live(p as int),
        read <= buf@.len(),
        buf_phys + 0x10_0000 <= u64::MAX,
        old(k).cpu_spaces@[cpu_slot(cpu_id)] matches Some(o) ==> old(k).spaces.live(o as int),
        argv@.len() <= MAX_ARGV && envp@.len() <= MAX_ENVP && exec_error(read, buf@) is None ==> {
            &&& old(k).mem.pool@.len() > image_frames(elf_loads(buf@.take(read as int))->Ok_0)
            &&& args_fit(argv@, envp@)
        },
    ensures
        final(k).wf(),
        if argv@.len() > MAX_ARGV || envp@.len() > MAX_ENVP {
            r == ExecOutcome::Failed(E2BIG) && *final(k) == *old(k)
        } else {
            match exec_error(read, buf@) {
                Some(e) => r == ExecOutcome::Failed(e) && exec_undone(old(k), final(k), buf_phys),
                None => {
                    let file = buf@.take(read as int);
                    &&& exec_done(
                        old(k),
                        final(k),
                        p as int,
                        file,
                        argv@,
                        envp@,
                        buf_phys,
                        pcid,
                        cpu_id,
                    )
                    &&& r == ExecOutcome::Enter {
                        cr3: cr3_of(&final(k).spaces.at(old(k).spaces.slots@.len() as int)),
                        rip: le_u64(file, 24),
                        rsp: final(k).procs@[p as int].user_rsp,
                        rflags: 0x202,
                        rax: 0,
                    }
                },
            }
        },
{
    if argv.len() > MAX_ARGV || envp.len() > MAX_ENVP {
        return ExecOutcome::Failed(E2BIG);
    }
    let ghost k0 = *k;
    let loaded = load_image(&mut k.mem, &k.kernel_table, pcid, read, buf, argv, envp);
    let ghost m1 = k.mem;
    free_elf_buf(&mut k.mem, buf_phys);
    let image = match loaded {
        Ok(image) => image,
        Err(e) => {
            proof {
                assert(k.mem.pool@ =~= k0.mem.pool@.take(k.mem.pool@.len() as int));
                lemma_wf_frames(&k0, k);
            }
            return ExecOutcome::Failed(e);
        },
    };
    let ghost file = buf@.take(read as int);
    let entry: u64 = image.entry;
    let rsp: u64 = image.rsp;
    let ghost space0 = image.space;
    let ghost k1 = *k;
    assert(k.live(p as int) && k0.process_wf(p as int));
    let gone: usize = k.procs[p].address_space;
    let new: usize = AddressSpace::alloc_shared(&mut k.spaces, &mut k.mem, image.space);
    k.procs[p].address_space = new;
    let ghost k2 = *k;
    proof {
        assert(k2.spaces.slots@[gone as int] == k0.spaces.slots@[gone as int]);
        assert(k2.spaces.live(gone as int) && k2.spaces.live(new as int));
        assert(k2.spaces.slots@.len() == k.spaces.slots.len());
        if let Some(o) = k0.cpu_spaces@[cpu_slot(cpu_id)] {
            assert(k2.spaces.slots@[o as int] == k0.spaces.slots@[o as int]);
            assert(k2.spaces.live(o as int));
        }
    }
    activate_address_space(k, new, cpu_id);
    let ghost k3 = *k;
    proof {
        lemma_activated_spaces(&k2, &k3, new, cpu_id);
        assert(k3.spaces.slots@[gone as int] is Some);
        assert(k3.spaces.live(gone as int));
        assert(k0.spaces.live(gone as int));
    }
    k.log.push(Effect::FlushAll);
    let _ = AddressSpace::drop_ref(&mut k.spaces, gone, &mut k.cow, &mut k.mem);
    k.procs[p].user_rip = entry;
    k.procs[p].user_rsp = rsp;
    k.procs[p].user_rflags = USER_RFLAGS;
    k.procs[p].user_rax = 0;
    k.procs[p].signals = SignalState::new();
    let cr3: u64 = match &k.spaces.slots[new] {
        Some(shared) => shared.space.pml4_phys.0 | (shared.space.pcid as u64),
        None => 0,
    };
    proof {
        assert(k.spaces.slots@[new as int] == k3.spaces.slots@[new as int]);
        assert(k3.spaces.live(new as int));
        lemma_image_moves(&space0, &k.spaces.at(new as int), &k0.mem, &m1, &k.mem, file, argv@, envp@, rsp);
        lemma_others_kept(&k0.mem, &m1, &k.mem);
        assert(k.procs@ =~= k0.procs@.update(
            p as int,
            Process {
                address_space: new,
                user_rip: entry,
                user_rsp: rsp,
                user_rflags: 0x202,
                user_rax: 0,
                signals: k.procs@[p as int].signals,
                ..k0.procs@[p as int]
            },
        ));
        assert forall|i: int| 0 <= i < new implies #[trigger] k.spaces.live(i) == (
        k0.spaces.live(i) && !(i == gone && k0.spaces.at(gone as int).refcount == 1)) by {
            assert(k2.spaces.slots@[i] == k0.spaces.slots@[i]);
            assert((k3.spaces.slots@[i] is Some) == (k2.spaces.slots@[i] is Some));
            if i != gone {
                assert(k.spaces.slots@[i] == k3.spaces.slots@[i]);
            }
        }
        assert forall|i: int| 0 <= i < new && #[trigger] k.spaces.live(i) implies space_kept(
            &k0,
            k,
            i,
            gone as int,
            cpu_id,
        ) by {
            assert(k2.spaces.slots@[i] == k0.spaces.slots@[i]);
            assert((k3.spaces.slots@[i] is Some) == (k2.spaces.slots@[i] is Some));
            assert(k3.spaces.live(i));
            if i != gone {
                assert(k.spaces.slots@[i] == k3.spaces.slots@[i]);
            }
        }
        assert(exec_done(
            &k0,
            k,
            p as int,
            file,
            argv@,
            envp@,
            buf_phys,
            pcid,
            cpu_id,
        ));
        lemma_exec_wf(&k0, k, p as int, new, gone);
    }
    ExecOutcome::Enter { cr3, rip: entry, rsp, rflags: USER_RFLAGS, rax: 0 }
}

/// An image stays what it is when its address space is put into use.
proof fn lemma_image_moves(
    s0: &AddressSpace,
    s1: &AddressSpace,
    m0: &PhysMem,
    m1: &PhysMem,
    m2: &PhysMem,
    file: Seq<u8>,
    argv: Seq<&str>,
    envp: Seq<&str>,
    rsp: u64,
)
    requires
        image_loaded(s0, m0, m1, file, argv, envp, rsp),
        tables_taken(s0, m0, m1),
        pages_not_tables(s0),
        s1.tables == s0.tables,
        s1.pml4_phys == s0.pml4_phys,
        m2.bytes == m1.bytes,
        m2.pool@ == m1.pool@.drop_last(),
        m1.pool@.len() > 0,
    ensures
        image_loaded(s1, m0, m2, file, argv, envp, rsp),
        tables_taken(s1, m0, m2),
        pages_not_tables(s1),
{
    assert forall|f: u64| taken(m0, m1, f) implies #[trigger] taken(m0, m2, f) by {
        if m2.pool@.contains(f) {
            let i = choose|i: int| 0 <= i < m2.pool@.len() && m2.pool@[i] == f;
            assert(m1.pool@[i] == f);
        }
    }
    assert forall|f: u64| #[trigger] m2.page(f) == m1.page(f) by {}
    assert forall|v: u64| #[trigger] s1.pte(v) == s0.pte(v) by {}
    assert forall|f: u64| #[trigger] s1.tables.frames().contains(f) implies taken(m0, m2, f) by {
        assert(taken(m0, m1, f));
    }
    assert(super::exec::user_bytes(&s1.tables, m2, rsp as int, super::ustack::USTACK_TOP - 8)
        =~= super::exec::user_bytes(&s0.tables, m1, rsp as int, super::ustack::USTACK_TOP - 8));
}

/// One more frame taken leaves the others as they were.
proof fn lemma_others_kept(m0: &PhysMem, m1: &PhysMem, m2: &PhysMem)
    requires
        others_kept(m0, m1),
        m2.bytes == m1.bytes,
        m2.pool@ == m1.pool@.drop_last(),
        m1.pool@.len() > 0,
    ensures
        others_kept(m0, m2),
{
    assert(m2.pool@ =~= m0.pool@.take(m2.pool@.len() as int));
    assert forall|f: u64| m0.holds(f) && !taken(m0, m2, f) implies #[trigger] m2.page(f)
        == m0.page(f) by {
        if taken(m0, m1, f) {
            let i = choose|i: int| 0 <= i < m2.pool@.len() && m2.pool@[i] == f;
            assert(m1.pool@[i] == f);
        }
        assert(m1.page(f) == m0.page(f));
    }
}

/// Process `p` moved from address space `gone` to the new one, `new`.
proof fn lemma_exec_wf(k0: &Kernel, k: &Kernel, p: int, new: usize, gone: usize)
    requires
        k0.wf(),
        k0.live(p),
        gone == k0.procs@[p].address_space,
        new == k0.spaces.slots@.len(),
        *k == (Kernel {
            mem: k.mem,
            cow: k.cow,
            spaces: k.spaces,
            procs: k.procs,
            cpu_spaces: k.cpu_spaces,
            log: k.log,
            ..*k0
        }),
        k.mem.wf(),
        k.cow.wf(),
        k.cpu_spaces@.len() == 64,
        k.mem.pool@.len() <= k0.mem.pool@.len(),
        k.mem.pool@ == k0.mem.pool@.take(k.mem.pool@.len() as int),
        k.procs@.len() == k0.procs@.len(),
        k.procs@ == k0.procs@.update(p, k.procs@[p]),
        k.procs@[p].address_space == new,
        k.procs@[p].live,
        k.procs@[p].pid == k0.procs@[p].pid,
        k.procs@[p].thread == k0.procs@[p].thread,
        k.procs@[p].children == k0.procs@[p].children,
        k.procs@[p].wait_queue == k0.procs@[p].wait_queue,
        k.spaces.slots@.len() == new + 1,
        k.spaces.live(new as int),
        k.spaces.at(new as int).wf(),
        k.spaces.at(new as int).tables.apart(&k.mem),
        k.spaces.at(new as int).refcount == 1,
        forall|i: int|
            0 <= i < new && i != gone ==> (#[trigger] k.spaces.slots@[i] is Some) == (
            k0.spaces.slots@[i] is Some),
        k.spaces.live(gone as int) == (k0.spaces.at(gone as int).refcount != 1),
        forall|i: int|
            0 <= i < new && #[trigger] k.spaces.live(i) ==> k.spaces.at(i) == (AddressSpace {
                active_cpus: k.spaces.at(i).active_cpus,
                refcount: k.spaces.at(i).refcount,
                ..k0.spaces.at(i)
            }) && k.spaces.at(i).refcount == (if i == gone {
                k0.spaces.at(i).refcount.wrapping_sub(1)
            } else {
                k0.spaces.at(i).refcount
            }),
    ensures
        k.wf(),
{
    let n = k0.procs@.len();
    assert(k0.process_wf(p));
    assert(k0.spaces.live(gone as int));
    lemma_users_positive(k0.procs@, gone, n, p);
    assert forall|h: int| #[trigger] k.spaces.live(h) implies k.spaces.at(h).wf() && k.spaces.at(
        h,
    ).tables.apart(&k.mem) by {
        if h != new {
            assert(k.spaces.slots@[h] is Some);
            assert(k0.spaces.live(h));
            lemma_apart_shrinks(&k0.spaces.at(h), &k0.mem, &k.mem);
        }
    }
    assert forall|h: int| #[trigger] k.spaces.live(h) implies k.spaces.at(h).refcount == users(
        k.procs@,
        h as usize,
        k.procs@.len(),
    ) by {
        lemma_users_update(k0.procs@, p, k.procs@[p], h as usize, n);
        if h == new {
            assert forall|q: int| 0 <= q < n implies !((#[trigger] k0.procs@[q]).live
                && k0.procs@[q].address_space == new) by {
                if k0.procs@[q].live {
                    assert(k0.live(q));
                    assert(k0.process_wf(q));
                }
            }
            lemma_users_none(k0.procs@, new, n);
        } else {
            assert(k.spaces.slots@[h] is Some);
            assert(k0.spaces.live(h));
        }
    }
    assert forall|q: int| #[trigger] k.live(q) implies k.process_wf(q) by {
        assert(k0.live(q));
        assert(k0.process_wf(q));
        if q != p {
            let h = k0.procs@[q].address_space;
            assert(k0.spaces.live(h as int));
            if h == gone {
                lemma_users_two(k0.procs@, gone, p, q);
            } else {
                assert(k.spaces.slots@[h as int] is Some);
            }
        }
    }
    assert forall|pid: u32| (#[trigger] k.ptable.lookup(pid) matches Some(q) ==> k.live(
        q as int,
    ) && k.procs@[q as int].pid == pid) by {
        if let Some(q) = k.ptable.lookup(pid) {
            assert(k0.ptable.lookup(pid) == Some(q));
            assert(k0.live(q as int));
        }
    }
    assert forall|i: int| 0 <= i < 64 implies (#[trigger] k.registered@[i] matches Some(q)
        ==> k.live(q as int)) by {
        if let Some(q) = k.registered@[i] {
            assert(k0.live(q as int));
        }
    }
}

/// A failed `execve` leaves the process, its address space and its open files
/// as they were.
pub proof fn failed_exec_changes_nothing(before: &Kernel, after: &Kernel, buf_phys: u64)
    requires
        exec_undone(before, after, buf_phys),
    ensures
        after.procs == before.procs,
        after.spaces == before.spaces,
        after.cow == before.cow,
        after.mem.bytes == before.mem.bytes,
        after.log == before.log,
        after.sched == before.sched,
{
}

/// A successful `execve` keeps the process number, the parent, the children
/// and every open file, and resets every signal.
pub proof fn exec_keeps_identity(
    before: &Kernel,
    after: &Kernel,
    p: int,
    file: Seq<u8>,
    argv: Seq<&str>,
    envp: Seq<&str>,
    buf_phys: u64,
    pcid: u16,
    cpu_id: u32,
)
    requires
        before.live(p),
        exec_done(before, after, p, file, argv, envp, buf_phys, pcid, cpu_id),
    ensures
        after.procs@[p].pid == before.procs@[p].pid,
        after.procs@[p].parent_pid == before.procs@[p].parent_pid,
        after.procs@[p].children == before.procs@[p].children,
        after.procs@[p].fd_table == before.procs@[p].fd_table,
        after.procs@[p].thread == before.procs@[p].thread,
        after.procs@[p].name == before.procs@[p].name,
        after.procs@[p].signals.is_clean(),
{
}

/// What an address space that is still in use maps reads the same after an
/// `execve` by another process: a thread that shares the memory that was given
/// up, a forked child with pages in common. Of the frames that are mapped none is
/// one that waits to be handed out.
pub proof fn others_read_the_same_after_exec(
    before: &Kernel,
    after: &Kernel,
    p: int,
    file: Seq<u8>,
    argv: Seq<&str>,
    envp: Seq<&str>,
    buf_phys: u64,
    pcid: u16,
    cpu_id: u32,
    i: int,
    addr: int,
)
    requires
        before.spaces.live(i),
        after.spaces.live(i),
        exec_done(before, after, p, file, argv, envp, buf_phys, pcid, cpu_id),
        !before.mem.pool@.contains(before.spaces.at(i).pte(addr as u64).frame.0),
    ensures
        user_byte(&after.spaces.at(i).tables, &after.mem, addr) == user_byte(
            &before.spaces.at(i).tables,
            &before.mem,
            addr,
        ),
{
    let f = before.spaces.at(i).pte(addr as u64).frame.0;
    assert(space_kept(before, after, i, before.procs@[p].address_space as int, cpu_id));
    if before.mem.holds(f) {
        assert(!taken(&before.mem, &after.mem, f));
        assert(after.mem.page(f)[addr % 4096] == before.mem.page(f)[addr % 4096]);
    }
}

} // verus!
