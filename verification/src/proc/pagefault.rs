//! Page faults.

use vstd::prelude::*;
use crate::mem::DIRECT_MAP_BASE;
use vstd::string::*;
use crate::paging::USER_HALF_END;
use crate::sched::schedule::{can_schedule, Switch};
use crate::text::{hex, push_hex, push_str};
use super::address_space::{can_fill, cow_resolved, file_resolved, is_cow_page, AddressSpace, SharedSpace};
use super::lifecycle::exited;
use super::process::Process;
use super::signal::InterruptFrame;
use super::state::{current_process, lemma_space_changed, Kernel};
use super::vma::Backing;

verus! {

pub const PF_VECTOR: u8 = 14;

/// Error-code bits: the page was present, the access was a write, the access
/// was a program's.
pub const PF_PRESENT: u64 = 1;

pub const PF_WRITE: u64 = 2;

pub const PF_USER: u64 = 4;

/// Exit code of a process that is killed for a bad access.
pub const SIGSEGV_EXIT: i32 = -11;

/// What a page fault leads to.
pub enum FaultOutcome {
    /// The access is made again.
    Resolved,
    /// The process is killed; `line` goes to the console, and `switch` says
    /// what runs next.
    Killed { line: Vec<u8>, switch: Switch },
    /// The kernel itself made a bad access.
    KernelFault,
}

/// What the console says of a process killed for a bad access.
pub open spec fn segv_line(addr: u64, rip: u64, err: u64) -> Seq<u8> {
    "\n[SIGSEGV addr=".spec_bytes() + hex(addr as nat, 16) + " rip=".spec_bytes() + hex(rip as nat, 16)
        + " err=".spec_bytes() + hex(err as nat, 16) + "]\n".spec_bytes()
}

fn segv_report(addr: u64, rip: u64, err: u64) -> (line: Vec<u8>)
    ensures
        line@ == segv_line(addr, rip, err),
{
    let mut line: Vec<u8> = Vec::new();
    push_str(&mut line, "\n[SIGSEGV addr=");
    push_hex(&mut line, addr, 16);
    push_str(&mut line, " rip=");
    push_hex(&mut line, rip, 16);
    push_str(&mut line, " err=");
    push_hex(&mut line, err, 16);
    push_str(&mut line, "]\n");
    assert(line@ =~= segv_line(addr, rip, err));
    line
}

/// The fault can be resolved: a write to a copy-on-write page, or an access to
/// a page that a region can supply.
pub open spec fn resolvable(space: &AddressSpace, err: u64, addr: u64, fill: Option<u64>) -> bool {
    if err & PF_PRESENT != 0 {
        err & PF_WRITE != 0 && is_cow_page(space, addr)
    } else {
        can_fill(space, addr, fill)
    }
}

fn can_resolve(space: &AddressSpace, err: u64, addr: u64, fill: Option<u64>) -> (r: bool)
    requires
        space.wf(),
    ensures
        r == resolvable(space, err, addr, fill),
{
    let page: u64 = addr - addr % 4096;
    if (err & PF_PRESENT) != 0 {
        if (err & PF_WRITE) == 0 || page >= USER_HALF_END {
            return false;
        }
        proof {
            space.tables.lemma_missing_bound(page);
        }
        match space.tables.leaf(page) {
            Some(entry) => entry.is_present() && entry.is_cow(),
            None => false,
        }
    } else {
        match space.find_vma(page) {
            Some(vma) => match vma.backing {
                Backing::Anonymous => true,
                Backing::File { .. } => fill.is_some(),
            },
            None => false,
        }
    }
}

/// The state after a fault of process `p` was resolved.
pub open spec fn fault_resolved(
    before: &Kernel,
    after: &Kernel,
    p: int,
    err: u64,
    addr: u64,
    fill: Option<u64>,
) -> bool {
    let h = before.procs@[p].address_space as int;
    &&& *after == (Kernel {
        mem: after.mem,
        cow: after.cow,
        spaces: after.spaces,
        log: after.log,
        ..*before
    })
    &&& after.spaces.live(h)
    &&& after.spaces.slots@ == before.spaces.slots@.update(
        h,
        Some(
            SharedSpace { space: after.spaces.at(h), home: before.spaces.slots@[h]->Some_0.home },
        ),
    )
    &&& if err & PF_PRESENT != 0 {
        cow_resolved(
            &before.spaces.at(h),
            &after.spaces.at(h),
            &before.cow,
            &after.cow,
            &before.mem,
            &after.mem,
            before.log@,
            after.log@,
            addr,
        )
    } else {
        file_resolved(
            &before.spaces.at(h),
            &after.spaces.at(h),
            &before.cow,
            &after.cow,
            &before.mem,
            &after.mem,
            before.log@,
            after.log@,
            addr,
            fill,
        )
    }
}

/// What a page fault of process `p` at `addr` leads to.
pub open spec fn fault_handled(
    before: &Kernel,
    after: &Kernel,
    p: int,
    frame: InterruptFrame,
    addr: u64,
    fill: Option<u64>,
    cpu_id: u32,
    r: FaultOutcome,
) -> bool {
    let err = frame.error_code;
    match r {
        FaultOutcome::Resolved => resolvable(&before.space_of(p), err, addr, fill) && fault_resolved(
            before,
            after,
            p,
            err,
            addr,
            fill,
        ),
        FaultOutcome::Killed { line, switch } => {
            &&& !resolvable(&before.space_of(p), err, addr, fill)
            &&& err & PF_USER != 0
            &&& line@ == segv_line(addr, frame.rip, err)
            &&& exited(before, after, p, SIGSEGV_EXIT, cpu_id, switch)
        },
        FaultOutcome::KernelFault => {
            &&& !resolvable(&before.space_of(p), err, addr, fill)
            &&& err & PF_USER == 0
            &&& *after == *before
        },
    }
}

/// The frames that resolving the fault can take are there.
pub open spec fn fault_frames(k: &Kernel, p: int, err: u64, addr: u64, fill: Option<u64>) -> bool {
    let space = k.space_of(p);
    let e = space.pte(addr);
    &&& err & PF_PRESENT != 0 ==> (addr < USER_HALF_END && e.flags.present && e.flags.cow
        && k.cow@.contains_key(e.frame.0) ==> k.mem.pool@.len() > 0 && k.mem.holds(e.frame.0))
    &&& err & PF_PRESENT == 0 ==> (space.vma_at((addr - addr % 4096) as u64) matches Some(v)
        ==> match v.backing {
        Backing::Anonymous => k.mem.pool@.len() > space.tables.missing(addr),
        Backing::File { vnode_ptr, file_offset, .. } => {
            &&& vnode_ptr >= DIRECT_MAP_BASE
            &&& file_offset + (addr - addr % 4096 - v.start) <= u64::MAX
            &&& fill is Some ==> k.mem.pool@.len() >= space.tables.missing(addr)
        },
    })
}

/// A page fault at `addr` on `cpu_id`. `fill` is the page cache's answer to
/// `file_fault_request`. The running thread must belong to a process.
pub fn pf_handler(
    k: &mut Kernel,
    frame: &InterruptFrame,
    addr: u64,
    fill: Option<u64>,
    cpu_id: u32,
) -> (r: FaultOutcome)
    requires
        old(k).wf(),
        old(k).sched.unlocked(cpu_id),
        old(k).current(cpu_id) is Some,
        frame.error_code & PF_USER != 0 && !resolvable(
            &old(k).space_of(old(k).current(cpu_id)->Some_0 as int),
            frame.error_code,
            addr,
            fill,
        ) ==> can_schedule(&old(k).sched, cpu_id),
        fault_frames(
            old(k),
            old(k).current(cpu_id)->Some_0 as int,
            frame.error_code,
            addr,
            fill,
        ),
    ensures
        final(k).wf(),
        fault_handled(
            old(k),
            final(k),
            old(k).current(cpu_id)->Some_0 as int,
            *frame,
            addr,
            fill,
            cpu_id,
            r,
        ),
{
    let p: usize = current_process(k, cpu_id).unwrap();
    let ghost k0 = *k;
    assert(k0.live(p as int));
    assert(k0.process_wf(p as int));
    let h: usize = k.procs[p].address_space;
    assert(k.spaces.live(h as int));
    let resolves: bool = match &k.spaces.slots[h] {
        Some(shared) => can_resolve(&shared.space, frame.error_code, addr, fill),
        None => false,
    };
    if resolves {
        let mut out: Option<SharedSpace> = None;
        std::mem::swap(&mut out, &mut k.spaces.slots[h]);
        let mut shared = out.unwrap();
        let ghost shared0 = shared;
        proof {
            if addr < USER_HALF_END {
                shared0.space.tables.lemma_same_page(addr, (addr - addr % 4096) as u64);
            }
        }
        let is_present = (frame.error_code & PF_PRESENT) != 0;
        if is_present {
            let _ = shared.space.resolve_cow_fault(&mut k.cow, &mut k.mem, &mut k.log, addr);
        } else {
            let _ = shared.space.resolve_file_fault(
                &mut k.cow,
                &mut k.mem,
                &mut k.log,
                addr,
                fill,
            );
        }
        let ghost shared1 = shared;
        k.spaces.slots.set(h, Some(shared));
        proof {
            assert(k.spaces.slots@ =~= k0.spaces.slots@.update(h as int, Some(shared1)));
            assert(k.mem.pool@ =~= k0.mem.pool@.take(k.mem.pool@.len() as int));
            assert(fault_resolved(&k0, k, p as int, frame.error_code, addr, fill));
            if is_present {
                super::state::lemma_apart_same(&shared0.space, &shared1.space, &k0.mem, &k.mem);
            }
            lemma_space_changed(&k0, k, h as int);
        }
        return FaultOutcome::Resolved;
    }
    if (frame.error_code & PF_USER) != 0 {
        let line = segv_report(addr, frame.rip, frame.error_code);
        let switch = Process::exit(k, p, SIGSEGV_EXIT, cpu_id);
        return FaultOutcome::Killed { line, switch };
    }
    FaultOutcome::KernelFault
}

} // verus!
