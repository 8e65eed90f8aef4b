//! What programs see of the memory that they map.

use vstd::prelude::*;
use vstd::string::*;
use crate::paging::{reclaim_state, PageTable, Reclaim, UserTables, USER_HALF_END};
use crate::text::hex;
use super::address_space::{cow_forked, fill_request, is_region, mmap_finds_free_space, mmap_place, munmap_effects, overlaps, range_flushes, range_reclaimed, region_at, vmas_wf, AddressSpace};
use super::cow::has_room;
use super::effects::Effect;
use super::mmap::{mmap_call, mmap_refusal, munmap_call};
use super::lifecycle::exited;
use super::pagefault::{fault_handled, fault_resolved, resolvable, FaultOutcome};
use super::signal::InterruptFrame;
use super::state::Kernel;
use super::usermem::user_byte;
use super::vma::{page_up, Vma};

verus! {

/// Regions do not overlap: the one that contains an address is found, in whatever
/// slot it is.
proof fn lemma_region_found(vmas: Seq<Option<Vma>>, i: int, addr: u64, n: nat)
    requires
        vmas_wf(vmas),
        0 <= i < n <= 32,
        vmas[i] matches Some(v) && v.start <= addr < v.end,
    ensures
        region_at(vmas, addr, n) == vmas[i],
    decreases n,
{
    if i < n - 1 {
        lemma_region_found(vmas, i, addr, (n - 1) as nat);
    } else {
        lemma_nothing_else(vmas, i, addr, (n - 1) as nat);
    }
}

proof fn lemma_nothing_else(vmas: Seq<Option<Vma>>, i: int, addr: u64, n: nat)
    requires
        vmas_wf(vmas),
        n <= i < 32,
        vmas[i] matches Some(v) && v.start <= addr < v.end,
    ensures
        region_at(vmas, addr, n) is None,
    decreases n,
{
    if n > 0 {
        lemma_nothing_else(vmas, i, addr, (n - 1) as nat);
        assert(vmas[n - 1] is Some ==> vmas[n - 1]->Some_0.end <= vmas[i]->Some_0.start
            || vmas[i]->Some_0.end <= vmas[n - 1]->Some_0.start);
    }
}

proof fn lemma_region_none(vmas: Seq<Option<Vma>>, addr: u64, n: nat)
    requires
        n <= vmas.len(),
        forall|i: int|
            0 <= i < n ==> (#[trigger] vmas[i] matches Some(v) ==> !(v.start <= addr < v.end)),
    ensures
        region_at(vmas, addr, n) is None,
    decreases n,
{
    if n > 0 {
        lemma_region_none(vmas, addr, (n - 1) as nat);
    }
}

/// Changing a slot that concerns `addr` neither before nor after changes nothing
/// there.
proof fn lemma_region_kept(a: Seq<Option<Vma>>, b: Seq<Option<Vma>>, slot: int, addr: u64, n: nat)
    requires
        a.len() == b.len(),
        n <= a.len(),
        forall|i: int| 0 <= i < a.len() && i != slot ==> #[trigger] a[i] == b[i],
        0 <= slot < a.len(),
        a[slot] matches Some(v) ==> !(v.start <= addr < v.end),
        b[slot] matches Some(v) ==> !(v.start <= addr < v.end),
    ensures
        region_at(a, addr, n) == region_at(b, addr, n),
    decreases n,
{
    if n > 0 {
        lemma_region_kept(a, b, slot, addr, (n - 1) as nat);
        if n - 1 != slot {
            assert(a[n - 1] == b[n - 1]);
        }
    }
}

/// When `mmap` succeeds, it returns the address of a region that was free, of
/// whole pages, in the range for mappings. At every address of it the program may
/// read, write where `prot` has the value 2, and execute where it has the value 4.
/// With the flag 0x20 nothing backs it; without, the file of the descriptor does,
/// from the given offset on, and it is shared exactly if the flags have the value 1.
pub proof fn mapping_is_what_was_asked_for(
    before: &Kernel,
    after: &Kernel,
    addr_hint: u64,
    length: u64,
    prot: u32,
    flags: u32,
    fd: i64,
    offset: u64,
    cpu_id: u32,
    r: i64,
    p: usize,
    a: u64,
)
    requires
        before.wf(),
        before.current(cpu_id) == Some(p),
        before.live(p as int),
        mmap_call(before, after, addr_hint, length, prot, flags, fd, offset, cpu_id, r),
        r >= 0,
        r <= a < r + length,
    ensures
        r % 4096 == 0,
        0x4000_0000_0000 <= before.space_of(p as int).mmap_next ==> 0x4000_0000_0000 <= r,
        r + length <= 0x7000_0000_0000,
        before.space_of(p as int).vma_at(a) is None,
        ({
            let v = after.space_of(p as int).vma_at(a);
            &&& v is Some
            &&& v->Some_0.start == r
            &&& r + length <= v->Some_0.end < r + length + 4096
            &&& v->Some_0.end % 4096 == 0
            &&& v->Some_0.flags.present
            &&& v->Some_0.flags.user
            &&& v->Some_0.flags.writable == (prot & 2 != 0)
            &&& v->Some_0.flags.no_execute == (prot & 4 == 0)
            &&& !v->Some_0.flags.cow
            &&& flags & 0x20 != 0 ==> v->Some_0.backing is Anonymous
            &&& flags & 0x20 == 0 ==> {
                let file = before.procs@[p as int].fd_table.fds@[fd as int];
                &&& v->Some_0.backing is File
                &&& v->Some_0.backing->file_offset == offset
                &&& v->Some_0.backing->shared == (flags & 1 != 0)
                &&& v->Some_0.is_shared_file() == (flags & 1 != 0)
                &&& fd <= 0x7fff_ffff ==> {
                    &&& 0 <= fd < 64
                    &&& file is Some
                    &&& v->Some_0.backing->vnode_ptr == file->Some_0.vnode_ptr
                }
            }
        }),
{
    let space = before.space_of(p as int);
    let now = after.space_of(p as int);
    let len = page_up(length as int) as u64;
    assert(before.process_wf(p as int));
    assert(before.spaces.live(before.procs@[p as int].address_space as int));
    assert(space.wf());
    assert(mmap_refusal(addr_hint, length, prot, flags, fd, offset) is None);
    assert(after.procs == before.procs);
    assert(mmap_place(space.vmas@, space.mmap_next, len) is Some);
    let (slot, start) = mmap_place(space.vmas@, space.mmap_next, len)->Some_0;
    mmap_finds_free_space(space.vmas@, space.mmap_next, len);
    lemma_slot(space.vmas@, 32);
    let vma = now.vmas@[slot]->Some_0;
    assert(now.vmas@ == space.vmas@.update(slot, Some(vma)));
    assert(vma.start == start && vma.end == start + len);
    assert(!overlaps(space.vmas@, start, start + len));
    assert forall|i: int| 0 <= i < 32 implies (#[trigger] space.vmas@[i] matches Some(v) ==> !(v.start
        <= a < v.end)) by {
        if space.vmas@[i] is Some {
            assert(!(start < space.vmas@[i]->Some_0.end && space.vmas@[i]->Some_0.start < start
                + len));
        }
    }
    lemma_region_none(space.vmas@, a, 32);
    assert(vmas_wf(now.vmas@)) by {
        assert(after.spaces.live(before.procs@[p as int].address_space as int));
        lemma_still_wf(space.vmas@, now.vmas@, slot, vma);
    }
    lemma_region_found(now.vmas@, slot, a, 32);
}

proof fn lemma_slot(vmas: Seq<Option<Vma>>, n: nat)
    ensures
        super::address_space::first_free_slot(vmas, n) matches Some(i) ==> 0 <= i < n,
    decreases n,
{
    if n > 0 {
        lemma_slot(vmas, (n - 1) as nat);
    }
}

proof fn lemma_still_wf(a: Seq<Option<Vma>>, b: Seq<Option<Vma>>, slot: int, vma: Vma)
    requires
        vmas_wf(a),
        0 <= slot < 32,
        b == a.update(slot, Some(vma)),
        vma.start < vma.end <= 0x7000_0000_0000,
        vma.start % 4096 == 0,
        vma.end % 4096 == 0,
        !overlaps(a, vma.start as int, vma.end as int),
    ensures
        vmas_wf(b),
{
    assert forall|i: int, j: int| 0 <= i < j < 32 implies (#[trigger] b[i] matches Some(v) ==> (
    #[trigger] b[j] matches Some(w) ==> v.end <= w.start || w.end <= v.start)) by {
        if b[i] is Some && b[j] is Some {
            if i == slot {
                assert(a[j] == b[j]);
            } else if j == slot {
                assert(a[i] == b[i]);
            } else {
                assert(a[i] == b[i] && a[j] == b[j]);
            }
        }
    }
}

/// `mmap` touches no memory: what a program could read before, it reads still, and
/// the other regions stay as they are.
pub proof fn mapping_keeps_the_rest(
    before: &Kernel,
    after: &Kernel,
    addr_hint: u64,
    length: u64,
    prot: u32,
    flags: u32,
    fd: i64,
    offset: u64,
    cpu_id: u32,
    r: i64,
    p: usize,
    a: u64,
)
    requires
        before.wf(),
        before.current(cpu_id) == Some(p),
        before.live(p as int),
        mmap_call(before, after, addr_hint, length, prot, flags, fd, offset, cpu_id, r),
    ensures
        user_byte(&after.space_of(p as int).tables, &after.mem, a as int) == user_byte(
            &before.space_of(p as int).tables,
            &before.mem,
            a as int,
        ),
        r < 0 || a < r || r + length + 4095 < a ==> after.space_of(p as int).vma_at(a)
            == before.space_of(p as int).vma_at(a),
{
    let space = before.space_of(p as int);
    let now = after.space_of(p as int);
    let len = page_up(length as int) as u64;
    assert(before.process_wf(p as int));
    assert(before.spaces.live(before.procs@[p as int].address_space as int));
    assert(space.wf());
    if mmap_place(space.vmas@, space.mmap_next, len) is Some {
        mmap_finds_free_space(space.vmas@, space.mmap_next, len);
    }
    if r >= 0 && (a < r || r + length + 4095 < a) {
        let (slot, start) = mmap_place(space.vmas@, space.mmap_next, len)->Some_0;
        lemma_slot(space.vmas@, 32);
        lemma_free(space.vmas@, 32);
        assert(space.vmas@[slot] is None);
        let vma = now.vmas@[slot]->Some_0;
        assert(now.vmas@ == space.vmas@.update(slot, Some(vma)));
        assert(vma.start == r && vma.end == r + len);
        lemma_region_kept(space.vmas@, now.vmas@, slot, a, 32);
    }
}

proof fn lemma_free(vmas: Seq<Option<Vma>>, n: nat)
    ensures
        super::address_space::first_free_slot(vmas, n) matches Some(i) ==> vmas[i] is None,
    decreases n,
{
    if n > 0 {
        lemma_free(vmas, (n - 1) as nat);
    }
}

/// When `munmap` succeeds, nothing is mapped any more at any address of the region
/// that it was given, nor reserved; everything else reads as before.
pub proof fn unmapped_memory_is_gone(
    before: &Kernel,
    after: &Kernel,
    addr: u64,
    length: u64,
    cpu_id: u32,
    r: i64,
    p: usize,
    a: u64,
)
    requires
        before.wf(),
        before.current(cpu_id) == Some(p),
        before.live(p as int),
        munmap_call(before, after, addr, length, cpu_id, r),
        r == 0,
        a < USER_HALF_END,
    ensures
        addr <= a < addr + length ==> {
            &&& after.space_of(p as int).vma_at(a) is None
            &&& user_byte(&after.space_of(p as int).tables, &after.mem, a as int) is None
        },
        a < addr || addr + length + 4095 < a ==> {
            &&& after.space_of(p as int).vma_at(a) == before.space_of(p as int).vma_at(a)
            &&& user_byte(&after.space_of(p as int).tables, &after.mem, a as int) == user_byte(
                &before.space_of(p as int).tables,
                &before.mem,
                a as int,
            )
        },
{
    let space = before.space_of(p as int);
    let left = after.space_of(p as int);
    let len = page_up(length as int);
    assert(before.process_wf(p as int));
    assert(before.spaces.live(before.procs@[p as int].address_space as int));
    assert(space.wf());
    let i = choose|i: int| #[trigger] is_region(space.vmas@, i, addr as int, addr + len);
    assert(is_region(space.vmas@, i, addr as int, addr + len));
    assert(left.pte(a) == (if addr <= a < addr + len && space.pte(a).flags.present {
        crate::mem::PageTableEntry::blank()
    } else {
        space.pte(a)
    }));
    if addr <= a < addr + length {
        assert forall|j: int| 0 <= j < 32 implies (#[trigger] left.vmas@[j] matches Some(v) ==> !(v.start
            <= a < v.end)) by {
            if j != i && left.vmas@[j] is Some {
                assert(left.vmas@[j] == space.vmas@[j]);
                if i < j {
                    assert(space.vmas@[i] is Some && space.vmas@[j] is Some);
                } else {
                    assert(space.vmas@[j] is Some && space.vmas@[i] is Some);
                }
            }
        }
        lemma_region_none(left.vmas@, a, 32);
    }
    if a < addr || addr + length + 4095 < a {
        lemma_region_kept(space.vmas@, left.vmas@, i, a, 32);
    }
}

/// The first access to a page of a file mapped privately, be it a read or a write,
/// maps the page cache's frame so that the program can only read it. A write to it
/// then gives the program a frame of its own, which reads as the cached one did: the
/// cached frame is never writable, and keeps what it holds. The cached frame must
/// be counted, for which its part of the table of shared frames needs room.
pub proof fn private_mapping_leaves_the_file_alone(
    k0: &Kernel,
    k1: &Kernel,
    k2: &Kernel,
    p: int,
    first: u64,
    second: u64,
    a: u64,
    b: u64,
    cached: u64,
)
    requires
        a < USER_HALF_END,
        k0.space_of(p).vma_at((a - a % 4096) as u64) matches Some(v) && v.backing is File
            && !v.backing->shared && v.flags.present,
        k0.cow@.contains_key(cached) || has_room(k0.cow@, cached),
        first & 1 == 0,
        fault_resolved(k0, k1, p, first, a, Some(cached)),
        k1.mem.wf(),
        k1.mem.pool@.len() > 0,
        k1.mem.holds(cached),
        !k1.mem.pool@.contains(cached),
        b - b % 4096 == a - a % 4096,
        second & 1 != 0,
        fault_resolved(k1, k2, p, second, b, None),
    ensures
        k1.space_of(p).pte(a).flags.present,
        k1.space_of(p).pte(a).frame.0 == cached,
        !k1.space_of(p).pte(a).flags.writable,
        k1.mem.page(cached) == k0.mem.page(cached),
        second & 2 != 0 ==> resolvable(&k1.space_of(p), second, b, None),
        k2.space_of(p).pte(a).flags.writable,
        k2.space_of(p).pte(a).frame.0 != cached,
        k2.mem.page(cached) == k0.mem.page(cached),
        k2.mem.page(k2.space_of(p).pte(a).frame.0) == k0.mem.page(cached),
{
    let page = (a - a % 4096) as u64;
    let s1 = k1.space_of(p);
    assert(k1.procs == k0.procs);
    assert(s1.pte(page).frame.0 == cached);
    assert(s1.pte(a) == s1.pte(page));
    assert(k1.cow@.contains_key(cached));
    let new = k1.mem.nth_free(0);
    assert(k1.mem.pool@[k1.mem.pool@.len() - 1] == new);
    assert(k2.space_of(p).pte(a).frame.0 == new);
    assert(k2.mem.page(new) =~= k1.mem.page(cached));
    assert(k1.mem.holds(new));
    assert(k2.mem.page(cached) =~= k1.mem.page(cached)) by {
        assert(cached + 4096 <= new || new + 4096 <= cached);
    }
}

/// An access to a page of a file mapped shared maps the page cache's frame itself,
/// with the rights of the region, and the file's page is noted as changed where the
/// program can write to it. The frame is never copied: no later write fault on the
/// page is resolved.
pub proof fn shared_mapping_is_the_file(
    k0: &Kernel,
    k1: &Kernel,
    p: int,
    first: u64,
    second: u64,
    a: u64,
    b: u64,
    cached: u64,
)
    requires
        a < USER_HALF_END,
        k0.space_of(p).vma_at((a - a % 4096) as u64) matches Some(v) && v.backing is File
            && v.backing->shared && v.flags.present && !v.flags.cow,
        first & 1 == 0,
        fault_resolved(k0, k1, p, first, a, Some(cached)),
        b - b % 4096 == a - a % 4096,
        second & 1 != 0,
    ensures
        ({
            let v = k0.space_of(p).vma_at((a - a % 4096) as u64)->Some_0;
            &&& k1.space_of(p).pte(a).flags.present
            &&& k1.space_of(p).pte(a).frame.0 == cached
            &&& k1.space_of(p).pte(a).flags == v.flags
            &&& k1.cow@ == k0.cow@
            &&& k1.mem.page(cached) == k0.mem.page(cached)
            &&& v.flags.writable ==> k1.log@.contains(
                Effect::MarkDirty {
                    vnode: v.backing->vnode_ptr,
                    offset: (v.backing->file_offset + (a - a % 4096 - v.start)) as u64,
                },
            )
        }),
        !resolvable(&k1.space_of(p), second, b, None),
{
    let page = (a - a % 4096) as u64;
    let v = k0.space_of(p).vma_at(page)->Some_0;
    let s1 = k1.space_of(p);
    assert(k1.procs == k0.procs);
    assert(s1.pte(a) == s1.pte(page));
    if v.flags.writable {
        let dirty = Effect::MarkDirty {
            vnode: v.backing->vnode_ptr,
            offset: (v.backing->file_offset + (a - a % 4096 - v.start)) as u64,
        };
        assert(k1.log@[k0.log@.len() as int] == dirty);
    }
}

/// What a program maps without a file is there when it first touches it: zeroes,
/// which it can write to, in a frame that nothing was in.
pub proof fn anonymous_memory_starts_as_zeroes(
    k0: &Kernel,
    k1: &Kernel,
    p: int,
    err: u64,
    a: u64,
    fill: Option<u64>,
)
    requires
        a < USER_HALF_END,
        k0.space_of(p).vma_at((a - a % 4096) as u64) matches Some(v) && v.backing is Anonymous
            && v.flags.present,
        err & 1 == 0,
        fault_resolved(k0, k1, p, err, a, fill),
        k0.mem.wf(),
        k0.mem.pool@.len() > 0,
        k1.mem.wf(),
        k1.mem.bytes@.len() == k0.mem.bytes@.len(),
    ensures
        k1.space_of(p).pte(a).flags.present,
        k1.space_of(p).pte(a).flags.writable,
        k0.mem.pool@.contains(k1.space_of(p).pte(a).frame.0),
        user_byte(&k1.space_of(p).tables, &k1.mem, a as int) == Some(0u8),
{
    let page = (a - a % 4096) as u64;
    let s1 = k1.space_of(p);
    let frame = k0.mem.nth_free(0);
    assert(k1.procs == k0.procs);
    assert(s1.pte(a).frame.0 == frame);
    assert(k0.mem.pool@[k0.mem.pool@.len() - 1] == frame);
    assert(k0.mem.holds(frame));
    assert(k1.mem.page(frame)[(a % 4096) as int] == 0u8);
}

/// A write to a page that is shared copy-on-write goes on to a page that reads as it
/// did, whether the program was its last owner or not; every other page stays as it
/// is.
pub proof fn written_page_reads_as_before(k0: &Kernel, k1: &Kernel, p: int, err: u64, a: u64, x: u64)
    requires
        err & 1 != 0,
        resolvable(&k0.space_of(p), err, a, None),
        fault_resolved(k0, k1, p, err, a, None),
        k0.mem.wf(),
        k0.mem.pool@.len() > 0,
        k1.mem.bytes@.len() == k0.mem.bytes@.len(),
        x < USER_HALF_END,
        x - x % 4096 == a - a % 4096,
        k0.mem.holds(k0.space_of(p).pte(a).frame.0),
    ensures
        k1.space_of(p).pte(x).flags.present,
        k1.space_of(p).pte(x).flags.writable,
        !k1.space_of(p).pte(x).flags.cow,
        user_byte(&k1.space_of(p).tables, &k1.mem, x as int) == user_byte(
            &k0.space_of(p).tables,
            &k0.mem,
            x as int,
        ),
{
    let page = (a - a % 4096) as u64;
    let s0 = k0.space_of(p);
    let s1 = k1.space_of(p);
    assert(k1.procs == k0.procs);
    s0.tables.lemma_same_page(a, page);
    s0.tables.lemma_same_page(x, page);
    let e = s0.pte(page);
    let new = k0.mem.nth_free(0);
    if k0.cow@.contains_key(e.frame.0) {
        assert(k0.mem.pool@[k0.mem.pool@.len() - 1] == new);
        assert(k0.mem.holds(new));
        assert(k1.mem.page(new) =~= k0.mem.page(e.frame.0));
        assert(k1.mem.page(new)[(x % 4096) as int] == k0.mem.page(e.frame.0)[(x % 4096) as int]);
    }
}

/// A file mapped by `mmap` is the file itself if the flags have the value 1, and a
/// private view of it otherwise: at the first access, the page cache's frame is
/// mapped, and a page of a shared mapping never is copied, a page of a private one
/// never can be written to before it was.
pub proof fn mapped_file_is_shared_as_asked(
    k0: &Kernel,
    k1: &Kernel,
    k2: &Kernel,
    length: u64,
    prot: u32,
    flags: u32,
    fd: i64,
    offset: u64,
    cpu_id: u32,
    r: i64,
    p: usize,
    err: u64,
    write: u64,
    a: u64,
    cached: u64,
)
    requires
        k0.wf(),
        k0.current(cpu_id) == Some(p),
        k0.live(p as int),
        flags & 0x20 == 0,
        mmap_call(k0, k1, 0, length, prot, flags, fd, offset, cpu_id, r),
        r >= 0,
        r <= a < r + length,
        err & 1 == 0,
        fault_resolved(k1, k2, p as int, err, a, Some(cached)),
        write & 1 != 0,
        write & 2 != 0,
    ensures
        ({
            let e = k2.space_of(p as int).pte(a);
            &&& e.flags.present
            &&& e.flags.user
            &&& e.frame.0 == cached
            &&& e.flags.no_execute == (prot & 4 == 0)
            &&& flags & 1 != 0 ==> e.flags.writable == (prot & 2 != 0) && !resolvable(
                &k2.space_of(p as int),
                write,
                a,
                None,
            )
            &&& flags & 1 == 0 ==> !e.flags.writable && resolvable(
                &k2.space_of(p as int),
                write,
                a,
                None,
            )
        }),
        fill_request(&k1.space_of(p as int), a) is Some,
        offset + (a - a % 4096 - r) <= u64::MAX ==> fill_request(
            &k1.space_of(p as int),
            a,
        )->Some_0.1 == offset + (a - a % 4096 - r),
        fd <= 0x7fff_ffff ==> k0.procs@[p as int].fd_table.fds@[fd as int] is Some && fill_request(
            &k1.space_of(p as int),
            a,
        )->Some_0.0 == k0.procs@[p as int].fd_table.fds@[fd as int]->Some_0.vnode_ptr,
{
    let page = (a - a % 4096) as u64;
    mapping_is_what_was_asked_for(
        k0,
        k1,
        0,
        length,
        prot,
        flags,
        fd,
        offset,
        cpu_id,
        r,
        p,
        a,
    );
    assert(page >= r) by {
        assert(r % 4096 == 0);
    }
    mapping_is_what_was_asked_for(
        k0,
        k1,
        0,
        length,
        prot,
        flags,
        fd,
        offset,
        cpu_id,
        r,
        p,
        page,
    );
    let s2 = k2.space_of(p as int);
    assert(k2.procs == k1.procs);
    assert(s2.pte(a) == s2.pte(page));
}

/// A program can write through to a file only if it had it open for writing: a
/// shared mapping that can be written to needs such a descriptor.
pub proof fn writable_shared_mapping_needs_a_writable_file(
    before: &Kernel,
    after: &Kernel,
    length: u64,
    prot: u32,
    flags: u32,
    fd: i64,
    offset: u64,
    cpu_id: u32,
    r: i64,
    p: usize,
)
    requires
        before.wf(),
        before.current(cpu_id) == Some(p),
        before.live(p as int),
        0 <= fd <= 0x7fff_ffff,
        flags & 0x20 == 0,
        flags & 1 != 0,
        prot & 2 != 0,
        mmap_call(before, after, 0, length, prot, flags, fd, offset, cpu_id, r),
    ensures
        r >= 0 ==> {
            let file = before.procs@[p as int].fd_table.fds@[fd as int];
            file is Some && (file->Some_0.flags & 3 == 1 || file->Some_0.flags & 3 == 2)
        },
{
}

/// A file's page is the same frame in a parent and its child, with the same rights,
/// if it was mapped shared; any other page can be written to by neither of them
/// before one of them has its own.
pub proof fn fork_keeps_shared_files_shared(
    before: &AddressSpace,
    after: &AddressSpace,
    child: &AddressSpace,
    kernel: &PageTable,
    pcid: u16,
    v: u64,
)
    requires
        cow_forked(before, after, child, kernel, pcid),
        v < USER_HALF_END,
        v % 4096 == 0,
        before.pte(v).flags.present,
    ensures
        after.pte(v).frame == before.pte(v).frame,
        child.pte(v) == after.pte(v),
        (before.vma_at(v) matches Some(m) && m.backing is File && m.backing->shared)
            ==> child.pte(v).flags == before.pte(v).flags,
        !(before.vma_at(v) matches Some(m) && m.backing is File && m.backing->shared)
            ==> !child.pte(v).flags.writable && child.pte(v).flags.cow,
        forall|x: u64| #[trigger] child.vma_at(x) == before.vma_at(x),
{
}

/// What an access that faults leads to. In a region without a file it goes on; in one
/// of a file it does if the page could be had; so does a write to a page that is
/// shared copy-on-write. Any other access of a program ends it with code -11, and the
/// console is told the address, the instruction and the kind of access in sixteen
/// hexadecimal digits each; of the kernel's own, nothing comes but that it was one.
pub proof fn bad_access_ends_the_program(
    before: &Kernel,
    after: &Kernel,
    p: int,
    frame: InterruptFrame,
    addr: u64,
    fill: Option<u64>,
    cpu_id: u32,
    r: FaultOutcome,
)
    requires
        fault_handled(before, after, p, frame, addr, fill, cpu_id, r),
    ensures
        ({
            let page = (addr - addr % 4096) as u64;
            let space = before.space_of(p);
            let absent = frame.error_code & 1 == 0;
            let write = frame.error_code & 2 != 0;
            let user = frame.error_code & 4 != 0;
            let region = space.vma_at(page);
            let goes_on = if absent {
                region is Some && (region->Some_0.backing is Anonymous || fill is Some)
            } else {
                write && addr < 0x8000_0000_0000 && space.pte(page).flags.present && space.pte(
                    page,
                ).flags.cow
            };
            &&& r is Resolved == goes_on
            &&& !goes_on && user ==> {
                &&& r is Killed
                &&& exited(before, after, p, -11i32, cpu_id, r->switch)
                &&& r->line@ == "\n[SIGSEGV addr=".spec_bytes() + hex(addr as nat, 16)
                    + " rip=".spec_bytes() + hex(frame.rip as nat, 16) + " err=".spec_bytes() + hex(
                    frame.error_code as nat,
                    16,
                ) + "]\n".spec_bytes()
            }
            &&& !goes_on && !user ==> r is KernelFault && *after == *before
        }),
{
}

proof fn lemma_flushed(t: &UserTables, cpus: u64, start: u64, k: nat, i: int)
    requires
        0 <= i < k,
        t.pte((start + i * 4096) as u64).flags.present,
    ensures
        range_flushes(t, cpus, start, k).contains(
            Effect::Shootdown { cpus, virt: (start + i * 4096) as u64 },
        ),
    decreases k,
{
    let all = range_flushes(t, cpus, start, k);
    let e = Effect::Shootdown { cpus, virt: (start + i * 4096) as u64 };
    if i < k - 1 {
        lemma_flushed(t, cpus, start, (k - 1) as nat, i);
        let before = range_flushes(t, cpus, start, (k - 1) as nat);
        let j = choose|j: int| 0 <= j < before.len() && before[j] == e;
        assert(all[j] == e);
    } else {
        assert(all.last() == e);
    }
}

proof fn lemma_only_flushes(t: &UserTables, cpus: u64, start: u64, k: nat, j: int)
    requires
        0 <= j < range_flushes(t, cpus, start, k).len(),
    ensures
        range_flushes(t, cpus, start, k)[j] is Shootdown,
    decreases k,
{
    if k > 0 && j < range_flushes(t, cpus, start, (k - 1) as nat).len() {
        lemma_only_flushes(t, cpus, start, (k - 1) as nat, j);
    }
}

proof fn lemma_freed(t: &UserTables, start: u64, k: nat, st: Reclaim, i: int)
    requires
        0 <= i < k,
    ensures
        ({
            let e = t.pte((start + i * 4096) as u64);
            e.flags.present && !e.flags.cow ==> range_reclaimed(t, start, k, st).freed.contains(
                e.frame.0,
            )
        }),
    decreases k,
{
    let e = t.pte((start + i * 4096) as u64);
    let all = range_reclaimed(t, start, k, st).freed;
    let before = range_reclaimed(t, start, (k - 1) as nat, st).freed;
    if e.flags.present && !e.flags.cow {
        if i < k - 1 {
            lemma_freed(t, start, (k - 1) as nat, st, i);
            let j = choose|j: int| 0 <= j < before.len() && before[j] == e.frame.0;
            assert(all[j] == e.frame.0);
        } else {
            assert(all.last() == e.frame.0);
        }
    }
}

/// A region that is unmapped lets go of what it had. A file is given up, and what was
/// written to a shared one goes back to it first; its pages stay with the page cache.
/// The frames of other pages that belong to the program alone are free again. Every
/// CPU that uses the space forgets each page that was mapped.
pub proof fn unmapping_lets_go(
    before: &Kernel,
    after: &Kernel,
    addr: u64,
    length: u64,
    cpu_id: u32,
    r: i64,
    p: usize,
    slot: int,
    i: int,
)
    requires
        before.wf(),
        before.current(cpu_id) == Some(p),
        before.live(p as int),
        munmap_call(before, after, addr, length, cpu_id, r),
        r == 0,
        is_region(before.space_of(p as int).vmas@, slot, addr as int, addr + page_up(length as int)),
        0 <= i < page_up(length as int) / 4096,
    ensures
        ({
            let space = before.space_of(p as int);
            let v = space.vmas@[slot]->Some_0;
            let n = before.log@.len() as int;
            let page = (addr + i * 4096) as u64;
            let e = space.pte(page);
            let shared = v.backing is File && v.backing->shared;
            &&& after.log@.len() >= n && after.log@.take(n) == before.log@
            &&& v.backing is File ==> after.log@.len() > n && after.log@.last() == (Effect::DecRef {
                vnode: v.backing->vnode_ptr,
            })
            &&& shared ==> {
                &&& after.log@[n] == (Effect::Writeback { vnode: v.backing->vnode_ptr })
                &&& after.mem.freed@ == before.mem.freed@
                &&& after.cow@ == before.cow@
            }
            &&& !shared ==> forall|j: int| n <= j < after.log@.len() ==> !(#[trigger] after.log@[j] is Writeback)
            &&& !shared && e.flags.present && !e.flags.cow ==> after.mem.freed@.contains(e.frame.0)
            &&& e.flags.present ==> after.log@.contains(
                Effect::Shootdown { cpus: space.active_cpus.mask(), virt: page },
            )
        }),
{
    let space = before.space_of(p as int);
    let v = space.vmas@[slot]->Some_0;
    let n = before.log@.len() as int;
    let cpus = space.active_cpus.mask();
    let pages = (page_up(length as int) / 4096) as nat;
    let flushes = range_flushes(&space.tables, cpus, addr, pages);
    let effects = munmap_effects(v, &space.tables, cpus);
    let page = (addr + i * 4096) as u64;
    assert(before.process_wf(p as int));
    assert(before.spaces.live(before.procs@[p as int].address_space as int));
    assert(after.log@ == before.log@ + effects);
    assert((v.end - v.start) / 4096 == pages);
    assert(after.log@.take(n) =~= before.log@);
    let shared = v.backing is File && v.backing->shared;
    let at = if shared {
        1int
    } else {
        0
    };
    assert forall|j: int| 0 <= j < flushes.len() implies effects[at + j] == #[trigger] flushes[j] by {}
    if space.pte(page).flags.present {
        lemma_flushed(&space.tables, cpus, addr, pages, i);
        let e = Effect::Shootdown { cpus, virt: page };
        let j = choose|j: int| 0 <= j < flushes.len() && flushes[j] == e;
        assert(after.log@[n + at + j] == e);
    }
    if v.backing is File {
        assert(after.log@.last() == effects.last());
    }
    if shared {
        assert(after.log@[n] == effects[0]);
    } else {
        lemma_freed(&space.tables, addr, pages, reclaim_state(&before.cow, &before.mem), i);
        assert forall|j: int| n <= j < after.log@.len() implies !(#[trigger] after.log@[j] is Writeback) by {
            assert(after.log@[j] == effects[j - n]);
            if j - n < flushes.len() {
                lemma_only_flushes(&space.tables, cpus, addr, pages, j - n);
                assert(effects[at + (j - n)] == flushes[j - n]);
            }
        }
    }
}

/// A mapping that can be made is made: whole pages of zeroes, or of a file that is open
/// and may be mapped this way, private or shared and not both, as long as a region and
/// enough addresses are left. The next one is looked for behind it.
pub proof fn possible_mapping_is_made(
    before: &Kernel,
    after: &Kernel,
    length: u64,
    prot: u32,
    flags: u32,
    fd: i64,
    offset: u64,
    cpu_id: u32,
    r: i64,
    p: usize,
)
    requires
        before.wf(),
        before.current(cpu_id) == Some(p),
        before.live(p as int),
        mmap_call(before, after, 0, length, prot, flags, fd, offset, cpu_id, r),
        0 < length <= 0xffff_ffff_ffff_f000,
        prot & 0xffff_fff8 == 0,
        flags & 3 == 1 || flags & 3 == 2,
        offset % 4096 == 0,
        flags & 0x20 != 0 ==> fd == -1,
        flags & 0x20 == 0 ==> {
            let file = before.procs@[p as int].fd_table.fds@[fd as int];
            &&& 0 <= fd < 64
            &&& file is Some
            &&& file->Some_0.vnode_ptr != 0
            &&& flags & 1 != 0 && prot & 2 != 0 ==> file->Some_0.flags & 3 == 1 || file->Some_0.flags & 3
                == 2
        },
        mmap_place(
            before.space_of(p as int).vmas@,
            before.space_of(p as int).mmap_next,
            page_up(length as int) as u64,
        ) is Some,
    ensures
        r >= 0,
        after.space_of(p as int).mmap_next == r + page_up(length as int),
{
    let space = before.space_of(p as int);
    let len = page_up(length as int) as u64;
    mmap_finds_free_space(space.vmas@, space.mmap_next, len);
    assert(prot & !7u32 == 0) by (bit_vector)
        requires
            prot & 0xffff_fff8 == 0,
    ;
    assert(page_up(length as int) <= u64::MAX);
}

/// A mapping that cannot be made is refused for what is wrong with it, and then nothing
/// is mapped: -22 for arguments that make no sense, -9 for a descriptor that is not
/// open, -13 for writing to a shared file that is not open for it, and -12 where no
/// region or no addresses are left.
pub proof fn impossible_mapping_is_refused(
    before: &Kernel,
    after: &Kernel,
    addr_hint: u64,
    length: u64,
    prot: u32,
    flags: u32,
    fd: i64,
    offset: u64,
    cpu_id: u32,
    r: i64,
    p: usize,
)
    requires
        before.wf(),
        before.current(cpu_id) == Some(p),
        before.live(p as int),
        fd <= 0x7fff_ffff,
        mmap_call(before, after, addr_hint, length, prot, flags, fd, offset, cpu_id, r),
    ensures
        addr_hint != 0 || length == 0 || offset % 4096 != 0 || prot >= 8 || flags & 3 == 0 || flags & 3
            == 3 || (flags & 0x20 != 0 && fd != -1) ==> r == -22 && *after == *before,
        r == -9 ==> flags & 0x20 == 0 && *after == *before && (fd < 0 || fd >= 64
            || before.procs@[p as int].fd_table.fds@[fd as int] is None
            || before.procs@[p as int].fd_table.fds@[fd as int]->Some_0.vnode_ptr == 0),
        r == -13 ==> flags & 0x20 == 0 && flags & 1 != 0 && prot & 2 != 0 && *after == *before,
        r < 0 ==> r == -22 || r == -9 || r == -13 || r == -12,
        r < 0 ==> after.space_of(p as int) == before.space_of(p as int),
{
    let space = before.space_of(p as int);
    let len = page_up(length as int) as u64;
    if mmap_place(space.vmas@, space.mmap_next, len) is Some {
        mmap_finds_free_space(space.vmas@, space.mmap_next, len);
    }
    if prot >= 8 {
        assert(prot & !7u32 != 0) by (bit_vector)
            requires
                prot >= 8,
        ;
    }
}

/// Only a region that was mapped can be unmapped, and as a whole.
pub proof fn only_regions_are_unmapped(
    before: &Kernel,
    after: &Kernel,
    addr: u64,
    length: u64,
    cpu_id: u32,
    r: i64,
    p: usize,
    i: int,
)
    requires
        before.wf(),
        before.current(cpu_id) == Some(p),
        before.live(p as int),
        munmap_call(before, after, addr, length, cpu_id, r),
        0 <= i < 32,
    ensures
        r == 0 || r == -22,
        r == -22 ==> after.space_of(p as int) == before.space_of(p as int) && after.mem == before.mem
            && after.log@ == before.log@,
        (before.space_of(p as int).vmas@[i] matches Some(v) && v.start == addr && v.end - v.start
            == length) ==> r == 0 || addr == 0,
{
    let space = before.space_of(p as int);
    assert(before.process_wf(p as int));
    assert(before.spaces.live(before.procs@[p as int].address_space as int));
    assert(space.wf());
    if let Some(v) = space.vmas@[i] {
        if v.start == addr && v.end - v.start == length {
            assert(page_up(length as int) == length);
            assert(is_region(space.vmas@, i, addr as int, addr + page_up(length as int)));
        }
    }
}

} // verus!
