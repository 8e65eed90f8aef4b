//! The address space of a process: its regions and its page tables.

use vstd::prelude::*;
use crate::bytes::overwrite;
use crate::mem::{zero_page, PageFlags, PageTableEntry, PhysAddr, PhysMem, DIRECT_MAP_BASE};
use crate::paging::{leaf_reclaimed, page_number, reclaim_leaf, reclaim_state, PageTable, Reclaim, UserTables, USER_HALF_END};
use super::cow::{cow_release, cow_share, has_room, released, shared, CowTable};
use super::effects::Effect;
use super::elf::{LoadSegment, PF_W, PF_X};
use super::shootdown::ActiveCpuMask;
use super::signal::{SIGRETURN_TRAMPOLINE_CODE, SIGRETURN_TRAMPOLINE_VA};
use super::ustack::{USTACK_SIZE, USTACK_TOP};
use super::vma::{align_up_page, page_up, Backing, Vma, MAX_VMAS, MMAP_BASE, MMAP_REGION_END};

verus! {

pub struct AddressSpace {
    pub pml4_phys: PhysAddr,
    pub pcid: u16,
    pub vmas: [Option<Vma>; MAX_VMAS],
    pub mmap_next: u64,
    /// How many processes use this address space.
    pub refcount: u32,
    /// The CPUs that have it loaded.
    pub active_cpus: ActiveCpuMask,
    pub tables: UserTables,
}

/// The regions are page-aligned, lie below the end of the mmap region, and do
/// not overlap.
pub open spec fn vmas_wf(vmas: Seq<Option<Vma>>) -> bool {
    &&& vmas.len() == 32
    &&& forall|i: int|
        0 <= i < 32 ==> (#[trigger] vmas[i] matches Some(v) ==> {
            &&& v.start < v.end <= MMAP_REGION_END
            &&& v.start % 4096 == 0
            &&& v.end % 4096 == 0
        })
    &&& forall|i: int, j: int|
        0 <= i < j < 32 ==> (#[trigger] vmas[i] matches Some(v) ==> (#[trigger] vmas[j] matches Some(
            w,
        ) ==> v.end <= w.start || w.end <= v.start))
}

/// Some region overlaps `start..end`.
pub open spec fn overlaps(vmas: Seq<Option<Vma>>, start: int, end: int) -> bool {
    exists|i: int|
        0 <= i < vmas.len() && (#[trigger] vmas[i] matches Some(v) && start < v.end && v.start < end)
}

/// The first of `start`, `start + len`, ... at which `len` bytes are free
/// below the end of the mmap region.
pub open spec fn first_gap(vmas: Seq<Option<Vma>>, start: int, len: int) -> Option<int>
    decreases MMAP_REGION_END - start,
{
    if len <= 0 || start + len > MMAP_REGION_END {
        None
    } else if !overlaps(vmas, start, start + len) {
        Some(start)
    } else {
        first_gap(vmas, start + len, len)
    }
}

/// The lowest-numbered slot that holds no region.
pub open spec fn first_free_slot(vmas: Seq<Option<Vma>>, n: nat) -> Option<int>
    decreases n,
{
    if n == 0 {
        None
    } else {
        match first_free_slot(vmas, (n - 1) as nat) {
            Some(i) => Some(i),
            None => if vmas[n - 1] is None {
                Some(n - 1)
            } else {
                None
            },
        }
    }
}

/// The region in the lowest-numbered of the first `n` slots that contains `addr`.
pub open spec fn region_at(vmas: Seq<Option<Vma>>, addr: u64, n: nat) -> Option<Vma>
    decreases n,
{
    if n == 0 {
        None
    } else {
        match region_at(vmas, addr, (n - 1) as nat) {
            Some(v) => Some(v),
            None => match vmas[n - 1] {
                Some(v) if v.spec_contains(addr) => Some(v),
                _ => None,
            },
        }
    }
}

/// Slot `i` holds exactly the region `start..end`.
pub open spec fn is_region(vmas: Seq<Option<Vma>>, i: int, start: int, end: int) -> bool {
    &&& 0 <= i < vmas.len()
    &&& vmas[i] matches Some(v) && v.start == start && v.end == end
}

/// Where a new region of `len` bytes goes, and in which slot, if anywhere.
pub open spec fn mmap_place(vmas: Seq<Option<Vma>>, next: u64, len: u64) -> Option<(int, int)> {
    if len == 0 || len % 4096 != 0 || next + 4095 > u64::MAX {
        None
    } else {
        match (first_free_slot(vmas, 32), first_gap(vmas, page_up(next as int), len as int)) {
            (Some(slot), Some(start)) => Some((slot, start)),
            _ => None,
        }
    }
}

proof fn lemma_first_free_slot(vmas: Seq<Option<Vma>>, n: nat)
    requires
        n <= vmas.len(),
    ensures
        match first_free_slot(vmas, n) {
            Some(i) => 0 <= i < n && vmas[i] is None,
            None => forall|i: int| 0 <= i < n ==> #[trigger] vmas[i] is Some,
        },
    decreases n,
{
    if n > 0 {
        lemma_first_free_slot(vmas, (n - 1) as nat);
    }
}

/// A region that overlaps no other can be added.
proof fn lemma_vmas_with(vmas: Seq<Option<Vma>>, slot: int, vma: Vma)
    requires
        vmas_wf(vmas),
        0 <= slot < 32,
        vma.start < vma.end <= MMAP_REGION_END,
        vma.start % 4096 == 0,
        vma.end % 4096 == 0,
        !overlaps(vmas, vma.start as int, vma.end as int),
    ensures
        vmas_wf(vmas.update(slot, Some(vma))),
{
    let after = vmas.update(slot, Some(vma));
    assert forall|i: int, j: int| 0 <= i < j < 32 implies (#[trigger] after[i] matches Some(v) ==> (
    #[trigger] after[j] matches Some(w) ==> v.end <= w.start || w.end <= v.start)) by {
        if after[i] is Some && after[j] is Some {
            if i == slot {
                assert(vmas[j] == after[j]);
            } else if j == slot {
                assert(vmas[i] == after[i]);
            } else {
                assert(vmas[i] == after[i] && vmas[j] == after[j]);
            }
        }
    }
}

proof fn lemma_free_slot_sticks(vmas: Seq<Option<Vma>>, m: nat, n: nat)
    requires
        m <= n,
        first_free_slot(vmas, m) is Some,
    ensures
        first_free_slot(vmas, n) == first_free_slot(vmas, m),
    decreases n,
{
    if m < n {
        lemma_free_slot_sticks(vmas, m, (n - 1) as nat);
    }
}

proof fn lemma_region_sticks(vmas: Seq<Option<Vma>>, addr: u64, m: nat, n: nat)
    requires
        m <= n,
        region_at(vmas, addr, m) is Some,
    ensures
        region_at(vmas, addr, n) == region_at(vmas, addr, m),
    decreases n,
{
    if m < n {
        lemma_region_sticks(vmas, addr, m, (n - 1) as nat);
    }
}

proof fn lemma_region_at(vmas: Seq<Option<Vma>>, addr: u64, n: nat)
    requires
        n <= vmas.len(),
    ensures
        region_at(vmas, addr, n) matches Some(v) ==> v.spec_contains(addr) && exists|i: int|
            0 <= i < n && #[trigger] vmas[i] == Some(v),
        region_at(vmas, addr, n) is None ==> forall|i: int|
            0 <= i < n ==> (#[trigger] vmas[i] matches Some(v) ==> !v.spec_contains(addr)),
    decreases n,
{
    if n > 0 {
        lemma_region_at(vmas, addr, (n - 1) as nat);
        if let Some(v) = region_at(vmas, addr, n) {
            if region_at(vmas, addr, (n - 1) as nat) is None {
                assert(vmas[n - 1] == Some(v));
            }
        }
    }
}

/// A gap that is found is free, ends inside the mmap region and does not lie
/// below where the search began.
pub proof fn gap_is_free(vmas: Seq<Option<Vma>>, start: int, len: int)
    requires
        first_gap(vmas, start, len) is Some,
    ensures
        ({
            let at = first_gap(vmas, start, len)->Some_0;
            &&& start <= at
            &&& at + len <= MMAP_REGION_END
            &&& !overlaps(vmas, at, at + len)
            &&& start % 4096 == 0 && len % 4096 == 0 ==> at % 4096 == 0
        }),
    decreases MMAP_REGION_END - start,
{
    if len > 0 && start + len <= MMAP_REGION_END && overlaps(vmas, start, start + len) {
        gap_is_free(vmas, start + len, len);
    }
}

impl AddressSpace {
    /// The regions are well formed and the tables are those of this space.
    pub open spec fn wf(&self) -> bool {
        &&& vmas_wf(self.vmas@)
        &&& self.tables.wf()
        &&& self.tables.root() == self.pml4_phys.0
    }

    /// The entry that maps the page of `virt`.
    pub open spec fn pte(&self, virt: u64) -> PageTableEntry {
        self.tables.pte(virt)
    }

    /// The region that contains `addr`.
    pub open spec fn vma_at(&self, addr: u64) -> Option<Vma> {
        region_at(self.vmas@, addr, 32)
    }

    /// An address space that maps nothing, with the kernel's upper half.
    /// `pcid` is 0 where the CPU does not tag translations.
    pub fn new(mem: &mut PhysMem, kernel: &PageTable, pcid: u16) -> (r: Self)
        requires
            old(mem).wf(),
            old(mem).pool@.len() > 0,
            kernel.wf(),
        ensures
            r.wf(),
            final(mem).wf(),
            r.tables.apart(final(mem)),
            r.pml4_phys.0 == old(mem).nth_free(0),
            r.pcid == pcid,
            r.mmap_next == MMAP_BASE,
            r.refcount == 1,
            r.active_cpus.mask() == 0,
            forall|i: int| 0 <= i < 32 ==> #[trigger] r.vmas@[i] is None,
            r.tables.frames() == set![r.pml4_phys.0],
            forall|v: u64| v < USER_HALF_END ==> #[trigger] r.pte(v) == PageTableEntry::blank(),
            forall|v: u64| v < USER_HALF_END ==> #[trigger] r.tables.missing(v) == 3,
            forall|l: nat, n: nat| #[trigger]
                r.tables.table_at(l, n) is Some ==> l == 4 && n == 0,
            forall|i: int|
                256 <= i < 512 ==> #[trigger] r.tables.top_entry(i) == kernel.entries@[i],
            final(mem).pool@ == old(mem).pool@.drop_last(),
            final(mem).bytes == old(mem).bytes,
            final(mem).freed == old(mem).freed,
    {
        let pml4_phys = mem.alloc_frame();
        let tables = UserTables::new(pml4_phys, kernel);
        assert(tables.apart(mem)) by {
            assert forall|i: int| 0 <= i < mem.pool@.len() implies !tables.frames().contains(
                #[trigger] mem.pool@[i],
            ) by {
                assert(mem.pool@.contains(mem.pool@[i]));
            }
        }
        let r = AddressSpace {
            pml4_phys,
            pcid,
            vmas: [None;32],
            mmap_next: MMAP_BASE,
            refcount: 1,
            active_cpus: ActiveCpuMask::new(),
            tables,
        };
        assert forall|v: u64| v < USER_HALF_END implies #[trigger] r.tables.missing(v) == 3 by {
            assert(r.tables.pte(v) == PageTableEntry::blank());
        }
        r
    }

    /// One more user of this address space.
    pub fn inc_ref(&mut self)
        ensures
            *final(self) == (AddressSpace {
                refcount: old(self).refcount.wrapping_add(1),
                ..*old(self)
            }),
    {
        self.refcount = self.refcount.wrapping_add(1);
    }

    /// One user fewer; true where that was the last one.
    #[must_use]
    pub fn dec_ref(&mut self) -> (last: bool)
        ensures
            last == (old(self).refcount == 1),
            *final(self) == (AddressSpace {
                refcount: old(self).refcount.wrapping_sub(1),
                ..*old(self)
            }),
    {
        let before: u32 = self.refcount;
        self.refcount = before.wrapping_sub(1);
        before == 1
    }

    /// The region that contains `addr`: the one in the lowest slot.
    pub fn find_vma(&self, addr: u64) -> (r: Option<Vma>)
        ensures
            r == self.vma_at(addr),
    {
        let mut i: usize = 0;
        while i < 32
            invariant
                i <= 32,
                region_at(self.vmas@, addr, i as nat) is None,
            decreases 32 - i,
        {
            if let Some(vma) = self.vmas[i] {
                if vma.contains(addr) {
                    proof {
                        lemma_region_sticks(self.vmas@, addr, (i + 1) as nat, 32);
                    }
                    return Some(vma);
                }
            }
            i += 1;
        }
        None
    }

    fn vma_overlaps(&self, start: u64, end: u64) -> (r: bool)
        ensures
            r == overlaps(self.vmas@, start as int, end as int),
    {
        let mut i: usize = 0;
        while i < 32
            invariant
                i <= 32,
                forall|k: int|
                    0 <= k < i ==> !(#[trigger] self.vmas@[k] matches Some(v) && start < v.end
                        && v.start < end),
            decreases 32 - i,
        {
            if let Some(vma) = self.vmas[i] {
                if start < vma.end && vma.start < end {
                    assert(self.vmas@[i as int] == Some(vma));
                    return true;
                }
            }
            i += 1;
        }
        false
    }

    fn free_slot(&self) -> (r: Option<usize>)
        ensures
            match r {
                Some(i) => first_free_slot(self.vmas@, 32) == Some(i as int) && i < 32,
                None => first_free_slot(self.vmas@, 32) is None,
            },
    {
        let mut i: usize = 0;
        while i < 32
            invariant
                i <= 32,
                first_free_slot(self.vmas@, i as nat) is None,
            decreases 32 - i,
        {
            if self.vmas[i].is_none() {
                proof {
                    lemma_free_slot_sticks(self.vmas@, (i + 1) as nat, 32);
                }
                return Some(i);
            }
            i += 1;
        }
        None
    }

    /// Reserve `len` bytes of the mmap region. No page is mapped yet.
    #[verifier::spinoff_prover]
    pub fn mmap(&mut self, len: u64, flags: PageFlags, backing: Backing) -> (r: Option<u64>)
        requires
            old(self).wf(),
        ensures
            final(self).wf(),
            match mmap_place(old(self).vmas@, old(self).mmap_next, len) {
                None => r is None && *final(self) == *old(self),
                Some((slot, start)) => {
                    &&& r == Some(start as u64)
                    &&& start <= u64::MAX
                    &&& final(self).vmas@ == old(self).vmas@.update(
                        slot,
                        Some(
                            Vma { start: start as u64, end: (start + len) as u64, flags, backing },
                        ),
                    )
                    &&& final(self).mmap_next == start + len
                    &&& final(self).pml4_phys == old(self).pml4_phys
                    &&& final(self).pcid == old(self).pcid
                    &&& final(self).refcount == old(self).refcount
                    &&& final(self).active_cpus == old(self).active_cpus
                    &&& final(self).tables == old(self).tables
                },
            },
    {
        if len == 0 || len % 4096 != 0 {
            return None;
        }
        let slot: usize = match self.free_slot() {
            Some(slot) => slot,
            None => return None,
        };
        let mut start: u64 = match align_up_page(self.mmap_next) {
            Some(start) => start,
            None => return None,
        };
        let ghost base = start as int;
        loop
            invariant
                len > 0,
                len % 4096 == 0,
                slot < 32,
                *self == *old(self),
                self.wf(),
                first_free_slot(self.vmas@, 32) == Some(slot as int),
                base == page_up(self.mmap_next as int),
                base % 4096 == 0,
                self.mmap_next + 4095 <= u64::MAX,
                first_gap(self.vmas@, start as int, len as int) == first_gap(
                    self.vmas@,
                    base,
                    len as int,
                ),
                start % 4096 == 0,
            decreases u64::MAX - start,
        {
            let end: u64 = match start.checked_add(len) {
                Some(end) => end,
                None => return None,
            };
            if end > MMAP_REGION_END {
                return None;
            }
            if !self.vma_overlaps(start, end) {
                proof {
                    lemma_first_free_slot(self.vmas@, 32);
                }
                proof {
                    lemma_vmas_with(self.vmas@, slot as int, Vma { start, end, flags, backing });
                }
                self.vmas[slot] = Some(Vma { start, end, flags, backing });
                self.mmap_next = end;
                return Some(start);
            }
            start = end;
        }
    }

    /// Reserve `len` bytes of anonymous memory.
    pub fn mmap_anon(&mut self, len: u64, flags: PageFlags) -> (r: Option<u64>)
        requires
            old(self).wf(),
        ensures
            final(self).wf(),
            match mmap_place(old(self).vmas@, old(self).mmap_next, len) {
                None => r is None && *final(self) == *old(self),
                Some((slot, start)) => {
                    &&& r == Some(start as u64)
                    &&& start <= u64::MAX
                    &&& final(self).vmas@ == old(self).vmas@.update(
                        slot,
                        Some(
                            Vma {
                                start: start as u64,
                                end: (start + len) as u64,
                                flags,
                                backing: Backing::Anonymous,
                            },
                        ),
                    )
                    &&& final(self).mmap_next == start + len
                    &&& final(self).pml4_phys == old(self).pml4_phys
                    &&& final(self).pcid == old(self).pcid
                    &&& final(self).refcount == old(self).refcount
                    &&& final(self).active_cpus == old(self).active_cpus
                    &&& final(self).tables == old(self).tables
                },
            },
    {
        self.mmap(len, flags, Backing::Anonymous)
    }
}

/// A page that starts with `data` and is zero after it.
pub open spec fn padded(data: Seq<u8>) -> Seq<u8> {
    Seq::new(
        4096,
        |i: int|
            if i < data.len() {
                data[i]
            } else {
                0u8
            },
    )
}

/// Between `before` and `after`, frames were taken from the end of the pool,
/// and no frame that was not taken changed.
pub open spec fn others_kept(before: &PhysMem, after: &PhysMem) -> bool {
    &&& after.bytes@.len() == before.bytes@.len()
    &&& after.pool@.len() <= before.pool@.len()
    &&& after.pool@ == before.pool@.take(after.pool@.len() as int)
    &&& forall|f: u64|
        before.holds(f) && !taken(before, after, f) ==> #[trigger] after.page(f) == before.page(f)
}

/// As [`others_kept`], and no frame was handed back.
pub open spec fn only_taken_changed(before: &PhysMem, after: &PhysMem) -> bool {
    &&& others_kept(before, after)
    &&& after.freed@ == before.freed@
}

/// The frame was taken from the pool between `before` and `after`.
pub open spec fn taken(before: &PhysMem, after: &PhysMem, f: u64) -> bool {
    before.pool@.contains(f) && !after.pool@.contains(f)
}

/// The tables of `after` are those of `before`, and more in frames that were taken.
pub open spec fn tables_grown(
    before: &UserTables,
    after: &UserTables,
    m0: &PhysMem,
    m1: &PhysMem,
) -> bool {
    &&& forall|f: u64| #[trigger] before.frames().contains(f) ==> after.frames().contains(f)
    &&& forall|f: u64| #[trigger]
        after.frames().contains(f) ==> before.frames().contains(f) || taken(m0, m1, f)
}

/// `space` is new: its top-level table is the first frame that was taken, and its
/// other tables are in frames that were taken too.
pub open spec fn tables_taken(space: &AddressSpace, before: &PhysMem, after: &PhysMem) -> bool {
    &&& space.pml4_phys.0 == before.nth_free(0)
    &&& forall|f: u64| #[trigger] space.tables.frames().contains(f) ==> taken(before, after, f)
}

/// No page is mapped to a frame that holds a table.
pub open spec fn pages_not_tables(space: &AddressSpace) -> bool {
    forall|v: u64|
        v < USER_HALF_END && (#[trigger] space.pte(v)).flags.present
            ==> !space.tables.frames().contains(space.pte(v).frame.0)
}

pub proof fn lemma_taken_trans(a: &PhysMem, b: &PhysMem, c: &PhysMem)
    requires
        a.wf(),
        only_taken_changed(a, b),
        only_taken_changed(b, c),
    ensures
        only_taken_changed(a, c),
        forall|f: u64| #[trigger] taken(a, c, f) <==> taken(a, b, f) || taken(b, c, f),
        forall|f: u64| taken(a, b, f) ==> !taken(b, c, f) && c.page(f) == #[trigger] b.page(f),
{
    assert(c.pool@ =~= a.pool@.take(c.pool@.len() as int));
    assert forall|f: u64| c.pool@.contains(f) implies b.pool@.contains(f) by {
        let i = choose|i: int| 0 <= i < c.pool@.len() && c.pool@[i] == f;
        assert(b.pool@[i] == f);
    }
    assert forall|f: u64| b.pool@.contains(f) implies a.pool@.contains(f) by {
        let i = choose|i: int| 0 <= i < b.pool@.len() && b.pool@[i] == f;
        assert(a.pool@[i] == f);
    }
    assert forall|f: u64| taken(a, b, f) implies !taken(b, c, f) && c.page(f) == #[trigger] b.page(
        f,
    ) by {
        let i = choose|i: int| 0 <= i < a.pool@.len() && a.pool@[i] == f;
        assert(a.holds(a.pool@[i]));
        assert(b.holds(f));
    }
    assert forall|f: u64| a.holds(f) && !taken(a, c, f) implies #[trigger] c.page(f) == a.page(f) by {
        assert(b.page(f) == a.page(f));
        assert(b.holds(f));
    }
}

/// Writing inside one frame leaves the others alone.
proof fn lemma_other_page(s: Seq<u8>, at: u64, data: Seq<u8>, f: u64)
    requires
        at % 4096 == 0,
        f % 4096 == 0,
        f != at,
        f + 4096 <= s.len(),
        data.len() <= 4096,
    ensures
        overwrite(s, at as int, data).subrange(f as int, f + 4096) == s.subrange(f as int, f + 4096),
{
    assert(overwrite(s, at as int, data).subrange(f as int, f + 4096) =~= s.subrange(
        f as int,
        f + 4096,
    ));
}

/// The tables that `count` pages from page number `first` on can need.
pub open spec fn tables_span(first: int, count: int) -> int {
    if count <= 0 {
        0
    } else {
        let last = first + count - 1;
        (last / 512 - first / 512 + 1) + (last / 512 / 512 - first / 512 / 512 + 1) + (last / 512
            / 512 / 512 - first / 512 / 512 / 512 + 1)
    }
}

/// The tables still to come, when the pages before number `next` are mapped.
spec fn tables_left(next: int, last: int) -> int {
    let done = next - 1;
    (last / 512 - done / 512) + (last / 512 / 512 - done / 512 / 512) + (last / 512 / 512 / 512
        - done / 512 / 512 / 512)
}

/// The page attributes of an ELF segment.
pub open spec fn elf_flags(flags: u32) -> PageFlags {
    PageFlags {
        present: true,
        user: true,
        writable: flags & PF_W != 0,
        no_execute: flags & PF_X == 0,
        ..PageFlags::none()
    }
}

fn user_flags_from_elf(elf_flags: u32) -> (r: PageFlags)
    ensures
        r == self::elf_flags(elf_flags),
{
    let mut flags = PageFlags::new().with_present().with_user_accessible();
    if elf_flags & PF_W != 0 {
        flags = flags.with_writable();
    }
    if elf_flags & PF_X == 0 {
        flags = flags.with_no_execute();
    }
    flags
}

/// The page attributes of the user stack.
pub open spec fn stack_flags() -> PageFlags {
    PageFlags { present: true, writable: true, user: true, no_execute: true, ..PageFlags::none() }
}

/// What page `k` of a segment holds: the file's bytes, then zeroes.
pub open spec fn segment_page(seg: LoadSegment, file: Seq<u8>, k: int) -> Seq<u8> {
    Seq::new(
        4096,
        |i: int|
            if k * 4096 + i < seg.filesz {
                file[seg.data_off + k * 4096 + i]
            } else {
                0u8
            },
    )
}

/// How many pages a segment covers.
pub open spec fn segment_pages(seg: LoadSegment) -> int {
    (seg.memsz + 4095) / 4096
}

/// A segment as the image parser leaves it, in a file of `len` bytes.
pub open spec fn segment_wf(seg: LoadSegment, len: nat) -> bool {
    &&& seg.vaddr % 4096 == 0
    &&& seg.vaddr + seg.memsz <= USER_HALF_END
    &&& seg.filesz <= seg.memsz
    &&& seg.data_off + seg.filesz <= len
}

impl AddressSpace {
    /// Map the page of `virt` to a fresh frame that starts with `data`.
    fn map_filled(&mut self, mem: &mut PhysMem, virt: u64, flags: PageFlags, data: &[u8])
        requires
            old(self).wf(),
            old(mem).wf(),
            old(self).tables.apart(old(mem)),
            virt < USER_HALF_END,
            data@.len() <= 4096,
            old(mem).pool@.len() > old(self).tables.missing(virt),
        ensures
            final(self).wf(),
            final(mem).wf(),
            final(self).tables.apart(final(mem)),
            *final(self) == (AddressSpace { tables: final(self).tables, ..*old(self) }),
            taken(old(mem), final(mem), old(mem).nth_free(0)),
            final(mem).page(old(mem).nth_free(0)) == padded(data@),
            forall|v: u64|
                v < USER_HALF_END ==> #[trigger] final(self).pte(v) == (if page_number(v)
                    == page_number(virt) {
                    PageTableEntry { frame: PhysAddr(old(mem).nth_free(0)), flags }
                } else {
                    old(self).pte(v)
                }),
            forall|v: u64|
                v < USER_HALF_END ==> {
                    let p = page_number(v);
                    let q = page_number(virt);
                    &&& #[trigger] final(self).tables.missing(v) <= old(self).tables.missing(v)
                    &&& p / 512 == q / 512 ==> final(self).tables.missing(v) == 0
                    &&& p / 512 / 512 == q / 512 / 512 ==> final(self).tables.missing(v) <= 1
                    &&& p / 512 / 512 / 512 == q / 512 / 512 / 512 ==> final(self).tables.missing(v)
                        <= 2
                },
            forall|k: int|
                256 <= k < 512 ==> #[trigger] final(self).tables.top_entry(k) == old(
                    self,
                ).tables.top_entry(k),
            tables_grown(&old(self).tables, &final(self).tables, old(mem), final(mem)),
            final(self).tables.frames().len() == old(self).tables.frames().len() + old(
                self,
            ).tables.missing(virt),
            !final(self).tables.frames().contains(old(mem).nth_free(0)),
            only_taken_changed(old(mem), final(mem)),
            final(mem).pool@.len() == old(mem).pool@.len() - 1 - old(self).tables.missing(virt),
    {
        let frame = mem.alloc_frame();
        let ghost m1 = *mem;
        assert(self.tables.apart(mem)) by {
            assert forall|i: int| 0 <= i < mem.pool@.len() implies !self.tables.frames().contains(
                #[trigger] mem.pool@[i],
            ) by {
                assert(mem.pool@[i] == old(mem).pool@[i]);
            }
        }
        mem.zero_frame(frame);
        let ghost m2 = *mem;
        mem.write_bytes(frame.0, data);
        let ghost m3 = *mem;
        proof {
            assert(m3.page(frame.0) =~= padded(data@));
            assert(m3.pool@ =~= old(mem).pool@.take(m3.pool@.len() as int));
            assert forall|f: u64| old(mem).holds(f) && f != frame.0 implies #[trigger] m3.page(f)
                == old(mem).page(f) by {
                lemma_other_page(m1.bytes@, frame.0, zero_page(), f);
                lemma_other_page(m2.bytes@, frame.0, data@, f);
            }
            assert(taken(old(mem), &m3, frame.0)) by {
                assert(old(mem).pool@[old(mem).pool@.len() - 1] == frame.0);
            }
        }
        self.tables.map_page(mem, virt, frame, flags);
        proof {
            lemma_taken_trans(old(mem), &m3, mem);
            assert(mem.page(frame.0) == m3.page(frame.0));
            assert(taken(old(mem), mem, frame.0));
        }
    }

    /// Map the pages of a segment with attributes `flags`.
    #[verifier::spinoff_prover]
    #[verifier::rlimit(50)]
    fn map_region(
        &mut self,
        mem: &mut PhysMem,
        seg: &LoadSegment,
        flags: PageFlags,
        elf_data: &[u8],
    )
        requires
            old(self).wf(),
            old(mem).wf(),
            old(self).tables.apart(old(mem)),
            segment_wf(*seg, elf_data@.len()),
            old(mem).pool@.len() >= segment_pages(*seg) + tables_span(
                page_number(seg.vaddr) as int,
                segment_pages(*seg),
            ),
        ensures
            final(self).wf(),
            final(mem).wf(),
            final(self).tables.apart(final(mem)),
            *final(self) == (AddressSpace { tables: final(self).tables, ..*old(self) }),
            forall|k: int|
                0 <= k < segment_pages(*seg) ==> {
                    let e = #[trigger] final(self).pte((seg.vaddr + k * 4096) as u64);
                    &&& e.flags == flags
                    &&& taken(old(mem), final(mem), e.frame.0)
                    &&& !final(self).tables.frames().contains(e.frame.0)
                    &&& final(mem).page(e.frame.0) == segment_page(*seg, elf_data@, k)
                },
            forall|j: int, k: int|
                0 <= j < k < segment_pages(*seg) ==> (#[trigger] final(self).pte(
                    (seg.vaddr + j * 4096) as u64,
                )).frame != (#[trigger] final(self).pte((seg.vaddr + k * 4096) as u64)).frame,
            forall|v: u64|
                v < USER_HALF_END && !(page_number(seg.vaddr) <= page_number(v) < page_number(
                    seg.vaddr,
                ) + segment_pages(*seg)) ==> #[trigger] final(self).pte(v) == old(self).pte(v),
            forall|k: int|
                256 <= k < 512 ==> #[trigger] final(self).tables.top_entry(k) == old(
                    self,
                ).tables.top_entry(k),
            tables_grown(&old(self).tables, &final(self).tables, old(mem), final(mem)),
            only_taken_changed(old(mem), final(mem)),
            final(mem).pool@.len() >= old(mem).pool@.len() - segment_pages(*seg) - tables_span(
                page_number(seg.vaddr) as int,
                segment_pages(*seg),
            ),
    {
        let pages: u64 = (seg.memsz + 4095) / 4096;
        let ghost first = page_number(seg.vaddr) as int;
        let ghost last = first + pages - 1;
        let ghost total = pages + tables_span(first, pages as int);
        let mut k: u64 = 0;
        assert(mem.pool@ =~= old(mem).pool@.take(mem.pool@.len() as int));
        while k < pages
            invariant
                k <= pages,
                pages == segment_pages(*seg),
                first == page_number(seg.vaddr),
                last == first + pages - 1,
                total == pages + tables_span(first, pages as int),
                segment_wf(*seg, elf_data@.len()),
                self.wf(),
                mem.wf(),
                self.tables.apart(mem),
                *self == (AddressSpace { tables: self.tables, ..*old(self) }),
                old(mem).wf(),
                old(mem).pool@.len() >= total,
                only_taken_changed(old(mem), mem),
                k == 0 ==> mem.pool@.len() == old(mem).pool@.len(),
                k > 0 ==> mem.pool@.len() >= old(mem).pool@.len() - total + (pages - k)
                    + tables_left(first + k, last),
                k > 0 ==> forall|v: u64|
                    v < USER_HALF_END ==> {
                        let p = page_number(v);
                        let q = (first + k - 1) as nat;
                        &&& p / 512 == q / 512 ==> #[trigger] self.tables.missing(v) == 0
                        &&& p / 512 / 512 == q / 512 / 512 ==> self.tables.missing(v) <= 1
                        &&& p / 512 / 512 / 512 == q / 512 / 512 / 512 ==> self.tables.missing(v)
                            <= 2
                    },
                forall|i: int|
                    0 <= i < k ==> {
                        let e = #[trigger] self.pte((seg.vaddr + i * 4096) as u64);
                        &&& e.flags == flags
                        &&& taken(old(mem), mem, e.frame.0)
                        &&& !self.tables.frames().contains(e.frame.0)
                        &&& mem.page(e.frame.0) == segment_page(*seg, elf_data@, i)
                    },
                tables_grown(&old(self).tables, &self.tables, old(mem), mem),
                forall|i: int, j: int|
                    0 <= i < j < k ==> (#[trigger] self.pte((seg.vaddr + i * 4096) as u64)).frame
                        != (#[trigger] self.pte((seg.vaddr + j * 4096) as u64)).frame,
                forall|v: u64|
                    v < USER_HALF_END && !(first <= page_number(v) < first + k)
                        ==> #[trigger] self.pte(v) == old(self).pte(v),
                forall|x: int|
                    256 <= x < 512 ==> #[trigger] self.tables.top_entry(x) == old(
                        self,
                    ).tables.top_entry(x),
            decreases pages - k,
        {
            assert(elf_data@.len() == elf_data.len());
            let page_start: u64 = k * 4096;
            let virt: u64 = seg.vaddr + page_start;
            let copy_len: u64 = if page_start >= seg.filesz {
                0
            } else if seg.filesz - page_start < 4096 {
                seg.filesz - page_start
            } else {
                4096
            };
            let src_off: u64 = if copy_len == 0 {
                0
            } else {
                seg.data_off + page_start
            };
            assert(src_off + copy_len <= elf_data.len());
            let data = vstd::slice::slice_subrange(
                elf_data,
                src_off as usize,
                (src_off + copy_len) as usize,
            );
            let ghost tables0 = self.tables;
            let ghost m0 = *mem;
            let ghost before = *self;
            proof {
                assert(page_number(virt) == first + k);
                self.tables.lemma_missing_bound(virt);
                let p = (first + k) as nat;
                let q = (first + k - 1) as nat;
                if k > 0 {
                    assert(p / 512 == q / 512 ==> self.tables.missing(virt) == 0);
                }
                assert(padded(data@) =~= segment_page(*seg, elf_data@, k as int));
            }
            self.map_filled(mem, virt, flags, data);
            proof {
                let f = m0.nth_free(0);
                lemma_taken_trans(old(mem), &m0, mem);
                assert(taken(&m0, mem, f));
                assert(taken(old(mem), mem, f));
                assert forall|i: int| 0 <= i < k + 1 implies ({
                    let e = #[trigger] self.pte((seg.vaddr + i * 4096) as u64);
                    &&& e.flags == flags
                    &&& taken(old(mem), mem, e.frame.0)
                    &&& !self.tables.frames().contains(e.frame.0)
                    &&& mem.page(e.frame.0) == segment_page(*seg, elf_data@, i)
                }) by {
                    let w = (seg.vaddr + i * 4096) as u64;
                    assert(page_number(w) == first + i);
                    if i < k {
                        let e = before.pte(w);
                        assert(self.pte(w) == e);
                        assert(taken(old(mem), &m0, e.frame.0));
                        assert(mem.page(e.frame.0) == m0.page(e.frame.0));
                        assert(!before.tables.frames().contains(e.frame.0));
                        assert(!taken(&m0, mem, e.frame.0));
                    }
                }
                assert(tables_grown(&old(self).tables, &self.tables, old(mem), mem)) by {
                    assert forall|f: u64| #[trigger] self.tables.frames().contains(f) implies old(
                        self,
                    ).tables.frames().contains(f) || taken(old(mem), mem, f) by {
                        if before.tables.frames().contains(f) {
                            assert(old(self).tables.frames().contains(f) || taken(
                                old(mem),
                                &m0,
                                f,
                            ));
                        }
                    }
                }
                assert forall|i: int, j: int| 0 <= i < j < k + 1 implies (
                #[trigger] self.pte((seg.vaddr + i * 4096) as u64)).frame != (
                #[trigger] self.pte((seg.vaddr + j * 4096) as u64)).frame by {
                    let wi = (seg.vaddr + i * 4096) as u64;
                    let wj = (seg.vaddr + j * 4096) as u64;
                    assert(page_number(wi) == first + i);
                    assert(page_number(wj) == first + j);
                    assert(self.pte(wi) == before.pte(wi));
                    if j == k {
                        assert(taken(old(mem), &m0, before.pte(wi).frame.0));
                        assert(m0.pool@.contains(f));
                    } else {
                        assert(self.pte(wj) == before.pte(wj));
                    }
                }
            }
            k += 1;
        }
    }

    /// Map a loadable segment of the image `elf_data`: fresh frames with the
    /// file's bytes, zero-filled to the segment's size.
    pub fn map_segment(&mut self, mem: &mut PhysMem, seg: &LoadSegment, elf_data: &[u8])
        requires
            old(self).wf(),
            old(mem).wf(),
            old(self).tables.apart(old(mem)),
            segment_wf(*seg, elf_data@.len()),
            old(mem).pool@.len() >= segment_pages(*seg) + tables_span(
                page_number(seg.vaddr) as int,
                segment_pages(*seg),
            ),
        ensures
            final(self).wf(),
            final(mem).wf(),
            final(self).tables.apart(final(mem)),
            *final(self) == (AddressSpace { tables: final(self).tables, ..*old(self) }),
            forall|k: int|
                0 <= k < segment_pages(*seg) ==> {
                    let e = #[trigger] final(self).pte((seg.vaddr + k * 4096) as u64);
                    &&& e.flags == elf_flags(seg.flags)
                    &&& taken(old(mem), final(mem), e.frame.0)
                    &&& !final(self).tables.frames().contains(e.frame.0)
                    &&& final(mem).page(e.frame.0) == segment_page(*seg, elf_data@, k)
                },
            forall|j: int, k: int|
                0 <= j < k < segment_pages(*seg) ==> (#[trigger] final(self).pte(
                    (seg.vaddr + j * 4096) as u64,
                )).frame != (#[trigger] final(self).pte((seg.vaddr + k * 4096) as u64)).frame,
            forall|v: u64|
                v < USER_HALF_END && !(page_number(seg.vaddr) <= page_number(v) < page_number(
                    seg.vaddr,
                ) + segment_pages(*seg)) ==> #[trigger] final(self).pte(v) == old(self).pte(v),
            forall|k: int|
                256 <= k < 512 ==> #[trigger] final(self).tables.top_entry(k) == old(
                    self,
                ).tables.top_entry(k),
            tables_grown(&old(self).tables, &final(self).tables, old(mem), final(mem)),
            only_taken_changed(old(mem), final(mem)),
            final(mem).pool@.len() >= old(mem).pool@.len() - segment_pages(*seg) - tables_span(
                page_number(seg.vaddr) as int,
                segment_pages(*seg),
            ),
    {
        let flags = user_flags_from_elf(seg.flags);
        self.map_region(mem, seg, flags, elf_data);
    }

    /// Map the user stack, all zero. Returns the initial stack pointer.
    pub fn map_user_stack(&mut self, mem: &mut PhysMem) -> (rsp: u64)
        requires
            old(self).wf(),
            old(mem).wf(),
            old(self).tables.apart(old(mem)),
            old(mem).pool@.len() >= 64 + 3,
        ensures
            rsp == USTACK_TOP - 8,
            final(self).wf(),
            final(mem).wf(),
            final(self).tables.apart(final(mem)),
            *final(self) == (AddressSpace { tables: final(self).tables, ..*old(self) }),
            forall|k: int|
                0 <= k < 64 ==> {
                    let e = #[trigger] final(self).pte((USTACK_TOP - USTACK_SIZE + k * 4096) as u64);
                    &&& e.flags == stack_flags()
                    &&& taken(old(mem), final(mem), e.frame.0)
                    &&& !final(self).tables.frames().contains(e.frame.0)
                    &&& final(mem).page(e.frame.0) == zero_page()
                },
            forall|j: int, k: int|
                0 <= j < k < 64 ==> (#[trigger] final(self).pte(
                    (USTACK_TOP - USTACK_SIZE + j * 4096) as u64,
                )).frame != (#[trigger] final(self).pte(
                    (USTACK_TOP - USTACK_SIZE + k * 4096) as u64,
                )).frame,
            forall|v: u64|
                v < USER_HALF_END && !(USTACK_TOP - USTACK_SIZE <= v < USTACK_TOP)
                    ==> #[trigger] final(self).pte(v) == old(self).pte(v),
            forall|k: int|
                256 <= k < 512 ==> #[trigger] final(self).tables.top_entry(k) == old(
                    self,
                ).tables.top_entry(k),
            tables_grown(&old(self).tables, &final(self).tables, old(mem), final(mem)),
            only_taken_changed(old(mem), final(mem)),
            final(mem).pool@.len() >= old(mem).pool@.len() - (64 + 3),
    {
        let flags =
            PageFlags::new().with_present().with_writable().with_user_accessible().with_no_execute();
        let stack_base: u64 = USTACK_TOP - USTACK_SIZE;
        let seg = LoadSegment {
            vaddr: stack_base,
            filesz: 0,
            memsz: USTACK_SIZE,
            data_off: 0,
            flags: 0,
        };
        let nothing: [u8; 0] = [];
        self.map_region(mem, &seg, flags, &nothing);
        assert forall|k: int| 0 <= k < 64 implies #[trigger] segment_page(seg, nothing@, k)
            == zero_page() by {
            assert(segment_page(seg, nothing@, k) =~= zero_page());
        }
        USTACK_TOP - 8
    }

    /// Map the page that returns from signal handlers, executable and not
    /// writable.
    pub fn map_sigreturn_trampoline(&mut self, mem: &mut PhysMem)
        requires
            old(self).wf(),
            old(mem).wf(),
            old(self).tables.apart(old(mem)),
            old(mem).pool@.len() > old(self).tables.missing(SIGRETURN_TRAMPOLINE_VA),
        ensures
            final(self).wf(),
            final(mem).wf(),
            final(self).tables.apart(final(mem)),
            *final(self) == (AddressSpace { tables: final(self).tables, ..*old(self) }),
            ({
                let e = final(self).pte(SIGRETURN_TRAMPOLINE_VA);
                &&& e.flags == (PageFlags { present: true, user: true, ..PageFlags::none() })
                &&& taken(old(mem), final(mem), e.frame.0)
                &&& !final(self).tables.frames().contains(e.frame.0)
                &&& final(mem).page(e.frame.0) == padded(SIGRETURN_TRAMPOLINE_CODE@)
            }),
            forall|v: u64|
                v < USER_HALF_END && page_number(v) != page_number(SIGRETURN_TRAMPOLINE_VA)
                    ==> #[trigger] final(self).pte(v) == old(self).pte(v),
            forall|k: int|
                256 <= k < 512 ==> #[trigger] final(self).tables.top_entry(k) == old(
                    self,
                ).tables.top_entry(k),
            tables_grown(&old(self).tables, &final(self).tables, old(mem), final(mem)),
            only_taken_changed(old(mem), final(mem)),
            final(mem).pool@.len() == old(mem).pool@.len() - 1 - old(self).tables.missing(
                SIGRETURN_TRAMPOLINE_VA,
            ),
    {
        let flags = PageFlags::new().with_present().with_user_accessible();
        let code: [u8; 9] = SIGRETURN_TRAMPOLINE_CODE;
        self.map_filled(mem, SIGRETURN_TRAMPOLINE_VA, flags, &code);
    }

    /// Give up every user mapping.
    pub fn free_user_mappings(&mut self, cow: &mut CowTable, mem: &mut PhysMem)
        requires
            old(self).wf(),
            old(cow).wf(),
        ensures
            final(self).wf(),
            final(cow).wf(),
            *final(self) == (AddressSpace { tables: final(self).tables, ..*old(self) }),
            final(self).tables.frames() == set![old(self).pml4_phys.0],
            forall|v: u64|
                v < USER_HALF_END ==> #[trigger] final(self).pte(v) == PageTableEntry::blank(),
            forall|k: int|
                256 <= k < 512 ==> #[trigger] final(self).tables.top_entry(k) == old(
                    self,
                ).tables.top_entry(k),
            reclaim_state(final(cow), final(mem)) == old(self).tables.user_half_torn(
                reclaim_state(old(cow), old(mem)),
            ),
            final(mem).bytes == old(mem).bytes,
            final(mem).pool == old(mem).pool,
    {
        self.tables.free_user_half(cow, mem);
    }
}

/// The mappings of `k` pages from `start` on given up in order.
pub open spec fn range_reclaimed(t: &UserTables, start: u64, k: nat, st: Reclaim) -> Reclaim
    decreases k,
{
    if k == 0 {
        st
    } else {
        leaf_reclaimed(
            range_reclaimed(t, start, (k - 1) as nat, st),
            t.pte((start + (k - 1) * 4096) as u64),
        )
    }
}

/// The flushes that unmapping `k` pages from `start` on asks for: one for
/// each page that is mapped.
pub open spec fn range_flushes(t: &UserTables, cpus: u64, start: u64, k: nat) -> Seq<Effect>
    decreases k,
{
    if k == 0 {
        Seq::empty()
    } else {
        let virt = (start + (k - 1) * 4096) as u64;
        let before = range_flushes(t, cpus, start, (k - 1) as nat);
        if t.pte(virt).flags.present {
            before.push(Effect::Shootdown { cpus, virt })
        } else {
            before
        }
    }
}

/// What unmapping a region asks for: a shared file is written back first, and
/// a file's reference is dropped last.
pub open spec fn munmap_effects(vma: Vma, t: &UserTables, cpus: u64) -> Seq<Effect> {
    let flushes = range_flushes(t, cpus, vma.start, ((vma.end - vma.start) / 4096) as nat);
    match vma.backing {
        Backing::Anonymous => flushes,
        Backing::File { vnode_ptr, shared, .. } => (if shared {
            seq![Effect::Writeback { vnode: vnode_ptr }]
        } else {
            Seq::empty()
        }) + flushes + seq![Effect::DecRef { vnode: vnode_ptr }],
    }
}

/// The attributes of a page shared copy-on-write.
pub open spec fn cow_readonly(flags: PageFlags) -> PageFlags {
    PageFlags { writable: false, cow: true, ..flags }
}

/// The attributes of a copy-on-write page made private.
pub open spec fn cow_writable(flags: PageFlags) -> PageFlags {
    PageFlags { writable: true, cow: false, ..flags }
}

pub fn cow_writable_flags(flags: PageFlags) -> (r: PageFlags)
    ensures
        r == cow_writable(flags),
{
    flags.with_writable().without_cow()
}

pub fn cow_readonly_flags(flags: PageFlags) -> (r: PageFlags)
    ensures
        r == cow_readonly(flags),
{
    flags.without_writable().with_cow()
}

impl AddressSpace {
    /// The page at `virt` is mapped from a file that all mappers share.
    pub open spec fn maps_shared_file(&self, virt: u64) -> bool {
        self.vma_at(virt) matches Some(v) && v.is_shared_file()
    }

    /// Forking makes the page at `virt` copy-on-write.
    pub open spec fn forks_cow(&self, virt: u64) -> bool {
        self.pte(virt).flags.present && !self.maps_shared_file(virt)
    }

    /// The share counts after forking the pages below number `n`.
    pub open spec fn fork_counts(&self, n: nat, counts: Map<u64, u32>) -> Map<u64, u32>
        decreases n,
    {
        if n == 0 {
            counts
        } else {
            let virt = ((n - 1) * 4096) as u64;
            let before = self.fork_counts((n - 1) as nat, counts);
            if self.forks_cow(virt) {
                shared(before, self.pte(virt).frame.0)
            } else {
                before
            }
        }
    }

    /// The flushes that forking the pages below number `n` asks for.
    pub open spec fn fork_flushes(&self, n: nat) -> Seq<Effect>
        decreases n,
    {
        if n == 0 {
            Seq::empty()
        } else {
            let virt = ((n - 1) * 4096) as u64;
            let before = self.fork_flushes((n - 1) as nat);
            if self.forks_cow(virt) {
                before.push(Effect::Shootdown { cpus: self.active_cpus.mask(), virt })
            } else {
                before
            }
        }
    }

    proof fn lemma_fork_skip(&self, a: nat, b: nat, counts: Map<u64, u32>)
        requires
            a <= b <= 0x8_0000_0000,
            forall|v: u64|
                v < USER_HALF_END && v % 4096 == 0 && a <= page_number(v) < b ==> !(
                #[trigger] self.pte(v)).flags.present,
        ensures
            self.fork_counts(b, counts) == self.fork_counts(a, counts),
            self.fork_flushes(b) == self.fork_flushes(a),
        decreases b,
    {
        if a < b {
            let virt = ((b - 1) * 4096) as u64;
            assert(page_number(virt) == b - 1);
            assert(!self.pte(virt).flags.present);
            self.lemma_fork_skip(a, (b - 1) as nat, counts);
        }
    }

    /// Unmap `count` pages from `start` on; `reclaim` their frames or not.
    fn unmap_range(
        &mut self,
        cow: &mut CowTable,
        mem: &mut PhysMem,
        log: &mut Vec<Effect>,
        start: u64,
        count: u64,
        reclaim: bool,
    )
        requires
            old(self).wf(),
            old(cow).wf(),
            start % 4096 == 0,
            start + count * 4096 <= USER_HALF_END,
        ensures
            final(self).wf(),
            final(cow).wf(),
            *final(self) == (AddressSpace { tables: final(self).tables, ..*old(self) }),
            final(self).tables.frames() == old(self).tables.frames(),
            final(self).tables.kernel_half_kept(&old(self).tables),
            forall|v: u64|
                v < USER_HALF_END ==> #[trigger] final(self).pte(v) == (if start <= v < start
                    + count * 4096 && old(self).pte(v).flags.present {
                    PageTableEntry::blank()
                } else {
                    old(self).pte(v)
                }),
            final(log)@ == old(log)@ + range_flushes(
                &old(self).tables,
                old(self).active_cpus.mask(),
                start,
                count as nat,
            ),
            reclaim_state(final(cow), final(mem)) == (if reclaim {
                range_reclaimed(
                    &old(self).tables,
                    start,
                    count as nat,
                    reclaim_state(old(cow), old(mem)),
                )
            } else {
                reclaim_state(old(cow), old(mem))
            }),
            final(mem).bytes == old(mem).bytes,
            final(mem).pool == old(mem).pool,
    {
        let ghost st = reclaim_state(cow, mem);
        let ghost t0 = self.tables;
        let cpus: u64 = self.active_cpus.snapshot();
        let mut k: u64 = 0;
        assert(log@ =~= old(log)@ + range_flushes(&t0, cpus, start, 0));
        while k < count
            invariant
                k <= count,
                start % 4096 == 0,
                start + count * 4096 <= USER_HALF_END,
                t0 == old(self).tables,
                cpus == old(self).active_cpus.mask(),
                st == reclaim_state(old(cow), old(mem)),
                self.wf(),
                cow.wf(),
                *self == (AddressSpace { tables: self.tables, ..*old(self) }),
                self.tables.frames() == t0.frames(),
                self.tables.kernel_half_kept(&t0),
                t0.wf(),
                forall|v: u64|
                    v < USER_HALF_END ==> #[trigger] self.tables.pte(v) == (if start <= v < start
                        + k * 4096 && t0.pte(v).flags.present {
                        PageTableEntry::blank()
                    } else {
                        t0.pte(v)
                    }),
                log@ == old(log)@ + range_flushes(&t0, cpus, start, k as nat),
                reclaim_state(cow, mem) == (if reclaim {
                    range_reclaimed(&t0, start, k as nat, st)
                } else {
                    st
                }),
                mem.bytes == old(mem).bytes,
                mem.pool == old(mem).pool,
            decreases count - k,
        {
            let page: u64 = start + k * 4096;
            let ghost before = self.tables;
            let ghost log0 = log@;
            proof {
                self.tables.lemma_missing_bound(page);
                assert forall|v: u64| v < USER_HALF_END && page_number(v) == page_number(page) implies
                    t0.pte(v) == t0.pte(page) by {
                    t0.lemma_same_page(v, page);
                }
                assert(self.tables.pte(page) == t0.pte(page));
            }
            if let Some(old_entry) = self.tables.leaf(page) {
                if old_entry.is_present() {
                    self.tables.set_leaf(page, PageTableEntry::empty());
                    if reclaim {
                        reclaim_leaf(&old_entry, cow, mem);
                    }
                    log.push(Effect::Shootdown { cpus, virt: page });
                    assert(log@ =~= old(log)@ + range_flushes(&t0, cpus, start, (k + 1) as nat));
                }
            }
            proof {
                assert forall|v: u64| v < USER_HALF_END implies #[trigger] self.tables.pte(v) == (if start
                    <= v < start + (k + 1) * 4096 && t0.pte(v).flags.present {
                    PageTableEntry::blank()
                } else {
                    t0.pte(v)
                }) by {
                    assert(before.pte(v) == (if start <= v < start + k * 4096
                        && t0.pte(v).flags.present {
                        PageTableEntry::blank()
                    } else {
                        t0.pte(v)
                    }));
                    assert((page_number(v) == page_number(page)) == (page <= v < page + 4096));
                }
            }
            k += 1;
        }
    }

    /// Remove the region that is exactly `addr .. addr + len`, with its pages.
    /// False where there is none.
    pub fn munmap(
        &mut self,
        cow: &mut CowTable,
        mem: &mut PhysMem,
        log: &mut Vec<Effect>,
        addr: u64,
        len: u64,
    ) -> (r: bool)
        requires
            old(self).wf(),
            old(cow).wf(),
        ensures
            final(self).wf(),
            final(cow).wf(),
            r == exists|i: int| #[trigger] is_region(old(self).vmas@, i, addr as int, addr + len),
            !r ==> *final(self) == *old(self) && *final(cow) == *old(cow) && *final(mem) == *old(mem)
                && final(log)@ == old(log)@,
            forall|i: int| #[trigger]
                is_region(old(self).vmas@, i, addr as int, addr + len) ==> {
                    let vma = old(self).vmas@[i]->Some_0;
                    &&& *final(self) == (AddressSpace {
                        tables: final(self).tables,
                        vmas: final(self).vmas,
                        ..*old(self)
                    })
                    &&& final(self).vmas@ == old(self).vmas@.update(i, None)
                    &&& final(self).tables.frames() == old(self).tables.frames()
                    &&& final(self).tables.kernel_half_kept(&old(self).tables)
                    &&& forall|v: u64|
                        v < USER_HALF_END ==> #[trigger] final(self).pte(v) == (if addr <= v < addr
                            + len && old(self).pte(v).flags.present {
                            PageTableEntry::blank()
                        } else {
                            old(self).pte(v)
                        })
                    &&& final(log)@ == old(log)@ + munmap_effects(
                        vma,
                        &old(self).tables,
                        old(self).active_cpus.mask(),
                    )
                    &&& reclaim_state(final(cow), final(mem)) == (if vma.is_shared_file() {
                        reclaim_state(old(cow), old(mem))
                    } else {
                        range_reclaimed(
                            &old(self).tables,
                            addr,
                            (len / 4096) as nat,
                            reclaim_state(old(cow), old(mem)),
                        )
                    })
                    &&& final(mem).bytes == old(mem).bytes
                    &&& final(mem).pool == old(mem).pool
                },
    {
        let end: u64 = match addr.checked_add(len) {
            Some(end) => end,
            None => {
                assert forall|i: int| !#[trigger] is_region(
                    self.vmas@,
                    i,
                    addr as int,
                    addr + len,
                ) by {
                    if is_region(self.vmas@, i, addr as int, addr + len) {
                        assert(self.vmas@[i] is Some);
                    }
                }
                return false;
            },
        };
        let mut slot: usize = 0;
        while slot < 32
            invariant
                slot <= 32,
                *self == *old(self),
                *cow == *old(cow),
                *mem == *old(mem),
                *log == *old(log),
                cow.wf(),
                self.wf(),
                end == addr + len,
                forall|i: int|
                    i < slot ==> !#[trigger] is_region(self.vmas@, i, addr as int, end as int),
            decreases 32 - slot,
        {
            if let Some(vma) = self.vmas[slot] {
                if vma.start == addr && vma.end == end {
                    let ghost before = *self;
                    assert(is_region(self.vmas@, slot as int, addr as int, addr + len));
                    assert(self.vmas@[slot as int] == Some(vma));
                    proof {
                        assert forall|i: int| #[trigger] is_region(
                            before.vmas@,
                            i,
                            addr as int,
                            addr + len,
                        ) implies i == slot by {
                            assert(before.vmas@[i] is Some && before.vmas@[slot as int] is Some);
                        }
                    }
                    let pages: u64 = len / 4096;
                    assert(pages * 4096 == len);
                    let ghost log0 = log@;
                    match vma.backing {
                        Backing::Anonymous => {
                            self.unmap_range(cow, mem, log, addr, pages, true);
                        },
                        Backing::File { vnode_ptr, shared, .. } => {
                            if shared {
                                log.push(Effect::Writeback { vnode: vnode_ptr });
                            }
                            self.unmap_range(cow, mem, log, addr, pages, !shared);
                            log.push(Effect::DecRef { vnode: vnode_ptr });
                        },
                    }
                    assert(log@ =~= log0 + munmap_effects(
                        vma,
                        &before.tables,
                        before.active_cpus.mask(),
                    ));
                    let ghost mid = *self;
                    self.vmas[slot] = None;
                    proof {
                        assert forall|v: u64| v < USER_HALF_END implies #[trigger] self.pte(v) == (
                        if addr <= v < addr + len && before.pte(v).flags.present {
                            PageTableEntry::blank()
                        } else {
                            before.pte(v)
                        }) by {
                            assert(self.pte(v) == mid.pte(v));
                        }
                        assert forall|i: int, j: int| 0 <= i < j < 32 implies (
                        #[trigger] self.vmas@[i] matches Some(v) ==> (
                        #[trigger] self.vmas@[j] matches Some(w) ==> v.end <= w.start || w.end
                            <= v.start)) by {
                            if self.vmas@[i] is Some && self.vmas@[j] is Some {
                                assert(before.vmas@[i] == self.vmas@[i]);
                                assert(before.vmas@[j] == self.vmas@[j]);
                            }
                        }
                    }
                    return true;
                }
            }
            slot += 1;
        }
        false
    }
}

/// What a not-present fault asks the page cache for: the file page that
/// backs the faulting page.
pub open spec fn fill_request(space: &AddressSpace, addr: u64) -> Option<(usize, u64)> {
    let page = (addr - addr % 4096) as u64;
    match space.vma_at(page) {
        Some(Vma { start, backing: Backing::File { vnode_ptr, file_offset, .. }, .. }) => Some(
            (vnode_ptr, (file_offset + (page - start)) as u64),
        ),
        _ => None,
    }
}

/// The page of `addr` is mapped and shared copy-on-write.
pub open spec fn is_cow_page(space: &AddressSpace, addr: u64) -> bool {
    let e = space.pte((addr - addr % 4096) as u64);
    addr < USER_HALF_END && e.flags.present && e.flags.cow
}

/// The copy-on-write page of `addr` was made private and writable: the last
/// owner keeps the frame, any other gets a copy.
pub open spec fn cow_resolved(
    before: &AddressSpace,
    after: &AddressSpace,
    cow0: &CowTable,
    cow1: &CowTable,
    mem0: &PhysMem,
    mem1: &PhysMem,
    log0: Seq<Effect>,
    log1: Seq<Effect>,
    addr: u64,
) -> bool {
    let page = (addr - addr % 4096) as u64;
    let e = before.pte(page);
    let sole = !cow0@.contains_key(e.frame.0);
    let frame = if sole {
        e.frame
    } else {
        PhysAddr(mem0.nth_free(0))
    };
    &&& *after == (AddressSpace { tables: after.tables, ..*before })
    &&& after.tables.frames() == before.tables.frames()
    &&& after.tables.kernel_half_kept(&before.tables)
    &&& forall|v: u64|
        v < USER_HALF_END ==> #[trigger] after.pte(v) == (if page <= v < page + 4096 {
            PageTableEntry { frame, flags: cow_writable(e.flags) }
        } else {
            before.pte(v)
        })
    &&& cow1@ == released(cow0@, e.frame.0)
    &&& log1 == log0.push(Effect::Shootdown { cpus: before.active_cpus.mask(), virt: page })
    &&& mem1.freed == mem0.freed
    &&& sole ==> *mem1 == *mem0
    &&& !sole ==> {
        &&& mem1.pool@ == mem0.pool@.drop_last()
        &&& mem1.bytes@ == overwrite(mem0.bytes@, frame.0 as int, mem0.page(e.frame.0))
    }
}

/// A region contains the page of `addr`, and its contents can be had.
pub open spec fn can_fill(space: &AddressSpace, addr: u64, fill: Option<u64>) -> bool {
    space.vma_at((addr - addr % 4096) as u64) matches Some(vma) && (vma.backing is Anonymous
        || fill is Some)
}

/// The page of `addr` was mapped from the region that contains it: zeroed
/// memory, or the frame with which the page cache answered. A private file
/// page is mapped copy-on-write, a shared one as the region allows.
pub open spec fn file_resolved(
    before: &AddressSpace,
    after: &AddressSpace,
    cow0: &CowTable,
    cow1: &CowTable,
    mem0: &PhysMem,
    mem1: &PhysMem,
    log0: Seq<Effect>,
    log1: Seq<Effect>,
    addr: u64,
    fill: Option<u64>,
) -> bool {
    let page = (addr - addr % 4096) as u64;
    let vma = before.vma_at(page)->Some_0;
    let private_file = vma.backing is File && !vma.is_shared_file();
    let flags = match vma.backing {
        Backing::Anonymous => PageFlags { writable: true, ..vma.flags },
        Backing::File { shared, .. } => if shared {
            vma.flags
        } else {
            PageFlags { writable: false, cow: true, ..vma.flags }
        },
    };
    let frame = match vma.backing {
        Backing::Anonymous => mem0.nth_free(0),
        Backing::File { .. } => fill->Some_0,
    };
    &&& *after == (AddressSpace { tables: after.tables, ..*before })
    &&& tables_grown(&before.tables, &after.tables, mem0, mem1)
    &&& after.tables.frames().len() == before.tables.frames().len() + before.tables.missing(addr)
    &&& vma.backing is Anonymous ==> !after.tables.frames().contains(frame)
    &&& after.tables.kernel_half_kept(&before.tables)
    &&& forall|v: u64|
        v < USER_HALF_END ==> #[trigger] after.pte(v) == (if page <= v < page + 4096 {
            PageTableEntry { frame: PhysAddr(frame), flags }
        } else {
            before.pte(v)
        })
    &&& cow1@ == (if private_file {
        shared(cow0@, frame)
    } else {
        cow0@
    })
    &&& log1 == log0 + (if vma.is_shared_file() && vma.flags.writable {
        seq![
            Effect::MarkDirty {
                vnode: fill_request(before, addr)->Some_0.0,
                offset: fill_request(before, addr)->Some_0.1,
            },
        ]
    } else {
        Seq::empty()
    }) + seq![Effect::Shootdown { cpus: before.active_cpus.mask(), virt: page }]
    &&& only_taken_changed(mem0, mem1)
    &&& vma.backing is Anonymous ==> mem1.page(frame) == zero_page()
    &&& vma.backing is File ==> mem1.bytes == mem0.bytes
    &&& mem1.pool@.len() == mem0.pool@.len() - before.tables.missing(addr) - (
    if vma.backing is Anonymous {
        1int
    } else {
        0
    })
}

/// `child` is the copy-on-write copy of `before`, which became `after`.
pub open spec fn cow_forked(
    before: &AddressSpace,
    after: &AddressSpace,
    child: &AddressSpace,
    kernel: &PageTable,
    pcid: u16,
) -> bool {
    &&& *after == (AddressSpace { tables: after.tables, ..*before })
    &&& after.tables.frames() == before.tables.frames()
    &&& after.tables.kernel_half_kept(&before.tables)
    &&& child.vmas == before.vmas
    &&& child.mmap_next == before.mmap_next
    &&& child.pcid == pcid
    &&& child.refcount == 1
    &&& child.active_cpus.mask() == 0
    &&& forall|i: int|
        256 <= i < 512 ==> #[trigger] child.tables.top_entry(i) == kernel.entries@[i]
    &&& forall|v: u64|
        v < USER_HALF_END && v % 4096 == 0 ==> #[trigger] after.pte(v) == (if before.forks_cow(
            v,
        ) {
            PageTableEntry { flags: cow_readonly(before.pte(v).flags), ..before.pte(v) }
        } else {
            before.pte(v)
        })
    &&& forall|v: u64|
        v < USER_HALF_END && v % 4096 == 0 ==> #[trigger] child.pte(v) == (if before.pte(
            v,
        ).flags.present {
            after.pte(v)
        } else {
            PageTableEntry::blank()
        })
}

impl AddressSpace {
    /// A copy-on-write copy for a forked child. Every mapped page becomes
    /// read-only and shared in both, except those of files mapped shared,
    /// which both go on mapping as they are.
    pub fn fork_cow(
        &mut self,
        cow: &mut CowTable,
        mem: &mut PhysMem,
        log: &mut Vec<Effect>,
        kernel: &PageTable,
        pcid: u16,
    ) -> (child: AddressSpace)
        requires
            old(self).wf(),
            old(cow).wf(),
            old(mem).wf(),
            kernel.wf(),
            old(self).tables.apart(old(mem)),
            old(mem).pool@.len() >= old(self).tables.frames().len(),
        ensures
            final(self).wf(),
            child.wf(),
            final(cow).wf(),
            final(mem).wf(),
            final(self).tables.apart(final(mem)),
            child.tables.apart(final(mem)),
            cow_forked(old(self), final(self), &child, kernel, pcid),
            final(cow)@ == old(self).fork_counts(0x8_0000_0000, old(cow)@),
            final(log)@ == old(log)@ + old(self).fork_flushes(0x8_0000_0000),
            final(mem).bytes == old(mem).bytes,
            final(mem).freed == old(mem).freed,
            final(mem).pool@ == old(mem).pool@.take(final(mem).pool@.len() as int),
            final(mem).pool@.len() == old(mem).pool@.len() - child.tables.frames().len(),
            1 <= child.tables.frames().len() <= old(self).tables.frames().len(),
            tables_taken(&child, old(mem), final(mem)),
    {
        let ghost parent0 = *self;
        let ghost counts0 = cow@;
        let ghost log0 = log@;
        proof {
            self.tables.lemma_missing_bound(0);
            assert(self.tables.frames().len() > 0);
        }
        let mut child = AddressSpace::new(mem, kernel, pcid);
        let ghost fresh = child;
        child.vmas = self.vmas;
        child.mmap_next = self.mmap_next;
        let pages = self.tables.mapped_pages();
        let cpus: u64 = self.active_cpus.snapshot();
        let mut k: usize = 0;
        let ghost mut bound: nat = 0;
        proof {
            assert(log@ =~= log0 + parent0.fork_flushes(0));
            assert(mem.pool@ =~= old(mem).pool@.take(mem.pool@.len() as int));
            assert(self.tables.apart(mem)) by {
                assert forall|i: int| 0 <= i < mem.pool@.len() implies !self.tables.frames().contains(
                    #[trigger] mem.pool@[i],
                ) by {
                    assert(mem.pool@[i] == old(mem).pool@[i]);
                }
            }
            assert forall|f: u64| #[trigger] child.tables.frames().contains(f) implies taken(
                old(mem),
                mem,
                f,
            ) by {
                assert(old(mem).pool@[old(mem).pool@.len() - 1] == f);
            }
            assert(parent0.tables.table_at(4, 0) is Some);
            assert(child.tables.frames().len() == 1);
            assert forall|v: u64| v < USER_HALF_END implies #[trigger] child.pte(v)
                == PageTableEntry::blank() by {
                assert(fresh.pte(v) == PageTableEntry::blank());
            }
        }
        while k < pages.len()
            invariant
                k <= pages@.len(),
                parent0 == *old(self),
                counts0 == old(cow)@,
                log0 == old(log)@,
                parent0.wf(),
                old(mem).wf(),
                cpus == parent0.active_cpus.mask(),
                parent0.tables.lists(pages@, 0x8_0000_0000),
                bound == (if k == 0 {
                    0
                } else {
                    page_number(pages@[k - 1]) + 1
                }),
                bound <= 0x8_0000_0000,
                self.wf(),
                child.wf(),
                cow.wf(),
                mem.wf(),
                self.tables.apart(mem),
                child.tables.apart(mem),
                *self == (AddressSpace { tables: self.tables, ..parent0 }),
                self.tables.frames() == parent0.tables.frames(),
                self.tables.kernel_half_kept(&parent0.tables),
                child.pml4_phys.0 == old(mem).nth_free(0),
                forall|v: u64| v < USER_HALF_END ==> #[trigger] self.tables.covered(v) == parent0.tables.covered(v),
                child.vmas == parent0.vmas,
                child.mmap_next == parent0.mmap_next,
                child.pcid == pcid,
                child.refcount == 1,
                child.active_cpus.mask() == 0,
                forall|i: int|
                    256 <= i < 512 ==> #[trigger] child.tables.top_entry(i) == kernel.entries@[i],
                forall|l: nat, n: nat| #[trigger]
                    child.tables.table_at(l, n) is Some ==> parent0.tables.table_at(l, n) is Some,
                forall|v: u64|
                    v < USER_HALF_END && v % 4096 == 0 ==> #[trigger] self.pte(v) == (if page_number(v)
                        < bound && parent0.forks_cow(v) {
                        PageTableEntry {
                            flags: cow_readonly(parent0.pte(v).flags),
                            ..parent0.pte(v)
                        }
                    } else {
                        parent0.pte(v)
                    }),
                forall|v: u64|
                    v < USER_HALF_END && v % 4096 == 0 ==> #[trigger] child.pte(v) == (if page_number(v)
                        < bound && parent0.pte(v).flags.present {
                        self.pte(v)
                    } else {
                        PageTableEntry::blank()
                    }),
                cow@ == parent0.fork_counts(bound, counts0),
                log@ == log0 + parent0.fork_flushes(bound),
                mem.bytes == old(mem).bytes,
                mem.freed == old(mem).freed,
                mem.pool@.len() <= old(mem).pool@.len(),
                mem.pool@ == old(mem).pool@.take(mem.pool@.len() as int),
                mem.pool@.len() == old(mem).pool@.len() - child.tables.frames().len(),
                old(mem).pool@.len() >= parent0.tables.frames().len(),
                child.tables.frames().len() <= parent0.tables.frames().len(),
                child.tables.frames().len() >= 1,
                forall|f: u64| #[trigger]
                    child.tables.frames().contains(f) ==> taken(old(mem), mem, f),
            decreases pages@.len() - k,
        {
            let virt: u64 = pages[k];
            let ghost n = page_number(virt);
            proof {
                assert(virt < USER_HALF_END);
                parent0.tables.lemma_missing_bound(virt);
                assert(bound <= n) by {
                    if k > 0 {
                        assert(pages@[k - 1] < pages@[k as int]);
                    }
                }
                assert forall|v: u64|
                    v < USER_HALF_END && v % 4096 == 0 && bound <= page_number(v) < n implies !(
                #[trigger] parent0.pte(v)).flags.present by {
                    if parent0.tables.pte(v).flags.present {
                        assert(pages@.contains(v));
                        let i = choose|i: int| 0 <= i < pages@.len() && pages@[i] == v;
                        if i < k {
                            assert(pages@[i] <= pages@[k - 1]);
                        } else {
                            assert(pages@[k as int] <= pages@[i]);
                        }
                    }
                }
                parent0.lemma_fork_skip(bound, n, counts0);
                assert(n * 4096 == virt);
                child.tables.lemma_table_budget(&parent0.tables, virt);
                assert(self.pte(virt) == parent0.pte(virt));
                assert(self.tables.covered(virt));
            }
            let ghost self0 = *self;
            let ghost child0 = child;
            let ghost m0 = *mem;
            let mut shared_file = false;
            if let Some(vma) = self.find_vma(virt) {
                if !vma.is_cow_eligible() {
                    shared_file = true;
                }
            }
            assert(shared_file == parent0.maps_shared_file(virt));
            if let Some(entry) = self.tables.leaf(virt) {
                if shared_file {
                    child.tables.map_page(mem, virt, entry.frame, entry.flags);
                } else {
                    let cow_flags = cow_readonly_flags(entry.flags);
                    self.tables.set_leaf(virt, entry.with_flags(cow_flags));
                    cow_share(cow, entry.frame);
                    child.tables.map_page(mem, virt, entry.frame, cow_flags);
                    log.push(Effect::Shootdown { cpus, virt });
                }
            }
            proof {
                bound = n + 1;
                assert forall|v: u64| v < USER_HALF_END && v % 4096 == 0 && page_number(v) == n implies v
                    == virt by {}
                assert(log@ =~= log0 + parent0.fork_flushes(bound));
                assert forall|v: u64| v < USER_HALF_END && v % 4096 == 0 implies #[trigger] self.pte(v)
                    == (if page_number(v) < bound && parent0.forks_cow(v) {
                    PageTableEntry { flags: cow_readonly(parent0.pte(v).flags), ..parent0.pte(v) }
                } else {
                    parent0.pte(v)
                }) by {
                    assert(self0.pte(v) == (if page_number(v) < n && parent0.forks_cow(v) {
                        PageTableEntry {
                            flags: cow_readonly(parent0.pte(v).flags),
                            ..parent0.pte(v)
                        }
                    } else {
                        parent0.pte(v)
                    }));
                }
                assert forall|v: u64| v < USER_HALF_END && v % 4096 == 0 implies #[trigger] child.pte(v)
                    == (if page_number(v) < bound && parent0.pte(v).flags.present {
                    self.pte(v)
                } else {
                    PageTableEntry::blank()
                }) by {
                    assert(child0.pte(v) == (if page_number(v) < n && parent0.pte(v).flags.present {
                        self0.pte(v)
                    } else {
                        PageTableEntry::blank()
                    }));
                }
                assert(mem.pool@ =~= old(mem).pool@.take(mem.pool@.len() as int));
                assert forall|i: int| 0 <= i < mem.pool@.len() implies !self.tables.frames().contains(
                    #[trigger] mem.pool@[i],
                ) by {
                    assert(mem.pool@[i] == m0.pool@[i]);
                }
                assert forall|f: u64| #[trigger] child.tables.frames().contains(f) implies taken(
                    old(mem),
                    mem,
                    f,
                ) by {
                    if child0.tables.frames().contains(f) {
                        assert(taken(old(mem), &m0, f));
                        if mem.pool@.contains(f) {
                            let i = choose|i: int| 0 <= i < mem.pool@.len() && mem.pool@[i] == f;
                            assert(m0.pool@[i] == f);
                        }
                    } else {
                        assert(m0.pool@.contains(f));
                        let i = choose|i: int| 0 <= i < m0.pool@.len() && m0.pool@[i] == f;
                        assert(old(mem).pool@[i] == f);
                    }
                }
            }
            k += 1;
        }
        proof {
            assert forall|v: u64|
                v < USER_HALF_END && v % 4096 == 0 && bound <= page_number(v) < 0x8_0000_0000 implies !(
            #[trigger] parent0.pte(v)).flags.present by {
                if parent0.tables.pte(v).flags.present {
                    assert(pages@.contains(v));
                    let i = choose|i: int| 0 <= i < pages@.len() && pages@[i] == v;
                    assert(pages@[i] <= pages@[pages@.len() - 1]);
                }
            }
            parent0.lemma_fork_skip(bound, 0x8_0000_0000, counts0);
            assert forall|v: u64| v < USER_HALF_END && v % 4096 == 0 implies #[trigger] self.pte(v) == (
            if parent0.forks_cow(v) {
                PageTableEntry { flags: cow_readonly(parent0.pte(v).flags), ..parent0.pte(v) }
            } else {
                parent0.pte(v)
            }) by {
                assert(page_number(v) < 0x8_0000_0000);
                assert(page_number(v) >= bound ==> !parent0.pte(v).flags.present);
            }
            assert forall|v: u64| v < USER_HALF_END && v % 4096 == 0 implies #[trigger] child.pte(v) == (
            if parent0.pte(v).flags.present {
                self.pte(v)
            } else {
                PageTableEntry::blank()
            }) by {
                assert(page_number(v) >= bound ==> !parent0.pte(v).flags.present);
            }
        }
        child
    }

    /// Resolve a write to a present page. False where the page is not shared
    /// copy-on-write. The last owner keeps the frame; any other gets a copy.
    pub fn resolve_cow_fault(
        &mut self,
        cow: &mut CowTable,
        mem: &mut PhysMem,
        log: &mut Vec<Effect>,
        addr: u64,
    ) -> (r: bool)
        requires
            old(self).wf(),
            old(cow).wf(),
            old(mem).wf(),
            ({
                let e = old(self).pte(addr);
                addr < USER_HALF_END && e.flags.present && e.flags.cow && old(cow)@.contains_key(
                    e.frame.0,
                ) ==> old(mem).pool@.len() > 0 && old(mem).holds(e.frame.0)
            }),
        ensures
            final(self).wf(),
            final(cow).wf(),
            final(mem).wf(),
            r == is_cow_page(old(self), addr),
            !r ==> *final(self) == *old(self) && *final(cow) == *old(cow) && *final(mem) == *old(
                mem,
            ) && final(log)@ == old(log)@,
            r ==> cow_resolved(
                old(self),
                final(self),
                old(cow),
                final(cow),
                old(mem),
                final(mem),
                old(log)@,
                final(log)@,
                addr,
            ),
    {
        let page: u64 = addr - addr % 4096;
        proof {
            if addr < USER_HALF_END {
                self.tables.lemma_missing_bound(page);
                self.tables.lemma_same_page(addr, page);
                assert forall|v: u64| v < USER_HALF_END implies (page_number(v) == page_number(page)) == (
                page <= v < page + 4096) by {}
            }
        }
        let entry = match self.tables.leaf(page) {
            Some(entry) => entry,
            None => return false,
        };
        if !entry.is_present() || !entry.is_cow() {
            return false;
        }
        let new_flags = cow_writable_flags(entry.flags);
        let cpus: u64 = self.active_cpus.snapshot();
        if cow_release(cow, entry.frame) {
            self.tables.set_leaf(page, entry.with_flags(new_flags));
            log.push(Effect::Shootdown { cpus, virt: page });
            return true;
        }
        let new_frame = mem.alloc_frame();
        mem.copy_frame(new_frame, entry.frame);
        self.tables.set_leaf(page, PageTableEntry::new_page(new_frame, new_flags));
        log.push(Effect::Shootdown { cpus, virt: page });
        true
    }

    /// The file page that resolving a not-present fault at `addr` needs from
    /// the page cache, if any.
    pub fn file_fault_request(&self, addr: u64) -> (r: Option<(usize, u64)>)
        requires
            self.wf(),
            self.vma_at((addr - addr % 4096) as u64) matches Some(v) ==> (v.backing matches Backing::File {
                file_offset,
                ..
            } ==> file_offset + (addr - addr % 4096 - v.start) <= u64::MAX),
        ensures
            r == fill_request(self, addr),
    {
        let page: u64 = addr - addr % 4096;
        proof {
            lemma_region_at(self.vmas@, page, 32);
        }
        match self.find_vma(page) {
            Some(vma) => match vma.backing {
                Backing::File { vnode_ptr, file_offset, .. } => Some(
                    (vnode_ptr, file_offset + (page - vma.start)),
                ),
                Backing::Anonymous => None,
            },
            None => None,
        }
    }

    /// Resolve a not-present fault from the region that contains the page.
    /// `fill` is the frame with which the page cache answered
    /// [`AddressSpace::file_fault_request`]. False where no region contains the
    /// page or the file could not be read.
    pub fn resolve_file_fault(
        &mut self,
        cow: &mut CowTable,
        mem: &mut PhysMem,
        log: &mut Vec<Effect>,
        addr: u64,
        fill: Option<u64>,
    ) -> (r: bool)
        requires
            old(self).wf(),
            old(cow).wf(),
            old(mem).wf(),
            old(self).tables.apart(old(mem)),
            old(self).vma_at((addr - addr % 4096) as u64) matches Some(v) ==> match v.backing {
                Backing::Anonymous => old(mem).pool@.len() > old(self).tables.missing(addr),
                Backing::File { vnode_ptr, file_offset, .. } => {
                    &&& vnode_ptr >= DIRECT_MAP_BASE
                    &&& file_offset + (addr - addr % 4096 - v.start) <= u64::MAX
                    &&& fill is Some ==> old(mem).pool@.len() >= old(self).tables.missing(addr)
                },
            },
        ensures
            final(self).wf(),
            final(cow).wf(),
            final(mem).wf(),
            final(self).tables.apart(final(mem)),
            r == can_fill(old(self), addr, fill),
            !r ==> *final(self) == *old(self) && *final(cow) == *old(cow) && *final(mem) == *old(
                mem,
            ) && final(log)@ == old(log)@,
            r ==> file_resolved(
                old(self),
                final(self),
                old(cow),
                final(cow),
                old(mem),
                final(mem),
                old(log)@,
                final(log)@,
                addr,
                fill,
            ),
    {
        let page: u64 = addr - addr % 4096;
        let ghost log0 = log@;
        proof {
            lemma_region_at(self.vmas@, page, 32);
            self.tables.lemma_same_page(addr, page);
            assert forall|v: u64| v < USER_HALF_END implies (page_number(v) == page_number(page)) == (page
                <= v < page + 4096) by {}
        }
        let vma = match self.find_vma(page) {
            Some(vma) => vma,
            None => return false,
        };
        let cpus: u64 = self.active_cpus.snapshot();
        match vma.backing {
            Backing::Anonymous => {
                let nothing: [u8; 0] = [];
                self.map_filled(mem, page, vma.flags.with_writable(), &nothing);
                assert(padded(nothing@) =~= zero_page());
            },
            Backing::File { vnode_ptr, file_offset, shared } => {
                let file_off: u64 = file_offset + (page - vma.start);
                let frame: u64 = match fill {
                    Some(frame) => frame,
                    None => return false,
                };
                let mut flags = vma.flags;
                if shared {
                    if flags.writable {
                        log.push(Effect::MarkDirty { vnode: vnode_ptr, offset: file_off });
                    }
                } else {
                    cow_share(cow, PhysAddr(frame));
                    flags = flags.without_writable().with_cow();
                }
                self.tables.map_page(mem, page, PhysAddr(frame), flags);
                proof {
                    assert(mem.pool@ =~= old(mem).pool@.take(mem.pool@.len() as int));
                }
            },
        }
        log.push(Effect::Shootdown { cpus, virt: page });
        assert(log@ =~= log0 + (if vma.is_shared_file() && vma.flags.writable {
            seq![
                Effect::MarkDirty {
                    vnode: fill_request(old(self), addr)->Some_0.0,
                    offset: fill_request(old(self), addr)->Some_0.1,
                },
            ]
        } else {
            Seq::empty()
        }) + seq![Effect::Shootdown { cpus, virt: page }]);
        true
    }
}

/// A new address space shares no table with one that was there before.
pub proof fn new_tables_are_unshared(
    other: &AddressSpace,
    space: &AddressSpace,
    before: &PhysMem,
    after: &PhysMem,
)
    requires
        other.tables.apart(before),
        tables_taken(space, before, after),
    ensures
        forall|f: u64| #[trigger]
            space.tables.frames().contains(f) ==> !other.tables.frames().contains(f),
{
    assert forall|f: u64| #[trigger] space.tables.frames().contains(f) implies !other.tables.frames().contains(
        f,
    ) by {
        assert(taken(before, after, f));
        let i = choose|i: int| 0 <= i < before.pool@.len() && before.pool@[i] == f;
        assert(!other.tables.frames().contains(before.pool@[i]));
    }
}

/// A page made copy-on-write and then private again is writable and otherwise
/// as it was.
pub proof fn cow_round_trip(flags: PageFlags)
    ensures
        cow_writable(cow_readonly(flags)) == (PageFlags { writable: true, cow: false, ..flags }),
        cow_readonly(cow_readonly(flags)) == cow_readonly(flags),
{
}

/// Parent and child of a fork see the same memory: every page that was mapped is
/// mapped in both, to the same frame. Neither can write to it, unless it is of a
/// file mapped shared, or could not be written before.
pub proof fn fork_shares_memory(
    before: &AddressSpace,
    after: &AddressSpace,
    child: &AddressSpace,
    kernel: &PageTable,
    pcid: u16,
    v: u64,
)
    requires
        cow_forked(before, after, child, kernel, pcid),
        v < USER_HALF_END,
        v % 4096 == 0,
        before.pte(v).flags.present,
    ensures
        child.pte(v) == after.pte(v),
        after.pte(v).flags.present,
        after.pte(v).frame == before.pte(v).frame,
        !before.maps_shared_file(v) ==> !after.pte(v).flags.writable && after.pte(v).flags.cow,
        before.maps_shared_file(v) ==> after.pte(v) == before.pte(v),
{
}

/// A copy-on-write page that is made private reads as it did, and no other frame
/// in use changes: whoever shared the page keeps what it had.
pub proof fn private_copy_reads_the_same(
    before: &AddressSpace,
    after: &AddressSpace,
    cow0: &CowTable,
    cow1: &CowTable,
    mem0: &PhysMem,
    mem1: &PhysMem,
    log0: Seq<Effect>,
    log1: Seq<Effect>,
    addr: u64,
    other: u64,
)
    requires
        mem0.wf(),
        is_cow_page(before, addr),
        cow_resolved(before, after, cow0, cow1, mem0, mem1, log0, log1, addr),
        cow0@.contains_key(before.pte((addr - addr % 4096) as u64).frame.0)
            ==> mem0.pool@.len() > 0 && mem0.holds(before.pte((addr - addr % 4096) as u64).frame.0),
        mem0.holds(other),
        !mem0.pool@.contains(other),
    ensures
        after.pte(addr).flags.writable,
        mem1.page(after.pte(addr).frame.0) == mem0.page(
            before.pte((addr - addr % 4096) as u64).frame.0,
        ),
        mem1.page(other) == mem0.page(other),
{
    let page = (addr - addr % 4096) as u64;
    let e = before.pte(page);
    if cow0@.contains_key(e.frame.0) {
        let new = mem0.nth_free(0);
        assert(mem0.pool@[mem0.pool@.len() - 1] == new);
        assert(mem0.holds(new));
        assert(mem1.page(new) =~= mem0.page(e.frame.0));
        assert(new != other);
        assert(mem1.page(other) =~= mem0.page(other)) by {
            assert(other + 4096 <= new || new + 4096 <= other);
        }
    }
}

proof fn lemma_stays_tracked(space: &AddressSpace, counts: Map<u64, u32>, m: nat, n: nat, frame: u64)
    requires
        m <= n,
        space.fork_counts(m, counts).contains_key(frame),
    ensures
        space.fork_counts(n, counts).contains_key(frame),
    decreases n,
{
    if m < n {
        lemma_stays_tracked(space, counts, m, (n - 1) as nat, frame);
    }
}

/// A fork records that parent and child share a page: the frame of every page
/// that becomes copy-on-write is counted, unless its part of the table is full
/// when its turn comes.
pub proof fn forked_pages_are_tracked(space: &AddressSpace, counts: Map<u64, u32>, v: u64)
    requires
        v < USER_HALF_END,
        v % 4096 == 0,
        space.forks_cow(v),
        ({
            let seen = space.fork_counts(page_number(v), counts);
            seen.contains_key(space.pte(v).frame.0) || has_room(seen, space.pte(v).frame.0)
        }),
    ensures
        space.fork_counts(0x8_0000_0000, counts).contains_key(space.pte(v).frame.0),
{
    let n = page_number(v) + 1;
    assert(((n - 1) * 4096) as u64 == v);
    lemma_stays_tracked(space, counts, n, 0x8_0000_0000, space.pte(v).frame.0);
}

/// Processes that a fork parts do not see each other's writes: the one that
/// writes to a shared page first goes on with a frame of its own, which holds
/// what the page held, and the other one still reads the old frame, which stays
/// as it is.
pub proof fn forked_write_is_private(
    before: &AddressSpace,
    after: &AddressSpace,
    child: &AddressSpace,
    kernel: &PageTable,
    pcid: u16,
    written: &AddressSpace,
    cow1: &CowTable,
    cow2: &CowTable,
    mem1: &PhysMem,
    mem2: &PhysMem,
    log1: Seq<Effect>,
    log2: Seq<Effect>,
    v: u64,
)
    requires
        cow_forked(before, after, child, kernel, pcid),
        v < USER_HALF_END,
        v % 4096 == 0,
        before.forks_cow(v),
        cow1@.contains_key(before.pte(v).frame.0),
        mem1.wf(),
        mem1.pool@.len() > 0,
        mem1.holds(before.pte(v).frame.0),
        !mem1.pool@.contains(before.pte(v).frame.0),
        cow_resolved(after, written, cow1, cow2, mem1, mem2, log1, log2, v),
    ensures
        child.pte(v).frame == before.pte(v).frame,
        !child.pte(v).flags.writable,
        written.pte(v).flags.writable,
        written.pte(v).frame != child.pte(v).frame,
        mem2.page(written.pte(v).frame.0) == mem1.page(before.pte(v).frame.0),
        mem2.page(child.pte(v).frame.0) == mem1.page(before.pte(v).frame.0),
{
    fork_shares_memory(before, after, child, kernel, pcid, v);
    private_copy_reads_the_same(
        after,
        written,
        cow1,
        cow2,
        mem1,
        mem2,
        log1,
        log2,
        v,
        before.pte(v).frame.0,
    );
    let new = mem1.nth_free(0);
    assert(mem1.pool@[mem1.pool@.len() - 1] == new);
}

/// How many of the `k` pages from `start` on share `frame` copy-on-write.
pub open spec fn owners_in(t: &UserTables, start: u64, k: nat, frame: u64) -> nat
    decreases k,
{
    if k == 0 {
        0
    } else {
        let e = t.pte((start + (k - 1) * 4096) as u64);
        owners_in(t, start, (k - 1) as nat, frame) + if e.flags.present && e.flags.cow
            && e.frame.0 == frame {
            1nat
        } else {
            0
        }
    }
}

/// Unmapping pages hands back no frame that has an owner elsewhere: where fewer
/// pages share the frame than owners are counted, it is kept, and so many owners
/// less are counted. The page cache counts as an owner of each frame that it has
/// lent to a private mapping, so that it never loses one.
pub proof fn frames_with_other_owners_are_kept(
    t: &UserTables,
    start: u64,
    k: nat,
    st: Reclaim,
    frame: u64,
)
    requires
        st.counts.contains_key(frame),
        owners_in(t, start, k, frame) < st.counts[frame],
        forall|i: int|
            0 <= i < k ==> {
                let e = #[trigger] t.pte((start + i * 4096) as u64);
                e.flags.present && e.frame.0 == frame ==> e.flags.cow
            },
    ensures
        ({
            let after = range_reclaimed(t, start, k, st);
            let left = st.counts[frame] - owners_in(t, start, k, frame);
            &&& st.freed.len() <= after.freed.len()
            &&& after.freed.take(st.freed.len() as int) == st.freed
            &&& forall|i: int|
                st.freed.len() <= i < after.freed.len() ==> #[trigger] after.freed[i] != frame
            &&& left >= 2 ==> after.counts.contains_key(frame) && after.counts[frame] == left
        }),
    decreases k,
{
    if k == 0 {
        assert(st.freed.take(st.freed.len() as int) =~= st.freed);
    } else {
        frames_with_other_owners_are_kept(t, start, (k - 1) as nat, st, frame);
        let mid = range_reclaimed(t, start, (k - 1) as nat, st);
        let after = range_reclaimed(t, start, k, st);
        let i = k - 1;
        let e = t.pte((start + i * 4096) as u64);
        assert(after.freed.take(st.freed.len() as int) =~= mid.freed.take(st.freed.len() as int));
        if e.flags.present && e.frame.0 == frame {
            assert(e.flags.cow);
            assert(mid.counts.contains_key(frame));
        }
    }
}

/// Removing the region that was just reserved restores the regions.
pub proof fn munmap_undoes_mmap(vmas: Seq<Option<Vma>>, next: u64, len: u64, vma: Vma)
    requires
        vmas_wf(vmas),
        mmap_place(vmas, next, len) is Some,
        vma.start == mmap_place(vmas, next, len)->Some_0.1,
        vma.end == vma.start + len,
    ensures
        ({
            let slot = mmap_place(vmas, next, len)->Some_0.0;
            let with = vmas.update(slot, Some(vma));
            &&& is_region(with, slot, vma.start as int, vma.start + len)
            &&& with.update(slot, None) == vmas
        }),
{
    let slot = mmap_place(vmas, next, len)->Some_0.0;
    lemma_first_free_slot(vmas, 32);
    assert(vmas.update(slot, Some(vma)).update(slot, None) =~= vmas);
}

/// A reserved region is page-aligned, lies inside the mmap region at or above
/// where the search began, and overlaps no other region.
pub proof fn mmap_finds_free_space(vmas: Seq<Option<Vma>>, next: u64, len: u64)
    requires
        mmap_place(vmas, next, len) is Some,
    ensures
        ({
            let start = mmap_place(vmas, next, len)->Some_0.1;
            &&& next <= start
            &&& start + len <= MMAP_REGION_END
            &&& start % 4096 == 0
            &&& !overlaps(vmas, start, start + len)
        }),
{
    gap_is_free(vmas, page_up(next as int), len as int);
}

/// An address space in use, and the frame that its descriptor occupies.
pub struct SharedSpace {
    pub space: AddressSpace,
    pub home: PhysAddr,
}

/// The address spaces in use. A process names one by its index.
pub struct SpaceTable {
    pub slots: Vec<Option<SharedSpace>>,
}

impl SpaceTable {
    /// Address space `h` is in use.
    pub open spec fn live(&self, h: int) -> bool {
        0 <= h < self.slots@.len() && self.slots@[h] is Some
    }

    pub open spec fn at(&self, h: int) -> AddressSpace {
        self.slots@[h]->Some_0.space
    }

    /// Every address space in use is well formed, and none of its tables lies
    /// in a frame that is still to be handed out.
    pub open spec fn wf(&self, mem: &PhysMem) -> bool {
        forall|h: int| #[trigger]
            self.live(h) ==> self.at(h).wf() && self.at(h).tables.apart(mem)
    }

    pub fn new() -> (r: Self)
        ensures
            r.slots@.len() == 0,
    {
        SpaceTable { slots: Vec::new() }
    }

    /// Address space `h` is replaced; the others stay.
    pub open spec fn set_at(before: &Self, after: &Self, h: int, space: AddressSpace) -> bool {
        after.slots@ == before.slots@.update(
            h,
            Some(SharedSpace { space, home: before.slots@[h]->Some_0.home }),
        )
    }
}

impl AddressSpace {
    /// Put an address space into use. Its descriptor takes a frame of its own.
    pub fn alloc_shared(table: &mut SpaceTable, mem: &mut PhysMem, value: AddressSpace) -> (h: usize)
        requires
            old(mem).wf(),
            old(mem).pool@.len() > 0,
        ensures
            h == old(table).slots@.len(),
            final(table).slots@ == old(table).slots@.push(
                Some(SharedSpace { space: value, home: PhysAddr(old(mem).nth_free(0)) }),
            ),
            final(mem).wf(),
            final(mem).pool@ == old(mem).pool@.drop_last(),
            final(mem).bytes == old(mem).bytes,
            final(mem).freed == old(mem).freed,
    {
        let home = mem.alloc_frame();
        let h: usize = table.slots.len();
        table.slots.push(Some(SharedSpace { space: value, home }));
        h
    }

    /// Drop one use of address space `h`. The last use gives up its mappings,
    /// then its top-level table, then its descriptor. True where that happened.
    pub fn drop_ref(table: &mut SpaceTable, h: usize, cow: &mut CowTable, mem: &mut PhysMem) -> (r:
        bool)
        requires
            old(table).live(h as int),
            old(table).at(h as int).wf(),
            old(cow).wf(),
        ensures
            final(cow).wf(),
            r == (old(table).at(h as int).refcount == 1),
            final(mem).bytes == old(mem).bytes,
            final(mem).pool == old(mem).pool,
            !r ==> {
                &&& SpaceTable::set_at(
                    old(table),
                    final(table),
                    h as int,
                    AddressSpace {
                        refcount: old(table).at(h as int).refcount.wrapping_sub(1),
                        ..old(table).at(h as int)
                    },
                )
                &&& *final(cow) == *old(cow)
                &&& *final(mem) == *old(mem)
            },
            r ==> {
                let torn = old(table).at(h as int).tables.user_half_torn(
                    reclaim_state(old(cow), old(mem)),
                );
                &&& final(table).slots@ == old(table).slots@.update(h as int, None)
                &&& final(cow)@ == torn.counts
                &&& final(mem).freed@ == torn.freed.push(
                    old(table).at(h as int).pml4_phys.0,
                ).push(old(table).slots@[h as int]->Some_0.home.0)
            },
    {
        let mut last = false;
        let mut taken_out: Option<SharedSpace> = None;
        std::mem::swap(&mut taken_out, &mut table.slots[h]);
        if let Some(mut shared) = taken_out {
            last = shared.space.dec_ref();
            if last {
                shared.space.free_user_mappings(cow, mem);
                mem.free_frame(shared.space.pml4_phys);
                mem.free_frame(shared.home);
            } else {
                let ghost kept = shared;
                table.slots.set(h, Some(shared));
                assert(table.slots@ =~= old(table).slots@.update(h as int, Some(kept)));
            }
        }
        last
    }
}

} // verus!
