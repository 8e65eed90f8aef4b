//! Building the address space of a program image.

use vstd::prelude::*;
use crate::mem::{zero_page, PageFlags, PageTableEntry, PhysMem};
use crate::paging::{page_number, PageTable, USER_HALF_END};
use super::address_space::{elf_flags, lemma_taken_trans, only_taken_changed, padded, pages_not_tables, segment_page, segment_pages, segment_wf, stack_flags, tables_grown, tables_span, tables_taken, taken, AddressSpace};
use super::elf::{elf_loads, loads_of, parse_elf, segment_error, phdr_at, ElfError, ElfInfo, LoadSegment, PT_LOAD};
use super::signal::{SIGRETURN_TRAMPOLINE_CODE, SIGRETURN_TRAMPOLINE_VA};
use super::ustack::{USTACK_SIZE, USTACK_TOP};
use super::vma::MMAP_BASE;
use crate::bytes::{le_u16, le_u64};

verus! {

/// The attributes and the contents of a page.
pub type PageImage = (PageFlags, Seq<u8>);

/// The segment covers page number `page`.
pub open spec fn covers(seg: LoadSegment, page: int) -> bool {
    page_number(seg.vaddr) <= page < page_number(seg.vaddr) + segment_pages(seg)
}

/// What the first `n` segments put on the page of `virt`: a later segment
/// takes the place of an earlier one.
pub open spec fn segment_image(loads: Seq<LoadSegment>, file: Seq<u8>, n: nat, virt: u64) -> Option<
    PageImage,
>
    decreases n,
{
    if n == 0 {
        None
    } else {
        let seg = loads[n - 1];
        let page = page_number(virt) as int;
        if covers(seg, page) {
            Some(
                (elf_flags(seg.flags), segment_page(seg, file, page - page_number(seg.vaddr))),
            )
        } else {
            segment_image(loads, file, (n - 1) as nat, virt)
        }
    }
}

/// The address lies in the user stack.
pub open spec fn in_stack(virt: u64) -> bool {
    USTACK_TOP - USTACK_SIZE <= virt < USTACK_TOP
}

/// The address lies in the page that returns from signal handlers.
pub open spec fn in_trampoline(virt: u64) -> bool {
    page_number(virt) == page_number(SIGRETURN_TRAMPOLINE_VA)
}

/// What a fresh image has on the page of `virt`: the signal-return page, the
/// stack, or what the segments put there.
pub open spec fn page_image(loads: Seq<LoadSegment>, file: Seq<u8>, virt: u64) -> Option<PageImage> {
    if in_trampoline(virt) {
        Some(
            (
                PageFlags { present: true, user: true, ..PageFlags::none() },
                padded(SIGRETURN_TRAMPOLINE_CODE@),
            ),
        )
    } else if in_stack(virt) {
        Some((stack_flags(), zero_page()))
    } else {
        segment_image(loads, file, loads.len(), virt)
    }
}

/// The page of `virt` is mapped as `want` says, to a frame taken since
/// `before`.
pub open spec fn page_is(
    space: &AddressSpace,
    before: &PhysMem,
    after: &PhysMem,
    virt: u64,
    want: Option<PageImage>,
) -> bool {
    let e = space.pte(virt);
    match want {
        None => e == PageTableEntry::blank(),
        Some((flags, bytes)) => e.flags == flags && taken(before, after, e.frame.0) && after.page(
            e.frame.0,
        ) == bytes,
    }
}

/// Every page is mapped as `want` says, and no two to the same frame.
pub open spec fn pages_are(
    space: &AddressSpace,
    before: &PhysMem,
    after: &PhysMem,
    want: spec_fn(u64) -> Option<PageImage>,
) -> bool {
    &&& forall|v: u64|
        v < USER_HALF_END ==> #[trigger] space.pte(v) == space.pte(v) && page_is(
            space,
            before,
            after,
            v,
            want(v),
        )
    &&& forall|v: u64, w: u64|
        v < USER_HALF_END && w < USER_HALF_END && page_number(v) != page_number(w) && want(
            v,
        ) is Some && want(w) is Some ==> (#[trigger] space.pte(v)).frame != (#[trigger] space.pte(
            w,
        )).frame
}

/// The frames that mapping the first `n` segments can take.
pub open spec fn loads_frames(loads: Seq<LoadSegment>, n: nat) -> int
    decreases n,
{
    if n == 0 {
        0
    } else {
        loads_frames(loads, (n - 1) as nat) + segment_pages(loads[n - 1]) + tables_span(
            page_number(loads[n - 1].vaddr) as int,
            segment_pages(loads[n - 1]),
        )
    }
}

/// The frames that a whole image can take: its top-level table, its segments,
/// the stack and the signal-return page.
pub open spec fn image_frames(loads: Seq<LoadSegment>) -> int {
    1 + loads_frames(loads, loads.len()) + 67 + 4
}

/// The frames that the image of an executable can take, if it can be loaded.
pub fn frames_for_image(elf_data: &[u8]) -> (r: Option<u64>)
    ensures
        match elf_loads(elf_data@) {
            Ok(loads) => r is Some && r->Some_0 == image_frames(loads),
            Err(_) => r is None,
        },
{
    let elf = match parse_elf(elf_data) {
        Ok(elf) => elf,
        Err(_) => return None,
    };
    let ghost loads = elf.loads();
    let ghost file = elf_data@;
    let mut frames: u64 = 0;
    let mut i: usize = 0;
    while i < elf.seg_count
        invariant
            i <= elf.seg_count <= 8,
            elf.seg_count == loads.len(),
            loads == elf.loads(),
            elf_loads(file) == Ok::<Seq<LoadSegment>, ElfError>(loads),
            frames == loads_frames(loads, i as nat),
            frames <= i * 0x20_0000_0000,
        decreases elf.seg_count - i,
    {
        let seg: LoadSegment = elf.segments[i];
        proof {
            assert(seg == loads[i as int]);
            parsed_segments_fit(file, le_u16(file, 56) as nat, i as int);
        }
        let pages: u64 = (seg.memsz + 4095) / 4096;
        let mut tables: u64 = 0;
        if pages > 0 {
            let first: u64 = seg.vaddr / 4096;
            let last: u64 = first + pages - 1;
            tables = (last / 512 - first / 512 + 1) + (last / 512 / 512 - first / 512 / 512 + 1) + (last
                / 512 / 512 / 512 - first / 512 / 512 / 512 + 1);
        }
        frames = frames + pages + tables;
        i += 1;
    }
    Some(1 + frames + 67 + 4)
}

/// One more step of building: the pages of `hit` get what `new` says, the
/// others stay as they were.
proof fn lemma_extend(
    s0: &AddressSpace,
    s1: &AddressSpace,
    m0: &PhysMem,
    m1: &PhysMem,
    m2: &PhysMem,
    was: spec_fn(u64) -> Option<PageImage>,
    new: spec_fn(u64) -> Option<PageImage>,
    hit: spec_fn(u64) -> bool,
)
    requires
        m0.wf(),
        only_taken_changed(m0, m1),
        only_taken_changed(m1, m2),
        pages_are(s0, m0, m1, was),
        forall|v: u64|
            v < USER_HALF_END && !hit(v) ==> #[trigger] s1.pte(v) == s0.pte(v) && new(v) == was(v),
        forall|v: u64|
            v < USER_HALF_END && hit(v) ==> {
                let e = #[trigger] s1.pte(v);
                new(v) is Some && e.flags == new(v)->Some_0.0 && taken(m1, m2, e.frame.0)
                    && m2.page(e.frame.0) == new(v)->Some_0.1
            },
        forall|v: u64, w: u64|
            v < USER_HALF_END && w < USER_HALF_END && hit(v) && hit(w) && page_number(v)
                != page_number(w) ==> (#[trigger] s1.pte(v)).frame != (#[trigger] s1.pte(w)).frame,
    ensures
        pages_are(s1, m0, m2, new),
        only_taken_changed(m0, m2),
{
    lemma_taken_trans(m0, m1, m2);
    assert forall|v: u64| v < USER_HALF_END implies #[trigger] s1.pte(v) == s1.pte(v) && page_is(
        s1,
        m0,
        m2,
        v,
        new(v),
    ) by {
        let e = s1.pte(v);
        assert(s0.pte(v) == s0.pte(v));
        assert(page_is(s0, m0, m1, v, was(v)));
        if !hit(v) {
            if was(v) is Some {
                assert(taken(m0, m1, e.frame.0));
                assert(m2.page(e.frame.0) == m1.page(e.frame.0));
                assert(taken(m0, m2, e.frame.0));
            }
        } else {
            assert(taken(m0, m2, e.frame.0));
        }
    }
    assert forall|v: u64, w: u64|
        v < USER_HALF_END && w < USER_HALF_END && page_number(v) != page_number(w) && new(
            v,
        ) is Some && new(w) is Some implies (#[trigger] s1.pte(v)).frame != (#[trigger] s1.pte(
        w,
    )).frame by {
        let e = s1.pte(v);
        let f = s1.pte(w);
        assert(s0.pte(v) == s0.pte(v) && s0.pte(w) == s0.pte(w));
        assert(page_is(s0, m0, m1, v, was(v)) && page_is(s0, m0, m1, w, was(w)));
        if !hit(v) && !hit(w) {
            assert(s0.pte(v).frame != s0.pte(w).frame);
        } else if hit(v) && !hit(w) {
            assert(taken(m0, m1, f.frame.0));
            assert(m1.page(f.frame.0) == m1.page(f.frame.0));
            assert(!taken(m1, m2, f.frame.0));
        } else if !hit(v) && hit(w) {
            assert(taken(m0, m1, e.frame.0));
            assert(m1.page(e.frame.0) == m1.page(e.frame.0));
            assert(!taken(m1, m2, e.frame.0));
        }
    }
}

/// Mapping pages to fresh frames that hold no table keeps pages and tables apart.
proof fn lemma_extend_tables(
    s0: &AddressSpace,
    s1: &AddressSpace,
    m0: &PhysMem,
    m1: &PhysMem,
    m2: &PhysMem,
    was: spec_fn(u64) -> Option<PageImage>,
    hit: spec_fn(u64) -> bool,
)
    requires
        m0.wf(),
        only_taken_changed(m0, m1),
        only_taken_changed(m1, m2),
        pages_are(s0, m0, m1, was),
        tables_taken(s0, m0, m1),
        pages_not_tables(s0),
        s1.pml4_phys == s0.pml4_phys,
        tables_grown(&s0.tables, &s1.tables, m1, m2),
        forall|v: u64| v < USER_HALF_END && !hit(v) ==> #[trigger] s1.pte(v) == s0.pte(v),
        forall|v: u64|
            v < USER_HALF_END && hit(v) ==> !s1.tables.frames().contains(
                (#[trigger] s1.pte(v)).frame.0,
            ),
    ensures
        tables_taken(s1, m0, m2),
        pages_not_tables(s1),
{
    lemma_taken_trans(m0, m1, m2);
    assert forall|f: u64| #[trigger] s1.tables.frames().contains(f) implies taken(m0, m2, f) by {
        if s0.tables.frames().contains(f) {
            assert(taken(m0, m1, f));
        }
    }
    assert forall|v: u64| v < USER_HALF_END && (#[trigger] s1.pte(v)).flags.present implies !s1.tables.frames().contains(
        s1.pte(v).frame.0,
    ) by {
        if !hit(v) {
            let f = s0.pte(v).frame.0;
            assert(page_is(s0, m0, m1, v, was(v)));
            assert(taken(m0, m1, f));
            assert(m1.page(f) == m1.page(f));
            assert(!taken(m1, m2, f));
        }
    }
}

/// The segments of a parsed image are page-aligned, end inside the user half
/// and lie inside the file.
pub proof fn parsed_segments_fit(file: Seq<u8>, n: nat, i: int)
    requires
        loads_of(file, n) is Ok,
        0 <= i < loads_of(file, n)->Ok_0.len(),
    ensures
        segment_wf(loads_of(file, n)->Ok_0[i], file.len()),
    decreases n,
{
    if n > 0 {
        let p = phdr_at(file, le_u64(file, 32) + 56 * (n - 1));
        let segs = loads_of(file, (n - 1) as nat)->Ok_0;
        if i < segs.len() {
            parsed_segments_fit(file, (n - 1) as nat, i);
        } else {
            assert(p.p_type == PT_LOAD);
            assert(segment_error(p, file.len()) is None);
        }
    }
}

/// Build an address space for the image in `elf_data`. Returns it with the
/// initial stack pointer.
pub fn build_image(
    mem: &mut PhysMem,
    kernel: &PageTable,
    pcid: u16,
    elf: &ElfInfo,
    elf_data: &[u8],
) -> (r: (AddressSpace, u64))
    requires
        old(mem).wf(),
        kernel.wf(),
        elf.wf(),
        elf_loads(elf_data@) == Ok::<Seq<LoadSegment>, ElfError>(elf.loads()),
        old(mem).pool@.len() >= image_frames(elf.loads()),
    ensures
        final(mem).wf(),
        r.0.wf(),
        r.0.tables.apart(final(mem)),
        r.0.pcid == pcid,
        r.0.mmap_next == MMAP_BASE,
        r.0.refcount == 1,
        r.0.active_cpus.mask() == 0,
        tables_taken(&r.0, old(mem), final(mem)),
        pages_not_tables(&r.0),
        forall|i: int| 0 <= i < 32 ==> #[trigger] r.0.vmas@[i] is None,
        forall|i: int|
            256 <= i < 512 ==> #[trigger] r.0.tables.top_entry(i) == kernel.entries@[i],
        pages_are(
            &r.0,
            old(mem),
            final(mem),
            |v: u64| page_image(elf.loads(), elf_data@, v),
        ),
        only_taken_changed(old(mem), final(mem)),
        final(mem).pool@.len() >= old(mem).pool@.len() - image_frames(elf.loads()),
        r.1 == USTACK_TOP - 8,
{
    let ghost loads = elf.loads();
    let ghost file = elf_data@;
    let ghost m0 = *mem;
    proof {
        lemma_frames_mono(loads, loads.len(), loads.len());
    }
    let mut space = AddressSpace::new(mem, kernel, pcid);
    let ghost first = space;
    proof {
        assert(mem.pool@ =~= m0.pool@.take(mem.pool@.len() as int));
        assert(only_taken_changed(&m0, mem));
        let none = |v: u64| segment_image(loads, file, 0, v);
        assert forall|v: u64| v < USER_HALF_END implies #[trigger] space.pte(v) == space.pte(v)
            && page_is(&space, &m0, mem, v, none(v)) by {}
        assert(pages_are(&space, &m0, mem, none));
        assert(tables_taken(&space, &m0, mem)) by {
            assert(m0.pool@[m0.pool@.len() - 1] == space.pml4_phys.0);
        }
    }
    let mut i: usize = 0;
    while i < elf.seg_count
        invariant
            i <= elf.seg_count <= 8,
            elf.seg_count == loads.len(),
            loads == elf.loads(),
            file == elf_data@,
            elf_loads(file) == Ok::<Seq<LoadSegment>, ElfError>(loads),
            m0.wf(),
            mem.wf(),
            space.wf(),
            space.tables.apart(mem),
            space == (AddressSpace { tables: space.tables, ..first }),
            tables_taken(&space, &m0, mem),
            pages_not_tables(&space),
            forall|k: int|
                256 <= k < 512 ==> #[trigger] space.tables.top_entry(k) == kernel.entries@[k],
            pages_are(&space, &m0, mem, |v: u64| segment_image(loads, file, i as nat, v)),
            only_taken_changed(&m0, mem),
            mem.pool@.len() >= m0.pool@.len() - 1 - loads_frames(loads, i as nat),
            m0.pool@.len() >= image_frames(loads),
        decreases elf.seg_count - i,
    {
        let ghost s0 = space;
        let ghost m1 = *mem;
        let seg: LoadSegment = elf.segments[i];
        proof {
            assert(seg == loads[i as int]);
            parsed_segments_fit(file, le_u16(file, 56) as nat, i as int);
            lemma_frames_mono(loads, (i + 1) as nat, loads.len());
        }
        space.map_segment(mem, &seg, elf_data);
        proof {
            let was = |v: u64| segment_image(loads, file, i as nat, v);
            let new = |v: u64| segment_image(loads, file, (i + 1) as nat, v);
            let hit = |v: u64| covers(seg, page_number(v) as int);
            lemma_segment_step(&s0, &space, &m1, mem, loads, file, i as nat);
            lemma_extend(&s0, &space, &m0, &m1, mem, was, new, hit);
            lemma_extend_tables(&s0, &space, &m0, &m1, mem, was, hit);
        }
        i += 1;
    }
    let ghost s0 = space;
    let ghost m1 = *mem;
    proof {
        lemma_frames_mono(loads, loads.len(), loads.len());
    }
    let rsp: u64 = space.map_user_stack(mem);
    let ghost with_stack = |v: u64|
        if in_stack(v) {
            Some((stack_flags(), zero_page()))
        } else {
            segment_image(loads, file, loads.len(), v)
        };
    proof {
        let was = |v: u64| segment_image(loads, file, loads.len(), v);
        let hit = |v: u64| in_stack(v);
        assert(pages_are(&s0, &m0, &m1, was));
        lemma_stack_step(&s0, &space, &m1, mem);
        lemma_extend(&s0, &space, &m0, &m1, mem, was, with_stack, hit);
        lemma_extend_tables(&s0, &space, &m0, &m1, mem, was, hit);
    }
    let ghost s2 = space;
    let ghost m2 = *mem;
    proof {
        space.tables.lemma_missing_bound(SIGRETURN_TRAMPOLINE_VA);
    }
    space.map_sigreturn_trampoline(mem);
    proof {
        let new = |v: u64| page_image(loads, file, v);
        let hit = |v: u64| in_trampoline(v);
        assert forall|v: u64| v < USER_HALF_END && hit(v) implies #[trigger] space.pte(v)
            == space.pte(SIGRETURN_TRAMPOLINE_VA) by {
            space.tables.lemma_same_page(v, SIGRETURN_TRAMPOLINE_VA);
        }
        lemma_extend(&s2, &space, &m0, &m2, mem, with_stack, new, hit);
        lemma_extend_tables(&s2, &space, &m0, &m2, mem, with_stack, hit);
    }
    (space, rsp)
}

proof fn lemma_frames_mono(loads: Seq<LoadSegment>, m: nat, n: nat)
    requires
        m <= n <= loads.len(),
    ensures
        0 <= loads_frames(loads, m) <= loads_frames(loads, n),
    decreases n,
{
    if n > 0 {
        if m < n {
            lemma_frames_mono(loads, m, (n - 1) as nat);
        } else {
            lemma_frames_mono(loads, (m - 1) as nat, (n - 1) as nat);
        }
        lemma_span(page_number(loads[n - 1].vaddr) as int, segment_pages(loads[n - 1]));
    }
}

proof fn lemma_span(first: int, count: int)
    requires
        first >= 0,
    ensures
        0 <= tables_span(first, count),
{
}

/// What mapping segment `i` does, page by page.
proof fn lemma_segment_step(
    s0: &AddressSpace,
    s1: &AddressSpace,
    m1: &PhysMem,
    m2: &PhysMem,
    loads: Seq<LoadSegment>,
    file: Seq<u8>,
    i: nat,
)
    requires
        s1.wf(),
        i < loads.len(),
        segment_wf(loads[i as int], file.len()),
        forall|k: int|
            0 <= k < segment_pages(loads[i as int]) ==> {
                let e = #[trigger] s1.pte((loads[i as int].vaddr + k * 4096) as u64);
                &&& e.flags == elf_flags(loads[i as int].flags)
                &&& taken(m1, m2, e.frame.0)
                &&& !s1.tables.frames().contains(e.frame.0)
                &&& m2.page(e.frame.0) == segment_page(loads[i as int], file, k)
            },
        forall|j: int, k: int|
            0 <= j < k < segment_pages(loads[i as int]) ==> (#[trigger] s1.pte(
                (loads[i as int].vaddr + j * 4096) as u64,
            )).frame != (#[trigger] s1.pte((loads[i as int].vaddr + k * 4096) as u64)).frame,
    ensures
        forall|v: u64|
            v < USER_HALF_END && covers(loads[i as int], page_number(v) as int) ==> {
                let e = #[trigger] s1.pte(v);
                let new = segment_image(loads, file, (i + 1) as nat, v);
                &&& new is Some
                &&& e.flags == new->Some_0.0
                &&& taken(m1, m2, e.frame.0)
                &&& !s1.tables.frames().contains(e.frame.0)
                &&& m2.page(e.frame.0) == new->Some_0.1
            },
        forall|v: u64, w: u64|
            v < USER_HALF_END && w < USER_HALF_END && covers(loads[i as int], page_number(v) as int)
                && covers(loads[i as int], page_number(w) as int) && page_number(v) != page_number(w)
                ==> (#[trigger] s1.pte(v)).frame != (#[trigger] s1.pte(w)).frame,
{
    let seg = loads[i as int];
    assert forall|v: u64| v < USER_HALF_END && covers(seg, page_number(v) as int) implies ({
        let k = page_number(v) - page_number(seg.vaddr);
        0 <= k < segment_pages(seg) && #[trigger] s1.pte(v) == s1.pte(
            (seg.vaddr + k * 4096) as u64,
        )
    }) by {
        let k = page_number(v) - page_number(seg.vaddr);
        let base = (seg.vaddr + k * 4096) as u64;
        assert(page_number(base) == page_number(v));
        s1.tables.lemma_same_page(v, base);
    }
    assert forall|v: u64, w: u64|
        v < USER_HALF_END && w < USER_HALF_END && covers(seg, page_number(v) as int) && covers(
            seg,
            page_number(w) as int,
        ) && page_number(v) != page_number(w) implies (#[trigger] s1.pte(v)).frame != (
    #[trigger] s1.pte(w)).frame by {
        let j = page_number(v) - page_number(seg.vaddr);
        let k = page_number(w) - page_number(seg.vaddr);
        assert(s1.pte(v) == s1.pte((seg.vaddr + j * 4096) as u64));
        assert(s1.pte(w) == s1.pte((seg.vaddr + k * 4096) as u64));
    }
}

/// What mapping the stack does, page by page.
proof fn lemma_stack_step(s0: &AddressSpace, s1: &AddressSpace, m1: &PhysMem, m2: &PhysMem)
    requires
        s1.wf(),
        forall|k: int|
            0 <= k < 64 ==> {
                let e = #[trigger] s1.pte((USTACK_TOP - USTACK_SIZE + k * 4096) as u64);
                &&& e.flags == stack_flags()
                &&& taken(m1, m2, e.frame.0)
                &&& !s1.tables.frames().contains(e.frame.0)
                &&& m2.page(e.frame.0) == zero_page()
            },
        forall|j: int, k: int|
            0 <= j < k < 64 ==> (#[trigger] s1.pte(
                (USTACK_TOP - USTACK_SIZE + j * 4096) as u64,
            )).frame != (#[trigger] s1.pte((USTACK_TOP - USTACK_SIZE + k * 4096) as u64)).frame,
    ensures
        forall|v: u64|
            in_stack(v) ==> {
                let e = #[trigger] s1.pte(v);
                &&& e.flags == stack_flags()
                &&& taken(m1, m2, e.frame.0)
                &&& !s1.tables.frames().contains(e.frame.0)
                &&& m2.page(e.frame.0) == zero_page()
            },
        forall|v: u64, w: u64|
            in_stack(v) && in_stack(w) && page_number(v) != page_number(w) ==> (#[trigger] s1.pte(
                v,
            )).frame != (#[trigger] s1.pte(w)).frame,
{
    let base = USTACK_TOP - USTACK_SIZE;
    assert forall|v: u64| in_stack(v) implies ({
        let k = (v - base) / 4096;
        0 <= k < 64 && #[trigger] s1.pte(v) == s1.pte((base + k * 4096) as u64)
    }) by {
        let k = (v - base) / 4096;
        let at = (base + k * 4096) as u64;
        assert(page_number(at) == page_number(v));
        s1.tables.lemma_same_page(v, at);
    }
    assert forall|v: u64, w: u64|
        in_stack(v) && in_stack(w) && page_number(v) != page_number(w) implies (#[trigger] s1.pte(
        v,
    )).frame != (#[trigger] s1.pte(w)).frame by {
        let j = (v - base) / 4096;
        let k = (w - base) / 4096;
        assert(s1.pte(v) == s1.pte((base + j * 4096) as u64));
        assert(s1.pte(w) == s1.pte((base + k * 4096) as u64));
        assert(j != k);
    }
}

} // verus!
