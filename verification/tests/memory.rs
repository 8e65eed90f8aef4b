//! Address spaces, copy-on-write and regions.

use rumicos::mem::{PageFlags, PhysAddr, PhysMem};
use rumicos::paging::PageTable;
use rumicos::proc::address_space::{cow_readonly_flags, cow_writable_flags, AddressSpace};
use rumicos::proc::cow::{
    bucket_index, cow_refcount, cow_release, cow_resolve, cow_share, cow_unshare, CowTable, COW_BUCKETS,
};
use rumicos::proc::effects::Effect;
use rumicos::proc::vma::{
    align_down_page, align_up_page, flags_writable, prot_to_page_flags, Backing, Vma, MAP_PRIVATE,
    MAP_SHARED, MMAP_BASE, PROT_EXEC, PROT_READ, PROT_WRITE, SYS_MMAP, SYS_MUNMAP,
};

fn memory(frames: u64) -> PhysMem {
    let bytes: Vec<u8> = vec![0; (frames * 4096) as usize];
    let pool: Vec<u64> = (1..frames).rev().map(|i| i * 4096).collect();
    PhysMem::new(bytes, pool)
}

fn space(mem: &mut PhysMem) -> AddressSpace {
    AddressSpace::new(mem, &PageTable::new(), 1)
}

#[test]
fn new_address_space_starts_mmap_at_base() {
    let mut mem = memory(8);
    let aspace = space(&mut mem);
    assert_eq!(aspace.mmap_next, MMAP_BASE);
    assert!(aspace.vmas.iter().all(Option::is_none));
}

#[test]
fn mmap_anon_records_vma_without_mapping_on_host() {
    let mut mem = memory(8);
    let mut aspace = space(&mut mem);
    let addr = aspace
        .mmap_anon(
            4096,
            PageFlags::new().with_present().with_user_accessible().with_writable(),
        )
        .unwrap();
    assert_eq!(addr, MMAP_BASE);
    assert!(matches!(aspace.find_vma(addr).unwrap().backing, Backing::Anonymous));
}

#[test]
fn mmap_anon_rejects_unaligned_len() {
    let mut mem = memory(8);
    let mut aspace = space(&mut mem);
    assert!(aspace.mmap_anon(123, PageFlags::new()).is_none());
}

#[test]
fn munmap_requires_exact_vma_range() {
    let mut mem = memory(8);
    let mut cow = CowTable::new();
    let mut log: Vec<Effect> = Vec::new();
    let mut aspace = space(&mut mem);
    let addr = aspace.mmap_anon(4096, PageFlags::new()).unwrap();
    assert!(!aspace.munmap(&mut cow, &mut mem, &mut log, addr, 8192));
    assert!(aspace.munmap(&mut cow, &mut mem, &mut log, addr, 4096));
    assert!(aspace.find_vma(addr).is_none());
}

#[test]
fn fork_cow_copies_vma_metadata_on_host() {
    let mut mem = memory(8);
    let mut cow = CowTable::new();
    let mut log: Vec<Effect> = Vec::new();
    let mut aspace = space(&mut mem);
    let addr = aspace.mmap_anon(4096, PageFlags::new()).unwrap();
    let child = aspace.fork_cow(&mut cow, &mut mem, &mut log, &PageTable::new(), 2);
    assert_eq!(child.find_vma(addr), aspace.find_vma(addr));
    assert_eq!(child.mmap_next, aspace.mmap_next);
}

#[test]
fn new_address_space_starts_with_refcount_one() {
    let mut mem = memory(8);
    let aspace = space(&mut mem);
    assert_eq!(aspace.refcount, 1);
}

#[test]
fn inc_ref_then_dec_ref_returns_to_sole_owner() {
    let mut mem = memory(8);
    let mut aspace = space(&mut mem);
    aspace.inc_ref();
    assert_eq!(aspace.refcount, 2);
    assert!(!aspace.dec_ref(), "sibling exiting first is not the last owner");
    assert_eq!(aspace.refcount, 1);
    assert!(aspace.dec_ref(), "the original owner exiting last IS the last owner");
}

#[test]
fn dec_ref_on_sole_owner_reports_last() {
    let mut mem = memory(8);
    let mut aspace = space(&mut mem);
    assert!(aspace.dec_ref());
}

#[test]
fn new_address_space_starts_with_no_active_cpus() {
    let mut mem = memory(8);
    let aspace = space(&mut mem);
    assert_eq!(aspace.active_cpus.snapshot(), 0);
}

#[test]
fn anonymous_page_is_shared_by_fork_and_copied_on_write() {
    let mut mem = memory(32);
    let mut cow = CowTable::new();
    let mut log: Vec<Effect> = Vec::new();
    let mut parent = space(&mut mem);
    let flags = PageFlags::new().with_present().with_user_accessible().with_writable();
    let addr = parent.mmap_anon(4096, flags).unwrap();
    // The first touch maps a zeroed frame.
    assert!(parent.resolve_file_fault(&mut cow, &mut mem, &mut log, addr, None));
    let frame = parent.tables.leaf(addr).unwrap().frame;
    mem.write_bytes(frame.0, b"shared");
    let mut child = parent.fork_cow(&mut cow, &mut mem, &mut log, &PageTable::new(), 2);
    let p = parent.tables.leaf(addr).unwrap();
    let c = child.tables.leaf(addr).unwrap();
    assert_eq!(p.frame, frame);
    assert_eq!(c.frame, frame);
    assert!(p.flags.is_cow() && !flags_writable(p.flags));
    assert!(c.flags.is_cow() && !flags_writable(c.flags));
    assert_eq!(cow_refcount(&cow, frame), 2);
    // The child writes first: it gets a copy with the same contents.
    assert!(child.resolve_cow_fault(&mut cow, &mut mem, &mut log, addr));
    let copy = child.tables.leaf(addr).unwrap();
    assert_ne!(copy.frame, frame);
    assert!(flags_writable(copy.flags) && !copy.flags.is_cow());
    assert_eq!(mem.read_bytes(copy.frame.0, 6), b"shared".to_vec());
    mem.write_bytes(copy.frame.0, b"child!");
    assert_eq!(mem.read_bytes(frame.0, 6), b"shared".to_vec());
    // The parent is the last owner: it keeps the frame.
    assert!(parent.resolve_cow_fault(&mut cow, &mut mem, &mut log, addr));
    assert_eq!(parent.tables.leaf(addr).unwrap().frame, frame);
    // A page that is not shared is not resolved.
    assert!(!parent.resolve_cow_fault(&mut cow, &mut mem, &mut log, addr));
    assert!(!parent.resolve_cow_fault(&mut cow, &mut mem, &mut log, 0x1000));
}

#[test]
fn shared_file_page_stays_writable_across_fork() {
    let mut mem = memory(32);
    let mut cow = CowTable::new();
    let mut log: Vec<Effect> = Vec::new();
    let mut parent = space(&mut mem);
    let flags = PageFlags::new().with_present().with_user_accessible().with_writable();
    let backing = Backing::File { vnode_ptr: 0xffff_8000_0000_9000, file_offset: 0x2000, shared: true };
    let addr = parent.mmap(8192, flags, backing).unwrap();
    assert_eq!(parent.file_fault_request(addr + 4096 + 5), Some((0xffff_8000_0000_9000, 0x3000)));
    let frame = mem.alloc_frame();
    assert!(parent.resolve_file_fault(&mut cow, &mut mem, &mut log, addr, Some(frame.0)));
    let child = parent.fork_cow(&mut cow, &mut mem, &mut log, &PageTable::new(), 2);
    let p = parent.tables.leaf(addr).unwrap();
    assert_eq!(child.tables.leaf(addr).unwrap(), p);
    assert!(flags_writable(p.flags) && !p.flags.is_cow());
    // A page that the cache cannot fill is not mapped.
    assert!(!parent.resolve_file_fault(&mut cow, &mut mem, &mut log, addr + 4096, None));
    // No region there.
    assert_eq!(parent.file_fault_request(0x5000), None);
    assert!(!parent.resolve_file_fault(&mut cow, &mut mem, &mut log, 0x5000, None));
}

#[test]
fn mmap_runs_out_of_slots() {
    let mut mem = memory(8);
    let mut aspace = space(&mut mem);
    for i in 0..32u64 {
        assert_eq!(aspace.mmap_anon(4096, PageFlags::new()), Some(MMAP_BASE + i * 4096));
    }
    assert_eq!(aspace.mmap_anon(4096, PageFlags::new()), None);
}

#[test]
fn freed_region_is_reused_after_munmap() {
    let mut mem = memory(8);
    let mut cow = CowTable::new();
    let mut log: Vec<Effect> = Vec::new();
    let mut aspace = space(&mut mem);
    let a = aspace.mmap_anon(4096, PageFlags::new()).unwrap();
    let b = aspace.mmap_anon(8192, PageFlags::new()).unwrap();
    assert_eq!(b, a + 4096);
    assert!(aspace.munmap(&mut cow, &mut mem, &mut log, a, 4096));
    assert!(aspace.find_vma(a).is_none());
    assert!(aspace.find_vma(b).is_some());
    assert!(aspace.find_vma(b + 8191).is_some());
    assert!(aspace.find_vma(b + 8192).is_none());
}

// Copy-on-write counts.

#[test]
fn absent_frame_has_refcount_one() {
    let t = CowTable::new();
    assert_eq!(cow_refcount(&t, PhysAddr::new(0x1000)), 1);
}

#[test]
fn first_share_sets_refcount_two() {
    let mut t = CowTable::new();
    let frame = PhysAddr::new(0x2000);
    cow_share(&mut t, frame);
    assert_eq!(cow_refcount(&t, frame), 2);
}

#[test]
fn repeated_share_and_unshare_tracks_count() {
    let mut t = CowTable::new();
    let frame = PhysAddr::new(0x3000);
    cow_share(&mut t, frame);
    cow_share(&mut t, frame);
    assert_eq!(cow_refcount(&t, frame), 3);
    cow_unshare(&mut t, frame);
    assert_eq!(cow_refcount(&t, frame), 2);
    cow_unshare(&mut t, frame);
    assert_eq!(cow_refcount(&t, frame), 1);
}

#[test]
fn bucket_index_is_stable_for_same_frame() {
    let frame = PhysAddr::new(0x1234_5000);
    assert_eq!(bucket_index(frame), bucket_index(frame));
    assert!(bucket_index(frame) < COW_BUCKETS);
}

#[test]
fn cow_release_on_an_existing_entry_always_reports_not_sole_regardless_of_refcount() {
    let mut t = CowTable::new();
    let frame = PhysAddr::new(0xb000);
    cow_share(&mut t, frame);
    assert!(
        !cow_release(&mut t, frame),
        "an entry at refcount 2 still means that one other owner is outstanding"
    );
    assert_eq!(cow_refcount(&t, frame), 1, "the decrement removes the entry outright");
}

#[test]
fn cow_release_sequential_two_peer_resolution_first_false_second_true() {
    let mut t = CowTable::new();
    let frame = PhysAddr::new(0xd000);
    cow_share(&mut t, frame);

    let first = cow_release(&mut t, frame);
    assert!(!first, "first of two peers to resolve must copy away");
    assert_eq!(cow_refcount(&t, frame), 1, "entry gone after the first resolution");

    let second = cow_release(&mut t, frame);
    assert!(second, "second (last) peer, finding no entry, must be told it's sole owner");
    assert_eq!(cow_refcount(&t, frame), 1, "still untracked");
}

#[test]
fn cow_release_on_untracked_frame_reports_sole_owner() {
    let mut t = CowTable::new();
    let frame = PhysAddr::new(0x9000);
    assert!(cow_release(&mut t, frame), "untracked frame must be its own sole owner");
    assert_eq!(cow_refcount(&t, frame), 1);
}

#[test]
fn cow_release_keeps_other_owners_when_more_than_two_remain() {
    let mut t = CowTable::new();
    let frame = PhysAddr::new(0xa000);
    cow_share(&mut t, frame);
    cow_share(&mut t, frame);
    assert!(
        !cow_release(&mut t, frame),
        "with 3 owners, releasing one must NOT report sole ownership"
    );
    assert_eq!(cow_refcount(&t, frame), 2);
}

#[test]
fn cow_release_combined_decrement_matches_manual_decrement_sequence() {
    let mut t = CowTable::new();
    let frame = PhysAddr::new(0xc000);
    cow_share(&mut t, frame);
    cow_share(&mut t, frame);
    cow_share(&mut t, frame);

    assert!(!cow_release(&mut t, frame));
    assert_eq!(cow_refcount(&t, frame), 3);

    assert!(!cow_release(&mut t, frame));
    assert_eq!(cow_refcount(&t, frame), 2);

    assert!(!cow_release(&mut t, frame));
    assert_eq!(cow_refcount(&t, frame), 1);

    assert!(cow_release(&mut t, frame));
    assert_eq!(cow_refcount(&t, frame), 1);
}

#[test]
fn cow_resolve_tells_the_action_who_owns_the_frame() {
    let mut t = CowTable::new();
    let frame = PhysAddr::new(0xe000);
    cow_share(&mut t, frame);
    assert_eq!(cow_resolve(&mut t, frame, |sole: bool| if sole { 1 } else { 2 }), 2);
    assert_eq!(cow_resolve(&mut t, frame, |sole: bool| if sole { 1 } else { 2 }), 1);
}

#[test]
fn full_bucket_drops_the_share() {
    let mut t = CowTable::new();
    // Find frames of one bucket, one more than it holds.
    let first = PhysAddr::new(0x1000);
    let b = bucket_index(first);
    let mut frames: Vec<PhysAddr> = Vec::new();
    let mut n: u64 = 1;
    while frames.len() < 33 {
        let f = PhysAddr::new(n * 4096);
        if bucket_index(f) == b {
            frames.push(f);
        }
        n += 1;
    }
    for f in &frames {
        cow_share(&mut t, *f);
    }
    for f in &frames[..32] {
        assert_eq!(cow_refcount(&t, *f), 2);
    }
    assert_eq!(cow_refcount(&t, frames[32]), 1);
}

#[test]
fn cow_readonly_flags_clear_writable_and_set_cow() {
    let flags = PageFlags::new().with_present().with_writable();
    let cow = cow_readonly_flags(flags);
    assert_eq!(cow.as_u64() & PageFlags::WRITABLE, 0);
    assert!(cow.is_cow());
}

#[test]
fn cow_writable_flags_set_writable_and_clear_cow() {
    let flags = PageFlags::new().with_present().with_cow();
    let writable = cow_writable_flags(flags);
    assert_ne!(writable.as_u64() & PageFlags::WRITABLE, 0);
    assert!(!writable.is_cow());
}

// Regions.

#[test]
fn mmap_syscall_numbers_match_linux() {
    assert_eq!(SYS_MMAP, 9);
    assert_eq!(SYS_MUNMAP, 11);
}

#[test]
fn map_shared_flag_matches_linux() {
    assert_eq!(MAP_SHARED, 0x01);
    assert_eq!(MAP_PRIVATE, 0x02);
}

#[test]
fn prot_write_sets_writable() {
    let flags = prot_to_page_flags(PROT_READ | PROT_WRITE);
    assert_eq!(flags.as_u64() & PageFlags::WRITABLE, PageFlags::WRITABLE);
    assert_ne!(flags.as_u64() & PageFlags::NO_EXECUTE, 0);
}

#[test]
fn prot_exec_clears_no_execute() {
    let flags = prot_to_page_flags(PROT_READ | PROT_EXEC);
    assert_eq!(flags.as_u64() & PageFlags::NO_EXECUTE, 0);
}

#[test]
fn vma_contains_start_but_not_end() {
    let vma = Vma { start: 0x1000, end: 0x3000, flags: PageFlags::new(), backing: Backing::Anonymous };
    assert!(vma.contains(0x1000));
    assert!(vma.contains(0x2fff));
    assert!(!vma.contains(0x3000));
}

#[test]
fn vma_len_and_is_empty_agree() {
    let nonempty =
        Vma { start: 0x1000, end: 0x3000, flags: PageFlags::new(), backing: Backing::Anonymous };
    assert_eq!(nonempty.len(), 0x2000);
    assert!(!nonempty.is_empty());

    let empty =
        Vma { start: 0x5000, end: 0x5000, flags: PageFlags::new(), backing: Backing::Anonymous };
    assert_eq!(empty.len(), 0);
    assert!(empty.is_empty());
}

#[test]
fn anonymous_and_private_file_backing_are_cow_eligible() {
    let anon = Vma { start: 0, end: 0x1000, flags: PageFlags::new(), backing: Backing::Anonymous };
    assert!(anon.is_cow_eligible());

    let private_file = Vma {
        start: 0,
        end: 0x1000,
        flags: PageFlags::new(),
        backing: Backing::File { vnode_ptr: 0x9000, file_offset: 0, shared: false },
    };
    assert!(private_file.is_cow_eligible());
}

#[test]
fn shared_file_backing_is_never_cow_eligible() {
    let shared_file = Vma {
        start: 0,
        end: 0x1000,
        flags: PageFlags::new(),
        backing: Backing::File { vnode_ptr: 0x9000, file_offset: 0, shared: true },
    };
    assert!(!shared_file.is_cow_eligible());
}

#[test]
fn flags_writable_reflects_writable_bit() {
    assert!(flags_writable(PageFlags::new().with_writable()));
    assert!(!flags_writable(PageFlags::new()));
}

#[test]
fn page_alignment() {
    assert_eq!(align_up_page(0), Some(0));
    assert_eq!(align_up_page(1), Some(4096));
    assert_eq!(align_up_page(4096), Some(4096));
    assert_eq!(align_up_page(u64::MAX), None);
    assert_eq!(align_down_page(4097), 4096);
    assert_eq!(align_down_page(4095), 0);
}

#[test]
fn tables_are_counted() {
    let mut mem = memory(8);
    let mut aspace = space(&mut mem);
    assert_eq!(aspace.tables.table_count(), 1);
    aspace.tables.map_page(&mut mem, 0x40_0000, PhysAddr::new(0x5000), PageFlags::new().with_present());
    assert_eq!(aspace.tables.table_count(), 4);
    aspace.tables.map_page(&mut mem, 0x40_1000, PhysAddr::new(0x6000), PageFlags::new().with_present());
    assert_eq!(aspace.tables.table_count(), 4);
}
