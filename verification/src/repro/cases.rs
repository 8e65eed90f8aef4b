//! The cases: each fills a table, copies it, and counts the elements of the
//! copy that are not what they must be.

use vstd::prelude::*;
use vstd::string::*;
use crate::repro::tables::{
    AddrSpaceR, BackingR, FdEntryR, FdTableR, IntAddrSpaceR, IntBackingR, IntVmaR, ProcessF, ProcessR,
    SigActionR, SigTableR, StateR, VmaR,
};
use crate::sync::spin::SpinLock;
use crate::text::{dec, push_dec, push_str};

verus! {

/// How many of the first `n` elements are bad.
pub open spec fn bad_count(bad: spec_fn(int) -> bool, n: nat) -> nat
    decreases n,
{
    if n == 0 {
        0
    } else {
        bad_count(bad, (n - 1) as nat) + (if bad(n - 1) {
            1nat
        } else {
            0nat
        })
    }
}

/// The number at `i` of a table filled from `seed`.
pub open spec fn expected_u32(seed: u32, i: int) -> u32 {
    seed.wrapping_mul(0x9e37_79b9u32).wrapping_add(i as u32) | 1u32
}

/// The number at `i` of a table filled from `seed`.
pub fn expect_u32(seed: u32, i: usize) -> (r: u32)
    ensures
        r == expected_u32(seed, i as int),
{
    seed.wrapping_mul(0x9e37_79b9).wrapping_add(i as u32) | 1
}

/// The whole table filled from `seed`.
pub open spec fn filled(seed: u32, n: nat) -> Seq<u32> {
    Seq::new(n, |i: int| expected_u32(seed, i))
}

/// Which numbers differ from those filled from `seed`.
pub open spec fn differs(s: Seq<u32>, seed: u32) -> spec_fn(int) -> bool {
    |i: int| s[i] != expected_u32(seed, i)
}

/// How many numbers differ from those filled from `seed`.
pub fn corrupted(snap: &[u32], seed: u32) -> (r: u64)
    requires
        snap@.len() <= u32::MAX,
    ensures
        r == bad_count(differs(snap@, seed), snap@.len()),
{
    let mut bad: u64 = 0;
    let mut i: usize = 0;
    while i < snap.len()
        invariant
            i <= snap@.len() <= u32::MAX,
            bad <= i,
            bad == bad_count(differs(snap@, seed), i as nat),
        decreases snap@.len() - i,
    {
        if snap[i] != expect_u32(seed, i) {
            bad += 1;
        }
        i += 1;
    }
    bad
}

proof fn lemma_none_bad(bad: spec_fn(int) -> bool, n: nat)
    requires
        forall|i: int| 0 <= i < n ==> !#[trigger] bad(i),
    ensures
        bad_count(bad, n) == 0,
    decreases n,
{
    if n > 0 {
        lemma_none_bad(bad, (n - 1) as nat);
    }
}

/// A copy that is what it was filled with counts no corrupted element, and one
/// that differs anywhere counts at least one.
pub proof fn count_finds_corruption(s: Seq<u32>, seed: u32)
    ensures
        bad_count(differs(s, seed), s.len()) == 0 <==> s == filled(seed, s.len()),
{
    let bad = differs(s, seed);
    if s == filled(seed, s.len()) {
        assert forall|i: int| 0 <= i < s.len() implies !#[trigger] bad(i) by {
            assert(filled(seed, s.len())[i] == expected_u32(seed, i));
        }
        lemma_none_bad(bad, s.len());
    }
    if bad_count(bad, s.len()) == 0 {
        lemma_zero_bad(bad, s.len());
        assert forall|i: int| 0 <= i < s.len() implies s[i] == filled(seed, s.len())[i] by {
            assert(!bad(i));
        }
        assert(s =~= filled(seed, s.len()));
    }
}

proof fn lemma_zero_bad(bad: spec_fn(int) -> bool, n: nat)
    requires
        bad_count(bad, n) == 0,
    ensures
        forall|i: int| 0 <= i < n ==> !#[trigger] bad(i),
    decreases n,
{
    if n > 0 {
        lemma_zero_bad(bad, (n - 1) as nat);
    }
}

/// Fill a table under its lock.
fn fill<const N: usize>(table: &mut SpinLock<[u32; N]>, seed: u32)
    requires
        !old(table).locked,
    ensures
        !final(table).locked,
        final(table).value@ == filled(seed, N as nat),
{
    let guard = table.lock();
    let mut i: usize = 0;
    while i < N
        invariant
            i <= N,
            table.locked,
            forall|k: int| 0 <= k < i ==> #[trigger] table.value@[k] == expected_u32(seed, k),
        decreases N - i,
    {
        table.value[i] = expect_u32(seed, i);
        i += 1;
    }
    table.unlock(guard);
    assert(table.value@ =~= filled(seed, N as nat));
}

/// Fill a table, copy it out under its lock, and count.
fn snapshot<const N: usize>(table: &mut SpinLock<[u32; N]>, seed: u32) -> (r: u64)
    requires
        !old(table).locked,
        N <= 64,
    ensures
        !final(table).locked,
        final(table).value@ == filled(seed, N as nat),
        r == 0,
{
    fill(table, seed);
    let guard = table.lock();
    let snap: [u32; N] = table.value;
    table.unlock(guard);
    let bad: u64 = corrupted(&snap, seed);
    proof {
        count_finds_corruption(snap@, seed);
    }
    bad
}

/// A table of 32 numbers, copied out of its lock as a whole.
pub fn case_a_snapshot_guard_u32_32(table: &mut SpinLock<[u32; 32]>, seed: u32) -> (r: u64)
    requires
        !old(table).locked,
    ensures
        !final(table).locked,
        final(table).value@ == filled(seed, 32),
        r == 0,
{
    snapshot(table, seed)
}

/// A table of 32 numbers, cloned out of its lock.
pub fn case_b_clone_guard_u32_32(table: &mut SpinLock<[u32; 32]>, seed: u32) -> (r: u64)
    requires
        !old(table).locked,
    ensures
        !final(table).locked,
        final(table).value@ == filled(seed, 32),
        r == 0,
{
    fill(table, seed);
    let guard = table.lock();
    let snap: [u32; 32] = table.value.clone();
    table.unlock(guard);
    let bad: u64 = corrupted(&snap, seed);
    proof {
        assert(snap@ =~= filled(seed, 32));
        count_finds_corruption(snap@, seed);
    }
    bad
}

/// A table of 32 numbers, copied without a lock.
pub fn case_e_local_array_copy(snap: &mut [u32; 32], seed: u32) -> (r: u64)
    ensures
        final(snap)@ == filled(seed, 32),
        r == 0,
{
    let mut src: [u32; 32] = [0; 32];
    let mut i: usize = 0;
    while i < 32
        invariant
            i <= 32,
            forall|k: int| 0 <= k < i ==> #[trigger] src@[k] == expected_u32(seed, k),
        decreases 32 - i,
    {
        src[i] = expect_u32(seed, i);
        i += 1;
    }
    *snap = src;
    assert(snap@ =~= filled(seed, 32));
    proof {
        count_finds_corruption(snap@, seed);
    }
    corrupted(snap, seed)
}

/// A table of 8 numbers, copied out of its lock as a whole.
pub fn case_f_snapshot_guard_u32_8(table: &mut SpinLock<[u32; 8]>, seed: u32) -> (r: u64)
    requires
        !old(table).locked,
    ensures
        !final(table).locked,
        final(table).value@ == filled(seed, 8),
        r == 0,
{
    snapshot(table, seed)
}

/// A table of 16 numbers, copied out of its lock as a whole.
pub fn case_f_snapshot_guard_u32_16(table: &mut SpinLock<[u32; 16]>, seed: u32) -> (r: u64)
    requires
        !old(table).locked,
    ensures
        !final(table).locked,
        final(table).value@ == filled(seed, 16),
        r == 0,
{
    snapshot(table, seed)
}

/// A table of 64 numbers, copied out of its lock as a whole.
pub fn case_f_snapshot_guard_u32_64(table: &mut SpinLock<[u32; 64]>, seed: u32) -> (r: u64)
    requires
        !old(table).locked,
    ensures
        !final(table).locked,
        final(table).value@ == filled(seed, 64),
        r == 0,
{
    snapshot(table, seed)
}

/// The region at `slot` of an address space filled with file regions.
pub open spec fn file_vma(seed: u32, slot: int) -> VmaR {
    VmaR {
        start: (0x4000_0000_0000 + slot * 0x1000) as u64,
        end: (0x4000_0000_0000 + slot * 0x1000 + 0x1000) as u64,
        flags: 0x8000_0000_0000_0007,
        backing: BackingR::File {
            vnode_ptr: (0xffff_8000_0000_0000u64 | ((seed as u64) << 12u64) | (slot as u64)) as usize,
            file_offset: (seed as u64) << 12u64,
            shared: slot % 2 == 0,
        },
    }
}

fn make_file_vma(seed: u32, slot: usize) -> (r: VmaR)
    requires
        slot < 32,
    ensures
        r == file_vma(seed, slot as int),
{
    let start: u64 = 0x4000_0000_0000u64 + (slot as u64) * 0x1000;
    VmaR {
        start,
        end: start + 0x1000,
        flags: 0x8000_0000_0000_0007,
        backing: BackingR::File {
            vnode_ptr: (0xffff_8000_0000_0000u64 | ((seed as u64) << 12u64) | (slot as u64)) as usize,
            file_offset: (seed as u64) << 12u64,
            shared: slot % 2 == 0,
        },
    }
}

/// Regions stored one by one, each as a whole, in an address space that is made
/// where another one stood.
pub fn case_c_slot_store_file_vma(frame: &mut AddrSpaceR, seed: u32) -> (r: u64)
    ensures
        final(frame).pml4_phys == seed,
        final(frame).pcid == 1,
        final(frame).mmap_next == 0x4000_0000_0000,
        final(frame).vmas@ == Seq::new(32, |i: int| Some(file_vma(seed, i))),
        r == 0,
{
    *frame =
    AddrSpaceR { pml4_phys: seed as u64, pcid: 1, vmas: [None; 32], mmap_next: 0x4000_0000_0000 };
    let mut slot: usize = 0;
    while slot < 32
        invariant
            slot <= 32,
            frame.pml4_phys == seed,
            frame.pcid == 1,
            frame.mmap_next == 0x4000_0000_0000,
            forall|k: int|
                0 <= k < slot ==> #[trigger] frame.vmas@[k] == Some(file_vma(seed, k)),
        decreases 32 - slot,
    {
        frame.vmas[slot] = Some(make_file_vma(seed, slot));
        slot += 1;
    }
    assert(frame.vmas@ =~= Seq::new(32, |i: int| Some(file_vma(seed, i))));
    let mut bad: u64 = 0;
    let mut i: usize = 0;
    while i < 32
        invariant
            i <= 32,
            bad == 0,
            forall|k: int| 0 <= k < 32 ==> #[trigger] frame.vmas@[k] == Some(file_vma(seed, k)),
        decreases 32 - i,
    {
        if !same_vma(&frame.vmas[i], &Some(make_file_vma(seed, i))) {
            bad += 1;
        }
        i += 1;
    }
    bad
}

fn same_vma(a: &Option<VmaR>, b: &Option<VmaR>) -> (r: bool)
    ensures
        r == (*a == *b),
{
    match (a, b) {
        (Some(x), Some(y)) => *x == *y,
        (None, None) => true,
        _ => false,
    }
}

/// The region at `slot` of an address space filled with regions of numbers.
pub open spec fn int_vma(seed: u32, slot: int) -> IntVmaR {
    let a = seed.wrapping_add(slot as u32);
    IntVmaR {
        start: slot as u64,
        end: (slot + 1) as u64,
        flags: seed as u64,
        backing: IntBackingR::Ints {
            a,
            b: !a,
            c: (seed as u64) ^ (slot as u64),
            d: slot % 2 == 0,
        },
    }
}

fn make_int_vma(seed: u32, slot: usize) -> (r: IntVmaR)
    requires
        slot < 32,
    ensures
        r == int_vma(seed, slot as int),
{
    let a: u32 = seed.wrapping_add(slot as u32);
    IntVmaR {
        start: slot as u64,
        end: slot as u64 + 1,
        flags: seed as u64,
        backing: IntBackingR::Ints {
            a,
            b: !a,
            c: (seed as u64) ^ (slot as u64),
            d: slot % 2 == 0,
        },
    }
}

/// As [`case_c_slot_store_file_vma`], with regions that hold no address.
pub fn case_d_slot_store_int_vma(frame: &mut IntAddrSpaceR, seed: u32) -> (r: u64)
    ensures
        final(frame).pml4_phys == seed,
        final(frame).pcid == 1,
        final(frame).mmap_next == 0,
        final(frame).vmas@ == Seq::new(32, |i: int| Some(int_vma(seed, i))),
        r == 0,
{
    *frame = IntAddrSpaceR { pml4_phys: seed as u64, pcid: 1, vmas: [None; 32], mmap_next: 0 };
    let mut slot: usize = 0;
    while slot < 32
        invariant
            slot <= 32,
            frame.pml4_phys == seed,
            frame.pcid == 1,
            frame.mmap_next == 0,
            forall|k: int| 0 <= k < slot ==> #[trigger] frame.vmas@[k] == Some(int_vma(seed, k)),
        decreases 32 - slot,
    {
        frame.vmas[slot] = Some(make_int_vma(seed, slot));
        slot += 1;
    }
    assert(frame.vmas@ =~= Seq::new(32, |i: int| Some(int_vma(seed, i))));
    let mut bad: u64 = 0;
    let mut i: usize = 0;
    while i < 32
        invariant
            i <= 32,
            bad == 0,
            forall|k: int| 0 <= k < 32 ==> #[trigger] frame.vmas@[k] == Some(int_vma(seed, k)),
        decreases 32 - i,
    {
        let right = match &frame.vmas[i] {
            Some(v) => *v == make_int_vma(seed, i),
            None => false,
        };
        if !right {
            bad += 1;
        }
        i += 1;
    }
    bad
}

/// The region at `slot` of the parent of a fork.
pub open spec fn parent_vma(seed: u32, slot: int) -> VmaR {
    VmaR {
        start: slot as u64,
        end: (slot + 1) as u64,
        flags: 7,
        backing: if slot % 2 == 0 {
            BackingR::File {
                vnode_ptr: (0xffff_8000_0000_0000u64 | ((seed as u64) << 16u64) | (slot as u64)) as usize,
                file_offset: (seed as u64) << 8u64,
                shared: true,
            }
        } else {
            BackingR::Anonymous
        },
    }
}

fn make_parent_vma(seed: u32, slot: usize) -> (r: VmaR)
    requires
        slot < 32,
    ensures
        r == parent_vma(seed, slot as int),
{
    VmaR {
        start: slot as u64,
        end: slot as u64 + 1,
        flags: 7,
        backing: if slot % 2 == 0 {
            BackingR::File {
                vnode_ptr: (0xffff_8000_0000_0000u64 | ((seed as u64) << 16u64) | (slot as u64)) as usize,
                file_offset: (seed as u64) << 8u64,
                shared: true,
            }
        } else {
            BackingR::Anonymous
        },
    }
}

/// The regions of a parent, copied as a whole to its child.
pub fn case_h_vmas_whole_copy(parent: &mut AddrSpaceR, child: &mut AddrSpaceR, seed: u32) -> (r:
    u64)
    ensures
        final(parent).pml4_phys == seed,
        final(parent).pcid == 1,
        final(parent).mmap_next == 0,
        final(parent).vmas@ == Seq::new(32, |i: int| Some(parent_vma(seed, i))),
        final(child).pml4_phys == 0,
        final(child).pcid == 2,
        final(child).mmap_next == 0,
        final(child).vmas@ == final(parent).vmas@,
        r == 0,
{
    *parent = AddrSpaceR { pml4_phys: seed as u64, pcid: 1, vmas: [None; 32], mmap_next: 0 };
    let mut slot: usize = 0;
    while slot < 32
        invariant
            slot <= 32,
            parent.pml4_phys == seed,
            parent.pcid == 1,
            parent.mmap_next == 0,
            forall|k: int|
                0 <= k < slot ==> #[trigger] parent.vmas@[k] == Some(parent_vma(seed, k)),
        decreases 32 - slot,
    {
        parent.vmas[slot] = Some(make_parent_vma(seed, slot));
        slot += 1;
    }
    assert(parent.vmas@ =~= Seq::new(32, |i: int| Some(parent_vma(seed, i))));
    *child = AddrSpaceR { pml4_phys: 0, pcid: 2, vmas: [None; 32], mmap_next: 0 };
    child.vmas = parent.vmas;
    child.mmap_next = parent.mmap_next;
    let mut bad: u64 = 0;
    let mut i: usize = 0;
    while i < 32
        invariant
            i <= 32,
            bad == 0,
            forall|k: int|
                0 <= k < 32 ==> #[trigger] child.vmas@[k] == Some(parent_vma(seed, k)),
        decreases 32 - i,
    {
        if !same_vma(&child.vmas[i], &Some(make_parent_vma(seed, i))) {
            bad += 1;
        }
        i += 1;
    }
    bad
}

/// What signal `i` does in a table filled from `seed`.
pub open spec fn filled_action(seed: u32, i: int) -> SigActionR {
    if i % 3 == 0 {
        SigActionR::Handler { user_fn: (0x1000_0000 + seed * 256 + i) as u64 }
    } else if i % 3 == 1 {
        SigActionR::Ignore
    } else {
        SigActionR::Default
    }
}

fn make_action(seed: u32, i: usize) -> (r: SigActionR)
    requires
        i < 32,
    ensures
        r == filled_action(seed, i as int),
{
    if i % 3 == 0 {
        SigActionR::Handler { user_fn: 0x1000_0000 + seed as u64 * 256 + i as u64 }
    } else if i % 3 == 1 {
        SigActionR::Ignore
    } else {
        SigActionR::Default
    }
}

/// A table of signal actions, copied out of its lock as a whole.
pub fn case_i_sigtable_guard_copy(table: &mut SpinLock<SigTableR>, seed: u32) -> (r: u64)
    requires
        !old(table).locked,
    ensures
        !final(table).locked,
        final(table).value.actions@ == Seq::new(32, |i: int| filled_action(seed, i)),
        r == 0,
{
    let guard = table.lock();
    let mut i: usize = 0;
    while i < 32
        invariant
            i <= 32,
            table.locked,
            forall|k: int|
                0 <= k < i ==> #[trigger] table.value.actions@[k] == filled_action(seed, k),
        decreases 32 - i,
    {
        table.value.actions[i] = make_action(seed, i);
        i += 1;
    }
    table.unlock(guard);
    assert(table.value.actions@ =~= Seq::new(32, |i: int| filled_action(seed, i)));
    let guard = table.lock();
    let copy: SigTableR = table.value;
    table.unlock(guard);
    let mut bad: u64 = 0;
    let mut j: usize = 0;
    while j < 32
        invariant
            j <= 32,
            bad == 0,
            forall|k: int| 0 <= k < 32 ==> #[trigger] copy.actions@[k] == filled_action(seed, k),
        decreases 32 - j,
    {
        if copy.actions[j] != make_action(seed, j) {
            bad += 1;
        }
        j += 1;
    }
    bad
}

/// The open file at `i` of a table filled from `seed`; every fifth is closed.
pub open spec fn filled_fd(seed: u32, i: int) -> Option<FdEntryR> {
    if i % 5 == 4 {
        None
    } else {
        Some(
            FdEntryR {
                vnode_ptr: (0xffff_8000_0000_0000u64 | ((seed as u64) << 12u64) | (i as u64)) as usize,
                offset: (seed as u64) << 4u64,
                flags: (i % 3) as u32,
                _reserved: 0,
            },
        )
    }
}

fn make_fd(seed: u32, i: usize) -> (r: Option<FdEntryR>)
    requires
        i < 64,
    ensures
        r == filled_fd(seed, i as int),
{
    if i % 5 == 4 {
        None
    } else {
        Some(
            FdEntryR {
                vnode_ptr: (0xffff_8000_0000_0000u64 | ((seed as u64) << 12u64) | (i as u64)) as usize,
                offset: (seed as u64) << 4u64,
                flags: (i % 3) as u32,
                _reserved: 0,
            },
        )
    }
}

/// A table of open files, copied for a child.
pub fn case_j_fdtable_clone_for_fork(table: &mut SpinLock<FdTableR>, seed: u32) -> (r: u64)
    requires
        !old(table).locked,
    ensures
        !final(table).locked,
        final(table).value.fds@ == Seq::new(64, |i: int| filled_fd(seed, i)),
        r == 0,
{
    let guard = table.lock();
    let mut i: usize = 0;
    while i < 64
        invariant
            i <= 64,
            table.locked,
            forall|k: int| 0 <= k < i ==> #[trigger] table.value.fds@[k] == filled_fd(seed, k),
        decreases 64 - i,
    {
        table.value.fds[i] = make_fd(seed, i);
        i += 1;
    }
    table.unlock(guard);
    assert(table.value.fds@ =~= Seq::new(64, |i: int| filled_fd(seed, i)));
    let guard = table.lock();
    let child = table.value.clone_for_fork();
    table.unlock(guard);
    let mut bad: u64 = 0;
    let mut j: usize = 0;
    while j < 64
        invariant
            j <= 64,
            bad == 0,
            forall|k: int| 0 <= k < 64 ==> #[trigger] child.fds@[k] == filled_fd(seed, k),
        decreases 64 - j,
    {
        let right = match (child.fds[j], make_fd(seed, j)) {
            (Some(x), Some(y)) => x == y,
            (None, None) => true,
            _ => false,
        };
        if !right {
            bad += 1;
        }
        j += 1;
    }
    bad
}

/// A process written as a whole where other bytes stood: its table of children
/// must be empty, its number and name must be there.
pub fn case_k_placement_write_struct(frame: &mut ProcessR, seed: u32) -> (r: u64)
    ensures
        final(frame).pid == seed,
        final(frame).state == 1,
        final(frame).name@ == Seq::new(
            16,
            |i: int|
                if i == 0 {
                    0x72u8
                } else {
                    0u8
                },
        ),
        final(frame).user_rip == 0x40_0000,
        final(frame).user_rsp == 0x7fff_ffff_0000,
        !final(frame).children.locked,
        final(frame).children.value@ == Seq::new(32, |i: int| 0u32),
        final(frame).child_count == 0,
        r == 0,
{
    let mut name: [u8; 16] = [0; 16];
    name[0] = 0x72;
    *frame =
    ProcessR {
        pid: seed,
        state: 1,
        name,
        user_rip: 0x40_0000,
        user_rsp: 0x7fff_ffff_0000,
        children: SpinLock::new([0; 32]),
        child_count: 0,
    };
    let guard = frame.children.lock();
    let mut bad: u64 = 0;
    let mut i: usize = 0;
    while i < 32
        invariant
            i <= 32,
            bad == 0,
            forall|k: int| 0 <= k < 32 ==> #[trigger] frame.children.value@[k] == 0,
        decreases 32 - i,
    {
        if frame.children.value[i] != 0 {
            bad += 1;
        }
        i += 1;
    }
    frame.children.unlock(guard);
    if frame.pid != seed || frame.name[0] != 0x72 {
        bad += 1;
    }
    assert(frame.name@ =~= Seq::new(
        16,
        |i: int|
            if i == 0 {
                0x72u8
            } else {
                0u8
            },
    ));
    assert(frame.children.value@ =~= Seq::new(32, |i: int| 0u32));
    bad
}

/// The byte at `i` of a name filled from `seed`.
pub open spec fn name_byte(seed: u32, i: int) -> u8 {
    (seed as u8).wrapping_add(i as u8) | 1u8
}

fn make_name_byte(seed: u32, i: usize) -> (r: u8)
    ensures
        r == name_byte(seed, i as int),
{
    (seed as u8).wrapping_add(i as u8) | 1
}

/// A new process as a fork writes it.
pub open spec fn fresh(p: ProcessF, pid: u32, name: Seq<u8>) -> bool {
    &&& p.pid == pid
    &&& p.state is Running
    &&& p.exit_code == 0
    &&& p.address_space == 0
    &&& p.thread == 0
    &&& p.name@ == name
    &&& p.user_rip == 0x40_0000
    &&& p.user_rsp == 0x7fff_ffff_0000
    &&& p.user_rflags == 0x202
    &&& p.user_rax == 0
    &&& !p.children.locked
    &&& p.children.value@ == Seq::new(32, |i: int| 0u32)
    &&& p.child_count == 0
}

/// The name of a parent, copied into its child as part of the whole process.
pub fn case_l_fork_name_copy(parent: &mut ProcessF, child: &mut ProcessF, seed: u32) -> (r: u64)
    ensures
        fresh(*final(parent), seed, Seq::new(16, |i: int| name_byte(seed, i))),
        fresh(
            *final(child),
            seed.wrapping_add(1u32),
            Seq::new(16, |i: int| name_byte(seed, i)),
        ),
        r == 0,
{
    let mut name: [u8; 16] = [0; 16];
    let mut i: usize = 0;
    while i < 16
        invariant
            i <= 16,
            forall|k: int| 0 <= k < i ==> #[trigger] name@[k] == name_byte(seed, k),
        decreases 16 - i,
    {
        name[i] = make_name_byte(seed, i);
        i += 1;
    }
    assert(name@ =~= Seq::new(16, |i: int| name_byte(seed, i)));
    *parent =
    ProcessF {
        pid: seed,
        state: StateR::Running,
        exit_code: 0,
        address_space: 0,
        thread: 0,
        name,
        user_rip: 0x40_0000,
        user_rsp: 0x7fff_ffff_0000,
        user_rflags: 0x202,
        user_rax: 0,
        children: SpinLock::new([0; 32]),
        child_count: 0,
    };
    *child =
    ProcessF {
        pid: seed.wrapping_add(1),
        state: StateR::Running,
        exit_code: 0,
        address_space: 0,
        thread: 0,
        name: parent.name,
        user_rip: parent.user_rip,
        user_rsp: parent.user_rsp,
        user_rflags: parent.user_rflags,
        user_rax: 0,
        children: SpinLock::new([0; 32]),
        child_count: 0,
    };
    assert(parent.children.value@ =~= Seq::new(32, |i: int| 0u32));
    assert(child.children.value@ =~= Seq::new(32, |i: int| 0u32));
    let mut bad: u64 = 0;
    let mut j: usize = 0;
    while j < 16
        invariant
            j <= 16,
            bad == 0,
            forall|k: int| 0 <= k < 16 ==> #[trigger] child.name@[k] == name_byte(seed, k),
        decreases 16 - j,
    {
        if child.name[j] != make_name_byte(seed, j) {
            bad += 1;
        }
        j += 1;
    }
    bad
}

/// The line that says how a case went: `worst` is the largest number of
/// corrupted elements over all seeds.
pub open spec fn verdict(name: Seq<u8>, worst: u64) -> Seq<u8> {
    if worst == 0 {
        "PASS       ".spec_bytes() + name
    } else {
        "CORRUPTED  ".spec_bytes() + name + "  (".spec_bytes() + dec(worst as nat)
            + " bad elements, worst seed)".spec_bytes()
    }
}

/// The line that says how a case went.
pub fn verdict_line(name: &str, worst: u64) -> (r: Vec<u8>)
    ensures
        r@ == verdict(name.spec_bytes(), worst),
{
    let mut out: Vec<u8> = Vec::new();
    if worst == 0 {
        push_str(&mut out, "PASS       ");
        push_str(&mut out, name);
    } else {
        push_str(&mut out, "CORRUPTED  ");
        push_str(&mut out, name);
        push_str(&mut out, "  (");
        push_dec(&mut out, worst);
        push_str(&mut out, " bad elements, worst seed)");
    }
    assert(out@ =~= verdict(name.spec_bytes(), worst));
    out
}

} // verus!
