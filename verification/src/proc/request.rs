//! What is taken from a program's memory, and what its CPUs are told about it.

use vstd::prelude::*;
use crate::bits::{bit, lemma_bit_ops};
use crate::mem::PhysMem;
use crate::numbers::{fields_are_read_least_byte_first, number_at};
use crate::paging::UserTables;
use super::effects::Effect;
use super::shootdown::{answer, cpu_bit, targets_below, ShootdownRequest};
use super::state::{activated, Kernel};
use super::usermem::{before_nul, exec_request, nul_ends_string, user_byte, user_read, user_string, user_strings, user_word};

verus! {

/// The program sees the bytes `s` at `addr`.
pub open spec fn seen_at(t: &UserTables, mem: &PhysMem, addr: int, s: Seq<u8>) -> bool {
    forall|i: int| 0 <= i < s.len() ==> user_byte(t, mem, addr + i) == Some(#[trigger] s[i])
}

/// The program sees the text `s` at `addr`, which a zero byte ends; of a longer one, the
/// first 256 bytes.
pub open spec fn text_at(t: &UserTables, mem: &PhysMem, addr: int, s: Seq<u8>) -> bool {
    &&& seen_at(t, mem, addr, s)
    &&& s.len() <= 256
    &&& forall|i: int| 0 <= i < s.len() ==> #[trigger] s[i] != 0
    &&& s.len() < 256 ==> user_byte(t, mem, addr + s.len()) == Some(0u8)
}

/// The program sees the word `v` at `addr`.
pub open spec fn word_seen(t: &UserTables, mem: &PhysMem, addr: int, v: u64) -> bool {
    exists|s: Seq<u8>| s.len() == 8 && #[trigger] seen_at(t, mem, addr, s) && number_at(s, 0, 8) == v
}

/// What is read of a program's memory is what the program sees there.
pub proof fn reading_gives_what_is_seen(t: &UserTables, mem: &PhysMem, addr: int, len: nat)
    ensures
        user_read(t, mem, addr, len) matches Ok(s) ==> s.len() == len && seen_at(t, mem, addr, s),
        user_read(t, mem, addr, len) matches Err(_) ==> exists|i: int|
            0 <= i < len && #[trigger] user_byte(t, mem, addr + i) is None,
    decreases len,
{
    if len > 0 {
        reading_gives_what_is_seen(t, mem, addr, (len - 1) as nat);
        if user_byte(t, mem, addr + len - 1) is None {
            assert(user_byte(t, mem, addr + (len - 1)) is None);
        }
        if let Ok(s) = user_read(t, mem, addr, len) {
            let r = user_read(t, mem, addr, (len - 1) as nat)->Ok_0;
            assert(s == r.push(s.last()));
            assert forall|i: int| 0 <= i < s.len() implies user_byte(t, mem, addr + i) == Some(
                #[trigger] s[i],
            ) by {
                if i < len - 1 {
                    assert(s[i] == r[i]);
                }
            }
        }
    }
}

proof fn lemma_text(t: &UserTables, mem: &PhysMem, addr: int)
    ensures
        user_string(t, mem, addr) matches Ok(s) ==> text_at(t, mem, addr, s),
{
    reading_gives_what_is_seen(t, mem, addr, 256);
    if let Ok(all) = user_read(t, mem, addr, 256) {
        nul_ends_string(all);
        let s = all.take(before_nul(all));
        assert forall|i: int| 0 <= i < s.len() implies user_byte(t, mem, addr + i) == Some(
            #[trigger] s[i],
        ) by {
            assert(s[i] == all[i]);
        }
        assert forall|i: int| 0 <= i < s.len() implies #[trigger] s[i] != 0 by {
            assert(s[i] == all[i]);
        }
        if s.len() < 256 {
            assert(all[s.len() as int] == 0);
        }
    }
}

proof fn lemma_word(t: &UserTables, mem: &PhysMem, addr: int)
    ensures
        user_word(t, mem, addr) matches Ok(v) ==> word_seen(t, mem, addr, v),
{
    reading_gives_what_is_seen(t, mem, addr, 8);
    if let Ok(s) = user_read(t, mem, addr, 8) {
        fields_are_read_least_byte_first(s, 0);
        assert(seen_at(t, mem, addr, s));
    }
}

/// String `i` of a list at `ptr` is the text that the list's word `i` points to.
pub open spec fn listed(t: &UserTables, mem: &PhysMem, ptr: int, i: int, s: Seq<u8>) -> bool {
    exists|a: u64| a != 0 && #[trigger] word_seen(t, mem, ptr + 8 * i, a) && text_at(t, mem, a as int, s)
}

proof fn lemma_strings(t: &UserTables, mem: &PhysMem, ptr: int, got: Seq<Seq<u8>>, left: nat)
    ensures
        user_strings(t, mem, ptr, got, left) matches Ok(r) ==> {
            &&& got.len() <= r.len() <= got.len() + left
            &&& forall|i: int| 0 <= i < got.len() ==> #[trigger] r[i] == got[i]
            &&& forall|i: int|
                got.len() <= i < r.len() ==> listed(t, mem, ptr, i - got.len(), #[trigger] r[i])
            &&& r.len() < got.len() + left ==> word_seen(t, mem, ptr + 8 * (r.len() - got.len()), 0)
        },
    decreases left,
{
    if left > 0 {
        lemma_word(t, mem, ptr);
        if let Ok(a) = user_word(t, mem, ptr) {
            lemma_text(t, mem, a as int);
            if a != 0 {
                if let Ok(s) = user_string(t, mem, a as int) {
                    lemma_strings(t, mem, ptr + 8, got.push(s), (left - 1) as nat);
                    if let Ok(r) = user_strings(t, mem, ptr, got, left) {
                        if user_strings(t, mem, ptr + 8, got.push(s), (left - 1) as nat) == Ok::<
                            Seq<Seq<u8>>,
                            super::usermem::UserError,
                        >(r) {
                            assert forall|i: int| got.len() <= i < r.len() implies listed(
                                t,
                                mem,
                                ptr,
                                i - got.len(),
                                #[trigger] r[i],
                            ) by {
                                if i == got.len() {
                                    assert(r[i] == got.push(s)[i]);
                                    assert(word_seen(t, mem, ptr + 8 * 0, a));
                                } else {
                                    assert(listed(t, mem, ptr + 8, i - got.len() - 1, r[i]));
                                    let b = choose|b: u64|
                                        b != 0 && #[trigger] word_seen(
                                            t,
                                            mem,
                                            ptr + 8 + 8 * (i - got.len() - 1),
                                            b,
                                        ) && text_at(t, mem, b as int, r[i]);
                                    assert(word_seen(t, mem, ptr + 8 * (i - got.len()), b));
                                }
                            }
                            assert forall|i: int| 0 <= i < got.len() implies #[trigger] r[i] == got[i] by {
                                assert(r[i] == got.push(s)[i]);
                            }
                            if r.len() < got.len() + left {
                                assert(ptr + 8 + 8 * (r.len() - got.len() - 1) == ptr + 8 * (r.len()
                                    - got.len()));
                            }
                        }
                    }
                }
            } else {
                assert(ptr + 8 * 0 == ptr);
            }
        }
    }
}

/// A program that asks for another names it by texts in its own memory: the path at
/// the first address, and at the other two lists of addresses of texts, each up to a
/// zero or 32 long. A list may be left out.
pub proof fn requested_texts_are_in_memory(
    t: &UserTables,
    mem: &PhysMem,
    path: u64,
    argv: u64,
    envp: u64,
    i: int,
)
    requires
        exec_request(t, mem, path, argv, envp) is Ok,
    ensures
        ({
            let r = exec_request(t, mem, path, argv, envp)->Ok_0;
            &&& text_at(t, mem, path as int, r.0)
            &&& r.1.len() <= 32
            &&& r.2.len() <= 32
            &&& argv == 0 ==> r.1.len() == 0
            &&& envp == 0 ==> r.2.len() == 0
            &&& 0 <= i < r.1.len() ==> listed(t, mem, argv as int, i, r.1[i])
            &&& 0 <= i < r.2.len() ==> listed(t, mem, envp as int, i, r.2[i])
            &&& argv != 0 && r.1.len() < 32 ==> word_seen(t, mem, argv + 8 * r.1.len(), 0)
            &&& envp != 0 && r.2.len() < 32 ==> word_seen(t, mem, envp + 8 * r.2.len(), 0)
        }),
{
    lemma_text(t, mem, path as int);
    lemma_strings(t, mem, argv as int, Seq::empty(), 32);
    lemma_strings(t, mem, envp as int, Seq::empty(), 32);
    let r = exec_request(t, mem, path, argv, envp)->Ok_0;
    if 0 <= i < r.1.len() {
        assert(listed(t, mem, argv as int, i - 0, r.1[i]));
    }
    if 0 <= i < r.2.len() {
        assert(listed(t, mem, envp as int, i - 0, r.2[i]));
    }
}

proof fn lemma_asked(mask: u64, ids: Seq<Option<u32>>, n: nat, id: u32)
    requires
        n <= 64,
        n <= ids.len(),
    ensures
        targets_below(mask, ids, n).contains(id) == exists|i: int|
            0 <= i < n && #[trigger] ids[i] == Some(id) && bit(mask, i as u64),
    decreases n,
{
    if n > 0 {
        lemma_asked(mask, ids, (n - 1) as nat, id);
        let rest = targets_below(mask, ids, (n - 1) as nat);
        let all = targets_below(mask, ids, n);
        if exists|i: int| 0 <= i < n && #[trigger] ids[i] == Some(id) && bit(mask, i as u64) {
            let i = choose|i: int| 0 <= i < n && #[trigger] ids[i] == Some(id) && bit(mask, i as u64);
            if i < n - 1 {
                assert(rest.contains(id));
                let j = choose|j: int| 0 <= j < rest.len() && rest[j] == id;
                assert(all[j] == id);
            } else {
                assert(all.last() == id);
            }
        }
        if all.contains(id) {
            let j = choose|j: int| 0 <= j < all.len() && all[j] == id;
            if j < rest.len() {
                assert(rest[j] == id);
                let i = choose|i: int|
                    0 <= i < n - 1 && #[trigger] ids[i] == Some(id) && bit(mask, i as u64);
                assert(ids[i] == Some(id));
            } else {
                assert(ids[n - 1] == Some(id));
            }
        }
    }
}

/// When a translation changes, every other CPU that uses the address space is asked to
/// forget it, and no other is.
pub proof fn every_other_user_is_asked(active: u64, self_id: u32, ids: Seq<Option<u32>>, id: u32)
    requires
        ids.len() == 64,
    ensures
        targets_below(active & !(1u64 << (self_id as u64 % 64)), ids, 64).contains(id) == exists|i: int|
            0 <= i < 64 && i != self_id as int % 64 && #[trigger] ids[i] == Some(id) && bit(
                active,
                i as u64,
            ),
{
    let me = self_id as u64 % 64;
    let mask = active & !(1u64 << me);
    lemma_asked(mask, ids, 64, id);
    assert forall|i: int| 0 <= i < 64 implies #[trigger] bit(mask, i as u64) == (bit(active, i as u64)
        && i != me) by {
        lemma_bit_ops(active, me, i as u64);
    }
    if exists|i: int| 0 <= i < 64 && #[trigger] ids[i] == Some(id) && bit(mask, i as u64) {
        let i = choose|i: int| 0 <= i < 64 && #[trigger] ids[i] == Some(id) && bit(mask, i as u64);
        assert(ids[i] == Some(id) && bit(active, i as u64));
    }
    if exists|i: int|
        0 <= i < 64 && i != self_id as int % 64 && #[trigger] ids[i] == Some(id) && bit(
            active,
            i as u64,
        ) {
        let i = choose|i: int|
            0 <= i < 64 && i != self_id as int % 64 && #[trigger] ids[i] == Some(id) && bit(
                active,
                i as u64,
            );
        assert(ids[i] == Some(id) && bit(mask, i as u64));
    }
}

/// A CPU that loads an address space is marked as one of its users, and no longer as
/// one of those of the space before; what it loads are that space's tables and tag.
pub proof fn loading_marks_the_cpu(before: &Kernel, after: &Kernel, h: int, cpu_id: u32)
    requires
        activated(before, after, h, cpu_id),
        before.cpu_spaces@.len() == 64,
        before.cpu_spaces@[cpu_id as int % 64] != Some(h as usize),
        0 <= h <= usize::MAX,
    ensures
        after.cpu_spaces@[cpu_id as int % 64] == Some(h as usize),
        after.spaces.at(h).active_cpus.active(cpu_id as u64 % 64),
        before.cpu_spaces@[cpu_id as int % 64] matches Some(o) ==> !after.spaces.at(
            o as int,
        ).active_cpus.active(cpu_id as u64 % 64),
        after.log@.len() == before.log@.len() + 1,
        after.log@.last() == (Effect::LoadSpace {
            cr3: before.spaces.at(h).pml4_phys.0 | before.spaces.at(h).pcid as u64,
        }),
{
    let me = cpu_id as u64 % 64;
    assert(cpu_bit(cpu_id) == me);
    lemma_bit_ops(before.spaces.at(h).active_cpus.mask(), me, me);
    if let Some(o) = before.cpu_spaces@[cpu_id as int % 64] {
        lemma_bit_ops(before.spaces.at(o as int).active_cpus.mask(), me, me);
    }
}

/// A CPU that is asked forgets the page, and is counted once; the others are not.
pub proof fn asked_cpu_is_counted(req: ShootdownRequest, cpu_id: u32)
    requires
        req.remaining > 0,
    ensures
        bit(req.target_mask, cpu_id as u64 % 64) ==> answer(req, cpu_id).remaining == req.remaining
            - 1,
        !bit(req.target_mask, cpu_id as u64 % 64) ==> answer(req, cpu_id).remaining == req.remaining,
        answer(req, cpu_id).virt == req.virt,
{
}

} // verus!
