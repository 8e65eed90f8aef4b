//! Replacing a process's image.

use vstd::prelude::*;
use vstd::string::*;
use crate::bytes::{le_u64, lemma_le_u64_same, overwrite, u64_bytes};
use crate::mem::{zero_page, PageTableEntry, PhysMem};
use crate::paging::{page_number, PageTable, UserTables, USER_HALF_END};
use super::address_space::{only_taken_changed, pages_not_tables, tables_taken, taken, AddressSpace};
use super::elf::{elf_loads, parse_elf};
use super::image::{build_image, image_frames, in_stack, page_image, page_is};
use super::ustack::{USTACK_SIZE, USTACK_TOP};
use super::vma::MMAP_BASE;

verus! {

/// Most arguments a new image takes.
pub const MAX_ARGV: usize = 32;

/// Most environment strings a new image takes.
pub const MAX_ENVP: usize = 32;

pub const ENOENT: i32 = -2;

pub const EIO: i32 = -5;

pub const E2BIG: i32 = -7;

pub const ENOEXEC: i32 = -8;

/// The physical address that `virt` is mapped to.
pub open spec fn phys_of(t: &UserTables, virt: int) -> int {
    t.pte(virt as u64).frame.0 + virt % 4096
}

/// Every page of `lo..hi` is mapped, to a frame of this memory.
pub open spec fn user_mapped(t: &UserTables, mem: &PhysMem, lo: int, hi: int) -> bool {
    &&& 0 <= lo
    &&& hi <= USER_HALF_END
    &&& forall|v: int|
        lo <= v < hi ==> {
            let e = #[trigger] t.pte(v as u64);
            e.flags.present && mem.holds(e.frame.0)
        }
}

/// No two pages of `lo..hi` are mapped to the same frame.
pub open spec fn user_private(t: &UserTables, lo: int, hi: int) -> bool {
    forall|v: int, w: int|
        lo <= v < hi && lo <= w < hi && v / 4096 != w / 4096 ==> (#[trigger] t.pte(v as u64)).frame
            != (#[trigger] t.pte(w as u64)).frame
}

/// What a program sees at `lo..hi`.
pub open spec fn user_bytes(t: &UserTables, mem: &PhysMem, lo: int, hi: int) -> Seq<u8> {
    Seq::new((hi - lo) as nat, |i: int| mem.bytes@[phys_of(t, lo + i)])
}

/// The physical address that `virt` is mapped to, if it is mapped.
pub fn virt_to_phys_via_pagewalk(t: &UserTables, virt: u64) -> (r: Option<u64>)
    requires
        t.wf(),
        virt < USER_HALF_END,
        t.pte(virt).frame.0 + 4096 <= u64::MAX,
    ensures
        r == (if t.pte(virt).flags.present {
            Some(phys_of(t, virt as int) as u64)
        } else {
            None
        }),
{
    proof {
        t.lemma_missing_bound(virt);
    }
    match t.leaf(virt) {
        Some(entry) => {
            if entry.is_present() {
                Some(entry.frame.0 + virt % 4096)
            } else {
                None
            }
        },
        None => None,
    }
}

/// Addresses of different pages mapped to different frames, or of one page,
/// have different physical addresses.
proof fn lemma_phys_distinct(t: &UserTables, mem: &PhysMem, lo: int, hi: int, v: int, w: int)
    requires
        user_mapped(t, mem, lo, hi),
        user_private(t, lo, hi),
        lo <= v < hi,
        lo <= w < hi,
        v != w,
    ensures
        phys_of(t, v) != phys_of(t, w),
{
    let a = t.pte(v as u64);
    let b = t.pte(w as u64);
    if v / 4096 == w / 4096 {
        t.lemma_same_page(v as u64, w as u64);
    } else {
        assert(a.frame != b.frame);
        assert(mem.holds(a.frame.0) && mem.holds(b.frame.0));
    }
}

/// Store `data` at `virt` in the address space `t`, page by page.
pub fn write_bytes_to_user(t: &UserTables, mem: &mut PhysMem, virt: u64, data: &[u8])
    requires
        t.wf(),
        user_mapped(t, old(mem), virt as int, virt + data@.len()),
        user_private(t, virt as int, virt + data@.len()),
    ensures
        final(mem).pool == old(mem).pool,
        final(mem).freed == old(mem).freed,
        final(mem).bytes@.len() == old(mem).bytes@.len(),
        forall|v: int|
            virt <= v < virt + data@.len() ==> final(mem).bytes@[#[trigger] phys_of(t, v)]
                == data@[v - virt],
        forall|p: int|
            0 <= p < old(mem).bytes@.len() && (forall|v: int|
                virt <= v < virt + data@.len() ==> #[trigger] phys_of(t, v) != p)
                ==> final(mem).bytes@[p] == old(mem).bytes@[p],
{
    let mut off: usize = 0;
    let ghost hi = virt + data@.len();
    while off < data.len()
        invariant
            off <= data@.len(),
            hi == virt + data@.len(),
            t.wf(),
            user_mapped(t, old(mem), virt as int, hi),
            user_private(t, virt as int, hi),
            mem.pool == old(mem).pool,
            mem.freed == old(mem).freed,
            mem.bytes@.len() == old(mem).bytes@.len(),
            forall|v: int|
                virt <= v < virt + off ==> mem.bytes@[#[trigger] phys_of(t, v)] == data@[v - virt],
            forall|p: int|
                0 <= p < old(mem).bytes@.len() && (forall|v: int|
                    virt <= v < virt + off ==> #[trigger] phys_of(t, v) != p) ==> mem.bytes@[p]
                    == old(mem).bytes@[p],
        decreases data@.len() - off,
    {
        let cur_virt: u64 = virt + off as u64;
        let page_off: usize = (cur_virt % 4096) as usize;
        let room: usize = 4096 - page_off;
        let left: usize = data.len() - off;
        let chunk: usize = if room < left {
            room
        } else {
            left
        };
        let ghost e = t.pte(cur_virt);
        assert(e.flags.present && old(mem).holds(e.frame.0)) by {
            assert(t.pte((virt + off) as u64) == e);
        }
        assert(mem.bytes@.len() == mem.bytes.len());
        match virt_to_phys_via_pagewalk(t, cur_virt) {
            Some(phys) => {
                let ghost before = mem.bytes@;
                let part = vstd::slice::slice_subrange(data, off, off + chunk);
                mem.write_bytes(phys, part);
                proof {
                    assert forall|v: int| cur_virt <= v < cur_virt + chunk implies #[trigger] phys_of(t, v)
                        == phys + (v - cur_virt) by {
                        assert(v / 4096 == cur_virt / 4096);
                        t.lemma_same_page(v as u64, cur_virt);
                    }
                    assert forall|v: int| virt <= v < virt + off + chunk implies mem.bytes@[#[trigger] phys_of(
                        t,
                        v,
                    )] == data@[v - virt] by {
                        let q = phys_of(t, v);
                        assert(t.pte(v as u64).flags.present && old(mem).holds(
                            t.pte(v as u64).frame.0,
                        ));
                        if v < cur_virt {
                            assert(!(phys <= q < phys + chunk)) by {
                                if phys <= q < phys + chunk {
                                    let w = cur_virt + (q - phys);
                                    assert(phys_of(t, w) == q);
                                    lemma_phys_distinct(t, old(mem), virt as int, hi, v, w);
                                }
                            }
                            assert(mem.bytes@[q] == before[q]);
                        } else {
                            assert(mem.bytes@[q] == part@[v - cur_virt]);
                        }
                    }
                    assert forall|p: int|
                        0 <= p < old(mem).bytes@.len() && (forall|v: int|
                            virt <= v < virt + off + chunk ==> #[trigger] phys_of(t, v) != p) implies mem.bytes@[p]
                        == old(mem).bytes@[p] by {
                        assert(!(phys <= p < phys + chunk)) by {
                            if phys <= p < phys + chunk {
                                assert(phys_of(t, cur_virt + (p - phys)) == p);
                            }
                        }
                    }
                }
            },
            None => {},
        }
        off += chunk;
    }
}

/// Storing bytes inside a private window changes what the program sees there.
proof fn lemma_user_write(
    t: &UserTables,
    before: &PhysMem,
    after: &PhysMem,
    lo: int,
    hi: int,
    virt: int,
    data: Seq<u8>,
)
    requires
        lo <= virt,
        virt + data.len() <= hi,
        user_mapped(t, before, lo, hi),
        user_private(t, lo, hi),
        after.bytes@.len() == before.bytes@.len(),
        forall|v: int|
            virt <= v < virt + data.len() ==> after.bytes@[#[trigger] phys_of(t, v)] == data[v
                - virt],
        forall|p: int|
            0 <= p < before.bytes@.len() && (forall|v: int|
                virt <= v < virt + data.len() ==> #[trigger] phys_of(t, v) != p) ==> after.bytes@[p]
                == before.bytes@[p],
    ensures
        user_mapped(t, after, lo, hi),
        user_bytes(t, after, lo, hi) == overwrite(
            user_bytes(t, before, lo, hi),
            virt - lo,
            data,
        ),
{
    assert forall|v: int| lo <= v < hi implies ({
        let e = #[trigger] t.pte(v as u64);
        e.flags.present && after.holds(e.frame.0)
    }) by {
        assert(before.holds(t.pte(v as u64).frame.0));
    }
    assert forall|i: int| 0 <= i < hi - lo implies #[trigger] user_bytes(t, after, lo, hi)[i]
        == overwrite(user_bytes(t, before, lo, hi), virt - lo, data)[i] by {
        let v = lo + i;
        assert(t.pte(v as u64).flags.present && before.holds(t.pte(v as u64).frame.0));
        if !(virt <= v < virt + data.len()) {
            assert forall|w: int| virt <= w < virt + data.len() implies #[trigger] phys_of(t, w)
                != phys_of(t, v) by {
                lemma_phys_distinct(t, before, lo, hi, v, w);
            }
        }
    }
    assert(user_bytes(t, after, lo, hi) =~= overwrite(
        user_bytes(t, before, lo, hi),
        virt - lo,
        data,
    ));
}

/// The bytes of each string.
pub open spec fn byte_strings(strs: Seq<&str>) -> Seq<Seq<u8>> {
    Seq::new(strs.len(), |i: int| strs[i].spec_bytes())
}

/// The arguments, then the environment.
pub open spec fn stack_strings(argv: Seq<&str>, envp: Seq<&str>) -> Seq<Seq<u8>> {
    byte_strings(argv) + byte_strings(envp)
}

/// Where the last of the first `n` strings lies, when each is stored with a
/// NUL directly below the one before, starting at `top`.
pub open spec fn string_addr(strs: Seq<Seq<u8>>, top: int, n: nat) -> int
    decreases n,
{
    if n == 0 {
        top
    } else {
        string_addr(strs, top, (n - 1) as nat) - (strs[n - 1].len() + 1)
    }
}

/// The stack pointer a new image starts with: below the strings, on a 16-byte
/// boundary, with `5 + n` words above it for `n` strings.
pub open spec fn initial_rsp(strs: Seq<Seq<u8>>, top: int) -> int {
    let low = string_addr(strs, top, strs.len());
    let block = 8 * (5 + strs.len());
    low - low % 16 - (if block % 16 == 0 {
        0int
    } else {
        8
    }) - block
}

/// Word `i` above the initial stack pointer: the argument count, the argument
/// addresses, 0, the environment addresses, 0, and a final entry of two zeroes.
pub open spec fn stack_word(strs: Seq<Seq<u8>>, argc: int, top: int, i: int) -> int {
    if i == 0 {
        argc
    } else if i <= argc {
        string_addr(strs, top, i as nat)
    } else if argc + 2 <= i < strs.len() + 2 {
        string_addr(strs, top, (i - 1) as nat)
    } else {
        0
    }
}

/// What the program sees above its initial stack pointer.
pub open spec fn stack_built(
    window: Seq<u8>,
    before: Seq<u8>,
    strs: Seq<Seq<u8>>,
    argc: int,
    top: int,
) -> bool {
    let rsp = initial_rsp(strs, top);
    let n = strs.len();
    &&& window.len() == top - rsp
    &&& forall|i: int|
        0 <= i < n + 5 ==> #[trigger] le_u64(window, 8 * i) == stack_word(strs, argc, top, i)
    &&& forall|i: int|
        0 <= i < n ==> {
            let at = #[trigger] string_addr(strs, top, (i + 1) as nat) - rsp;
            &&& window.subrange(at, at + strs[i].len() as int) == strs[i]
            &&& window[at + strs[i].len()] == 0
        }
    &&& forall|x: int|
        8 * (n + 5) <= x < string_addr(strs, top, n) - rsp ==> #[trigger] window[x] == before[x]
}

pub proof fn lemma_string_addr(strs: Seq<Seq<u8>>, top: int, m: nat, n: nat)
    requires
        m <= n,
    ensures
        string_addr(strs, top, n) <= string_addr(strs, top, m) <= top,
        m < n ==> string_addr(strs, top, n) + strs[n - 1].len() + 1 <= string_addr(strs, top, m),
    decreases n,
{
    if m < n {
        lemma_string_addr(strs, top, m, (n - 1) as nat);
    } else if n > 0 {
        lemma_string_addr(strs, top, (m - 1) as nat, (n - 1) as nat);
    }
}

/// The strings from `i` on are stored in the window above `rsp`.
spec fn strings_stored(window: Seq<u8>, strs: Seq<Seq<u8>>, rsp: int, top: int, n: nat) -> bool {
    forall|i: int|
        0 <= i < n ==> {
            let at = #[trigger] string_addr(strs, top, (i + 1) as nat) - rsp;
            &&& window.subrange(at, at + strs[i].len() as int) == strs[i]
            &&& window[at + strs[i].len()] == 0
        }
}

/// Lay out the initial stack of a new image below `stack_top`, in the address
/// space `t`. Returns the stack pointer it starts with.
pub fn setup_stack(t: &UserTables, mem: &mut PhysMem, stack_top: u64, argv: &[&str], envp: &[&str]) -> (rsp:
    u64)
    requires
        t.wf(),
        argv@.len() <= MAX_ARGV,
        envp@.len() <= MAX_ENVP,
        initial_rsp(stack_strings(argv@, envp@), stack_top as int) >= 0,
        user_mapped(
            t,
            old(mem),
            initial_rsp(stack_strings(argv@, envp@), stack_top as int),
            stack_top as int,
        ),
        user_private(
            t,
            initial_rsp(stack_strings(argv@, envp@), stack_top as int),
            stack_top as int,
        ),
    ensures
        rsp == initial_rsp(stack_strings(argv@, envp@), stack_top as int),
        rsp % 16 == 0,
        stack_built(
            user_bytes(t, final(mem), rsp as int, stack_top as int),
            user_bytes(t, old(mem), rsp as int, stack_top as int),
            stack_strings(argv@, envp@),
            argv@.len() as int,
            stack_top as int,
        ),
        final(mem).pool == old(mem).pool,
        final(mem).freed == old(mem).freed,
        final(mem).bytes@.len() == old(mem).bytes@.len(),
        forall|p: int|
            0 <= p < old(mem).bytes@.len() && (forall|v: int|
                rsp <= v < stack_top ==> #[trigger] phys_of(t, v) != p) ==> final(mem).bytes@[p]
                == old(mem).bytes@[p],
{
    let ghost strs = stack_strings(argv@, envp@);
    let ghost top = stack_top as int;
    let ghost low = initial_rsp(strs, top);
    let ghost w0 = user_bytes(t, mem, low, top);
    let argc: usize = argv.len();
    let total: usize = argc + envp.len();
    let mut ptrs: Vec<u64> = Vec::new();
    let mut str_rsp: u64 = stack_top;
    let mut i: usize = 0;
    proof {
        lemma_string_addr(strs, top, 0, total as nat);
    }
    while i < total
        invariant
            i <= total,
            argc == argv@.len(),
            total == argv@.len() + envp@.len(),
            total <= 64,
            strs == stack_strings(argv@, envp@),
            strs.len() == total,
            top == stack_top,
            low == initial_rsp(strs, top),
            low >= 0,
            t.wf(),
            user_mapped(t, mem, low, top),
            user_mapped(t, old(mem), low, top),
            user_private(t, low, top),
            w0 == user_bytes(t, old(mem), low, top),
            mem.pool == old(mem).pool,
            mem.freed == old(mem).freed,
            mem.bytes@.len() == old(mem).bytes@.len(),
            str_rsp == string_addr(strs, top, i as nat),
            ptrs@.len() == i,
            forall|k: int|
                0 <= k < i ==> ptrs@[k] == #[trigger] string_addr(strs, top, (k + 1) as nat),
            strings_stored(user_bytes(t, mem, low, top), strs, low, top, i as nat),
            forall|x: int|
                0 <= x < str_rsp - low ==> #[trigger] user_bytes(t, mem, low, top)[x] == w0[x],
            forall|p: int|
                0 <= p < old(mem).bytes@.len() && (forall|v: int|
                    low <= v < top ==> #[trigger] phys_of(t, v) != p) ==> mem.bytes@[p] == old(
                    mem,
                ).bytes@[p],
        decreases total - i,
    {
        let bytes = if i < argc {
            argv[i].as_bytes()
        } else {
            envp[i - argc].as_bytes()
        };
        proof {
            assert(bytes@ == strs[i as int]);
            lemma_string_addr(strs, top, 0, i as nat);
            lemma_string_addr(strs, top, (i + 1) as nat, total as nat);
            assert(string_addr(strs, top, (i + 1) as nat) == str_rsp - (bytes@.len() + 1));
            assert(low <= string_addr(strs, top, total as nat));
        }
        let len: u64 = bytes.len() as u64;
        let ghost m0 = *mem;
        let ghost was = str_rsp;
        str_rsp = str_rsp - (len + 1);
        write_bytes_to_user(t, mem, str_rsp, bytes);
        let ghost m1 = *mem;
        proof {
            lemma_user_write(t, &m0, &m1, low, top, str_rsp as int, bytes@);
        }
        let nul: [u8; 1] = [0];
        write_bytes_to_user(t, mem, str_rsp + len, &nul);
        proof {
            lemma_user_write(t, &m1, mem, low, top, str_rsp + len, nul@);
            let w = user_bytes(t, mem, low, top);
            let wm = user_bytes(t, &m0, low, top);
            assert forall|k: int| 0 <= k < i + 1 implies ({
                let at = #[trigger] string_addr(strs, top, (k + 1) as nat) - low;
                &&& w.subrange(at, at + strs[k].len() as int) == strs[k]
                &&& w[at + strs[k].len()] == 0
            }) by {
                let at = string_addr(strs, top, (k + 1) as nat) - low;
                if k < i {
                    lemma_string_addr(strs, top, (k + 1) as nat, i as nat);
                    lemma_string_addr(strs, top, k as nat, (k + 1) as nat);
                    assert(w.subrange(at, at + strs[k].len() as int) =~= wm.subrange(
                        at,
                        at + strs[k].len() as int,
                    ));
                } else {
                    assert(w.subrange(at, at + strs[k].len() as int) =~= strs[k]);
                }
            }
        }
        ptrs.push(str_rsp);
        i += 1;
    }
    let n: u64 = total as u64;
    let block_bytes: u64 = (5 + n) * 8;
    let mut rsp: u64 = str_rsp - str_rsp % 16;
    if block_bytes % 16 != 0 {
        rsp = rsp - 8;
    }
    rsp = rsp - block_bytes;
    let ghost w1 = user_bytes(t, mem, low, top);
    let mut k: usize = 0;
    while k < total + 5
        invariant
            k <= total + 5,
            argc == argv@.len(),
            total == argv@.len() + envp@.len(),
            total <= 64,
            strs.len() == total,
            top == stack_top,
            rsp == low,
            low == initial_rsp(strs, top),
            low >= 0,
            t.wf(),
            user_mapped(t, mem, low, top),
            user_mapped(t, old(mem), low, top),
            user_private(t, low, top),
            w1.len() == top - low,
            string_addr(strs, top, total as nat) <= top,
            mem.pool == old(mem).pool,
            mem.freed == old(mem).freed,
            mem.bytes@.len() == old(mem).bytes@.len(),
            ptrs@.len() == total,
            forall|j: int|
                0 <= j < total ==> ptrs@[j] == #[trigger] string_addr(strs, top, (j + 1) as nat),
            forall|j: int|
                0 <= j < k ==> #[trigger] le_u64(user_bytes(t, mem, low, top), 8 * j) == stack_word(
                    strs,
                    argc as int,
                    top,
                    j,
                ),
            forall|x: int|
                8 * k <= x < top - low ==> #[trigger] user_bytes(t, mem, low, top)[x] == w1[x],
            forall|p: int|
                0 <= p < old(mem).bytes@.len() && (forall|v: int|
                    low <= v < top ==> #[trigger] phys_of(t, v) != p) ==> mem.bytes@[p] == old(
                    mem,
                ).bytes@[p],
        decreases total + 5 - k,
    {
        let word: u64 = if k == 0 {
            argc as u64
        } else if k <= argc {
            ptrs[k - 1]
        } else if argc + 2 <= k && k < total + 2 {
            ptrs[k - 2]
        } else {
            0
        };
        proof {
            if 0 < k <= argc {
                assert(ptrs@[k - 1] == string_addr(strs, top, (k - 1 + 1) as nat));
            } else if argc + 2 <= k < total + 2 {
                assert(ptrs@[k - 2] == string_addr(strs, top, (k - 2 + 1) as nat));
            }
        }
        let ghost m0 = *mem;
        let data = u64_bytes(word);
        write_bytes_to_user(t, mem, rsp + 8 * (k as u64), &data);
        proof {
            lemma_user_write(t, &m0, mem, low, top, rsp + 8 * k, data@);
            let w = user_bytes(t, mem, low, top);
            let wm = user_bytes(t, &m0, low, top);
            assert forall|j: int| 0 <= j < k + 1 implies #[trigger] le_u64(w, 8 * j) == stack_word(
                strs,
                argc as int,
                top,
                j,
            ) by {
                if j < k {
                    assert forall|b: int| 0 <= b < 8 implies #[trigger] w[8 * j + b] == wm[8 * j + b] by {}
                    lemma_le_u64_same(w, 8 * j, wm, 8 * j);
                } else {
                    assert forall|b: int| 0 <= b < 8 implies #[trigger] w[8 * j + b] == data@[0 + b] by {}
                    lemma_le_u64_same(w, 8 * j, data@, 0);
                }
            }
        }
        k += 1;
    }
    proof {
        let w = user_bytes(t, mem, low, top);
        assert forall|j: int| 0 <= j < total implies ({
            let at = #[trigger] string_addr(strs, top, (j + 1) as nat) - low;
            &&& w.subrange(at, at + strs[j].len() as int) == strs[j]
            &&& w[at + strs[j].len()] == 0
        }) by {
            let at = string_addr(strs, top, (j + 1) as nat) - low;
            lemma_string_addr(strs, top, (j + 1) as nat, total as nat);
            lemma_string_addr(strs, top, j as nat, (j + 1) as nat);
            assert(w.subrange(at, at + strs[j].len() as int) =~= w1.subrange(
                at,
                at + strs[j].len() as int,
            ));
        }
    }
    rsp
}

/// Frames in the buffer that an executable is read into.
pub const ELF_BUF_FRAMES: u64 = 256;

/// Size of the largest executable.
pub const MAX_ELF_SIZE: usize = 1048576;

/// An image ready to be entered.
pub struct NewImage {
    pub space: AddressSpace,
    pub entry: u64,
    pub rsp: u64,
}

/// Why an executable of which `read` bytes were read cannot be loaded. A
/// negative `read` is the error of reading it.
pub open spec fn exec_error(read: i64, buf: Seq<u8>) -> Option<i32> {
    if read == -2 {
        Some(ENOENT)
    } else if read < 0 {
        Some(EIO)
    } else if read == 0 || elf_loads(buf.take(read as int)) is Err {
        Some(ENOEXEC)
    } else {
        None
    }
}

/// The arguments and the environment fit on the stack.
pub open spec fn args_fit(argv: Seq<&str>, envp: Seq<&str>) -> bool {
    initial_rsp(stack_strings(argv, envp), USTACK_TOP - 8) >= USTACK_TOP - USTACK_SIZE
}

/// `space` holds the image of `file`, and its stack the arguments and the
/// environment.
pub open spec fn image_loaded(
    space: &AddressSpace,
    before: &PhysMem,
    after: &PhysMem,
    file: Seq<u8>,
    argv: Seq<&str>,
    envp: Seq<&str>,
    rsp: u64,
) -> bool {
    let loads = elf_loads(file)->Ok_0;
    let strs = stack_strings(argv, envp);
    let top = USTACK_TOP - 8;
    &&& rsp == initial_rsp(strs, top)
    &&& rsp % 16 == 0
    &&& forall|v: u64|
        v < USER_HALF_END ==> {
            let e = #[trigger] space.pte(v);
            match page_image(loads, file, v) {
                None => e == PageTableEntry::blank(),
                Some((flags, bytes)) => e.flags == flags && taken(before, after, e.frame.0) && (
                !in_stack(v) ==> after.page(e.frame.0) == bytes),
            }
        }
    &&& forall|v: u64, w: u64|
        v < USER_HALF_END && w < USER_HALF_END && page_number(v) != page_number(w) && page_image(
            loads,
            file,
            v,
        ) is Some && page_image(loads, file, w) is Some ==> (#[trigger] space.pte(v)).frame != (
        #[trigger] space.pte(w)).frame
    &&& stack_built(
        user_bytes(&space.tables, after, rsp as int, top),
        Seq::new((top - rsp) as nat, |i: int| 0u8),
        strs,
        argv.len() as int,
        top,
    )
    &&& forall|v: u64|
        in_stack(v) && !(rsp <= v < top) ==> after.bytes@[#[trigger] phys_of(
            &space.tables,
            v as int,
        )] == 0
}

/// A fresh address space: no region, used by one process, loaded nowhere.
pub open spec fn fresh_space(space: &AddressSpace, kernel: &PageTable, pcid: u16) -> bool {
    &&& space.pcid == pcid
    &&& space.mmap_next == MMAP_BASE
    &&& space.refcount == 1
    &&& space.active_cpus.mask() == 0
    &&& forall|i: int| 0 <= i < 32 ==> #[trigger] space.vmas@[i] is None
    &&& forall|i: int|
        256 <= i < 512 ==> #[trigger] space.tables.top_entry(i) == kernel.entries@[i]
}

/// Build the address space of the executable in `buf`, with its arguments on
/// the stack. Nothing of the running process is touched.
pub fn load_image(
    mem: &mut PhysMem,
    kernel: &PageTable,
    pcid: u16,
    read: i64,
    buf: &[u8],
    argv: &[&str],
    envp: &[&str],
) -> (r: Result<NewImage, i32>)
    requires
        old(mem).wf(),
        kernel.wf(),
        argv@.len() <= MAX_ARGV,
        envp@.len() <= MAX_ENVP,
        read <= buf@.len(),
        exec_error(read, buf@) is None ==> {
            &&& old(mem).pool@.len() >= image_frames(elf_loads(buf@.take(read as int))->Ok_0)
            &&& args_fit(argv@, envp@)
        },
    ensures
        final(mem).wf(),
        match exec_error(read, buf@) {
            Some(e) => r == Err::<NewImage, i32>(e) && *final(mem) == *old(mem),
            None => {
                let file = buf@.take(read as int);
                &&& r is Ok
                &&& r->Ok_0.space.wf()
                &&& r->Ok_0.space.tables.apart(final(mem))
                &&& fresh_space(&r->Ok_0.space, kernel, pcid)
                &&& r->Ok_0.entry == le_u64(file, 24)
                &&& image_loaded(
                    &r->Ok_0.space,
                    old(mem),
                    final(mem),
                    file,
                    argv@,
                    envp@,
                    r->Ok_0.rsp,
                )
                &&& tables_taken(&r->Ok_0.space, old(mem), final(mem))
                &&& pages_not_tables(&r->Ok_0.space)
                &&& only_taken_changed(old(mem), final(mem))
                &&& final(mem).pool@.len() >= old(mem).pool@.len() - image_frames(
                    elf_loads(file)->Ok_0,
                )
            },
        },
{
    if read < 0 {
        return if read == -2 {
            Err(ENOENT)
        } else {
            Err(EIO)
        };
    }
    if read == 0 {
        return Err(ENOEXEC);
    }
    assert(read <= buf.len());
    let data = vstd::slice::slice_subrange(buf, 0, read as usize);
    let ghost file = buf@.take(read as int);
    assert(data@ =~= file);
    let elf = match parse_elf(data) {
        Ok(elf) => elf,
        Err(_) => return Err(ENOEXEC),
    };
    let ghost m0 = *mem;
    let ghost loads = elf.loads();
    let ghost strs = stack_strings(argv@, envp@);
    let (space, top) = build_image(mem, kernel, pcid, &elf, data);
    let ghost m1 = *mem;
    let ghost low = initial_rsp(strs, top as int);
    let ghost want = |v: u64| page_image(loads, file, v);
    proof {
        lemma_string_addr(strs, top as int, 0, strs.len());
        assert forall|v: int| low <= v < top implies ({
            let e = #[trigger] space.tables.pte(v as u64);
            e.flags.present && mem.holds(e.frame.0)
        }) by {
            let e = space.pte(v as u64);
            assert(page_is(&space, &m0, &m1, v as u64, want(v as u64)));
            let i = choose|i: int| 0 <= i < m0.pool@.len() && m0.pool@[i] == e.frame.0;
            assert(m0.holds(m0.pool@[i]));
        }
        assert forall|v: int, w: int|
            low <= v < top && low <= w < top && v / 4096 != w / 4096 implies (
        #[trigger] space.tables.pte(v as u64)).frame != (#[trigger] space.tables.pte(
            w as u64,
        )).frame by {
            assert(space.pte(v as u64).frame != space.pte(w as u64).frame);
        }
    }
    let rsp: u64 = setup_stack(&space.tables, mem, top, argv, envp);
    proof {
        lemma_stack_kept(&space, &m0, &m1, mem, loads, file, rsp as int, top as int);
        assert(user_bytes(&space.tables, &m1, rsp as int, top as int) =~= Seq::new(
            (top - rsp) as nat,
            |i: int| 0u8,
        )) by {
            assert forall|v: u64| in_stack(v) implies m1.bytes@[#[trigger] phys_of(
                &space.tables,
                v as int,
            )] == 0 by {
                lemma_stack_zero(&space, &m0, &m1, loads, file, v);
            }
            let window = user_bytes(&space.tables, &m1, rsp as int, top as int);
            assert forall|i: int| 0 <= i < top - rsp implies #[trigger] window[i] == 0u8 by {
                assert(in_stack((rsp + i) as u64));
                assert(phys_of(&space.tables, rsp + i) == phys_of(
                    &space.tables,
                    (rsp + i) as u64 as int,
                ));
            }
        }
        assert(image_loaded(&space, &m0, mem, file, argv@, envp@, rsp));
        assert(mem.pool@ == m1.pool@);
        assert(only_taken_changed(&m0, mem)) by {
            assert forall|f: u64| m0.holds(f) && !taken(&m0, mem, f) implies
                #[trigger] mem.page(f) == m0.page(f) by {
                lemma_frame_kept(&space, &m0, &m1, mem, loads, file, rsp as int, top as int, f);
                assert(m1.page(f) == m0.page(f));
            }
        }
    }
    Ok(NewImage { space, entry: elf.entry, rsp })
}

/// A stack page of a fresh image is zero.
proof fn lemma_stack_zero(
    space: &AddressSpace,
    m0: &PhysMem,
    m1: &PhysMem,
    loads: Seq<super::elf::LoadSegment>,
    file: Seq<u8>,
    v: u64,
)
    requires
        m0.wf(),
        only_taken_changed(m0, m1),
        super::image::pages_are(space, m0, m1, |v: u64| page_image(loads, file, v)),
        in_stack(v),
    ensures
        m1.bytes@[phys_of(&space.tables, v as int)] == 0,
        space.pte(v).flags.present,
        m1.holds(space.pte(v).frame.0),
{
    let want = |v: u64| page_image(loads, file, v);
    let e = space.pte(v);
    assert(page_is(space, m0, m1, v, want(v)));
    let i = choose|i: int| 0 <= i < m0.pool@.len() && m0.pool@[i] == e.frame.0;
    assert(m0.holds(m0.pool@[i]));
    assert(m1.page(e.frame.0) == zero_page());
    assert(m1.page(e.frame.0)[v as int % 4096] == 0);
}

/// Writing the stack leaves every frame alone that is not a stack page's.
proof fn lemma_frame_kept(
    space: &AddressSpace,
    m0: &PhysMem,
    m1: &PhysMem,
    m2: &PhysMem,
    loads: Seq<super::elf::LoadSegment>,
    file: Seq<u8>,
    rsp: int,
    top: int,
    f: u64,
)
    requires
        m0.wf(),
        only_taken_changed(m0, m1),
        super::image::pages_are(space, m0, m1, |v: u64| page_image(loads, file, v)),
        USTACK_TOP - USTACK_SIZE <= rsp <= top <= USTACK_TOP,
        m2.bytes@.len() == m1.bytes@.len(),
        forall|p: int|
            0 <= p < m1.bytes@.len() && (forall|v: int|
                rsp <= v < top ==> #[trigger] phys_of(&space.tables, v) != p) ==> m2.bytes@[p]
                == m1.bytes@[p],
        m1.holds(f),
        forall|v: u64| in_stack(v) ==> (#[trigger] space.pte(v)).frame.0 != f,
    ensures
        m2.page(f) == m1.page(f),
{
    assert forall|x: int| 0 <= x < 4096 implies #[trigger] m2.page(f)[x] == m1.page(f)[x] by {
        let p = f + x;
        assert forall|v: int| rsp <= v < top implies #[trigger] phys_of(&space.tables, v) != p by {
            let e = space.pte(v as u64);
            lemma_stack_zero(space, m0, m1, loads, file, v as u64);
            assert(e.frame.0 != f);
        }
    }
    assert(m2.page(f) =~= m1.page(f));
}

/// After the stack is written, the other pages are as they were, and so is the
/// rest of the stack.
proof fn lemma_stack_kept(
    space: &AddressSpace,
    m0: &PhysMem,
    m1: &PhysMem,
    m2: &PhysMem,
    loads: Seq<super::elf::LoadSegment>,
    file: Seq<u8>,
    rsp: int,
    top: int,
)
    requires
        m0.wf(),
        only_taken_changed(m0, m1),
        super::image::pages_are(space, m0, m1, |v: u64| page_image(loads, file, v)),
        USTACK_TOP - USTACK_SIZE <= rsp <= top <= USTACK_TOP,
        m2.bytes@.len() == m1.bytes@.len(),
        m2.pool == m1.pool,
        forall|p: int|
            0 <= p < m1.bytes@.len() && (forall|v: int|
                rsp <= v < top ==> #[trigger] phys_of(&space.tables, v) != p) ==> m2.bytes@[p]
                == m1.bytes@[p],
    ensures
        forall|v: u64|
            v < USER_HALF_END ==> {
                let e = #[trigger] space.pte(v);
                match page_image(loads, file, v) {
                    None => e == PageTableEntry::blank(),
                    Some((flags, bytes)) => e.flags == flags && taken(m0, m2, e.frame.0) && (
                    !in_stack(v) ==> m2.page(e.frame.0) == bytes),
                }
            },
        forall|v: u64|
            in_stack(v) && !(rsp <= v < top) ==> m2.bytes@[#[trigger] phys_of(
                &space.tables,
                v as int,
            )] == 0,
{
    let want = |v: u64| page_image(loads, file, v);
    assert forall|v: u64| v < USER_HALF_END implies ({
        let e = #[trigger] space.pte(v);
        match page_image(loads, file, v) {
            None => e == PageTableEntry::blank(),
            Some((flags, bytes)) => e.flags == flags && taken(m0, m2, e.frame.0) && (!in_stack(v)
                ==> m2.page(e.frame.0) == bytes),
        }
    }) by {
        let e = space.pte(v);
        assert(page_is(space, m0, m1, v, want(v)));
        if page_image(loads, file, v) is Some && !in_stack(v) {
            let i = choose|i: int| 0 <= i < m0.pool@.len() && m0.pool@[i] == e.frame.0;
            assert(m0.holds(m0.pool@[i]));
            assert forall|w: u64| in_stack(w) implies (#[trigger] space.pte(w)).frame.0
                != e.frame.0 by {
                assert(want(w) is Some && want(v) is Some);
                assert(page_number(w) != page_number(v));
                assert(space.pte(v).frame != space.pte(w).frame);
            }
            lemma_frame_kept(space, m0, m1, m2, loads, file, rsp, top, e.frame.0);
        }
    }
    assert forall|v: u64| in_stack(v) && !(rsp <= v < top) implies m2.bytes@[#[trigger] phys_of(
        &space.tables,
        v as int,
    )] == 0 by {
        lemma_stack_zero(space, m0, m1, loads, file, v);
        let p = phys_of(&space.tables, v as int);
        assert forall|w: int| rsp <= w < top implies #[trigger] phys_of(&space.tables, w) != p by {
            let a = space.pte(v);
            let b = space.pte(w as u64);
            lemma_stack_zero(space, m0, m1, loads, file, w as u64);
            if v as int / 4096 == w / 4096 {
                assert(v as int % 4096 != w % 4096);
                assert(p % 4096 == v as int % 4096);
                assert(phys_of(&space.tables, w) % 4096 == w % 4096);
            } else {
                assert(want(v) is Some && want(w as u64) is Some);
                assert(a.frame != b.frame);
            }
        }
    }
}

} // verus!
