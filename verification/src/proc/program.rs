//! What a program finds in the memory that it starts with.

use vstd::prelude::*;
use vstd::string::*;
use crate::bytes::{le_u16, le_u32, le_u64, lemma_le_u64_same};
use crate::mem::PhysMem;
use crate::numbers::{fields_are_read_least_byte_first, number_at};
use crate::paging::{page_number, UserTables, USER_HALF_END};
use super::address_space::{padded, segment_page, segment_pages, taken, AddressSpace};
use super::elf::{elf_loads, loads_of, ElfError, LoadSegment};
use super::exec::{args_fit, exec_error, image_loaded, initial_rsp, lemma_string_addr, phys_of, stack_strings, stack_word, string_addr, user_bytes};
use super::execve::exec_done;
use super::image::{covers, in_stack, page_image, page_is, pages_are, segment_image};
use super::lifecycle::created;
use super::state::Kernel;
use super::usermem::{user_byte, user_read, user_word};

verus! {

/// Where program header `k` of an executable is stored.
pub open spec fn header_at(file: Seq<u8>, k: int) -> int {
    le_u64(file, 32) + 56 * k
}

/// Program header `k` describes a segment that is loaded.
pub open spec fn is_loadable(file: Seq<u8>, k: int) -> bool {
    le_u32(file, header_at(file, k)) == 1
}

/// How many of the first `k` program headers describe segments that are loaded.
pub open spec fn loadable_before(file: Seq<u8>, k: nat) -> nat
    decreases k,
{
    if k == 0 {
        0
    } else {
        loadable_before(file, (k - 1) as nat) + if is_loadable(file, k - 1) {
            1nat
        } else {
            0
        }
    }
}

/// The attributes that a header asks for.
pub open spec fn header_flags(file: Seq<u8>, k: int) -> u32 {
    le_u32(file, header_at(file, k) + 4)
}

/// Where in the file the segment of a header starts.
pub open spec fn header_offset(file: Seq<u8>, k: int) -> int {
    le_u64(file, header_at(file, k) + 8) as int
}

/// Where in memory it starts.
pub open spec fn header_vaddr(file: Seq<u8>, k: int) -> int {
    le_u64(file, header_at(file, k) + 16) as int
}

/// How many bytes the file has of it.
pub open spec fn header_filesz(file: Seq<u8>, k: int) -> int {
    le_u64(file, header_at(file, k) + 32) as int
}

/// How many bytes it has in memory.
pub open spec fn header_memsz(file: Seq<u8>, k: int) -> int {
    le_u64(file, header_at(file, k) + 40) as int
}

/// The segment of header `k` has bytes on the page of address `a`, or before them
/// on the same page.
pub open spec fn on_its_pages(file: Seq<u8>, k: int, a: int) -> bool {
    &&& header_vaddr(file, k) / 4096 <= a / 4096
    &&& a / 4096 * 4096 < header_vaddr(file, k) + header_memsz(file, k)
}

/// Header `k` is the last loadable one with address `a` on its pages.
pub open spec fn supplies(file: Seq<u8>, k: int, a: int) -> bool {
    &&& 0 <= k < le_u16(file, 56)
    &&& is_loadable(file, k)
    &&& on_its_pages(file, k, a)
    &&& forall|j: int|
        k < j < le_u16(file, 56) && #[trigger] is_loadable(file, j) ==> !on_its_pages(file, j, a)
}

/// `a` lies on the stack of a new program.
pub open spec fn on_first_stack(a: int) -> bool {
    0x7fff_fffb_0000 <= a < 0x7fff_ffff_0000
}

/// `a` lies on the page that signal handlers return through.
pub open spec fn on_return_page(a: int) -> bool {
    0x1000_0000 <= a < 0x1000_1000
}

/// The segments of the first `n` headers are the loadable ones, in order, each with
/// what its header says, widened down to a page boundary.
proof fn lemma_loads_follow_headers(file: Seq<u8>, n: nat)
    requires
        loads_of(file, n) is Ok,
    ensures
        ({
            let loads = loads_of(file, n)->Ok_0;
            &&& loads.len() == loadable_before(file, n)
            &&& forall|k: int|
                0 <= k < n && #[trigger] is_loadable(file, k) ==> {
                    let i = loadable_before(file, k as nat) as int;
                    let lead = header_vaddr(file, k) % 4096;
                    &&& 0 <= i < loads.len()
                    &&& loads[i].vaddr == header_vaddr(file, k) - lead
                    &&& loads[i].filesz == header_filesz(file, k) + lead
                    &&& loads[i].memsz == header_memsz(file, k) + lead
                    &&& loads[i].data_off == header_offset(file, k) - lead
                    &&& loads[i].flags == header_flags(file, k)
                    &&& header_filesz(file, k) <= header_memsz(file, k)
                    &&& header_vaddr(file, k) + header_memsz(file, k) <= 0x8000_0000_0000
                    &&& lead <= header_offset(file, k)
                    &&& header_offset(file, k) + header_filesz(file, k) <= file.len()
                }
        }),
    decreases n,
{
    if n > 0 {
        lemma_loads_follow_headers(file, (n - 1) as nat);
    }
}

proof fn lemma_before_grows(file: Seq<u8>, j: nat, k: nat)
    requires
        j <= k,
    ensures
        loadable_before(file, j) <= loadable_before(file, k),
        j < k && is_loadable(file, j as int) ==> loadable_before(file, j) < loadable_before(
            file,
            k,
        ),
    decreases k,
{
    if j < k {
        lemma_before_grows(file, j, (k - 1) as nat);
    }
}

/// Every segment comes from a header.
proof fn lemma_header_of(file: Seq<u8>, n: nat, i: int) -> (k: int)
    requires
        0 <= i < loadable_before(file, n),
    ensures
        0 <= k < n,
        is_loadable(file, k),
        loadable_before(file, k as nat) == i,
    decreases n,
{
    if i < loadable_before(file, (n - 1) as nat) {
        lemma_header_of(file, (n - 1) as nat, i)
    } else {
        n - 1
    }
}

/// The last segment that covers a page supplies it.
proof fn lemma_last_covering(
    loads: Seq<LoadSegment>,
    file: Seq<u8>,
    n: nat,
    i: int,
    v: u64,
)
    requires
        0 <= i < n <= loads.len(),
        covers(loads[i], page_number(v) as int),
        forall|j: int| i < j < n ==> !covers(#[trigger] loads[j], page_number(v) as int),
    ensures
        segment_image(loads, file, n, v) == segment_image(loads, file, (i + 1) as nat, v),
        segment_image(loads, file, n, v) is Some,
    decreases n,
{
    if i + 1 < n {
        assert(!covers(loads[n - 1], page_number(v) as int));
        lemma_last_covering(loads, file, (n - 1) as nat, i, v);
    }
}

proof fn lemma_covers_raw(file: Seq<u8>, seg: LoadSegment, k: int, v: u64)
    requires
        seg.vaddr == header_vaddr(file, k) - header_vaddr(file, k) % 4096,
        seg.memsz == header_memsz(file, k) + header_vaddr(file, k) % 4096,
    ensures
        covers(seg, page_number(v) as int) == on_its_pages(file, k, v as int),
{
    let a = header_vaddr(file, k);
    let m = header_memsz(file, k);
    let lead = a % 4096;
    let page = v as int / 4096;
    assert(page_number(v) == page);
    assert(page_number(seg.vaddr) == a / 4096);
    assert(segment_pages(seg) == (m + lead + 4095) / 4096);
    assert(a == a / 4096 * 4096 + lead);
}

/// What stands at an address that a header supplies.
proof fn lemma_supplied(
    space: &AddressSpace,
    m0: &PhysMem,
    m1: &PhysMem,
    file: Seq<u8>,
    k: int,
    a: u64,
)
    requires
        m0.wf(),
        m1.bytes@.len() == m0.bytes@.len(),
        elf_loads(file) is Ok,
        a < USER_HALF_END,
        !on_first_stack(a as int),
        !on_return_page(a as int),
        supplies(file, k, a as int),
        page_is(space, m0, m1, a, page_image(elf_loads(file)->Ok_0, file, a)),
    ensures
        segment_shown(space, m1, file, k, a),
{
    let loads = elf_loads(file)->Ok_0;
    let n = le_u16(file, 56) as nat;
    lemma_loads_follow_headers(file, n);
    let i = loadable_before(file, k as nat) as int;
    let seg = loads[i];
    lemma_covers_raw(file, seg, k, a);
    assert forall|j: int| i < j < loads.len() implies !covers(
        #[trigger] loads[j],
        page_number(a) as int,
    ) by {
        let h = lemma_header_of(file, n, j);
        if h <= k {
            lemma_before_grows(file, h as nat, k as nat);
        }
        assert(k < h && is_loadable(file, h));
        lemma_covers_raw(file, loads[j], h, a);
    }
    lemma_last_covering(loads, file, loads.len(), i, a);
    let e = space.pte(a);
    let f = e.frame.0;
    assert(taken(m0, m1, f));
    let x = choose|x: int| 0 <= x < m0.pool@.len() && m0.pool@[x] == f;
    assert(m0.holds(m0.pool@[x]));
    assert(m1.holds(f));
    let lead = header_vaddr(file, k) % 4096;
    let page = page_number(a) - page_number(seg.vaddr);
    assert(m1.page(f) == segment_page(seg, file, page));
    assert(m1.page(f)[a as int % 4096] == m1.bytes@[f + a as int % 4096]);
    let off = a - header_vaddr(file, k);
    assert(page * 4096 + a as int % 4096 == off + lead) by {
        assert(seg.vaddr as int / 4096 * 4096 == seg.vaddr);
    }
}

/// At `a`, which header `k` supplies, a program can write exactly if the header's
/// flags have the value 2, and execute exactly if they have the value 1. It reads
/// what the file has there; behind that, zeroes.
pub open spec fn segment_shown(
    space: &AddressSpace,
    mem: &PhysMem,
    file: Seq<u8>,
    k: int,
    a: u64,
) -> bool {
    let e = space.pte(a);
    let off = a - header_vaddr(file, k);
    &&& e.flags.present
    &&& e.flags.user
    &&& e.flags.writable == (header_flags(file, k) & 2 != 0)
    &&& e.flags.no_execute == (header_flags(file, k) & 1 == 0)
    &&& !e.flags.cow
    &&& !e.flags.huge
    &&& off >= 0 ==> user_byte(&space.tables, mem, a as int) == Some(
        if off < header_filesz(file, k) {
            file[header_offset(file, k) + off]
        } else {
            0
        },
    )
}

/// A program that `execve` starts finds its segments where its headers put them:
/// the bytes of the file, then zeroes, writable and executable as the headers say.
pub proof fn executed_program_finds_its_segments(
    before: &Kernel,
    after: &Kernel,
    p: int,
    file: Seq<u8>,
    argv: Seq<&str>,
    envp: Seq<&str>,
    buf_phys: u64,
    pcid: u16,
    cpu_id: u32,
    k: int,
    a: u64,
)
    requires
        before.mem.wf(),
        elf_loads(file) is Ok,
        exec_done(before, after, p, file, argv, envp, buf_phys, pcid, cpu_id),
        a < USER_HALF_END,
        !on_first_stack(a as int),
        !on_return_page(a as int),
        supplies(file, k, a as int),
    ensures
        segment_shown(&after.spaces.at(before.spaces.slots@.len() as int), &after.mem, file, k, a),
{
    let space = after.spaces.at(before.spaces.slots@.len() as int);
    assert(!in_stack(a));
    assert(space.pte(a) == space.pte(a));
    lemma_supplied(&space, &before.mem, &after.mem, file, k, a);
}

/// So does a process that is made from an executable.
pub proof fn created_program_finds_its_segments(
    before: &Kernel,
    after: &Kernel,
    elf: Seq<u8>,
    name: Seq<u8>,
    pcid: u16,
    entry: u64,
    kstack: u64,
    k: int,
    a: u64,
)
    requires
        before.mem.wf(),
        elf_loads(elf) is Ok,
        created(before, after, elf, name, pcid, entry, kstack),
        a < USER_HALF_END,
        !on_first_stack(a as int),
        !on_return_page(a as int),
        supplies(elf, k, a as int),
    ensures
        segment_shown(&after.spaces.at(before.spaces.slots@.len() as int), &after.mem, elf, k, a),
{
    assert(before.spaces.slots@.len() == before.spaces.slots.len());
    let space = after.spaces.at(before.spaces.slots@.len() as int);
    let want = |v: u64| page_image(elf_loads(elf)->Ok_0, elf, v);
    assert(pages_are(&space, &before.mem, &after.mem, want));
    assert(space.pte(a) == space.pte(a));
    assert(page_is(&space, &before.mem, &after.mem, a, want(a)));
    lemma_supplied(&space, &before.mem, &after.mem, elf, k, a);
}

/// The stack of a program that `execve` starts is mapped.
proof fn lemma_stack_mapped(
    space: &AddressSpace,
    m0: &PhysMem,
    m1: &PhysMem,
    file: Seq<u8>,
    argv: Seq<&str>,
    envp: Seq<&str>,
    rsp: u64,
    a: int,
)
    requires
        m0.wf(),
        m1.bytes@.len() == m0.bytes@.len(),
        image_loaded(space, m0, m1, file, argv, envp, rsp),
        on_first_stack(a),
    ensures
        space.pte(a as u64).flags.present,
        space.pte(a as u64).flags.user,
        space.pte(a as u64).flags.writable,
        space.pte(a as u64).flags.no_execute,
        user_byte(&space.tables, m1, a) == Some(m1.bytes@[phys_of(&space.tables, a)]),
{
    let v = a as u64;
    assert(in_stack(v));
    let e = space.pte(v);
    assert(taken(m0, m1, e.frame.0));
    let x = choose|x: int| 0 <= x < m0.pool@.len() && m0.pool@[x] == e.frame.0;
    assert(m0.holds(m0.pool@[x]));
}

/// Reading the stack gives what lies in the window above `rsp`.
proof fn lemma_window_read(
    space: &AddressSpace,
    m0: &PhysMem,
    m1: &PhysMem,
    file: Seq<u8>,
    argv: Seq<&str>,
    envp: Seq<&str>,
    rsp: u64,
    at: int,
    len: nat,
)
    requires
        m0.wf(),
        m1.bytes@.len() == m0.bytes@.len(),
        image_loaded(space, m0, m1, file, argv, envp, rsp),
        0x7fff_fffb_0000 <= rsp,
        0 <= at,
        rsp + at + len <= 0x7fff_fffe_fff8,
    ensures
        user_read(&space.tables, m1, rsp + at, len) == Ok::<Seq<u8>, u64>(
            user_bytes(&space.tables, m1, rsp as int, 0x7fff_fffe_fff8).subrange(at, at + len),
        ),
    decreases len,
{
    let w = user_bytes(&space.tables, m1, rsp as int, 0x7fff_fffe_fff8);
    if len == 0 {
        assert(w.subrange(at, at + len) =~= Seq::<u8>::empty());
    } else {
        lemma_window_read(space, m0, m1, file, argv, envp, rsp, at, (len - 1) as nat);
        let a = rsp + at + len - 1;
        lemma_stack_mapped(space, m0, m1, file, argv, envp, rsp, a);
        assert(w[at + len - 1] == m1.bytes@[phys_of(&space.tables, a)]);
        assert(w.subrange(at, at + len) =~= w.subrange(at, at + len - 1).push(w[at + len - 1]));
    }
}

/// Word `i` above `rsp` is `value`.
spec fn word_is(t: &UserTables, mem: &PhysMem, rsp: int, i: int, value: int) -> bool {
    user_word(t, mem, rsp + 8 * i) matches Ok(w) && w == value
}

proof fn lemma_window_word(
    space: &AddressSpace,
    m0: &PhysMem,
    m1: &PhysMem,
    file: Seq<u8>,
    argv: Seq<&str>,
    envp: Seq<&str>,
    rsp: u64,
    i: int,
)
    requires
        m0.wf(),
        m1.bytes@.len() == m0.bytes@.len(),
        image_loaded(space, m0, m1, file, argv, envp, rsp),
        0x7fff_fffb_0000 <= rsp,
        0 <= i < argv.len() + envp.len() + 5,
        rsp + 8 * i + 8 <= 0x7fff_fffe_fff8,
    ensures
        word_is(
            &space.tables,
            m1,
            rsp as int,
            i,
            stack_word(stack_strings(argv, envp), argv.len() as int, 0x7fff_fffe_fff8, i),
        ),
{
    let w = user_bytes(&space.tables, m1, rsp as int, 0x7fff_fffe_fff8);
    lemma_window_read(space, m0, m1, file, argv, envp, rsp, 8 * i, 8);
    lemma_le_u64_same(w.subrange(8 * i, 8 * i + 8), 0, w, 8 * i);
    assert(le_u64(w, 8 * i) == stack_word(
        stack_strings(argv, envp),
        argv.len() as int,
        0x7fff_fffe_fff8,
        i,
    ));
}

/// The pointer at `at` leads to `text`, with a NUL behind it.
pub open spec fn points_to_text(t: &UserTables, mem: &PhysMem, at: int, text: Seq<u8>) -> bool {
    user_word(t, mem, at) matches Ok(w) && user_read(t, mem, w as int, text.len() + 1) == Ok::<
        Seq<u8>,
        u64,
    >(text.push(0))
}

proof fn lemma_pointer(
    space: &AddressSpace,
    m0: &PhysMem,
    m1: &PhysMem,
    file: Seq<u8>,
    argv: Seq<&str>,
    envp: Seq<&str>,
    rsp: u64,
    i: int,
    word: int,
)
    requires
        m0.wf(),
        m1.bytes@.len() == m0.bytes@.len(),
        image_loaded(space, m0, m1, file, argv, envp, rsp),
        0x7fff_fffb_0000 <= rsp,
        0 <= i < argv.len() + envp.len(),
        word == (if i < argv.len() {
            i + 1
        } else {
            i + 2
        }),
        rsp + 8 * word + 8 <= 0x7fff_fffe_fff8,
    ensures
        points_to_text(
            &space.tables,
            m1,
            rsp + 8 * word,
            stack_strings(argv, envp)[i],
        ),
{
    let strs = stack_strings(argv, envp);
    let top = 0x7fff_fffe_fff8int;
    let w = user_bytes(&space.tables, m1, rsp as int, top);
    let s = strs[i];
    let at = string_addr(strs, top, (i + 1) as nat);
    lemma_window_word(space, m0, m1, file, argv, envp, rsp, word);
    lemma_string_addr(strs, top, (i + 1) as nat, strs.len());
    lemma_string_addr(strs, top, i as nat, (i + 1) as nat);
    lemma_string_addr(strs, top, 0, i as nat);
    assert(stack_word(strs, argv.len() as int, top, word) == at);
    assert(rsp == initial_rsp(strs, top));
    assert(rsp <= at && at + s.len() + 1 <= top);
    lemma_window_read(space, m0, m1, file, argv, envp, rsp, at - rsp, s.len() + 1);
    assert(w.subrange(at - rsp, at - rsp + s.len() as int) == s);
    assert(w.subrange(at - rsp, at - rsp + s.len() + 1) =~= s.push(0)) by {
        assert forall|x: int| 0 <= x < s.len() implies #[trigger] w[at - rsp + x] == s[x] by {
            assert(w.subrange(at - rsp, at - rsp + s.len() as int)[x] == s[x]);
        }
    }
}

/// A program that `execve` starts finds on its stack how many arguments it has,
/// then a pointer to each of them in order, a null pointer, a pointer to each
/// string of its environment, and a null pointer. Its stack pointer is a multiple
/// of 16.
pub proof fn executed_program_finds_its_arguments(
    before: &Kernel,
    after: &Kernel,
    p: int,
    file: Seq<u8>,
    argv: Seq<&str>,
    envp: Seq<&str>,
    buf_phys: u64,
    pcid: u16,
    cpu_id: u32,
)
    requires
        before.mem.wf(),
        0 <= p < before.procs@.len(),
        exec_done(before, after, p, file, argv, envp, buf_phys, pcid, cpu_id),
        args_fit(argv, envp),
    ensures
        ({
            let t = &after.spaces.at(after.procs@[p].address_space as int).tables;
            let rsp = after.procs@[p].user_rsp as int;
            let argc = argv.len() as int;
            let envc = envp.len() as int;
            &&& rsp % 16 == 0
            &&& user_word(t, &after.mem, rsp) == Ok::<u64, u64>(argc as u64)
            &&& forall|i: int|
                0 <= i < argc ==> points_to_text(
                    t,
                    &after.mem,
                    rsp + 8 + 8 * i,
                    (#[trigger] argv[i]).spec_bytes(),
                )
            &&& user_word(t, &after.mem, rsp + 8 + 8 * argc) == Ok::<u64, u64>(0)
            &&& forall|i: int|
                0 <= i < envc ==> points_to_text(
                    t,
                    &after.mem,
                    rsp + 16 + 8 * argc + 8 * i,
                    (#[trigger] envp[i]).spec_bytes(),
                )
            &&& user_word(t, &after.mem, rsp + 16 + 8 * argc + 8 * envc) == Ok::<u64, u64>(0)
        }),
{
    assert(before.spaces.slots@.len() == before.spaces.slots.len());
    let space = after.spaces.at(before.spaces.slots@.len() as int);
    let t = &space.tables;
    let rsp = after.procs@[p].user_rsp;
    let m0 = &before.mem;
    let m1 = &after.mem;
    let strs = stack_strings(argv, envp);
    let argc = argv.len() as int;
    let envc = envp.len() as int;
    let top = 0x7fff_fffe_fff8int;
    assert(image_loaded(&space, m0, m1, file, argv, envp, rsp));
    lemma_string_addr(strs, top, 0, strs.len());
    assert(rsp + 8 * (5 + strs.len()) <= top);
    assert(strs.len() == argc + envc);
    lemma_window_word(&space, m0, m1, file, argv, envp, rsp, 0);
    lemma_window_word(&space, m0, m1, file, argv, envp, rsp, argc + 1);
    lemma_window_word(&space, m0, m1, file, argv, envp, rsp, argc + envc + 2);
    assert(word_is(t, m1, rsp as int, 0, argc));
    assert(word_is(t, m1, rsp as int, argc + 1, 0));
    assert(word_is(t, m1, rsp as int, argc + envc + 2, 0));
    assert(rsp + 8 * 0 == rsp);
    assert(rsp + 8 * (argc + 1) == rsp + 8 + 8 * argc);
    assert(rsp + 8 * (argc + envc + 2) == rsp + 16 + 8 * argc + 8 * envc);
    assert forall|i: int| 0 <= i < argc implies points_to_text(
        t,
        m1,
        rsp + 8 + 8 * i,
        (#[trigger] argv[i]).spec_bytes(),
    ) by {
        lemma_pointer(&space, m0, m1, file, argv, envp, rsp, i, i + 1);
        assert(rsp + 8 * (i + 1) == rsp + 8 + 8 * i);
        assert(strs[i] == argv[i].spec_bytes());
    }
    assert forall|i: int| 0 <= i < envc implies points_to_text(
        t,
        m1,
        rsp + 16 + 8 * argc + 8 * i,
        (#[trigger] envp[i]).spec_bytes(),
    ) by {
        lemma_pointer(&space, m0, m1, file, argv, envp, rsp, argc + i, argc + i + 2);
        assert(rsp + 8 * (argc + i + 2) == rsp + 16 + 8 * argc + 8 * i);
        assert(strs[argc + i] == envp[i].spec_bytes());
    }
}

/// A program that `execve` starts is entered where the file says, with interrupts
/// on, and nothing of what the process had before is left: no region, no signal
/// that waits, no handler. It keeps its number, its parent and its open files.
pub proof fn executed_program_starts_afresh(
    before: &Kernel,
    after: &Kernel,
    p: int,
    file: Seq<u8>,
    argv: Seq<&str>,
    envp: Seq<&str>,
    buf_phys: u64,
    pcid: u16,
    cpu_id: u32,
)
    requires
        0 <= p < before.procs@.len(),
        exec_done(before, after, p, file, argv, envp, buf_phys, pcid, cpu_id),
    ensures
        ({
            let was = before.procs@[p];
            let is = after.procs@[p];
            let space = after.spaces.at(is.address_space as int);
            &&& is.user_rip == le_u64(file, 24)
            &&& is.user_rflags == 0x202
            &&& is.user_rax == 0
            &&& is.pid == was.pid
            &&& is.parent_pid == was.parent_pid
            &&& is.thread == was.thread
            &&& forall|fd: int|
                0 <= fd < 64 ==> #[trigger] is.fd_table.fds@[fd] == was.fd_table.fds@[fd]
            &&& forall|s: int|
                0 <= s < 32 ==> #[trigger] is.signals.table.actions@[s]
                    == super::signal::SigAction::Default
            &&& is.signals.pending.bits == 0
            &&& is.signals.frame is None
            &&& forall|i: int| 0 <= i < 32 ==> #[trigger] space.vmas@[i] is None
            &&& space.refcount == 1
            &&& forall|q: int|
                0 <= q < before.procs@.len() && q != p ==> #[trigger] after.procs@[q]
                    == before.procs@[q]
        }),
{
    assert(before.spaces.slots@.len() == before.spaces.slots.len());
}

/// Every new program has a stack that it can write to and not execute, and the
/// page through which signal handlers return: `mov rax, 15` and `syscall`, which
/// it can execute and not write to.
pub proof fn executed_program_has_stack_and_return_page(
    before: &Kernel,
    after: &Kernel,
    p: int,
    file: Seq<u8>,
    argv: Seq<&str>,
    envp: Seq<&str>,
    buf_phys: u64,
    pcid: u16,
    cpu_id: u32,
    a: int,
    i: int,
)
    requires
        before.mem.wf(),
        exec_done(before, after, p, file, argv, envp, buf_phys, pcid, cpu_id),
        on_first_stack(a),
        0 <= i < 9,
    ensures
        ({
            let space = after.spaces.at(before.spaces.slots@.len() as int);
            let stack = space.pte(a as u64).flags;
            let back = space.pte((0x1000_0000 + i) as u64).flags;
            &&& stack.present && stack.user && stack.writable && stack.no_execute
            &&& user_byte(&space.tables, &after.mem, a) is Some
            &&& back.present && back.user && !back.writable && !back.no_execute
            &&& user_byte(&space.tables, &after.mem, 0x1000_0000 + i) == Some(
                seq![0x48u8, 0xc7, 0xc0, 0x0f, 0x00, 0x00, 0x00, 0x0f, 0x05][i],
            )
        }),
{
    let space = after.spaces.at(before.spaces.slots@.len() as int);
    let rsp = after.procs@[p].user_rsp;
    lemma_stack_mapped(&space, &before.mem, &after.mem, file, argv, envp, rsp, a);
    let v = (0x1000_0000 + i) as u64;
    assert(!in_stack(v));
    assert(page_number(v) == 0x1_0000);
    let e = space.pte(v);
    let f = e.frame.0;
    assert(taken(&before.mem, &after.mem, f));
    let x = choose|x: int| 0 <= x < before.mem.pool@.len() && before.mem.pool@[x] == f;
    assert(before.mem.holds(before.mem.pool@[x]));
    let code = super::signal::SIGRETURN_TRAMPOLINE_CODE@;
    assert(after.mem.page(f) == padded(code));
    assert(after.mem.page(f)[i] == code[i]);
    assert(code =~= seq![0x48u8, 0xc7, 0xc0, 0x0f, 0x00, 0x00, 0x00, 0x0f, 0x05]);
}

/// `file` is an executable that can be loaded: a 64-bit little-endian x86-64
/// executable whose program headers lie in it, and whose loadable segments lie in
/// it and in user memory.
pub open spec fn is_executable(file: Seq<u8>) -> bool {
    &&& file.len() >= 64
    &&& file.take(4) == seq![0x7fu8, 0x45, 0x4c, 0x46]
    &&& file[4] == 2
    &&& file[5] == 1
    &&& le_u16(file, 16) == 2
    &&& le_u16(file, 18) == 62
    &&& le_u16(file, 54) == 56
    &&& le_u16(file, 56) <= 8
    &&& header_at(file, le_u16(file, 56) as int) <= file.len()
    &&& forall|k: int|
        0 <= k < le_u16(file, 56) && #[trigger] is_loadable(file, k) ==> {
            &&& le_u64(file, header_at(file, k) + 48) >= 4096
            &&& super::elf::is_power_of_two(le_u64(file, header_at(file, k) + 48))
            &&& header_vaddr(file, k) < 0x8000_0000_0000
            &&& header_vaddr(file, k) + header_memsz(file, k) <= 0x8000_0000_0000
            &&& header_filesz(file, k) <= header_memsz(file, k)
            &&& header_offset(file, k) + header_filesz(file, k) <= file.len()
            &&& header_offset(file, k) >= header_vaddr(file, k) % 4096
        }
}

proof fn lemma_loads_ok(file: Seq<u8>, n: nat)
    ensures
        loads_of(file, n) is Ok <==> forall|k: int|
            0 <= k < n && #[trigger] is_loadable(file, k) ==> super::elf::segment_error(
                super::elf::phdr_at(file, header_at(file, k)),
                file.len(),
            ) is None,
    decreases n,
{
    if n > 0 {
        lemma_loads_ok(file, (n - 1) as nat);
        let k = n - 1;
        assert(is_loadable(file, k) == (super::elf::phdr_at(file, header_at(file, k)).p_type == 1));
        if loads_of(file, n) is Ok {
            assert forall|k: int| 0 <= k < n && #[trigger] is_loadable(file, k) implies super::elf::segment_error(
                super::elf::phdr_at(file, header_at(file, k)),
                file.len(),
            ) is None by {}
        }
    }
}

/// Exactly the executables are loaded.
pub proof fn executables_are_what_loads(file: Seq<u8>)
    ensures
        elf_loads(file) is Ok <==> is_executable(file),
{
    let n = le_u16(file, 56) as nat;
    lemma_loads_ok(file, n);
    if file.len() >= 64 {
        let magic = seq![0x7fu8, 0x45, 0x4c, 0x46];
        if file[0] == 0x7f && file[1] == 0x45 && file[2] == 0x4c && file[3] == 0x46 {
            assert(file.take(4) =~= magic);
        }
        if file.take(4) == magic {
            assert(file.take(4)[0] == 0x7f && file.take(4)[1] == 0x45 && file.take(4)[2] == 0x4c
                && file.take(4)[3] == 0x46);
        }
    }
    if is_executable(file) {
        assert forall|k: int| 0 <= k < n && #[trigger] is_loadable(file, k) implies super::elf::segment_error(
            super::elf::phdr_at(file, header_at(file, k)),
            file.len(),
        ) is None by {}
    }
    if elf_loads(file) is Ok {
        assert forall|k: int| 0 <= k < le_u16(file, 56) && #[trigger] is_loadable(file, k) implies {
            &&& le_u64(file, header_at(file, k) + 48) >= 4096
            &&& super::elf::is_power_of_two(le_u64(file, header_at(file, k) + 48))
            &&& header_vaddr(file, k) < 0x8000_0000_0000
            &&& header_vaddr(file, k) + header_memsz(file, k) <= 0x8000_0000_0000
            &&& header_filesz(file, k) <= header_memsz(file, k)
            &&& header_offset(file, k) + header_filesz(file, k) <= file.len()
            &&& header_offset(file, k) >= header_vaddr(file, k) % 4096
        } by {}
    }
}

/// A program that is made from an executable starts at the address that the executable
/// names, at the top of its stack, with all other registers zero. It has the next
/// number, nobody is its parent, it has no children, handles no signal and none waits.
/// Its name is the first fifteen bytes of the one given. It does not run before its
/// thread is queued.
pub proof fn created_program_is_new(
    before: &Kernel,
    after: &Kernel,
    elf: Seq<u8>,
    name: Seq<u8>,
    pcid: u16,
    entry: u64,
    kstack: u64,
    i: int,
)
    requires
        created(before, after, elf, name, pcid, entry, kstack),
        0xffff_8000_0000_0000 + kstack + 0x8000 <= u64::MAX,
    ensures
        ({
            let c = before.procs@.len() as int;
            let new = after.procs@[c];
            let t = before.sched.threads@.len() as int;
            &&& after.procs@.len() == c + 1
            &&& new.pid == before.next_pid
            &&& new.state is Running
            &&& new.user_rip == number_at(elf, 24, 8)
            &&& new.user_rsp == 0x7fff_fffe_fff8
            &&& new.user_rflags == 0x202
            &&& new.user_rax == 0
            &&& 0 <= i < 6 ==> new.user_callee@[i] == 0
            &&& new.parent_pid == 0
            &&& new.child_count == 0
            &&& 0 <= i < 32 ==> new.children@[i] == 0 && new.signals.table.actions@[i] is Default
            &&& new.signals.pending.bits == 0
            &&& new.signals.frame is None
            &&& 0 <= i < 16 ==> new.name@[i] == (if i < 15 && i < name.len() {
                name[i]
            } else {
                0u8
            })
            &&& 0 <= i < c ==> after.procs@[i] == before.procs@[i]
            &&& new.thread == Some(t as usize)
            &&& after.sched@.threads[t].context.rip == entry
            &&& after.sched@.threads[t].kstack_phys == kstack
            &&& 0 <= i < 64 ==> after.sched@.cpus[i] == before.sched@.cpus[i]
        }),
{
    assert(before.procs@.len() == before.procs.len());
    assert(before.sched.threads@.len() == before.sched.threads.len());
    fields_are_read_least_byte_first(elf, 24);
}

/// Why a program cannot be started: there is no such file (-2), it cannot be read (-5),
/// or it is no executable (-8). Otherwise it is started.
pub proof fn start_fails_for_a_reason(read: i64, buf: Seq<u8>)
    requires
        read <= buf.len(),
    ensures
        read == -2 ==> exec_error(read, buf) == Some(-2i32),
        read < 0 && read != -2 ==> exec_error(read, buf) == Some(-5i32),
        read >= 0 && !is_executable(buf.take(read as int)) ==> exec_error(read, buf) == Some(-8i32),
        read >= 0 && is_executable(buf.take(read as int)) ==> exec_error(read, buf) is None,
{
    if read >= 0 {
        executables_are_what_loads(buf.take(read as int));
    }
}

/// What is wrong with an executable is told by the first thing that is.
pub proof fn defects_are_named(file: Seq<u8>)
    ensures
        file.len() < 64 ==> elf_loads(file) == Err::<Seq<LoadSegment>, ElfError>(ElfError::TooShort),
        file.len() >= 64 && !(file[0] == 0x7f && file[1] == 0x45 && file[2] == 0x4c && file[3] == 0x46)
            ==> elf_loads(file) == Err::<Seq<LoadSegment>, ElfError>(ElfError::BadMagic),
        file.len() >= 64 && file[0] == 0x7f && file[1] == 0x45 && file[2] == 0x4c && file[3] == 0x46 ==> {
            let kind = number_at(file, 16, 2);
            let machine = number_at(file, 18, 2);
            let size = number_at(file, 54, 2);
            let count = number_at(file, 56, 2);
            let r = elf_loads(file);
            &&& file[4] != 2 ==> r == Err::<Seq<LoadSegment>, ElfError>(ElfError::NotElf64)
            &&& file[4] == 2 && file[5] != 1 ==> r == Err::<Seq<LoadSegment>, ElfError>(
                ElfError::NotLittleEndian,
            )
            &&& file[4] == 2 && file[5] == 1 && kind != 2 ==> r == Err::<Seq<LoadSegment>, ElfError>(
                ElfError::NotExecutable,
            )
            &&& file[4] == 2 && file[5] == 1 && kind == 2 && machine != 62 ==> r == Err::<
                Seq<LoadSegment>,
                ElfError,
            >(ElfError::NotX86_64)
            &&& file[4] == 2 && file[5] == 1 && kind == 2 && machine == 62 && size == 56 && count > 8
                ==> r == Err::<Seq<LoadSegment>, ElfError>(ElfError::TooManySegments)
            &&& file[4] == 2 && file[5] == 1 && kind == 2 && machine == 62 && (size != 56 || (count <= 8
                && number_at(file, 32, 8) + 56 * count > file.len())) ==> r == Err::<
                Seq<LoadSegment>,
                ElfError,
            >(ElfError::OffsetOutOfBounds)
        },
{
    fields_are_read_least_byte_first(file, 16);
    fields_are_read_least_byte_first(file, 18);
    fields_are_read_least_byte_first(file, 54);
    fields_are_read_least_byte_first(file, 56);
    fields_are_read_least_byte_first(file, 32);
}

} // verus!
