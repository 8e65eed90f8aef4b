//! Executables: parsing, the first stack, and replacing a process's image.

use rumicos::mem::{PageFlags, PhysAddr, PhysMem};
use rumicos::paging::{PageTable, UserTables};
use rumicos::proc::elf::{
    parse_elf, ElfError, ELF64_PHDR_SIZE, ELFCLASS64, ELFDATA2LSB, EM_X86_64, ET_EXEC, PAGE_SIZE, PF_R,
    PT_LOAD,
};
use rumicos::proc::exec::{
    setup_stack, virt_to_phys_via_pagewalk, write_bytes_to_user, E2BIG, ENOENT, MAX_ARGV, MAX_ENVP,
};
use rumicos::proc::execve::{do_execve, ExecOutcome};
use rumicos::proc::image::frames_for_image;
use rumicos::proc::process::{Process, ProcessState};
use rumicos::proc::state::Kernel;
use rumicos::proc::ustack::USTACK_TOP;

fn valid_header() -> [u8; 64] {
    let mut data = [0u8; 64];
    data[0..4].copy_from_slice(&[0x7f, b'E', b'L', b'F']);
    data[4] = ELFCLASS64;
    data[5] = ELFDATA2LSB;
    data[6] = 1;
    data[16..18].copy_from_slice(&ET_EXEC.to_le_bytes());
    data[18..20].copy_from_slice(&EM_X86_64.to_le_bytes());
    data[20..24].copy_from_slice(&1u32.to_le_bytes());
    data[24..32].copy_from_slice(&0x400000u64.to_le_bytes());
    data[32..40].copy_from_slice(&64u64.to_le_bytes());
    data[52..54].copy_from_slice(&64u16.to_le_bytes());
    data[54..56].copy_from_slice(&ELF64_PHDR_SIZE.to_le_bytes());
    data
}

/// A header and one segment of `code` at 0x400000.
fn program(code: &[u8]) -> Vec<u8> {
    let mut data = valid_header().to_vec();
    data[56..58].copy_from_slice(&1u16.to_le_bytes());
    let mut ph = [0u8; 56];
    ph[0..4].copy_from_slice(&PT_LOAD.to_le_bytes());
    ph[4..8].copy_from_slice(&5u32.to_le_bytes());
    ph[8..16].copy_from_slice(&120u64.to_le_bytes());
    ph[16..24].copy_from_slice(&0x400000u64.to_le_bytes());
    ph[32..40].copy_from_slice(&(code.len() as u64).to_le_bytes());
    ph[40..48].copy_from_slice(&(code.len() as u64 + 4).to_le_bytes());
    ph[48..56].copy_from_slice(&PAGE_SIZE.to_le_bytes());
    data.extend_from_slice(&ph);
    data.extend_from_slice(code);
    data
}

fn machine(frames: u64) -> Kernel {
    let bytes: Vec<u8> = vec![0; (frames * 4096) as usize];
    let pool: Vec<u64> = (1..frames).rev().map(|i| i * 4096).collect();
    Kernel::new(PhysMem::new(bytes, pool), PageTable::new())
}

fn with_process() -> Kernel {
    let mut k = machine(400);
    let p = Process::create(&mut k, &program(b"\x90\x90\xf4"), "init", 1, 0x1234, 0x10_0000);
    assert_eq!(p, 0);
    k
}

#[test]
fn parse_elf_accepts_minimal_valid_header() {
    let data = valid_header();
    let info = parse_elf(&data).unwrap();
    assert_eq!(info.entry, 0x400000);
    assert_eq!(info.seg_count, 0);
}

#[test]
fn parse_elf_rejects_bad_magic() {
    let mut data = valid_header();
    data[0] = 0;
    assert_eq!(parse_elf(&data), Err(ElfError::BadMagic));
}

#[test]
fn parse_elf_rejects_non_x86_64() {
    let mut data = valid_header();
    data[18..20].copy_from_slice(&3u16.to_le_bytes());
    assert_eq!(parse_elf(&data), Err(ElfError::NotX86_64));
}

#[test]
fn parse_elf_rejects_kernel_space_segment() {
    let mut data = [0u8; 120];
    data[..64].copy_from_slice(&valid_header());
    data[56..58].copy_from_slice(&1u16.to_le_bytes());
    let ph = &mut data[64..120];
    ph[0..4].copy_from_slice(&PT_LOAD.to_le_bytes());
    ph[4..8].copy_from_slice(&PF_R.to_le_bytes());
    ph[16..24].copy_from_slice(&0xffff_8000_0000_0000u64.to_le_bytes());
    ph[32..40].copy_from_slice(&1u64.to_le_bytes());
    ph[40..48].copy_from_slice(&1u64.to_le_bytes());
    ph[48..56].copy_from_slice(&PAGE_SIZE.to_le_bytes());
    assert_eq!(parse_elf(&data), Err(ElfError::SegmentInKernelSpace));
}

#[test]
fn elf_error_is_debug_printable() {
    let text = format!("{:?}", ElfError::BadMagic);
    assert_eq!(text, "BadMagic");
}

#[test]
fn parse_elf_reads_a_segment() {
    let data = program(b"\x90\x90\xf4");
    let info = parse_elf(&data).unwrap();
    assert_eq!(info.seg_count, 1);
    assert_eq!(info.segments[0].vaddr, 0x400000);
    assert_eq!(info.segments[0].filesz, 3);
    assert_eq!(info.segments[0].memsz, 7);
}

#[test]
fn parse_elf_rejects_other_faults() {
    assert_eq!(parse_elf(&[0x7f, b'E']), Err(ElfError::TooShort));
    let mut class32 = valid_header();
    class32[4] = 1;
    assert_eq!(parse_elf(&class32), Err(ElfError::NotElf64));
    let mut library = valid_header();
    library[16..18].copy_from_slice(&3u16.to_le_bytes());
    assert_eq!(parse_elf(&library), Err(ElfError::NotExecutable));
    // A segment beyond the end of the file.
    let mut beyond = program(b"\x90\x90\xf4");
    beyond.truncate(121);
    assert_eq!(parse_elf(&beyond), Err(ElfError::OffsetOutOfBounds));
}

/// One page mapped at 0x1000, in `LEAF`.
const LEAF: u64 = 0x8000;

fn mapping() -> (UserTables, PhysMem) {
    let bytes: Vec<u8> = vec![0; 0x10000];
    let mut mem = PhysMem::new(bytes, vec![0x3000, 0x2000, 0x1000]);
    let mut t = UserTables::new(PhysAddr::new(0x9000), &PageTable::new());
    let rw = PageFlags::new().with_present().with_writable();
    t.map_page(&mut mem, 0x1000, PhysAddr::new(LEAF), rw);
    (t, mem)
}

fn read_u64(mem: &PhysMem, virt: u64) -> u64 {
    let b = mem.read_bytes(LEAF + virt - 0x1000, 8);
    u64::from_le_bytes([b[0], b[1], b[2], b[3], b[4], b[5], b[6], b[7]])
}

#[test]
fn virt_to_phys_pagewalk_resolves_4k_mapping() {
    let (t, _mem) = mapping();
    assert_eq!(virt_to_phys_via_pagewalk(&t, 0x1000), Some(LEAF));
}

#[test]
fn virt_to_phys_pagewalk_returns_none_when_not_present() {
    let (t, _mem) = mapping();
    assert_eq!(virt_to_phys_via_pagewalk(&t, 0x2000), None);
}

#[test]
fn virt_to_phys_pagewalk_matches_raw_walker_for_sanity() {
    let (t, _mem) = mapping();
    let expected = t.leaf(0x1000).map(|e| e.frame.as_u64());
    assert_eq!(virt_to_phys_via_pagewalk(&t, 0x1000), expected);
    assert_eq!(virt_to_phys_via_pagewalk(&t, 0x1234), Some(LEAF + 0x234));
}

#[test]
fn setup_stack_argc_matches_argv_len() {
    let (t, mut mem) = mapping();
    let argv = ["a", "bb", "ccc"];
    let envp: [&str; 0] = [];
    let rsp = setup_stack(&t, &mut mem, 0x1FF8, &argv, &envp);
    assert_eq!(read_u64(&mem, rsp), argv.len() as u64);
}

#[test]
fn setup_stack_places_argc_at_returned_rsp() {
    let (t, mut mem) = mapping();
    let argv = ["init"];
    let envp: [&str; 0] = [];
    let rsp = setup_stack(&t, &mut mem, 0x1FF8, &argv, &envp);
    assert_eq!(read_u64(&mem, rsp), 1);
}

#[test]
fn setup_stack_writes_argv_and_envp_null_terminators() {
    let (t, mut mem) = mapping();
    let argv = ["init"];
    let envp: [&str; 0] = [];
    let rsp = setup_stack(&t, &mut mem, 0x1FF8, &argv, &envp);

    let argv0_ptr = read_u64(&mem, rsp + 8);
    assert_ne!(argv0_ptr, 0, "argv[0] pointer must be non-NULL");
    assert_eq!(read_u64(&mem, rsp + 16), 0, "argv NULL terminator");
    assert_eq!(read_u64(&mem, rsp + 24), 0, "envp NULL terminator");
    assert_eq!(mem.read_bytes(LEAF + argv0_ptr - 0x1000, 5), b"init\0".to_vec());
}

#[test]
fn setup_stack_envp_pointers_are_distinct_and_terminated() {
    let (t, mut mem) = mapping();
    let argv = ["init"];
    let envp = ["HOME=/", "PATH=/bin"];
    let rsp = setup_stack(&t, &mut mem, 0x1FF8, &argv, &envp);

    let envp0 = read_u64(&mem, rsp + 24);
    let envp1 = read_u64(&mem, rsp + 32);
    let envp_null = read_u64(&mem, rsp + 40);
    assert_ne!(envp0, 0);
    assert_ne!(envp1, 0);
    assert_ne!(envp0, envp1, "distinct envp strings must get distinct pointers");
    assert_eq!(envp_null, 0);
}

#[test]
fn setup_stack_result_is_16_byte_aligned_with_no_args() {
    let (t, mut mem) = mapping();
    let argv: [&str; 0] = [];
    let envp: [&str; 0] = [];
    let rsp = setup_stack(&t, &mut mem, 0x1FF8, &argv, &envp);
    assert_eq!(rsp % 16, 0);
}

#[test]
fn setup_stack_result_is_16_byte_aligned_with_args() {
    let (t, mut mem) = mapping();
    let argv = ["init", "extra"];
    let envp = ["X=1"];
    let rsp = setup_stack(&t, &mut mem, 0x1FF8, &argv, &envp);
    assert_eq!(rsp % 16, 0);
}

#[test]
fn bytes_are_written_through_the_tables() {
    let (t, mut mem) = mapping();
    write_bytes_to_user(&t, &mut mem, 0x1ffe, b"ab");
    assert_eq!(mem.read_bytes(LEAF + 0xffe, 2), b"ab".to_vec());
}

#[test]
fn do_execve_rejects_too_many_argv() {
    let mut k = with_process();
    let too_many = ["x"; MAX_ARGV + 1];
    let ret = do_execve(&mut k, 0, 0, &[], 0x20_0000, &too_many, &[], 2, 0);
    assert_eq!(ret, ExecOutcome::Failed(E2BIG));
}

#[test]
fn do_execve_rejects_too_many_envp() {
    let mut k = with_process();
    let too_many = ["x"; MAX_ENVP + 1];
    let ret = do_execve(&mut k, 0, 0, &[], 0x20_0000, &[], &too_many, 2, 0);
    assert_eq!(ret, ExecOutcome::Failed(E2BIG));
}

#[test]
fn do_execve_on_host_returns_enoent_without_touching_hardware() {
    let mut k = with_process();
    let before = k.mem.pool.len();
    let ret = do_execve(&mut k, 0, -2, &[], 0x20_0000, &["init2.elf"], &[], 2, 0);
    assert_eq!(ret, ExecOutcome::Failed(ENOENT));
    assert_eq!(k.mem.pool.len(), before);
    assert_eq!(k.procs[0].pid, 1);
}

#[test]
fn execve_replaces_the_image_and_keeps_the_process() {
    let mut k = with_process();
    k.procs[0].parent_pid = 7;
    let elf = program(b"\xcc\xcc");
    let ret = do_execve(&mut k, 0, elf.len() as i64, &elf, 0x20_0000, &["a"], &["X=1"], 2, 0);
    match ret {
        ExecOutcome::Enter { rip, rsp, rflags, rax, .. } => {
            assert_eq!(rip, 0x400000);
            assert_eq!(rsp % 16, 0);
            assert!(rsp < USTACK_TOP);
            assert_eq!(rflags, 0x202);
            assert_eq!(rax, 0);
        }
        ExecOutcome::Failed(e) => panic!("exec failed: {e}"),
    }
    assert_eq!(k.procs[0].pid, 1);
    assert_eq!(k.procs[0].parent_pid, 7);
    assert_eq!(k.procs[0].state, ProcessState::Running);
    // The new code is there.
    let h = k.procs[0].address_space;
    let space = &k.spaces.slots[h].as_ref().unwrap().space;
    let frame = space.tables.leaf(0x400000).unwrap().frame;
    assert_eq!(k.mem.read_bytes(frame.0, 3), vec![0xcc, 0xcc, 0]);
}

#[test]
fn execve_leaves_the_memory_of_others_alone() {
    let mut k = with_process();
    let other = Process::create(&mut k, &program(b"\x90\xc3"), "other", 3, 0x1234, 0x11_0000);
    let h = k.procs[other].address_space;
    let space = &k.spaces.slots[h].as_ref().unwrap().space;
    let frame = space.tables.leaf(0x400000).unwrap().frame.0;
    k.mem.write_bytes(frame + 100, b"mine");
    let (bytes, pool) = (k.mem.bytes.clone(), k.mem.pool.clone());

    let elf = program(b"\xcc\xcc");
    let new = k.spaces.slots.len();
    let ret = do_execve(&mut k, 0, elf.len() as i64, &elf, 0x20_0000, &["a"], &[], 2, 0);
    let shared = k.spaces.slots[new].as_ref().unwrap();
    assert!(matches!(ret, ExecOutcome::Enter { cr3, .. } if cr3 == shared.space.pml4_phys.0 | 2));
    assert_eq!(k.mem.read_bytes(frame + 100, 4), b"mine".to_vec());

    // Frames come off the end of the pool; the last one is the descriptor's.
    let left = k.mem.pool.len();
    assert_eq!(k.mem.pool, pool[..left]);
    assert_eq!(shared.home.0, pool[left]);
    // The first one is the top-level table's, which no other address space has.
    assert_eq!(Some(&shared.space.pml4_phys.0), pool.last());
    let other_space = &k.spaces.slots[h].as_ref().unwrap().space;
    assert_ne!(shared.space.pml4_phys, other_space.pml4_phys);
    for f in (0..400u64).map(|i| i * 4096).filter(|f| !pool[left..].contains(f)) {
        let at = f as usize;
        assert_eq!(k.mem.bytes[at..at + 4096], bytes[at..at + 4096]);
    }
}

#[test]
fn the_longest_arguments_fit_on_the_stack() {
    let mut k = with_process();
    let long = "x".repeat(256);
    let args = vec![long.as_str(); MAX_ARGV];
    let elf = program(b"\xcc\xcc");
    let ret = do_execve(&mut k, 0, elf.len() as i64, &elf, 0x20_0000, &args, &args, 2, 0);
    // 64 strings of 257 bytes, then the words, on a boundary of 16.
    let strings = USTACK_TOP - 8 - 64 * 257;
    let rsp = strings - strings % 16 - 8 - 8 * 69;
    assert!(matches!(ret, ExecOutcome::Enter { rsp: r, .. } if r == rsp));
}

#[test]
fn execve_of_what_is_no_executable_fails() {
    let mut k = with_process();
    let ret = do_execve(&mut k, 0, 4, b"#!sh", 0x20_0000, &["a"], &[], 2, 0);
    assert_eq!(ret, ExecOutcome::Failed(-8));
}

#[test]
fn ustack_top_is_in_user_space() {
    assert!(USTACK_TOP < 0x0000_8000_0000_0000);
}

#[test]
fn created_process_starts_at_its_entry() {
    let k = with_process();
    let p = &k.procs[0];
    assert_eq!(p.pid, 1);
    assert_eq!(p.user_rip, 0x400000);
    assert_eq!(p.user_rsp, USTACK_TOP - 8);
    assert_eq!(&p.name[..5], b"init\0");
    let space = &k.spaces.slots[p.address_space].as_ref().unwrap().space;
    let frame = space.tables.leaf(0x400000).unwrap().frame;
    assert_eq!(k.mem.read_bytes(frame.0, 4), vec![0x90, 0x90, 0xf4, 0]);
}

#[test]
fn an_image_needs_pages_tables_and_a_stack() {
    // One page behind three tables, the top table, the stack and the page that
    // ends a signal handler.
    assert_eq!(frames_for_image(&program(b"\x90\x90\xf4")), Some(4 + 1 + 67 + 4));
    assert_eq!(frames_for_image(&valid_header()), Some(1 + 67 + 4));
    assert_eq!(frames_for_image(b"#!/bin/sh"), None);
}
