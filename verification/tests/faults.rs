//! Page faults, and what becomes of a process that makes a bad access.

use rumicos::mem::PhysMem;
use rumicos::paging::PageTable;
use rumicos::proc::effects::Effect;
use rumicos::proc::elf::{
    parse_elf, ElfError, ELF64_PHDR_SIZE, ELFCLASS64, ELFDATA2LSB, EM_X86_64, ET_EXEC, PT_LOAD,
};
use rumicos::proc::pagefault::{
    pf_handler, FaultOutcome, PF_PRESENT, PF_USER, PF_VECTOR, PF_WRITE, SIGSEGV_EXIT,
};
use rumicos::proc::process::{Process, ProcessState};
use rumicos::proc::signal::InterruptFrame;
use rumicos::proc::state::Kernel;
use rumicos::proc::syscall::{sys_sigreturn, SyscallAction, KILLED};
use rumicos::proc::vma::{prot_to_page_flags, Backing, PROT_READ, PROT_WRITE};
use rumicos::sched::schedule::{init, Switch};
use rumicos::sched::thread::ThreadState;

const VNODE: usize = 0xffff_8000_0001_0000;

fn header() -> Vec<u8> {
    let mut data = vec![0u8; 64];
    data[0..4].copy_from_slice(&[0x7f, b'E', b'L', b'F']);
    data[4] = ELFCLASS64;
    data[5] = ELFDATA2LSB;
    data[6] = 1;
    data[16..18].copy_from_slice(&ET_EXEC.to_le_bytes());
    data[18..20].copy_from_slice(&EM_X86_64.to_le_bytes());
    data[20..24].copy_from_slice(&1u32.to_le_bytes());
    data[24..32].copy_from_slice(&0x400000u64.to_le_bytes());
    data[32..40].copy_from_slice(&64u64.to_le_bytes());
    data[52..54].copy_from_slice(&64u16.to_le_bytes());
    data[54..56].copy_from_slice(&ELF64_PHDR_SIZE.to_le_bytes());
    data
}

/// One process, which runs on CPU 0.
fn running() -> Kernel {
    let frames: u64 = 300;
    let bytes: Vec<u8> = vec![0; (frames * 4096) as usize];
    let pool: Vec<u64> = (1..frames).rev().map(|i| i * 4096).collect();
    let mut k = Kernel::new(PhysMem::new(bytes, pool), PageTable::new());
    init(&mut k.sched, 1, 0x9999, &[0x4000_0000]);
    let p = Process::create(&mut k, &header(), "init", 1, 0x1234, 0x5000_0000);
    let t = k.procs[p].thread.unwrap();
    k.sched.cpus[0].value.current = Some(t);
    k.sched.threads[t].state = ThreadState::Running;
    k
}

fn fault(error_code: u64) -> InterruptFrame {
    InterruptFrame {
        rip: 0x40_1000,
        cs: 0x23,
        rflags: 0x202,
        rsp: 0x7fff_fffe_0000,
        error_code,
        rax: 0,
        rbx: 0,
        rcx: 0,
        rdx: 0,
        rsi: 0,
        rdi: 0,
        rbp: 0,
        r8: 0,
        r9: 0,
        r10: 0,
        r11: 0,
        r12: 0,
        r13: 0,
        r14: 0,
        r15: 0,
    }
}

fn map_region(k: &mut Kernel, backing: Backing) -> u64 {
    let h = k.procs[0].address_space;
    let space = &mut k.spaces.slots[h].as_mut().unwrap().space;
    space
        .mmap(0x2000, prot_to_page_flags(PROT_READ | PROT_WRITE), backing)
        .unwrap()
}

#[test]
fn first_access_to_a_region_is_filled() {
    assert_eq!(PF_VECTOR, 14);
    let mut k = running();
    let addr = map_region(&mut k, Backing::Anonymous);
    let r = pf_handler(&mut k, &fault(PF_USER | PF_WRITE), addr + 8, None, 0);
    assert!(matches!(r, FaultOutcome::Resolved));
    let space = &k.spaces.slots[k.procs[0].address_space].as_ref().unwrap().space;
    let e = space.tables.leaf(addr).unwrap();
    assert!(e.flags.present && e.flags.writable && !e.flags.cow);
    assert_eq!(k.mem.read_bytes(e.frame.0, 4096), vec![0; 4096]);
    assert!(space.tables.leaf(addr + 4096).map_or(true, |e| !e.flags.present));
}

#[test]
fn private_file_page_is_copied_when_it_is_written() {
    let mut k = running();
    let addr = map_region(
        &mut k,
        Backing::File {
            vnode_ptr: VNODE,
            file_offset: 0x3000,
            shared: false,
        },
    );
    let h = k.procs[0].address_space;
    let space = &k.spaces.slots[h].as_ref().unwrap().space;
    assert_eq!(space.file_fault_request(addr + 0x1234), Some((VNODE, 0x4000)));
    let cached = k.mem.alloc_frame().0;
    k.mem.write_bytes(cached, b"file");
    let r = pf_handler(&mut k, &fault(PF_USER), addr, Some(cached), 0);
    assert!(matches!(r, FaultOutcome::Resolved));
    let r = pf_handler(&mut k, &fault(PF_USER | PF_PRESENT | PF_WRITE), addr, None, 0);
    assert!(matches!(r, FaultOutcome::Resolved));
    let space = &k.spaces.slots[h].as_ref().unwrap().space;
    let e = space.tables.leaf(addr).unwrap();
    assert_ne!(e.frame.0, cached);
    assert!(e.flags.writable && !e.flags.cow);
    assert_eq!(k.mem.read_bytes(e.frame.0, 4), b"file".to_vec());
}

#[test]
fn writable_shared_file_page_is_marked_dirty() {
    let mut k = running();
    let addr = map_region(
        &mut k,
        Backing::File {
            vnode_ptr: VNODE,
            file_offset: 0,
            shared: true,
        },
    );
    let cached = k.mem.alloc_frame().0;
    let r = pf_handler(&mut k, &fault(PF_USER), addr, Some(cached), 0);
    assert!(matches!(r, FaultOutcome::Resolved));
    assert!(k.log.contains(&Effect::MarkDirty {
        vnode: VNODE,
        offset: 0
    }));
    let space = &k.spaces.slots[k.procs[0].address_space].as_ref().unwrap().space;
    assert_eq!(space.tables.leaf(addr).unwrap().frame.0, cached);
}

#[test]
fn bad_access_of_a_program_ends_it() {
    let mut k = running();
    let r = pf_handler(&mut k, &fault(PF_USER | PF_WRITE), 0xdead_0000, None, 0);
    match r {
        FaultOutcome::Killed { line, switch } => {
            assert_eq!(
                String::from_utf8(line).unwrap(),
                "\n[SIGSEGV addr=00000000dead0000 rip=0000000000401000 err=0000000000000006]\n"
            );
            assert!(matches!(switch, Switch::To { .. }));
        }
        _ => panic!("the access is bad"),
    }
    assert_eq!(k.procs[0].state, ProcessState::Zombie);
    assert_eq!(k.procs[0].exit_code, SIGSEGV_EXIT);
}

#[test]
fn read_error_of_a_file_is_a_bad_access() {
    let mut k = running();
    let addr = map_region(
        &mut k,
        Backing::File {
            vnode_ptr: VNODE,
            file_offset: 0,
            shared: false,
        },
    );
    let r = pf_handler(&mut k, &fault(PF_USER), addr, None, 0);
    assert!(matches!(r, FaultOutcome::Killed { .. }));
}

#[test]
fn bad_access_of_the_kernel_is_told() {
    let mut k = running();
    let r = pf_handler(&mut k, &fault(PF_WRITE), 0xdead_0000, None, 0);
    assert!(matches!(r, FaultOutcome::KernelFault));
    assert_eq!(k.procs[0].state, ProcessState::Running);
}

#[test]
fn return_from_no_handler_ends_the_process() {
    let mut k = running();
    assert!(matches!(sys_sigreturn(&mut k, 0), SyscallAction::Leave(_)));
    assert_eq!(k.procs[0].state, ProcessState::Zombie);
    assert_eq!(k.procs[0].exit_code, KILLED);
}

#[test]
fn headers_with_other_faults_are_refused() {
    let mut big_endian = header();
    big_endian[5] = 2;
    assert_eq!(parse_elf(&big_endian), Err(ElfError::NotLittleEndian));
    let mut many = header();
    many[56..58].copy_from_slice(&9u16.to_le_bytes());
    many.resize(64 + 9 * 56, 0);
    assert_eq!(parse_elf(&many), Err(ElfError::TooManySegments));
    let mut crooked = header();
    crooked[56..58].copy_from_slice(&1u16.to_le_bytes());
    let mut ph = [0u8; 56];
    ph[0..4].copy_from_slice(&PT_LOAD.to_le_bytes());
    ph[16..24].copy_from_slice(&0x400000u64.to_le_bytes());
    ph[40..48].copy_from_slice(&1u64.to_le_bytes());
    ph[48..56].copy_from_slice(&4097u64.to_le_bytes());
    crooked.extend_from_slice(&ph);
    assert_eq!(parse_elf(&crooked), Err(ElfError::BadAlignment));
}
