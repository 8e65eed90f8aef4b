//! Validation of ELF64 executables.

use vstd::prelude::*;
use crate::bytes::{le_u16, le_u32, le_u64, read_u16, read_u32, read_u64};

verus! {

pub const PT_LOAD: u32 = 1;

pub const PT_NULL: u32 = 0;

pub const PF_X: u32 = 1;

pub const PF_W: u32 = 2;

pub const PF_R: u32 = 4;

pub const EI_CLASS: usize = 4;

pub const EI_DATA: usize = 5;

pub const ELFCLASS64: u8 = 2;

pub const ELFDATA2LSB: u8 = 1;

pub const ET_EXEC: u16 = 2;

pub const EM_X86_64: u16 = 62;

/// Size of the file header.
pub const ELF64_HEADER_SIZE: usize = 64;

/// Size of one program header.
pub const ELF64_PHDR_SIZE: u16 = 56;

pub const MAX_LOAD_SEGMENTS: usize = 8;

pub const PAGE_SIZE: u64 = 4096;

/// First address above the user half of the address space.
pub const USER_TOP: u64 = 0x0000_8000_0000_0000;

pub struct Elf64Header {
    pub e_ident: [u8; 16],
    pub e_type: u16,
    pub e_machine: u16,
    pub e_version: u32,
    pub e_entry: u64,
    pub e_phoff: u64,
    pub e_shoff: u64,
    pub e_flags: u32,
    pub e_ehsize: u16,
    pub e_phentsize: u16,
    pub e_phnum: u16,
    pub e_shentsize: u16,
    pub e_shnum: u16,
    pub e_shstrndx: u16,
}

#[derive(Clone, Copy, Debug, PartialEq, Eq, Structural)]
pub struct Elf64Phdr {
    pub p_type: u32,
    pub p_flags: u32,
    pub p_offset: u64,
    pub p_vaddr: u64,
    pub p_paddr: u64,
    pub p_filesz: u64,
    pub p_memsz: u64,
    pub p_align: u64,
}

#[derive(Clone, Copy, Debug, PartialEq, Eq)]
pub struct ElfInfo {
    pub entry: u64,
    pub segments: [LoadSegment; MAX_LOAD_SEGMENTS],
    pub seg_count: usize,
}

#[derive(Clone, Copy, Debug, PartialEq, Eq, Structural)]
pub struct LoadSegment {
    pub vaddr: u64,
    pub filesz: u64,
    pub memsz: u64,
    pub data_off: u64,
    pub flags: u32,
}

impl Default for LoadSegment {
    fn default() -> (s: Self)
        ensures
            s == empty_segment(),
    {
        LoadSegment { vaddr: 0, filesz: 0, memsz: 0, data_off: 0, flags: 0 }
    }
}

#[derive(Debug, Clone, Copy, PartialEq, Eq, Structural)]
pub enum ElfError {
    TooShort,
    BadMagic,
    NotElf64,
    NotLittleEndian,
    NotExecutable,
    NotX86_64,
    TooManySegments,
    BadAlignment,
    SegmentInKernelSpace,
    OffsetOutOfBounds,
}

/// The segment that fills the slots past `seg_count`.
pub open spec fn empty_segment() -> LoadSegment {
    LoadSegment { vaddr: 0, filesz: 0, memsz: 0, data_off: 0, flags: 0 }
}

impl ElfInfo {
    /// The loadable segments, in program-header order.
    pub open spec fn loads(&self) -> Seq<LoadSegment> {
        self.segments@.subrange(0, self.seg_count as int)
    }

    /// The slots past `seg_count` are blank.
    pub open spec fn wf(&self) -> bool {
        &&& self.seg_count <= MAX_LOAD_SEGMENTS
        &&& forall|i: int|
            self.seg_count <= i < MAX_LOAD_SEGMENTS ==> #[trigger] self.segments@[i]
                == empty_segment()
    }
}

pub open spec fn is_power_of_two(x: u64) -> bool {
    exists|k: u64| k < 64 && x == #[trigger] (1u64 << k)
}

/// The first reason to refuse the file header, in the order the checks are made.
pub open spec fn header_error(d: Seq<u8>) -> Option<ElfError> {
    if d.len() < ELF64_HEADER_SIZE {
        Some(ElfError::TooShort)
    } else if !(d[0] == 0x7f && d[1] == 0x45 && d[2] == 0x4c && d[3] == 0x46) {
        Some(ElfError::BadMagic)
    } else if d[EI_CLASS as int] != ELFCLASS64 {
        Some(ElfError::NotElf64)
    } else if d[EI_DATA as int] != ELFDATA2LSB {
        Some(ElfError::NotLittleEndian)
    } else if le_u16(d, 16) != ET_EXEC {
        Some(ElfError::NotExecutable)
    } else if le_u16(d, 18) != EM_X86_64 {
        Some(ElfError::NotX86_64)
    } else if le_u16(d, 54) != ELF64_PHDR_SIZE {
        Some(ElfError::OffsetOutOfBounds)
    } else if le_u16(d, 56) > MAX_LOAD_SEGMENTS {
        Some(ElfError::TooManySegments)
    } else if le_u64(d, 32) + 56 * le_u16(d, 56) > d.len() {
        Some(ElfError::OffsetOutOfBounds)
    } else {
        None
    }
}

/// The program header stored at `off`.
pub open spec fn phdr_at(d: Seq<u8>, off: int) -> Elf64Phdr {
    Elf64Phdr {
        p_type: le_u32(d, off),
        p_flags: le_u32(d, off + 4),
        p_offset: le_u64(d, off + 8),
        p_vaddr: le_u64(d, off + 16),
        p_paddr: le_u64(d, off + 24),
        p_filesz: le_u64(d, off + 32),
        p_memsz: le_u64(d, off + 40),
        p_align: le_u64(d, off + 48),
    }
}

/// The first reason to refuse a loadable program header in a file of `len` bytes.
pub open spec fn segment_error(p: Elf64Phdr, len: nat) -> Option<ElfError> {
    if p.p_align < PAGE_SIZE || !is_power_of_two(p.p_align) {
        Some(ElfError::BadAlignment)
    } else if p.p_vaddr >= USER_TOP || p.p_vaddr + p.p_memsz > USER_TOP {
        Some(ElfError::SegmentInKernelSpace)
    } else if p.p_memsz < p.p_filesz || p.p_offset + p.p_filesz > len || p.p_offset < p.p_vaddr
        % PAGE_SIZE {
        Some(ElfError::OffsetOutOfBounds)
    } else {
        None
    }
}

/// The segment a loadable program header describes, widened down to a page boundary.
pub open spec fn segment_of(p: Elf64Phdr) -> LoadSegment {
    let lead = p.p_vaddr % PAGE_SIZE;
    LoadSegment {
        vaddr: (p.p_vaddr - lead) as u64,
        filesz: (p.p_filesz + lead) as u64,
        memsz: (p.p_memsz + lead) as u64,
        data_off: (p.p_offset - lead) as u64,
        flags: p.p_flags,
    }
}

/// The segments of the first `n` program headers, or the first refusal among them.
pub open spec fn loads_of(d: Seq<u8>, n: nat) -> Result<Seq<LoadSegment>, ElfError>
    decreases n,
{
    if n == 0 {
        Ok(Seq::empty())
    } else {
        let p = phdr_at(d, le_u64(d, 32) + 56 * (n - 1));
        match loads_of(d, (n - 1) as nat) {
            Err(e) => Err(e),
            Ok(segs) => if p.p_type != PT_LOAD {
                Ok(segs)
            } else {
                match segment_error(p, d.len()) {
                    Some(e) => Err(e),
                    None => Ok(segs.push(segment_of(p))),
                }
            },
        }
    }
}

/// What the image parses to: its loadable segments, or the first refusal.
pub open spec fn elf_loads(d: Seq<u8>) -> Result<Seq<LoadSegment>, ElfError> {
    match header_error(d) {
        Some(e) => Err(e),
        None => loads_of(d, le_u16(d, 56) as nat),
    }
}

proof fn lemma_shift_double(k: u64)
    by (bit_vector)
    requires
        k < 63,
    ensures
        (1u64 << ((k + 1) as u64)) == 2 * (1u64 << k),
        (1u64 << k) >= 1,
{
}

proof fn lemma_low_bit_clear(x: u64)
    by (bit_vector)
    requires
        x > 1,
        x & ((x - 1) as u64) == 0,
    ensures
        x % 2 == 0,
        (x / 2) & ((x / 2 - 1) as u64) == 0,
{
}

/// Clearing the lowest set bit leaves nothing exactly for powers of two.
proof fn lemma_single_bit(x: u64)
    requires
        x > 0,
        x & ((x - 1) as u64) == 0,
    ensures
        is_power_of_two(x),
    decreases x,
{
    if x == 1 {
        assert(1u64 << 0u64 == 1) by (bit_vector);
    } else {
        lemma_low_bit_clear(x);
        lemma_single_bit(x / 2);
        let k = choose|k: u64| k < 64 && x / 2 == #[trigger] (1u64 << k);
        assert(k < 63) by {
            assert(k == 63 ==> (1u64 << k) == 0x8000_0000_0000_0000) by (bit_vector);
        }
        lemma_shift_double(k);
        assert(x == 1u64 << ((k + 1) as u64));
    }
}

proof fn lemma_power_has_single_bit(k: u64)
    by (bit_vector)
    requires
        k < 64,
    ensures
        (1u64 << k) > 0,
        (1u64 << k) & (((1u64 << k) - 1) as u64) == 0,
{
}

fn power_of_two(x: u64) -> (r: bool)
    ensures
        r == is_power_of_two(x),
{
    proof {
        if is_power_of_two(x) {
            let k = choose|k: u64| k < 64 && x == #[trigger] (1u64 << k);
            lemma_power_has_single_bit(k);
        }
        if x > 0 && x & ((x - 1) as u64) == 0 {
            lemma_single_bit(x);
        }
    }
    x > 0 && x & (x - 1) == 0
}

fn read_header(data: &[u8]) -> (r: Result<Elf64Header, ElfError>)
    ensures
        match r {
            Err(e) => data@.len() < ELF64_HEADER_SIZE && e == ElfError::TooShort,
            Ok(h) => {
                &&& data@.len() >= ELF64_HEADER_SIZE
                &&& h.e_ident@ == data@.subrange(0, 16)
                &&& h.e_type == le_u16(data@, 16)
                &&& h.e_machine == le_u16(data@, 18)
                &&& h.e_version == le_u32(data@, 20)
                &&& h.e_entry == le_u64(data@, 24)
                &&& h.e_phoff == le_u64(data@, 32)
                &&& h.e_shoff == le_u64(data@, 40)
                &&& h.e_flags == le_u32(data@, 48)
                &&& h.e_ehsize == le_u16(data@, 52)
                &&& h.e_phentsize == le_u16(data@, 54)
                &&& h.e_phnum == le_u16(data@, 56)
                &&& h.e_shentsize == le_u16(data@, 58)
                &&& h.e_shnum == le_u16(data@, 60)
                &&& h.e_shstrndx == le_u16(data@, 62)
            },
        },
{
    if data.len() < ELF64_HEADER_SIZE {
        return Err(ElfError::TooShort);
    }
    let mut e_ident: [u8; 16] = [0;16];
    let mut i: usize = 0;
    while i < 16
        invariant
            i <= 16,
            data@.len() >= ELF64_HEADER_SIZE,
            forall|k: int| 0 <= k < i ==> e_ident@[k] == data@[k],
        decreases 16 - i,
    {
        e_ident[i] = data[i];
        i += 1;
    }
    assert(e_ident@ =~= data@.subrange(0, 16));
    Ok(
        Elf64Header {
            e_ident,
            e_type: read_u16(data, 16),
            e_machine: read_u16(data, 18),
            e_version: read_u32(data, 20),
            e_entry: read_u64(data, 24),
            e_phoff: read_u64(data, 32),
            e_shoff: read_u64(data, 40),
            e_flags: read_u32(data, 48),
            e_ehsize: read_u16(data, 52),
            e_phentsize: read_u16(data, 54),
            e_phnum: read_u16(data, 56),
            e_shentsize: read_u16(data, 58),
            e_shnum: read_u16(data, 60),
            e_shstrndx: read_u16(data, 62),
        },
    )
}

/// Read the program header at `off`, or `OffsetOutOfBounds` where fewer than its
/// bytes are left.
fn read_phdr(data: &[u8], off: usize) -> (r: Result<Elf64Phdr, ElfError>)
    requires
        off <= data@.len(),
    ensures
        match r {
            Err(e) => data@.len() - off < ELF64_PHDR_SIZE && e == ElfError::OffsetOutOfBounds,
            Ok(p) => data@.len() - off >= ELF64_PHDR_SIZE && p == phdr_at(data@, off as int),
        },
{
    if data.len() - off < ELF64_PHDR_SIZE as usize {
        return Err(ElfError::OffsetOutOfBounds);
    }
    Ok(
        Elf64Phdr {
            p_type: read_u32(data, off),
            p_flags: read_u32(data, off + 4),
            p_offset: read_u64(data, off + 8),
            p_vaddr: read_u64(data, off + 16),
            p_paddr: read_u64(data, off + 24),
            p_filesz: read_u64(data, off + 32),
            p_memsz: read_u64(data, off + 40),
            p_align: read_u64(data, off + 48),
        },
    )
}

/// The segment of a loadable program header in a file of `len` bytes, or why it is refused.
fn load_segment(phdr: &Elf64Phdr, len: usize) -> (r: Result<LoadSegment, ElfError>)
    ensures
        match r {
            Err(e) => segment_error(*phdr, len as nat) == Some(e),
            Ok(s) => segment_error(*phdr, len as nat) is None && s == segment_of(*phdr),
        },
{
    if phdr.p_align < PAGE_SIZE || !power_of_two(phdr.p_align) {
        return Err(ElfError::BadAlignment);
    }
    if phdr.p_vaddr >= USER_TOP {
        return Err(ElfError::SegmentInKernelSpace);
    }
    let mem_end: u64 = match phdr.p_vaddr.checked_add(phdr.p_memsz) {
        Some(end) => end,
        None => return Err(ElfError::SegmentInKernelSpace),
    };
    if mem_end > USER_TOP {
        return Err(ElfError::SegmentInKernelSpace);
    }
    if phdr.p_memsz < phdr.p_filesz {
        return Err(ElfError::OffsetOutOfBounds);
    }
    let file_end: u64 = match phdr.p_offset.checked_add(phdr.p_filesz) {
        Some(end) => end,
        None => return Err(ElfError::OffsetOutOfBounds),
    };
    if file_end > len as u64 {
        return Err(ElfError::OffsetOutOfBounds);
    }
    let page_offset: u64 = phdr.p_vaddr % PAGE_SIZE;
    if phdr.p_offset < page_offset {
        return Err(ElfError::OffsetOutOfBounds);
    }
    Ok(
        LoadSegment {
            vaddr: phdr.p_vaddr - page_offset,
            filesz: phdr.p_filesz + page_offset,
            memsz: phdr.p_memsz + page_offset,
            data_off: phdr.p_offset - page_offset,
            flags: phdr.p_flags,
        },
    )
}

proof fn lemma_loads_len(d: Seq<u8>, n: nat)
    ensures
        loads_of(d, n) matches Ok(s) ==> s.len() <= n,
    decreases n,
{
    if n > 0 {
        lemma_loads_len(d, (n - 1) as nat);
    }
}

proof fn lemma_loads_err_sticks(d: Seq<u8>, m: nat, n: nat)
    requires
        m <= n,
        loads_of(d, m) is Err,
    ensures
        loads_of(d, n) == loads_of(d, m),
    decreases n,
{
    if m < n {
        lemma_loads_err_sticks(d, m, (n - 1) as nat);
    }
}

/// Validate an ELF64 image and list its loadable segments.
pub fn parse_elf(data: &[u8]) -> (r: Result<ElfInfo, ElfError>)
    ensures
        match elf_loads(data@) {
            Err(e) => r == Err::<ElfInfo, ElfError>(e),
            Ok(segs) => {
                &&& r is Ok
                &&& r->Ok_0.wf()
                &&& r->Ok_0.entry == le_u64(data@, 24)
                &&& r->Ok_0.loads() == segs
            },
        },
{
    let header = match read_header(data) {
        Ok(h) => h,
        Err(e) => return Err(e),
    };
    assert(forall|k: int| 0 <= k < 16 ==> header.e_ident@[k] == data@[k]);
    if !(header.e_ident[0] == 0x7f && header.e_ident[1] == 0x45 && header.e_ident[2] == 0x4c
        && header.e_ident[3] == 0x46) {
        return Err(ElfError::BadMagic);
    }
    if header.e_ident[EI_CLASS] != ELFCLASS64 {
        return Err(ElfError::NotElf64);
    }
    if header.e_ident[EI_DATA] != ELFDATA2LSB {
        return Err(ElfError::NotLittleEndian);
    }
    if header.e_type != ET_EXEC {
        return Err(ElfError::NotExecutable);
    }
    if header.e_machine != EM_X86_64 {
        return Err(ElfError::NotX86_64);
    }
    if header.e_phentsize != ELF64_PHDR_SIZE {
        return Err(ElfError::OffsetOutOfBounds);
    }
    if header.e_phnum as usize > MAX_LOAD_SEGMENTS {
        return Err(ElfError::TooManySegments);
    }
    let len: u64 = data.len() as u64;
    let phnum: usize = header.e_phnum as usize;
    let phdr_bytes: u64 = 56 * header.e_phnum as u64;
    let phdr_end: u64 = match header.e_phoff.checked_add(phdr_bytes) {
        Some(end) => end,
        None => return Err(ElfError::OffsetOutOfBounds),
    };
    if phdr_end > len {
        return Err(ElfError::OffsetOutOfBounds);
    }
    let phoff: usize = header.e_phoff as usize;
    let mut info = ElfInfo {
        entry: header.e_entry,
        segments: [LoadSegment { vaddr: 0, filesz: 0, memsz: 0, data_off: 0, flags: 0 };8],
        seg_count: 0,
    };
    assert(info.loads() =~= Seq::<LoadSegment>::empty());
    let mut idx: usize = 0;
    while idx < phnum
        invariant
            idx <= phnum <= MAX_LOAD_SEGMENTS,
            header_error(data@) is None,
            phnum == le_u16(data@, 56),
            phoff == le_u64(data@, 32),
            phoff + 56 * phnum <= data@.len(),
            info.wf(),
            info.seg_count <= idx,
            info.entry == le_u64(data@, 24),
            loads_of(data@, idx as nat) == Ok::<Seq<LoadSegment>, ElfError>(info.loads()),
        decreases phnum - idx,
    {
        assert(phoff + 56 * phnum <= data.len());
        let off: usize = phoff + 56 * idx;
        let phdr = match read_phdr(data, off) {
            Ok(p) => p,
            Err(e) => return Err(e),
        };
        idx += 1;
        if phdr.p_type != PT_LOAD {
            continue;
        }
        match load_segment(&phdr, data.len()) {
            Ok(seg) => {
                let ghost before = info.loads();
                let slot: usize = info.seg_count;
                info.segments[slot] = seg;
                info.seg_count = slot + 1;
                assert(info.loads() =~= before.push(seg));
            },
            Err(e) => {
                proof {
                    lemma_loads_err_sticks(data@, idx as nat, phnum as nat);
                }
                return Err(e);
            },
        }
    }
    Ok(info)
}

} // verus!
