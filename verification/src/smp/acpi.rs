//! The CPUs and the interrupt routing that the ACPI tables describe.

use vstd::prelude::*;
use crate::bytes::{le_u16, le_u32, le_u64, read_u16, read_u32, read_u64};

verus! {

/// Most CPUs that are used.
pub const MAX_CPUS: usize = 64;

/// Bytes of the header of a system description table.
pub const SDT_HEADER_LEN: u64 = 36;

/// Where the entries of the MADT start.
pub const MADT_ENTRY_START: u64 = 44;

pub const MADT_LAPIC: u8 = 0;

pub const MADT_IOAPIC: u8 = 1;

pub const MADT_ISO: u8 = 2;

pub const MADT_X2APIC: u8 = 9;

pub const MADT_LAPIC_LEN: u8 = 8;

pub const MADT_IOAPIC_LEN: u8 = 12;

pub const MADT_ISO_LEN: u8 = 10;

pub const MADT_X2APIC_LEN: u8 = 16;

/// One CPU that the MADT lists.
#[derive(Clone, Copy, Debug, PartialEq, Eq, Structural)]
pub struct CpuEntry {
    pub acpi_uid: u32,
    pub apic_id: u32,
    /// It is the CPU that booted.
    pub is_bsp: bool,
}

impl CpuEntry {
    pub fn zeroed() -> (r: Self)
        ensures
            r == (CpuEntry { acpi_uid: 0, apic_id: 0, is_bsp: false }),
    {
        CpuEntry { acpi_uid: 0, apic_id: 0, is_bsp: false }
    }
}

/// One I/O APIC.
#[derive(Clone, Copy, Debug, PartialEq, Eq, Structural)]
pub struct IoApicInfo {
    pub id: u8,
    pub phys_addr: u32,
    /// The first global interrupt that it handles.
    pub gsi_base: u32,
}

/// A legacy interrupt that arrives as another global one.
#[derive(Clone, Copy, Debug, PartialEq, Eq, Structural)]
pub struct IsoInfo {
    pub isa_irq: u8,
    pub gsi: u32,
    pub flags: u16,
}

/// What the MADT tells: the CPUs, the one that booted first, and the
/// interrupt routing in the order of the table.
pub struct MadtInfo {
    pub cpus: [CpuEntry; MAX_CPUS],
    pub cpu_count: usize,
    pub ioapics: Vec<IoApicInfo>,
    pub isos: Vec<IsoInfo>,
}

/// The contents of a [`MadtInfo`].
pub struct MadtView {
    pub cpus: Seq<CpuEntry>,
    pub ioapics: Seq<IoApicInfo>,
    pub isos: Seq<IsoInfo>,
}

impl MadtView {
    pub open spec fn blank() -> MadtView {
        MadtView { cpus: Seq::empty(), ioapics: Seq::empty(), isos: Seq::empty() }
    }
}

impl View for MadtInfo {
    type V = MadtView;

    open spec fn view(&self) -> MadtView {
        MadtView {
            cpus: self.cpus@.take(self.cpu_count as int),
            ioapics: self.ioapics@,
            isos: self.isos@,
        }
    }
}

/// The `n` bytes at `addr` of physical memory `m`; what is beyond its end
/// reads as zero.
pub open spec fn window(m: Seq<u8>, addr: int, n: nat) -> Seq<u8> {
    Seq::new(
        n,
        |i: int|
            if 0 <= addr + i < m.len() {
                m[addr + i]
            } else {
                0
            },
    )
}

/// The byte at `addr`.
pub open spec fn byte_at(m: Seq<u8>, addr: int) -> u8 {
    window(m, addr, 1)[0]
}

pub open spec fn u32_at(m: Seq<u8>, addr: int) -> u32 {
    le_u32(window(m, addr, 4), 0)
}

pub open spec fn u64_at(m: Seq<u8>, addr: int) -> u64 {
    le_u64(window(m, addr, 8), 0)
}

/// Copy the `n` bytes at `base + off`.
fn copy_out(m: &[u8], base: u64, off: u64, n: usize) -> (r: Vec<u8>)
    ensures
        r@ == window(m@, base + off, n as nat),
{
    let mut out: Vec<u8> = Vec::new();
    let mut i: usize = 0;
    while i < n
        invariant
            i <= n,
            out@ == window(m@, base + off, i as nat),
        decreases n - i,
    {
        let mut b: u8 = 0;
        if let Some(a) = base.checked_add(off) {
            if let Some(at) = a.checked_add(i as u64) {
                if at < m.len() as u64 {
                    b = m[at as usize];
                }
            }
        }
        out.push(b);
        i += 1;
        assert(m@.len() == m.len());
        assert(out@ =~= window(m@, base + off, i as nat));
    }
    out
}

fn u8_at_phys(m: &[u8], base: u64, off: u64) -> (r: u8)
    ensures
        r == byte_at(m@, base + off),
{
    copy_out(m, base, off, 1)[0]
}

fn u32_at_phys(m: &[u8], base: u64, off: u64) -> (r: u32)
    ensures
        r == u32_at(m@, base + off),
{
    read_u32(copy_out(m, base, off, 4).as_slice(), 0)
}

fn u64_at_phys(m: &[u8], base: u64, off: u64) -> (r: u64)
    ensures
        r == u64_at(m@, base + off),
{
    read_u64(copy_out(m, base, off, 8).as_slice(), 0)
}

/// The signature that the RSDP starts with: `RSD PTR `.
pub open spec fn rsdp_signature() -> Seq<u8> {
    seq![0x52, 0x53, 0x44, 0x20, 0x50, 0x54, 0x52, 0x20]
}

/// `XSDT`.
pub open spec fn xsdt_signature() -> Seq<u8> {
    seq![0x58, 0x53, 0x44, 0x54]
}

/// `RSDT`.
pub open spec fn rsdt_signature() -> Seq<u8> {
    seq![0x52, 0x53, 0x44, 0x54]
}

/// `APIC`, the signature of the MADT.
pub open spec fn madt_signature() -> Seq<u8> {
    seq![0x41, 0x50, 0x49, 0x43]
}

/// Whether `sig` stands at `base`.
fn signature_is(m: &[u8], base: u64, sig: &[u8]) -> (r: bool)
    ensures
        r == (window(m@, base as int, sig@.len()) == sig@),
{
    let found = copy_out(m, base, 0, sig.len());
    let mut i: usize = 0;
    while i < sig.len()
        invariant
            i <= sig@.len(),
            found@.len() == sig@.len(),
            found@ == window(m@, base as int, sig@.len()),
            found@.take(i as int) == sig@.take(i as int),
        decreases sig@.len() - i,
    {
        if found[i] != sig[i] {
            return false;
        }
        assert(found@.take(i + 1) =~= found@.take(i as int).push(found@[i as int]));
        assert(sig@.take(i + 1) =~= sig@.take(i as int).push(sig@[i as int]));
        i += 1;
    }
    assert(found@.take(i as int) =~= found@);
    assert(sig@.take(i as int) =~= sig@);
    true
}

/// The table at position `i` of the list of tables at `sdt`, whose entries have
/// `size` bytes.
pub open spec fn listed_table(m: Seq<u8>, sdt: int, size: int, i: int) -> u64 {
    if size == 8 {
        u64_at(m, sdt + 36 + i * 8)
    } else {
        u32_at(m, sdt + 36 + i * 4) as u64
    }
}

/// The first MADT among the `n` tables from position `i` on.
pub open spec fn first_madt(m: Seq<u8>, sdt: int, size: int, i: int, n: nat) -> Option<u64>
    decreases n,
{
    if n == 0 {
        None
    } else {
        let t = listed_table(m, sdt, size, i);
        if t != 0 && window(m, t as int, 4) == madt_signature() {
            Some(t)
        } else {
            first_madt(m, sdt, size, i + 1, (n - 1) as nat)
        }
    }
}

/// The MADT that the list of tables at `sdt` names: an XSDT with 64-bit
/// addresses, or an RSDT with 32-bit ones.
pub open spec fn madt_in_sdt(m: Seq<u8>, sdt: u64, xsdt: bool) -> Option<u64> {
    let sig = if xsdt {
        xsdt_signature()
    } else {
        rsdt_signature()
    };
    let size = if xsdt {
        8
    } else {
        4int
    };
    let len = u32_at(m, sdt + 4) as int;
    if window(m, sdt as int, 4) != sig || len < 36 {
        None
    } else {
        first_madt(m, sdt as int, size, 0, ((len - 36) / size) as nat)
    }
}

fn find_table_in_sdt(m: &[u8], sdt: u64, xsdt: bool) -> (r: Option<u64>)
    ensures
        r == madt_in_sdt(m@, sdt, xsdt),
{
    let xsdt_sig: [u8; 4] = [0x58, 0x53, 0x44, 0x54];
    let rsdt_sig: [u8; 4] = [0x52, 0x53, 0x44, 0x54];
    let apic_sig: [u8; 4] = [0x41, 0x50, 0x49, 0x43];
    assert(xsdt_sig@ =~= xsdt_signature());
    assert(rsdt_sig@ =~= rsdt_signature());
    assert(apic_sig@ =~= madt_signature());
    let named = if xsdt {
        signature_is(m, sdt, &xsdt_sig)
    } else {
        signature_is(m, sdt, &rsdt_sig)
    };
    if !named {
        return None;
    }
    let len: u64 = u32_at_phys(m, sdt, 4) as u64;
    if len < SDT_HEADER_LEN {
        return None;
    }
    let size: u64 = if xsdt {
        8
    } else {
        4
    };
    let entries: u64 = (len - SDT_HEADER_LEN) / size;
    let mut i: u64 = 0;
    while i < entries
        invariant
            i <= entries <= 0x4000_0000,
            size == (if xsdt {
                8int
            } else {
                4
            }),
            apic_sig@ == madt_signature(),
            madt_in_sdt(m@, sdt, xsdt) == first_madt(
                m@,
                sdt as int,
                size as int,
                i as int,
                (entries - i) as nat,
            ),
        decreases entries - i,
    {
        let table: u64 = if xsdt {
            u64_at_phys(m, sdt, SDT_HEADER_LEN + i * 8)
        } else {
            u32_at_phys(m, sdt, SDT_HEADER_LEN + i * 4) as u64
        };
        assert(table == listed_table(m@, sdt as int, size as int, i as int));
        if table != 0 && signature_is(m, table, &apic_sig) {
            return Some(table);
        }
        i += 1;
    }
    None
}

/// Where the MADT is, as the RSDP at `rsdp` leads to it: through the XSDT where
/// there is one that lists it, else through the RSDT.
pub open spec fn madt_of(m: Seq<u8>, rsdp: u64) -> Option<u64> {
    let xsdt = if byte_at(m, rsdp + 15) >= 2 && u32_at(m, rsdp + 20) >= 36 {
        u64_at(m, rsdp + 24)
    } else {
        0
    };
    let rsdt = u32_at(m, rsdp + 16) as u64;
    if xsdt != 0 && madt_in_sdt(m, xsdt, true) is Some {
        madt_in_sdt(m, xsdt, true)
    } else if rsdt != 0 {
        madt_in_sdt(m, rsdt, false)
    } else {
        None
    }
}

fn find_madt(m: &[u8], rsdp: u64) -> (r: Option<u64>)
    ensures
        r == madt_of(m@, rsdp),
{
    let mut xsdt: u64 = 0;
    if u8_at_phys(m, rsdp, 15) >= 2 {
        if u32_at_phys(m, rsdp, 20) >= 36 {
            xsdt = u64_at_phys(m, rsdp, 24);
        }
    }
    if xsdt != 0 {
        if let Some(madt) = find_table_in_sdt(m, xsdt, true) {
            return Some(madt);
        }
    }
    let rsdt: u64 = u32_at_phys(m, rsdp, 16) as u64;
    if rsdt != 0 {
        find_table_in_sdt(m, rsdt, false)
    } else {
        None
    }
}

/// The CPU of `flags` can be used: it is enabled, or can be brought online.
pub fn cpu_flags_usable(flags: u32) -> (r: bool)
    ensures
        r == (flags & 3 != 0),
{
    (flags & 3) != 0
}

/// The I/O APIC that a 12-byte entry describes.
pub open spec fn ioapic_entry(b: Seq<u8>) -> IoApicInfo {
    IoApicInfo { id: b[2], phys_addr: le_u32(b, 4), gsi_base: le_u32(b, 8) }
}

pub fn ioapic_from_bytes(b: &[u8]) -> (r: IoApicInfo)
    requires
        b@.len() == 12,
    ensures
        r == ioapic_entry(b@),
{
    IoApicInfo { id: b[2], phys_addr: read_u32(b, 4), gsi_base: read_u32(b, 8) }
}

/// The override that a 10-byte entry describes.
pub open spec fn iso_entry(b: Seq<u8>) -> IsoInfo {
    IsoInfo { isa_irq: b[3], gsi: le_u32(b, 4), flags: le_u16(b, 8) }
}

pub fn iso_from_bytes(b: &[u8]) -> (r: IsoInfo)
    requires
        b@.len() == 10,
    ensures
        r == iso_entry(b@),
{
    IsoInfo { isa_irq: b[3], gsi: read_u32(b, 4), flags: read_u16(b, 8) }
}

/// The CPU that a local APIC entry describes, if it can be used.
pub open spec fn lapic_entry(b: Seq<u8>, bsp: u32) -> Option<CpuEntry> {
    if le_u32(b, 4) & 3 != 0 {
        Some(CpuEntry { acpi_uid: b[2] as u32, apic_id: b[3] as u32, is_bsp: b[3] == bsp })
    } else {
        None
    }
}

fn parse_lapic_entry(b: &[u8], bsp: u32) -> (r: Option<CpuEntry>)
    requires
        b@.len() == 8,
    ensures
        r == lapic_entry(b@, bsp),
{
    if !cpu_flags_usable(read_u32(b, 4)) {
        return None;
    }
    Some(CpuEntry { acpi_uid: b[2] as u32, apic_id: b[3] as u32, is_bsp: b[3] as u32 == bsp })
}

/// The CPU that an x2APIC entry describes, if it can be used.
pub open spec fn x2apic_entry(b: Seq<u8>, bsp: u32) -> Option<CpuEntry> {
    if le_u32(b, 8) & 3 != 0 {
        Some(
            CpuEntry {
                acpi_uid: le_u32(b, 12),
                apic_id: le_u32(b, 4),
                is_bsp: le_u32(b, 4) == bsp,
            },
        )
    } else {
        None
    }
}

fn parse_x2apic_entry(b: &[u8], bsp: u32) -> (r: Option<CpuEntry>)
    requires
        b@.len() == 16,
    ensures
        r == x2apic_entry(b@, bsp),
{
    if !cpu_flags_usable(read_u32(b, 8)) {
        return None;
    }
    let apic_id: u32 = read_u32(b, 4);
    Some(CpuEntry { acpi_uid: read_u32(b, 12), apic_id, is_bsp: apic_id == bsp })
}

/// `cpus` with `cpu` added: the one that booted goes to the front, in exchange
/// for what was there. No CPU is added to a full list.
pub open spec fn bsp_first(cpus: Seq<CpuEntry>, cpu: CpuEntry) -> Seq<CpuEntry> {
    if cpus.len() >= 64 {
        cpus
    } else if cpu.is_bsp && cpus.len() > 0 {
        cpus.update(0, cpu).push(cpus[0])
    } else {
        cpus.push(cpu)
    }
}

pub fn push_cpu_bsp_first(cpus: &mut [CpuEntry; MAX_CPUS], count: &mut usize, cpu: CpuEntry)
    requires
        *old(count) <= MAX_CPUS,
    ensures
        *final(count) == (if *old(count) < MAX_CPUS {
            *old(count) + 1
        } else {
            *old(count) as int
        }),
        final(cpus)@.take(*final(count) as int) == bsp_first(
            old(cpus)@.take(*old(count) as int),
            cpu,
        ),
        forall|i: int| *final(count) <= i < 64 ==> #[trigger] final(cpus)@[i] == old(cpus)@[i],
{
    let n: usize = *count;
    if n >= MAX_CPUS {
        return;
    }
    if cpu.is_bsp && n > 0 {
        let front = cpus[0];
        cpus[n] = front;
        cpus[0] = cpu;
    } else {
        cpus[n] = cpu;
    }
    *count = n + 1;
    assert(cpus@.take(n + 1) =~= bsp_first(old(cpus)@.take(n as int), cpu));
}

/// `acc` with what the entry of `len` bytes at `addr` tells.
pub open spec fn noted(
    m: Seq<u8>,
    addr: int,
    typ: u8,
    len: u8,
    bsp: u32,
    acc: MadtView,
) -> MadtView {
    if typ == MADT_LAPIC && len >= 8 {
        match lapic_entry(window(m, addr, 8), bsp) {
            Some(cpu) => MadtView { cpus: bsp_first(acc.cpus, cpu), ..acc },
            None => acc,
        }
    } else if typ == MADT_X2APIC && len >= 16 {
        match x2apic_entry(window(m, addr, 16), bsp) {
            Some(cpu) => MadtView { cpus: bsp_first(acc.cpus, cpu), ..acc },
            None => acc,
        }
    } else if typ == MADT_IOAPIC && len >= 12 {
        MadtView { ioapics: acc.ioapics.push(ioapic_entry(window(m, addr, 12))), ..acc }
    } else if typ == MADT_ISO && len >= 10 {
        MadtView { isos: acc.isos.push(iso_entry(window(m, addr, 10))), ..acc }
    } else {
        acc
    }
}

/// `acc` with what the entries from `off` on tell, of a table of `len` bytes at
/// `madt`. An entry that is too short, or reaches beyond the table, ends it.
pub open spec fn walked(
    m: Seq<u8>,
    madt: int,
    len: int,
    off: int,
    bsp: u32,
    acc: MadtView,
) -> MadtView
    decreases len - off,
{
    let typ = byte_at(m, madt + off);
    let n = byte_at(m, madt + off + 1);
    if off + 2 > len || n < 2 || off + n > len {
        acc
    } else {
        walked(m, madt, len, off + n, bsp, noted(m, madt + off, typ, n, bsp, acc))
    }
}

/// What the ACPI tables that the RSDP at `rsdp` leads to tell, on a machine
/// whose booting CPU has the APIC number `bsp`.
pub open spec fn madt_contents(m: Seq<u8>, rsdp: u64, bsp: u32) -> MadtView {
    if window(m, rsdp as int, 8) != rsdp_signature() {
        MadtView::blank()
    } else {
        match madt_of(m, rsdp) {
            None => MadtView::blank(),
            Some(madt) => walked(
                m,
                madt as int,
                u32_at(m, madt + 4) as int,
                44,
                bsp,
                MadtView::blank(),
            ),
        }
    }
}

/// Read the MADT out of physical memory `m`. The whole table is read: I/O APICs
/// may follow more CPUs than are used.
pub fn parse_madt(m: &[u8], rsdp: u64, bsp: u32) -> (r: MadtInfo)
    ensures
        r@ == madt_contents(m@, rsdp, bsp),
        r.cpu_count <= MAX_CPUS,
        forall|i: int|
            r.cpu_count <= i < 64 ==> #[trigger] r.cpus@[i] == (CpuEntry {
                acpi_uid: 0,
                apic_id: 0,
                is_bsp: false,
            }),
{
    let mut cpus: [CpuEntry; MAX_CPUS] = [CpuEntry { acpi_uid: 0, apic_id: 0, is_bsp: false };64];
    let mut cpu_count: usize = 0;
    let mut ioapics: Vec<IoApicInfo> = Vec::new();
    let mut isos: Vec<IsoInfo> = Vec::new();
    assert(cpus@.take(0) =~= Seq::<CpuEntry>::empty());
    assert(ioapics@ =~= Seq::<IoApicInfo>::empty());
    assert(isos@ =~= Seq::<IsoInfo>::empty());
    let sig: [u8; 8] = [0x52, 0x53, 0x44, 0x20, 0x50, 0x54, 0x52, 0x20];
    assert(sig@ =~= rsdp_signature());
    if !signature_is(m, rsdp, &sig) {
        return MadtInfo { cpus, cpu_count, ioapics, isos };
    }
    let madt: u64 = match find_madt(m, rsdp) {
        Some(madt) => madt,
        None => return MadtInfo { cpus, cpu_count, ioapics, isos },
    };
    let len: u64 = u32_at_phys(m, madt, 4) as u64;
    let mut off: u64 = MADT_ENTRY_START;
    while off + 2 <= len
        invariant
            len <= u32::MAX,
            44 <= off <= u32::MAX,
            cpu_count <= MAX_CPUS,
            forall|i: int|
                cpu_count <= i < 64 ==> #[trigger] cpus@[i] == (CpuEntry {
                    acpi_uid: 0,
                    apic_id: 0,
                    is_bsp: false,
                }),
            madt_contents(m@, rsdp, bsp) == walked(
                m@,
                madt as int,
                len as int,
                off as int,
                bsp,
                MadtView {
                    cpus: cpus@.take(cpu_count as int),
                    ioapics: ioapics@,
                    isos: isos@,
                },
            ),
        ensures
            cpu_count <= MAX_CPUS,
            forall|i: int|
                cpu_count <= i < 64 ==> #[trigger] cpus@[i] == (CpuEntry {
                    acpi_uid: 0,
                    apic_id: 0,
                    is_bsp: false,
                }),
            madt_contents(m@, rsdp, bsp) == (MadtView {
                cpus: cpus@.take(cpu_count as int),
                ioapics: ioapics@,
                isos: isos@,
            }),
        decreases len - off,
    {
        let typ: u8 = u8_at_phys(m, madt, off);
        let n: u8 = u8_at_phys(m, madt, off + 1);
        if n < 2 || off + n as u64 > len {
            break;
        }
        if typ == MADT_LAPIC && n >= MADT_LAPIC_LEN {
            let entry = copy_out(m, madt, off, 8);
            if let Some(cpu) = parse_lapic_entry(entry.as_slice(), bsp) {
                push_cpu_bsp_first(&mut cpus, &mut cpu_count, cpu);
            }
        } else if typ == MADT_X2APIC && n >= MADT_X2APIC_LEN {
            let entry = copy_out(m, madt, off, 16);
            if let Some(cpu) = parse_x2apic_entry(entry.as_slice(), bsp) {
                push_cpu_bsp_first(&mut cpus, &mut cpu_count, cpu);
            }
        } else if typ == MADT_IOAPIC && n >= MADT_IOAPIC_LEN {
            let entry = copy_out(m, madt, off, 12);
            ioapics.push(ioapic_from_bytes(entry.as_slice()));
        } else if typ == MADT_ISO && n >= MADT_ISO_LEN {
            let entry = copy_out(m, madt, off, 10);
            isos.push(iso_from_bytes(entry.as_slice()));
        }
        off += n as u64;
    }
    MadtInfo { cpus, cpu_count, ioapics, isos }
}

/// The booting CPU, once listed, stays first; at most 64 CPUs are listed.
pub open spec fn cpus_in_order(cpus: Seq<CpuEntry>) -> bool {
    &&& cpus.len() <= 64
    &&& (exists|i: int| 0 <= i < cpus.len() && (#[trigger] cpus[i]).is_bsp) ==> cpus[0].is_bsp
}

proof fn lemma_walk_in_order(m: Seq<u8>, madt: int, len: int, off: int, bsp: u32, acc: MadtView)
    requires
        cpus_in_order(acc.cpus),
    ensures
        cpus_in_order(walked(m, madt, len, off, bsp, acc).cpus),
    decreases len - off,
{
    let typ = byte_at(m, madt + off);
    let n = byte_at(m, madt + off + 1);
    if !(off + 2 > len || n < 2 || off + n > len) {
        let next = noted(m, madt + off, typ, n, bsp, acc);
        assert(cpus_in_order(next.cpus)) by {
            if exists|i: int| 0 <= i < next.cpus.len() && (#[trigger] next.cpus[i]).is_bsp {
                let i = choose|i: int| 0 <= i < next.cpus.len() && (#[trigger] next.cpus[i]).is_bsp;
                if i < acc.cpus.len() {
                    assert(next.cpus[i] == acc.cpus[i] || i == 0);
                }
            }
        }
        lemma_walk_in_order(m, madt, len, off + n, bsp, next);
    }
}

/// The CPUs of a MADT come with the one that booted first, if it is among them.
pub proof fn booting_cpu_comes_first(m: Seq<u8>, rsdp: u64, bsp: u32)
    ensures
        cpus_in_order(madt_contents(m, rsdp, bsp).cpus),
{
    if let Some(madt) = madt_of(m, rsdp) {
        lemma_walk_in_order(
            m,
            madt as int,
            u32_at(m, madt + 4) as int,
            44,
            bsp,
            MadtView::blank(),
        );
    }
}

} // verus!
