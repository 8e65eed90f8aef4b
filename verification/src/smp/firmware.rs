//! What is taken from the tables of the firmware, and what a CPU starts with.

use vstd::prelude::*;
use crate::numbers::{fields_are_read_least_byte_first, number_at};
use super::acpi::{first_madt, listed_table, madt_contents, madt_in_sdt, madt_of, noted, walked, window, CpuEntry, IoApicInfo, IsoInfo, MadtView};
use super::trampoline::{ap_stack_top, patched, trampoline_vector, TrampolineLayout};

verus! {

/// The number in the `n` bytes of memory at `at`; memory that is not there is zero.
pub open spec fn memory_number(m: Seq<u8>, at: int, n: nat) -> int {
    number_at(window(m, at, n), 0, n)
}

/// A record of a CPU says that the CPU can be used.
pub open spec fn cpu_is_usable(m: Seq<u8>, at: int) -> bool {
    ||| m[at] == 0 && m[at + 1] >= 8 && memory_number(m, at + 4, 4) as u32 & 3 != 0
    ||| m[at] == 9 && m[at + 1] >= 16 && memory_number(m, at + 8, 4) as u32 & 3 != 0
}

/// `cpu` is what the record of a CPU at `at` says: the short form has the numbers in
/// single bytes, the long form in four.
pub open spec fn is_cpu_of_record(m: Seq<u8>, at: int, bsp: u32, cpu: CpuEntry) -> bool {
    &&& m[at] == 0 ==> cpu.acpi_uid == m[at + 2] && cpu.apic_id == m[at + 3]
    &&& m[at] == 9 ==> cpu.apic_id == memory_number(m, at + 4, 4) && cpu.acpi_uid == memory_number(
        m,
        at + 12,
        4,
    )
    &&& cpu.is_bsp == (cpu.apic_id == bsp)
}

/// `io` is what the record of an interrupt controller at `at` says.
pub open spec fn is_controller_of_record(m: Seq<u8>, at: int, io: IoApicInfo) -> bool {
    &&& io.id == m[at + 2]
    &&& io.phys_addr == memory_number(m, at + 4, 4)
    &&& io.gsi_base == memory_number(m, at + 8, 4)
}

/// `iso` is what the record of a rerouted interrupt at `at` says.
pub open spec fn is_override_of_record(m: Seq<u8>, at: int, iso: IsoInfo) -> bool {
    &&& iso.isa_irq == m[at + 3]
    &&& iso.gsi == memory_number(m, at + 4, 4)
    &&& iso.flags == memory_number(m, at + 8, 2)
}

proof fn lemma_window(m: Seq<u8>, at: int, n: nat, off: int, k: nat)
    requires
        0 <= off,
        off + k <= n,
        0 <= at,
        at + n <= m.len(),
    ensures
        number_at(window(m, at, n), off, k) == memory_number(m, at + off, k),
{
    lemma_shift(window(m, at, n), off, window(m, at + off, k), 0, k);
}

proof fn lemma_shift(a: Seq<u8>, i: int, b: Seq<u8>, j: int, k: nat)
    requires
        forall|x: int| 0 <= x < k ==> #[trigger] a[i + x] == b[j + x],
    ensures
        number_at(a, i, k) == number_at(b, j, k),
    decreases k,
{
    if k > 0 {
        assert(a[i + 0] == b[j + 0]);
        assert forall|x: int| 0 <= x < k - 1 implies #[trigger] a[i + 1 + x] == b[j + 1 + x] by {
            assert(a[i + (x + 1)] == b[j + (x + 1)]);
        }
        lemma_shift(a, i + 1, b, j + 1, (k - 1) as nat);
    }
}

/// Each record of the table adds what it says to what was found, and nothing else: a
/// usable CPU, an interrupt controller or a rerouted interrupt. Others add nothing.
pub proof fn record_is_noted(m: Seq<u8>, at: int, bsp: u32, acc: MadtView)
    requires
        0 <= at,
        at + 16 <= m.len(),
        acc.cpus.len() < 64,
    ensures
        ({
            let r = noted(m, at, m[at], m[at + 1], bsp, acc);
            let cpu = cpu_is_usable(m, at);
            let io = m[at] == 1 && m[at + 1] >= 12;
            let iso = m[at] == 2 && m[at + 1] >= 10;
            &&& cpu ==> {
                &&& r.cpus.len() == acc.cpus.len() + 1
                &&& exists|i: int|
                    0 <= i < r.cpus.len() && is_cpu_of_record(m, at, bsp, #[trigger] r.cpus[i])
                &&& forall|i: int|
                    0 <= i < acc.cpus.len() ==> exists|j: int|
                        0 <= j < r.cpus.len() && r.cpus[j] == #[trigger] acc.cpus[i]
            }
            &&& !cpu ==> r.cpus == acc.cpus
            &&& io ==> {
                &&& r.ioapics.len() == acc.ioapics.len() + 1
                &&& r.ioapics.drop_last() == acc.ioapics
                &&& is_controller_of_record(m, at, r.ioapics.last())
            }
            &&& !io ==> r.ioapics == acc.ioapics
            &&& iso ==> {
                &&& r.isos.len() == acc.isos.len() + 1
                &&& r.isos.drop_last() == acc.isos
                &&& is_override_of_record(m, at, r.isos.last())
            }
            &&& !iso ==> r.isos == acc.isos
        }),
{
    let r = noted(m, at, m[at], m[at + 1], bsp, acc);
    lemma_window(m, at, 8, 4, 4);
    lemma_window(m, at, 16, 4, 4);
    lemma_window(m, at, 16, 8, 4);
    lemma_window(m, at, 16, 12, 4);
    lemma_window(m, at, 12, 4, 4);
    lemma_window(m, at, 12, 8, 4);
    lemma_window(m, at, 10, 4, 4);
    lemma_window(m, at, 10, 8, 2);
    fields_are_read_least_byte_first(window(m, at, 8), 4);
    fields_are_read_least_byte_first(window(m, at, 16), 4);
    fields_are_read_least_byte_first(window(m, at, 16), 8);
    fields_are_read_least_byte_first(window(m, at, 16), 12);
    fields_are_read_least_byte_first(window(m, at, 12), 4);
    fields_are_read_least_byte_first(window(m, at, 12), 8);
    fields_are_read_least_byte_first(window(m, at, 10), 4);
    fields_are_read_least_byte_first(window(m, at, 10), 8);
    assert(window(m, at, 8)[2] == m[at + 2] && window(m, at, 8)[3] == m[at + 3]);
    assert(window(m, at, 12)[2] == m[at + 2]);
    assert(window(m, at, 10)[3] == m[at + 3]);
    if cpu_is_usable(m, at) {
        let n = acc.cpus.len() as int;
        if r.cpus[0].is_bsp && n > 0 && is_cpu_of_record(m, at, bsp, r.cpus[0]) {
            assert forall|i: int| 0 <= i < n implies exists|j: int|
                0 <= j < r.cpus.len() && r.cpus[j] == #[trigger] acc.cpus[i] by {
                if i == 0 {
                    assert(r.cpus[n] == acc.cpus[0] || r.cpus[0] == acc.cpus[0]);
                } else {
                    assert(r.cpus[i] == acc.cpus[i]);
                }
            }
        } else {
            assert(r.cpus[n] == r.cpus.last());
            assert forall|i: int| 0 <= i < n implies exists|j: int|
                0 <= j < r.cpus.len() && r.cpus[j] == #[trigger] acc.cpus[i] by {
                assert(r.cpus[i] == acc.cpus[i]);
            }
        }
    }
    if m[at] == 1 && m[at + 1] >= 12 {
        assert(r.ioapics.drop_last() =~= acc.ioapics);
    }
    if m[at] == 2 && m[at + 1] >= 10 {
        assert(r.isos.drop_last() =~= acc.isos);
    }
}

/// The table is read record by record: each says in its second byte how long it is,
/// and the next one starts right after it. Reading ends at the end of the table, or
/// at a record that cannot be.
pub proof fn records_follow_each_other(
    m: Seq<u8>,
    madt: int,
    len: int,
    off: int,
    bsp: u32,
    acc: MadtView,
)
    requires
        0 <= madt,
        0 <= off,
        off + 2 <= len,
        madt + len <= m.len(),
    ensures
        m[madt + off + 1] >= 2 && off + m[madt + off + 1] <= len ==> walked(
            m,
            madt,
            len,
            off,
            bsp,
            acc,
        ) == walked(
            m,
            madt,
            len,
            off + m[madt + off + 1],
            bsp,
            noted(m, madt + off, m[madt + off], m[madt + off + 1], bsp, acc),
        ),
        m[madt + off + 1] < 2 || off + m[madt + off + 1] > len ==> walked(
            m,
            madt,
            len,
            off,
            bsp,
            acc,
        ) == acc,
        walked(m, madt, len, len, bsp, acc) == acc,
{
}

/// The bytes of memory at `at` spell a signature.
pub open spec fn spells(m: Seq<u8>, at: int, s: Seq<u8>) -> bool {
    0 <= at && at + s.len() <= m.len() && m.subrange(at, at + s.len()) == s
}

/// The table of interrupt controllers that the firmware lists is found: its records
/// start after 44 bytes, and its length is in its second four bytes. It has the
/// signature "APIC", and its address is in the list that the firmware points to.
pub proof fn listed_table_is_used(m: Seq<u8>, rsdp: u64, bsp: u32, madt: u64)
    requires
        rsdp + 36 <= m.len(),
        spells(m, rsdp as int, seq![0x52u8, 0x53, 0x44, 0x20, 0x50, 0x54, 0x52, 0x20]),
        madt_of(m, rsdp) == Some(madt),
    ensures
        madt != 0,
        window(m, madt as int, 4) =~= seq![0x41u8, 0x50, 0x49, 0x43],
        (exists|i: int|
            0 <= i && #[trigger] memory_number(
                m,
                memory_number(m, rsdp + 24, 8) + 36 + i * 8,
                8,
            ) == madt) || (exists|i: int|
            0 <= i && #[trigger] memory_number(
                m,
                memory_number(m, rsdp + 16, 4) + 36 + i * 4,
                4,
            ) == madt),
        madt_contents(m, rsdp, bsp) == walked(
            m,
            madt as int,
            memory_number(m, madt + 4, 4),
            44,
            bsp,
            MadtView { cpus: Seq::empty(), ioapics: Seq::empty(), isos: Seq::empty() },
        ),
{
    assert(window(m, rsdp as int, 8) =~= seq![0x52u8, 0x53, 0x44, 0x20, 0x50, 0x54, 0x52, 0x20]) by {
        let s = seq![0x52u8, 0x53, 0x44, 0x20, 0x50, 0x54, 0x52, 0x20];
        assert forall|i: int| 0 <= i < 8 implies window(m, rsdp as int, 8)[i] == s[i] by {
            assert(m.subrange(rsdp as int, rsdp + 8)[i] == s[i]);
        }
    }
    fields_are_read_least_byte_first(window(m, rsdp + 16, 4), 0);
    fields_are_read_least_byte_first(window(m, rsdp + 24, 8), 0);
    fields_are_read_least_byte_first(window(m, madt + 4, 4), 0);
    let xsdt = memory_number(m, rsdp + 24, 8);
    let rsdt = memory_number(m, rsdp + 16, 4);
    if madt_in_sdt(m, xsdt as u64, true) == Some(madt) {
        let n = ((super::acpi::u32_at(m, xsdt + 4) - 36) / 8) as nat;
        lemma_listed(m, xsdt, 8, 0, n, madt);
    }
    if madt_in_sdt(m, rsdt as u64, false) == Some(madt) {
        let n = ((super::acpi::u32_at(m, rsdt + 4) - 36) / 4) as nat;
        lemma_listed(m, rsdt, 4, 0, n, madt);
    }
}

proof fn lemma_listed(m: Seq<u8>, sdt: int, size: int, i: int, n: nat, t: u64)
    requires
        size == 8 || size == 4,
        0 <= i,
        first_madt(m, sdt, size, i, n) == Some(t),
    ensures
        t != 0,
        window(m, t as int, 4) == seq![0x41u8, 0x50, 0x49, 0x43],
        size == 8 ==> exists|j: int| 0 <= j && #[trigger] memory_number(m, sdt + 36 + j * 8, 8) == t,
        size == 4 ==> exists|j: int| 0 <= j && #[trigger] memory_number(m, sdt + 36 + j * 4, 4) == t,
    decreases n,
{
    let at = listed_table(m, sdt, size, i);
    if at != 0 && window(m, at as int, 4) == super::acpi::madt_signature() {
        if size == 8 {
            fields_are_read_least_byte_first(window(m, sdt + 36 + i * 8, 8), 0);
            assert(memory_number(m, sdt + 36 + i * 8, 8) == t);
        } else {
            fields_are_read_least_byte_first(window(m, sdt + 36 + i * 4, 4), 0);
            assert(memory_number(m, sdt + 36 + i * 4, 4) == t);
        }
    } else {
        lemma_listed(m, sdt, size, i + 1, (n - 1) as nat, t);
    }
}

/// A table that the firmware's newer list names is found, whichever place it has in
/// the list.
pub proof fn listed_table_is_found(m: Seq<u8>, rsdp: u64, xsdt: u64, i: int, t: u64)
    requires
        window(m, rsdp + 15, 1)[0] >= 2,
        memory_number(m, rsdp + 20, 4) >= 36,
        memory_number(m, rsdp + 24, 8) == xsdt,
        xsdt != 0,
        window(m, xsdt as int, 4) == seq![0x58u8, 0x53, 0x44, 0x54],
        0 <= i,
        36 + (i + 1) * 8 <= memory_number(m, xsdt + 4, 4),
        memory_number(m, xsdt + 36 + i * 8, 8) == t,
        t != 0,
        window(m, t as int, 4) == seq![0x41u8, 0x50, 0x49, 0x43],
    ensures
        madt_of(m, rsdp) is Some,
{
    fields_are_read_least_byte_first(window(m, rsdp + 20, 4), 0);
    fields_are_read_least_byte_first(window(m, rsdp + 24, 8), 0);
    fields_are_read_least_byte_first(window(m, xsdt + 4, 4), 0);
    let n = ((memory_number(m, xsdt + 4, 4) - 36) / 8) as nat;
    lemma_finds(m, xsdt as int, 0, n, i, t);
}

proof fn lemma_finds(m: Seq<u8>, sdt: int, from: int, n: nat, i: int, t: u64)
    requires
        from <= i < from + n,
        memory_number(m, sdt + 36 + i * 8, 8) == t,
        t != 0,
        window(m, t as int, 4) == seq![0x41u8, 0x50, 0x49, 0x43],
    ensures
        first_madt(m, sdt, 8, from, n) is Some,
    decreases n,
{
    if from == i {
        fields_are_read_least_byte_first(window(m, sdt + 36 + i * 8, 8), 0);
        assert(listed_table(m, sdt, 8, from) == t);
    } else {
        lemma_finds(m, sdt, from + 1, (n - 1) as nat, i, t);
    }
}

/// The code that a CPU starts with finds its page table, its stack and where to go on
/// in the places that were left for them, and a description of its segments at the
/// address where the code lies; the rest of the code is as it was.
pub proof fn starting_cpu_finds_what_it_needs(
    image: Seq<u8>,
    page: Seq<u8>,
    layout: TrampolineLayout,
    pml4: u32,
    stack_top: u64,
    entry: u64,
    i: int,
)
    requires
        patched(image, page, layout, pml4, stack_top, entry),
        layout.fits(image.len()),
        0 <= i < image.len(),
    ensures
        number_at(page, layout.pml4 as int, 4) == pml4,
        number_at(page, layout.stack_top as int, 8) == stack_top,
        number_at(page, layout.entry as int, 8) == entry,
        number_at(page, layout.gdt_ptr as int, 2) == 5 * 8 - 1,
        number_at(page, layout.gdt_ptr + 2, 4) == 0x8000 + layout.gdt,
        !(layout.pml4 <= i < layout.pml4 + 4) && !(layout.stack_top <= i < layout.stack_top + 8) && !(
        layout.entry <= i < layout.entry + 8) && !(layout.gdt_ptr <= i < layout.gdt_ptr + 6)
            ==> page[i] == image[i],
{
    fields_are_read_least_byte_first(page, layout.pml4 as int);
    fields_are_read_least_byte_first(page, layout.stack_top as int);
    fields_are_read_least_byte_first(page, layout.entry as int);
    fields_are_read_least_byte_first(page, layout.gdt_ptr as int);
    fields_are_read_least_byte_first(page, layout.gdt_ptr + 2);
}

/// A CPU is told to start at the page where its code lies, and its stack ends inside
/// of what was set aside for it, on a boundary of sixteen bytes.
pub proof fn starting_cpu_is_sent_to_its_code(stack: u64, top: u64, vector: u8)
    requires
        0xffff_8000_0000_0000 + stack + 0x4000 <= u64::MAX,
        call_ensures(ap_stack_top, (stack,), top),
        call_ensures(trampoline_vector, (), vector),
    ensures
        top % 16 == 0,
        0xffff_8000_0000_0000 + stack + 0x4000 - 16 < top,
        top <= 0xffff_8000_0000_0000 + stack + 0x4000,
        vector * 4096 == 0x8000,
{
}

} // verus!
