//! What is seen of the kernel from outside: the serial line, the letters of its start
//! and its reports.

use vstd::prelude::*;
use vstd::string::*;
use crate::numbers::{decimal_reads_back, digits_value, hexadecimal_reads_back};
use crate::smp::trampoline::trampoline_vector;
use crate::text::{dec, hex};
use crate::virtio::device::PciDevice;
use super::address::direct_map_addr;
use super::boot::{extra_reserved, letters, order, BootPhase};
use super::limine::{executable_address_request, get_kernel_phys_range, memmap_request, rsdp_request, LimineRequestHeader};
use super::report::{identity, mac_text, place};
use super::serial::{serial_write_byte, set_up, PortWrite};

verus! {

/// The registers of the serial port.
pub struct SerialPort {
    /// Which events interrupt.
    pub interrupts: u8,
    /// What a byte's time is divided by.
    pub divisor_low: u8,
    pub divisor_high: u8,
    /// How bytes are framed; its highest bit shows the divisor in place of the data.
    pub framing: u8,
    pub queueing: u8,
    pub lines: u8,
}

/// The port after a store. Its first two registers are the divisor while the highest
/// bit of the framing register is set.
pub open spec fn port_stored(p: SerialPort, w: PortWrite) -> SerialPort {
    let divisor = p.framing >= 128;
    if w.port == 0x3f8 && divisor {
        SerialPort { divisor_low: w.value, ..p }
    } else if w.port == 0x3f9 && divisor {
        SerialPort { divisor_high: w.value, ..p }
    } else if w.port == 0x3f9 {
        SerialPort { interrupts: w.value, ..p }
    } else if w.port == 0x3fa {
        SerialPort { queueing: w.value, ..p }
    } else if w.port == 0x3fb {
        SerialPort { framing: w.value, ..p }
    } else if w.port == 0x3fc {
        SerialPort { lines: w.value, ..p }
    } else {
        p
    }
}

/// The port after some stores.
pub open spec fn port_after(p: SerialPort, w: Seq<PortWrite>) -> SerialPort
    decreases w.len(),
{
    if w.len() == 0 {
        p
    } else {
        port_stored(port_after(p, w.drop_last()), w.last())
    }
}

proof fn lemma_port(p: SerialPort, w: Seq<PortWrite>, n: int)
    requires
        0 < n <= w.len(),
    ensures
        port_after(p, w.take(n)) == port_stored(port_after(p, w.take(n - 1)), w[n - 1]),
{
    assert(w.take(n).drop_last() =~= w.take(n - 1));
}

/// However the serial port was left, once it is set up it sends 38400 bits a second,
/// eight bits a byte with no parity, and interrupts for nothing; its queues are on, and
/// it shows data, not the divisor.
pub proof fn serial_port_is_set_up(p: SerialPort)
    requires
        p.framing < 128,
    ensures
        ({
            let q = port_after(p, set_up());
            &&& q.divisor_low + 256 * q.divisor_high == 115200int / 38400
            &&& q.framing == 3
            &&& q.interrupts == 0
            &&& q.queueing % 2 == 1
            &&& q.lines % 4 == 3
        }),
{
    let w = set_up();
    assert(w.take(0) =~= Seq::<PortWrite>::empty());
    lemma_port(p, w, 1);
    lemma_port(p, w, 2);
    lemma_port(p, w, 3);
    lemma_port(p, w, 4);
    lemma_port(p, w, 5);
    lemma_port(p, w, 6);
    lemma_port(p, w, 7);
    assert(w.take(7) =~= w);
}

/// A byte is sent as it is, once the port says that it can take one.
pub proof fn byte_is_sent_when_the_port_is_free(status: u8, b: u8, r: Option<PortWrite>)
    requires
        call_ensures(serial_write_byte, (status, b), r),
    ensures
        status & 0x20 == 0 ==> r is None,
        status & 0x20 != 0 ==> r is Some && r->Some_0.port == 0x3f8 && r->Some_0.value == b,
{
    assert((status & 0x20 != 0) == ((status / 32) % 2 == 1)) by (bit_vector);
}

/// All phases of the start, in their order.
pub open spec fn phases() -> Seq<BootPhase> {
    seq![
        BootPhase::Serial,
        BootPhase::Cpu,
        BootPhase::MemoryMap,
        BootPhase::ExecutableAddress,
        BootPhase::Paging,
        BootPhase::BumpRange,
        BootPhase::KernelRange,
        BootPhase::CopyMemoryMap,
        BootPhase::FrameAllocator,
        BootPhase::Apic,
        BootPhase::Timer,
        BootPhase::Acpi,
        BootPhase::StartCpus,
        BootPhase::AwaitCpus,
        BootPhase::PciReport,
        BootPhase::Virtio,
        BootPhase::Scheduler,
        BootPhase::Keyboard,
        BootPhase::Processes,
        BootPhase::FileSystem,
        BootPhase::InitProcess,
        BootPhase::Start,
    ]
}

/// The letters of the first `n` phases.
pub open spec fn letters_upto(routed: bool, n: nat) -> Seq<u8>
    decreases n,
{
    if n == 0 {
        Seq::empty()
    } else {
        letters_upto(routed, (n - 1) as nat) + letters(phases()[n - 1], routed)
    }
}

/// A start that goes well prints "KCLNEGhijMATDSWRKPFcs", with a small k where the
/// keyboard's interrupt has no route. What comes first is up first: memory before the
/// interrupts, these before the other CPUs, the scheduler before the processes, and
/// files before the first program.
pub proof fn start_prints_its_letters(routed: bool)
    ensures
        letters_upto(routed, 22) == seq![
            0x4bu8,
            0x43,
            0x4c,
            0x4e,
            0x45,
            0x47,
            0x68,
            0x69,
            0x6a,
            0x4d,
            0x41,
            0x54,
            0x44,
            0x53,
            0x57,
            0x52,
            if routed {
                0x4b
            } else {
                0x6b
            },
            0x50,
            0x46,
            0x63,
            0x73,
        ],
        forall|n: int| 0 <= n < 22 ==> order(#[trigger] phases()[n]) == n,
{
    reveal_with_fuel(letters_upto, 23);
    assert(letters_upto(routed, 22) =~= seq![
        0x4bu8,
        0x43,
        0x4c,
        0x4e,
        0x45,
        0x47,
        0x68,
        0x69,
        0x6a,
        0x4d,
        0x41,
        0x54,
        0x44,
        0x53,
        0x57,
        0x52,
        if routed {
            0x4b
        } else {
            0x6b
        },
        0x50,
        0x46,
        0x63,
        0x73,
    ]);
}

/// The page where the other CPUs start is kept from other uses.
pub proof fn starting_page_is_reserved(r: (u64, u64), vector: u8)
    requires
        call_ensures(extra_reserved, (), r),
        call_ensures(trampoline_vector, (), vector),
    ensures
        r.0 == vector as int * 4096,
        r.1 == r.0 + 4096,
{
}

/// All memory is mapped at a fixed distance, which depends on how many levels the
/// tables have: different memory has different addresses.
pub proof fn direct_map_is_one_to_one(a: u64, b: u64, la57: bool, x: u64, y: u64)
    requires
        call_ensures(direct_map_addr, (a, la57), x),
        call_ensures(direct_map_addr, (b, la57), y),
        a < 0x7f_ffff_ffff_ffff,
        b < 0x7f_ffff_ffff_ffff,
        !la57 ==> a < 0x7fff_ffff_ffff && b < 0x7fff_ffff_ffff,
    ensures
        x - y == a - b,
        !la57 ==> x == 0xffff_8000_0000_0000 + a,
        la57 ==> x == 0xff00_0000_0000_0000 + a,
{
}

/// The kernel's memory reaches from where it was loaded to as far as its image is long.
pub proof fn kernel_range_is_its_image(base: u64, image_end: u64, r: (u64, u64))
    requires
        image_end >= 0xffff_ffff_8000_0000,
        base + (image_end - 0xffff_ffff_8000_0000) <= u64::MAX,
        call_ensures(get_kernel_phys_range, (base, image_end), r),
    ensures
        r.0 == base,
        r.1 - r.0 == image_end - 0xffff_ffff_8000_0000,
{
}

/// The loader can tell the three requests from each other, and knows all of them as
/// requests by their first two numbers.
pub proof fn requests_are_told_apart(
    a: LimineRequestHeader,
    b: LimineRequestHeader,
    c: LimineRequestHeader,
)
    requires
        call_ensures(memmap_request, (), a),
        call_ensures(executable_address_request, (), b),
        call_ensures(rsdp_request, (), c),
    ensures
        a.id@[0] == 0xc7b1_dd30_df4c_8b88 && a.id@[1] == 0x0a82_e883_a194_f07b,
        b.id@[0] == a.id@[0] && b.id@[1] == a.id@[1],
        c.id@[0] == a.id@[0] && c.id@[1] == a.id@[1],
        a.id@[2] == 0x67cf_3d9d_378a_806f && a.id@[3] == 0xe304_acdf_c50c_3c62,
        b.id@[2] == 0x71ba_7686_3cc5_5f63 && b.id@[3] == 0xb264_4a48_c516_a487,
        c.id@[2] == 0xc5e7_7b6b_397e_7b43 && c.id@[3] == 0x2763_7845_accd_cf3c,
        a.response == 0 && b.response == 0 && c.response == 0,
{
}

proof fn lemma_byte(n: u8)
    ensures
        hex(n as nat, 2).len() == 2,
        digits_value(hex(n as nat, 2), 16) == Some(n as int),
{
    hexadecimal_reads_back(n as nat, 2);
    if n >= 16 {
        assert(hex(n as nat, 2) == hex(n as nat / 16, 1).push(crate::text::hex_digit(n as nat % 16)));
        hexadecimal_reads_back(n as nat / 16, 1);
    }
}

proof fn lemma_pair(n: u16)
    ensures
        hex(n as nat, 4).len() == 4,
        digits_value(hex(n as nat, 4), 16) == Some(n as int),
{
    hexadecimal_reads_back(n as nat, 4);
    let a = n as nat;
    assert(hex(a, 4).len() == hex(a / 16, 3).len() + 1);
    assert(hex(a / 16, 3).len() == hex(a / 16 / 16, 2).len() + 1);
    assert(hex(a / 16 / 16, 2).len() == hex(a / 16 / 16 / 16, 1).len() + 1);
    hexadecimal_reads_back(a / 16 / 16 / 16, 1);
}

/// A hardware address is printed as six pairs of digits with colons between them, each
/// of which reads as its byte.
pub proof fn hardware_address_reads_back(mac: Seq<u8>, i: int)
    requires
        mac.len() == 6,
        0 <= i < 6,
    ensures
        mac_text(mac).len() == 17,
        digits_value(mac_text(mac).subrange(3 * i, 3 * i + 2), 16) == Some(mac[i] as int),
        i < 5 ==> mac_text(mac)[3 * i + 2] == 0x3a,
{
    lemma_byte(mac[0]);
    lemma_byte(mac[1]);
    lemma_byte(mac[2]);
    lemma_byte(mac[3]);
    lemma_byte(mac[4]);
    lemma_byte(mac[5]);
    lemma_colon();
    assert(mac_text(mac).subrange(3 * i, 3 * i + 2) =~= hex(mac[i] as nat, 2));
}

proof fn lemma_colon()
    ensures
        ":".spec_bytes() == seq![0x3au8],
        ".".spec_bytes() == seq![0x2eu8],
{
    reveal_strlit(":");
    reveal_strlit(".");
    assert(is_ascii(":"));
    assert(is_ascii("."));
    is_ascii_spec_bytes(":");
    is_ascii_spec_bytes(".");
    assert(":".spec_bytes() =~= seq![0x3au8]);
    assert(".".spec_bytes() =~= seq![0x2eu8]);
}

/// A device is reported by its maker's and its own number, four digits each.
pub proof fn device_identity_reads_back(d: PciDevice)
    ensures
        identity(d).len() == 9,
        digits_value(identity(d).subrange(0, 4), 16) == Some(d.vendor_id as int),
        identity(d)[4] == 0x3a,
        digits_value(identity(d).subrange(5, 9), 16) == Some(d.device_id as int),
{
    lemma_pair(d.vendor_id);
    lemma_pair(d.device_id);
    lemma_colon();
    assert(identity(d).subrange(0, 4) =~= hex(d.vendor_id as nat, 4));
    assert(identity(d).subrange(5, 9) =~= hex(d.device_id as nat, 4));
}

/// A device is placed by its bus, its number there and its function.
pub proof fn device_place_reads_back(d: PciDevice)
    ensures
        place(d).len() >= 7,
        digits_value(place(d).subrange(0, 2), 16) == Some(d.bus as int),
        place(d)[2] == 0x3a,
        digits_value(place(d).subrange(3, 5), 16) == Some(d.device as int),
        place(d)[5] == 0x2e,
        digits_value(place(d).subrange(6, place(d).len() as int), 10) == Some(d.function as int),
{
    lemma_byte(d.bus);
    lemma_byte(d.device);
    decimal_reads_back(d.function as nat);
    lemma_colon();
    assert(place(d).subrange(0, 2) =~= hex(d.bus as nat, 2));
    assert(place(d).subrange(3, 5) =~= hex(d.device as nat, 2));
    assert(place(d).subrange(6, place(d).len() as int) =~= dec(d.function as nat));
}

} // verus!
