//! What the console shows of the devices.

use vstd::prelude::*;
use vstd::string::*;
use crate::text::{dec, hex, push_dec, push_hex, push_str};
use crate::virtio::device::PciDevice;
use crate::virtio::init::InitResult;

verus! {

/// Where a device is: `bus:device.function`.
pub open spec fn place(d: PciDevice) -> Seq<u8> {
    hex(d.bus as nat, 2) + ":".spec_bytes() + hex(d.device as nat, 2) + ".".spec_bytes() + dec(
        d.function as nat,
    )
}

/// What a device is: `vendor:device`.
pub open spec fn identity(d: PciDevice) -> Seq<u8> {
    hex(d.vendor_id as nat, 4) + ":".spec_bytes() + hex(d.device_id as nat, 4)
}

/// The line that names a device.
pub open spec fn device_line(d: PciDevice) -> Seq<u8> {
    "pci: ".spec_bytes() + place(d) + " ".spec_bytes() + identity(d) + " class ".spec_bytes() + hex(
        d.class as nat,
        2,
    ) + ":".spec_bytes() + hex(d.subclass as nat, 2) + " prog_if ".spec_bytes() + hex(
        d.prog_if as nat,
        2,
    ) + "\r\n".spec_bytes()
}

/// The line of region `b` of a device.
pub open spec fn bar_line(d: PciDevice, b: int) -> Seq<u8> {
    "pci:   bar".spec_bytes() + dec(b as nat) + (if d.bar_is_mmio@[b] {
        " mmio base 0x".spec_bytes()
    } else {
        " io   base 0x".spec_bytes()
    }) + hex(d.bars@[b] as nat, 0) + " size 0x".spec_bytes() + hex(d.bar_sizes@[b] as nat, 0)
        + "\r\n".spec_bytes()
}

/// The lines of the first `n` regions of a device that it has.
pub open spec fn bar_lines(d: PciDevice, n: nat) -> Seq<u8>
    decreases n,
{
    if n == 0 {
        Seq::empty()
    } else if d.bar_sizes@[n - 1] != 0 {
        bar_lines(d, (n - 1) as nat) + bar_line(d, n - 1)
    } else {
        bar_lines(d, (n - 1) as nat)
    }
}

/// The line of a device's message-signalled interrupts, if it has any.
pub open spec fn msix_line(d: PciDevice) -> Seq<u8> {
    if d.has_msix {
        "pci:   msix capability, table size ".spec_bytes() + dec(d.msix_table_size as nat)
            + "\r\n".spec_bytes()
    } else {
        Seq::empty()
    }
}

/// One more line of a virtio device.
pub open spec fn virtio_line(d: PciDevice) -> Seq<u8> {
    if d.vendor_id == 0x1af4 {
        "virtio: device ".spec_bytes() + identity(d) + " found at ".spec_bytes() + place(d)
            + "\r\n".spec_bytes()
    } else {
        Seq::empty()
    }
}

/// All lines of a device.
pub open spec fn device_lines(d: PciDevice) -> Seq<u8> {
    device_line(d) + bar_lines(d, 6) + msix_line(d) + virtio_line(d)
}

/// The lines of the first `n` devices.
pub open spec fn all_lines(devs: Seq<PciDevice>, n: nat) -> Seq<u8>
    decreases n,
{
    if n == 0 {
        Seq::empty()
    } else {
        all_lines(devs, (n - 1) as nat) + device_lines(devs[n - 1])
    }
}

fn push_place(out: &mut Vec<u8>, d: &PciDevice)
    ensures
        final(out)@ == old(out)@ + place(*d),
{
    push_hex(out, d.bus as u64, 2);
    push_str(out, ":");
    push_hex(out, d.device as u64, 2);
    push_str(out, ".");
    push_dec(out, d.function as u64);
    assert(out@ =~= old(out)@ + place(*d));
}

fn push_identity(out: &mut Vec<u8>, d: &PciDevice)
    ensures
        final(out)@ == old(out)@ + identity(*d),
{
    push_hex(out, d.vendor_id as u64, 4);
    push_str(out, ":");
    push_hex(out, d.device_id as u64, 4);
    assert(out@ =~= old(out)@ + identity(*d));
}

fn push_device_line(out: &mut Vec<u8>, d: &PciDevice)
    ensures
        final(out)@ == old(out)@ + device_line(*d),
{
    push_str(out, "pci: ");
    push_place(out, d);
    push_str(out, " ");
    push_identity(out, d);
    push_str(out, " class ");
    push_hex(out, d.class as u64, 2);
    push_str(out, ":");
    push_hex(out, d.subclass as u64, 2);
    push_str(out, " prog_if ");
    push_hex(out, d.prog_if as u64, 2);
    push_str(out, "\r\n");
    assert(out@ =~= old(out)@ + device_line(*d));
}

fn push_bar_line(out: &mut Vec<u8>, d: &PciDevice, b: usize)
    requires
        b < 6,
    ensures
        final(out)@ == old(out)@ + bar_line(*d, b as int),
{
    push_str(out, "pci:   bar");
    push_dec(out, b as u64);
    if d.bar_is_mmio[b] {
        push_str(out, " mmio base 0x");
    } else {
        push_str(out, " io   base 0x");
    }
    push_hex(out, d.bars[b], 0);
    push_str(out, " size 0x");
    push_hex(out, d.bar_sizes[b], 0);
    push_str(out, "\r\n");
    assert(out@ =~= old(out)@ + bar_line(*d, b as int));
}

fn push_bars(out: &mut Vec<u8>, d: &PciDevice)
    ensures
        final(out)@ == old(out)@ + bar_lines(*d, 6),
{
    let ghost before = out@;
    let mut b: usize = 0;
    assert(out@ =~= before + bar_lines(*d, 0));
    while b < 6
        invariant
            b <= 6,
            out@ == before + bar_lines(*d, b as nat),
        decreases 6 - b,
    {
        if d.bar_sizes[b] != 0 {
            push_bar_line(out, d, b);
            assert(out@ =~= before + (bar_lines(*d, b as nat) + bar_line(*d, b as int)));
        }
        b += 1;
    }
}

fn push_msix(out: &mut Vec<u8>, d: &PciDevice)
    ensures
        final(out)@ == old(out)@ + msix_line(*d),
{
    if d.has_msix {
        push_str(out, "pci:   msix capability, table size ");
        push_dec(out, d.msix_table_size as u64);
        push_str(out, "\r\n");
    }
    assert(out@ =~= old(out)@ + msix_line(*d));
}

fn push_virtio(out: &mut Vec<u8>, d: &PciDevice)
    ensures
        final(out)@ == old(out)@ + virtio_line(*d),
{
    if d.vendor_id == 0x1af4 {
        push_str(out, "virtio: device ");
        push_identity(out, d);
        push_str(out, " found at ");
        push_place(out, d);
        push_str(out, "\r\n");
    }
    assert(out@ =~= old(out)@ + virtio_line(*d));
}

fn push_device(out: &mut Vec<u8>, d: &PciDevice)
    ensures
        final(out)@ == old(out)@ + device_lines(*d),
{
    push_device_line(out, d);
    push_bars(out, d);
    push_msix(out, d);
    push_virtio(out, d);
    assert(out@ =~= old(out)@ + device_lines(*d));
}

/// What the console shows of the devices that were found.
pub fn pci_report(devs: &[PciDevice]) -> (r: Vec<u8>)
    ensures
        r@ == "\r\npci: enumerated ".spec_bytes() + dec(devs@.len())
            + " function(s)\r\n".spec_bytes() + all_lines(devs@, devs@.len()),
{
    let mut out: Vec<u8> = Vec::new();
    push_str(&mut out, "\r\npci: enumerated ");
    push_dec(&mut out, devs.len() as u64);
    push_str(&mut out, " function(s)\r\n");
    let ghost head = "\r\npci: enumerated ".spec_bytes() + dec(devs@.len())
        + " function(s)\r\n".spec_bytes();
    let mut i: usize = 0;
    assert(out@ =~= head + all_lines(devs@, 0));
    while i < devs.len()
        invariant
            i <= devs@.len(),
            out@ == head + all_lines(devs@, i as nat),
        decreases devs@.len() - i,
    {
        push_device(&mut out, &devs[i]);
        i += 1;
        assert(out@ =~= head + all_lines(devs@, i as nat));
    }
    out
}

/// `mac` as hexadecimal numbers with colons between them.
pub open spec fn mac_text(mac: Seq<u8>) -> Seq<u8> {
    hex(mac[0] as nat, 2) + ":".spec_bytes() + hex(mac[1] as nat, 2) + ":".spec_bytes() + hex(
        mac[2] as nat,
        2,
    ) + ":".spec_bytes() + hex(mac[3] as nat, 2) + ":".spec_bytes() + hex(mac[4] as nat, 2)
        + ":".spec_bytes() + hex(mac[5] as nat, 2)
}

/// What the console shows of the network device.
pub open spec fn virtio_lines(result: Option<InitResult>) -> Seq<u8> {
    match result {
        None => "virtio-net: no device or init failed\r\n".spec_bytes(),
        Some(r) => "virtio-net: MAC ".spec_bytes() + mac_text(r.mac@) + " (device ".spec_bytes()
            + hex(r.device_id as nat, 4) + ")\r\nvirtio-net: tx self-test ".spec_bytes() + (
        if r.tx_ok {
            "OK - frame returned in used ring\r\n".spec_bytes()
        } else {
            "FAIL - no completion\r\n".spec_bytes()
        }),
    }
}

pub fn virtio_report(result: &Option<InitResult>) -> (r: Vec<u8>)
    ensures
        r@ == virtio_lines(*result),
{
    let mut out: Vec<u8> = Vec::new();
    match result {
        None => {
            push_str(&mut out, "virtio-net: no device or init failed\r\n");
        },
        Some(r) => {
            push_str(&mut out, "virtio-net: MAC ");
            push_hex(&mut out, r.mac[0] as u64, 2);
            push_str(&mut out, ":");
            push_hex(&mut out, r.mac[1] as u64, 2);
            push_str(&mut out, ":");
            push_hex(&mut out, r.mac[2] as u64, 2);
            push_str(&mut out, ":");
            push_hex(&mut out, r.mac[3] as u64, 2);
            push_str(&mut out, ":");
            push_hex(&mut out, r.mac[4] as u64, 2);
            push_str(&mut out, ":");
            push_hex(&mut out, r.mac[5] as u64, 2);
            push_str(&mut out, " (device ");
            push_hex(&mut out, r.device_id as u64, 4);
            push_str(&mut out, ")\r\nvirtio-net: tx self-test ");
            if r.tx_ok {
                push_str(&mut out, "OK - frame returned in used ring\r\n");
            } else {
                push_str(&mut out, "FAIL - no completion\r\n");
            }
        },
    }
    assert(out@ =~= virtio_lines(*result));
    out
}

/// The first `n` bytes of a packet, as hexadecimal numbers with a space before
/// each.
pub open spec fn byte_dump(frame: Seq<u8>, n: nat) -> Seq<u8>
    decreases n,
{
    if n == 0 {
        Seq::empty()
    } else {
        byte_dump(frame, (n - 1) as nat) + " ".spec_bytes() + hex(frame[n - 1] as nat, 2)
    }
}

/// What the console shows of a received packet: its length and at most 16 bytes.
pub fn rx_report(frame: &[u8]) -> (r: Vec<u8>)
    ensures
        r@ == "virtio-net: rx ".spec_bytes() + dec(frame@.len()) + " bytes:".spec_bytes()
            + byte_dump(
            frame@,
            if frame@.len() < 16 {
                frame@.len()
            } else {
                16
            },
        ) + "\r\n".spec_bytes(),
{
    let mut out: Vec<u8> = Vec::new();
    push_str(&mut out, "virtio-net: rx ");
    push_dec(&mut out, frame.len() as u64);
    push_str(&mut out, " bytes:");
    let ghost head = "virtio-net: rx ".spec_bytes() + dec(frame@.len()) + " bytes:".spec_bytes();
    let mut i: usize = 0;
    assert(out@ =~= head + byte_dump(frame@, 0));
    while i < frame.len() && i < 16
        invariant
            i <= frame@.len(),
            i <= 16,
            out@ == head + byte_dump(frame@, i as nat),
        decreases 16 - i,
    {
        push_str(&mut out, " ");
        push_hex(&mut out, frame[i] as u64, 2);
        i += 1;
        assert(out@ =~= head + byte_dump(frame@, i as nat));
    }
    push_str(&mut out, "\r\n");
    out
}

} // verus!
