//! Processors, network devices and the start of the system.

use rumicos::kernel::address::direct_map_addr;
use rumicos::kernel::boot::{
    extra_reserved, kernel_main, resched_handler, timer_handler, uptime_ms, BootPhase,
};
use rumicos::kernel::limine::{copy_memmap, get_kernel_phys_range, LimineMemMapEntry};
use rumicos::kernel::report::{pci_report, rx_report, virtio_report};
use rumicos::kernel::serial::{serial_init, serial_write_byte, PortWrite, DATA_PORT};
use rumicos::kernel::start::queue_init;
use rumicos::mem::PhysMem;
use rumicos::paging::PageTable;
use rumicos::proc::elf::{ELF64_PHDR_SIZE, ELFCLASS64, ELFDATA2LSB, EM_X86_64, ET_EXEC};
use rumicos::proc::process::Process;
use rumicos::proc::state::Kernel;
use rumicos::sched::percpu::Sched;
use rumicos::sched::schedule::{init as start_scheduler, schedule, Switch};
use rumicos::smp::acpi::{
    cpu_flags_usable, ioapic_from_bytes, iso_from_bytes, parse_madt, push_cpu_bsp_first, CpuEntry,
    MADT_IOAPIC_LEN, MADT_ISO_LEN, MADT_LAPIC_LEN, MADT_X2APIC_LEN, MAX_CPUS,
};
use rumicos::smp::ap_entry::ap_entry;
use rumicos::smp::cpuinfo::{
    apic_id_for_cpu, apic_id_to_cpu_id, cpu_count, online_count, register_cpu, set_cpu_online, stack_top,
    CpuInfo, CpuTable,
};
use rumicos::smp::trampoline::{
    ap_answered, ap_stack_top, boot_ap, next_ap, start_aps, trampoline_vector, wait_for_ready, ReadyPoll,
    TRAMPOLINE_PHYS,
};
use rumicos::virtio::device::{
    cfg_va, has_version_1, negotiate_features, notify_addr, walk_virtio_caps, Handshake, PciDevice,
    VirtioTransport, CFG_TYPE_COMMON, CFG_TYPE_DEVICE, CFG_TYPE_ISR, CFG_TYPE_NOTIFY, CFG_TYPE_PCI,
    VIRTIO_F_VERSION_1_BIT, VIRTIO_NET_F_MAC_BIT, VIRTIO_PCI_CAP_VENDOR,
};
use rumicos::virtio::init::{
    build_arp_probe, find_virtio_net, init, init_queues, rx_poll, InitResult, PCI_CLASS_NETWORK,
    VIRTIO_MSI_NO_VECTOR, VIRTIO_VENDOR_ID,
};
use rumicos::virtio::net::{
    TxPoll, VirtioNetHdr, BUF_LEN, ETH_FRAME_MAX, NET_HDR_LEN, RX_QUEUE, TX_QUEUE,
};
use rumicos::virtio::queue::{
    ring_slot, Virtqueue, VirtqDesc, VirtqUsedElem, MAX_QUEUE_SIZE, VIRTQ_DESC_F_NEXT, VIRTQ_DESC_F_WRITE,
};

#[test]
fn madt_entry_sizes_match_acpi() {
    assert_eq!(MADT_LAPIC_LEN, 8);
    assert_eq!(MADT_X2APIC_LEN, 16);
}

#[test]
fn cpu_flags_accept_enabled_or_online_capable() {
    assert!(cpu_flags_usable(1));
    assert!(cpu_flags_usable(2));
    assert!(!cpu_flags_usable(0));
}

#[test]
fn madt_ioapic_and_iso_entry_sizes_match_acpi() {
    assert_eq!(MADT_IOAPIC_LEN, 12);
    assert_eq!(MADT_ISO_LEN, 10);
}

#[test]
fn ioapic_entry_extracts_id_addr_and_gsi_base() {
    let bytes: [u8; 12] = [1, 12, 2, 0, 0x00, 0x00, 0xC0, 0xFE, 0x00, 0x00, 0x00, 0x00];
    let info = ioapic_from_bytes(&bytes);
    assert_eq!(info.id, 2);
    assert_eq!(info.phys_addr, 0xFEC0_0000);
    assert_eq!(info.gsi_base, 0);
}

#[test]
fn ioapic_entry_reads_a_nonzero_gsi_base() {
    let bytes: [u8; 12] = [1, 12, 5, 0, 0x00, 0x00, 0xC1, 0xFE, 24, 0, 0, 0];
    let info = ioapic_from_bytes(&bytes);
    assert_eq!(info.id, 5);
    assert_eq!(info.phys_addr, 0xFEC1_0000);
    assert_eq!(info.gsi_base, 24);
}

#[test]
fn iso_entry_extracts_keyboard_irq_override() {
    let bytes: [u8; 10] = [2, 10, 0, 1, 17, 0, 0, 0, 0x0F, 0x00];
    let iso = iso_from_bytes(&bytes);
    assert_eq!(iso.isa_irq, 1);
    assert_eq!(iso.gsi, 17);
    assert_eq!(iso.flags, 0b1111);
}

#[test]
fn iso_entry_extracts_the_common_timer_override() {
    let bytes: [u8; 10] = [2, 10, 0, 0, 2, 0, 0, 0, 0, 0];
    let iso = iso_from_bytes(&bytes);
    assert_eq!(iso.isa_irq, 0);
    assert_eq!(iso.gsi, 2);
    assert_eq!(iso.flags, 0);
}

#[test]
fn booting_processor_is_listed_first() {
    let mut cpus = [CpuEntry::zeroed(); MAX_CPUS];
    let mut count: usize = 0;
    let entry = |id: u32, is_bsp: bool| CpuEntry { acpi_uid: id, apic_id: id, is_bsp };
    push_cpu_bsp_first(&mut cpus, &mut count, entry(4, false));
    push_cpu_bsp_first(&mut cpus, &mut count, entry(6, false));
    push_cpu_bsp_first(&mut cpus, &mut count, entry(0, true));
    assert_eq!(count, 3);
    assert_eq!(cpus[0].apic_id, 0);
    assert_eq!(cpus[1].apic_id, 6);
    assert_eq!(cpus[2].apic_id, 4);
    // The places behind the list are left as they were.
    cpus[3] = entry(9, false);
    cpus[4] = entry(10, false);
    push_cpu_bsp_first(&mut cpus, &mut count, entry(8, false));
    assert_eq!(count, 4);
    assert_eq!(cpus[3].apic_id, 8);
    assert_eq!(cpus[4].apic_id, 10);
    // A full list takes no more.
    let mut full: usize = MAX_CPUS;
    let before: Vec<u32> = cpus.iter().map(|c| c.apic_id).collect();
    push_cpu_bsp_first(&mut cpus, &mut full, entry(1, true));
    assert_eq!(full, MAX_CPUS);
    assert_eq!(cpus.iter().map(|c| c.apic_id).collect::<Vec<u32>>(), before);
}

/// Tables with two processors, one of them not usable, an I/O APIC and an
/// override, from the root pointer at 0x100.
fn acpi_tables() -> Vec<u8> {
    let mut m = vec![0u8; 0x1000];
    m[0x100..0x108].copy_from_slice(b"RSD PTR ");
    m[0x10f] = 0;
    m[0x110..0x114].copy_from_slice(&0x200u32.to_le_bytes());
    m[0x200..0x204].copy_from_slice(b"RSDT");
    m[0x204..0x208].copy_from_slice(&40u32.to_le_bytes());
    m[0x224..0x228].copy_from_slice(&0x300u32.to_le_bytes());
    m[0x300..0x304].copy_from_slice(b"APIC");
    let entries: [u8; 46] = [
        0, 8, 0, 3, 1, 0, 0, 0, // processor 3, enabled
        0, 8, 1, 5, 0, 0, 0, 0, // processor 5, not usable
        0, 8, 2, 7, 1, 0, 0, 0, // processor 7, enabled
        1, 12, 2, 0, 0, 0, 0xc0, 0xfe, 0, 0, 0, 0, // I/O APIC 2
        2, 10, 0, 1, 17, 0, 0, 0, 0x0f, 0, // override of line 1
    ];
    m[0x304..0x308].copy_from_slice(&(44 + 46u32).to_le_bytes());
    m[0x32c..0x32c + 46].copy_from_slice(&entries);
    m
}

#[test]
fn madt_is_parsed_from_the_root_pointer() {
    let m = acpi_tables();
    let info = parse_madt(&m, 0x100, 7);
    assert_eq!(info.cpu_count, 2);
    assert_eq!(info.cpus[0].apic_id, 7);
    assert!(info.cpus[0].is_bsp);
    assert_eq!(info.cpus[1].apic_id, 3);
    assert_eq!(info.ioapics.len(), 1);
    assert_eq!(info.ioapics[0].phys_addr, 0xfec0_0000);
    assert_eq!(info.isos.len(), 1);
    assert_eq!(info.isos[0].gsi, 17);
    for c in &info.cpus[2..] {
        assert_eq!((c.acpi_uid, c.apic_id, c.is_bsp), (0, 0, false));
    }
    // No tables: only the processor that runs.
    let none = parse_madt(&m, 0x800, 7);
    assert_eq!(none.ioapics.len(), 0);
}

#[test]
fn cpu_info_zeroed_is_offline() {
    let cpu = CpuInfo::zeroed();
    assert_eq!(cpu.cpu_id, 0);
    assert_eq!(cpu.apic_id, 0);
    assert!(!cpu.online);
    assert_eq!(cpu.stack_top, 0);
}

#[test]
fn apic_id_lookup_finds_registered_cpu() {
    let mut t = CpuTable::new();
    register_cpu(&mut t, 1, 5, 0x1000);
    assert_eq!(apic_id_to_cpu_id(&t, 5), Some(1));
}

#[test]
fn apic_id_for_cpu_is_the_reverse_lookup() {
    let mut t = CpuTable::new();
    register_cpu(&mut t, 2, 7, 0x2000);
    assert_eq!(apic_id_for_cpu(&t, 2), Some(7));
}

#[test]
fn apic_id_for_cpu_out_of_range_is_none() {
    let t = CpuTable::new();
    assert_eq!(apic_id_for_cpu(&t, MAX_CPUS as u32), None);
}

#[test]
fn numbers_that_were_not_entered_are_not_found() {
    let mut t = CpuTable::new();
    assert_eq!(apic_id_to_cpu_id(&t, 0), None);
    register_cpu(&mut t, 2, 7, 0x2000);
    assert_eq!(apic_id_for_cpu(&t, 2), Some(7));
    assert_eq!(apic_id_for_cpu(&t, 0), None);
    assert_eq!(apic_id_for_cpu(&t, 1), None);
    assert_eq!(apic_id_for_cpu(&t, 64), None);
    assert_eq!(apic_id_to_cpu_id(&t, 0), None);
    assert_eq!(apic_id_to_cpu_id(&t, 7), Some(2));
    // Running is not the same as having been entered.
    set_cpu_online(&mut t, 1);
    assert_eq!(apic_id_for_cpu(&t, 1), None);
    // The lowest of two with the same APIC number is found.
    register_cpu(&mut t, 1, 7, 0x1000);
    assert_eq!(apic_id_to_cpu_id(&t, 7), Some(1));
    // A number that is too large changes nothing.
    register_cpu(&mut t, 64, 9, 0x1000);
    assert_eq!(apic_id_to_cpu_id(&t, 9), None);
}

#[test]
fn online_count_includes_bsp_when_no_ap_ready() {
    assert_eq!(online_count(0), 1);
}

#[test]
fn trampoline_sipi_vector_is_page_number() {
    assert_eq!(TRAMPOLINE_PHYS >> 12, 8);
    assert_eq!(trampoline_vector(), 8);
}

#[test]
fn processors_are_started_one_after_another() {
    let mut t = CpuTable::new();
    let cpus = [
        CpuEntry { acpi_uid: 0, apic_id: 4, is_bsp: true },
        CpuEntry { acpi_uid: 1, apic_id: 6, is_bsp: false },
        CpuEntry { acpi_uid: 2, apic_id: 8, is_bsp: false },
    ];
    let mut s = start_aps(&mut t, &cpus, 4);
    let i = next_ap(&s, &cpus, 4).unwrap();
    assert_eq!(i, 1);
    let boot = boot_ap(&mut s, &mut t, &cpus, 4, i, 0x10000);
    assert_eq!(boot.cpu_id, 1);
    assert_eq!(boot.apic_id, 6);
    assert_eq!(boot.stack_top, ap_stack_top(0x10000));
    let mut ready: u32 = 0;
    assert_eq!(ap_entry(&mut t, &mut ready, 6), 1);
    assert_eq!(ready, 1);
    assert_eq!(wait_for_ready(ready, 1, 0), ReadyPoll::Ready);
    ap_answered(&mut s, true);
    assert_eq!(s.started, 1);
    let j = next_ap(&s, &cpus, 4).unwrap();
    assert_eq!(j, 2);
    let second = boot_ap(&mut s, &mut t, &cpus, 4, j, 0x20000);
    assert_eq!(second.cpu_id, 2);
    assert_eq!(wait_for_ready(1, 2, 0), ReadyPoll::Again);
    ap_answered(&mut s, false);
    assert_eq!(next_ap(&s, &cpus, 4), None);
    assert_eq!(cpu_count(&t), 3);
    assert_eq!(stack_top(&t, 2), Some(ap_stack_top(0x20000)));
    assert_eq!(stack_top(&t, 9), None);
    set_cpu_online(&mut t, 2);
    assert!(t.cpus[2].online);
}

#[test]
fn negotiate_requests_exactly_version1_and_mac_when_offered() {
    let dev_lo = 0xFFFF_FFFF;
    let dev_hi = 0xFFFF_FFFF;
    let (lo, hi) = negotiate_features(dev_lo, dev_hi);
    assert_eq!(lo, VIRTIO_NET_F_MAC_BIT, "word 0: only MAC");
    assert_eq!(hi, VIRTIO_F_VERSION_1_BIT, "word 1: only VERSION_1");
}

#[test]
fn negotiate_drops_features_the_device_does_not_offer() {
    let (lo, hi) = negotiate_features(0, 0);
    assert_eq!(lo, 0);
    assert_eq!(hi, 0);
    assert!(!has_version_1(hi), "no VERSION_1 => legacy, must bail");
}

#[test]
fn version_1_detection() {
    assert!(has_version_1(VIRTIO_F_VERSION_1_BIT));
    assert!(has_version_1(0xFFFF_FFFF));
    assert!(!has_version_1(0));
    assert!(!has_version_1(0xFFFF_FFFE));
}

#[test]
fn notify_address_is_base_plus_off_times_multiplier() {
    assert_eq!(notify_addr(0x1000, 0, 4), 0x1000);
    assert_eq!(notify_addr(0x1000, 1, 4), 0x1004);
    assert_eq!(notify_addr(0x1000, 3, 4), 0x100C);
    assert_eq!(notify_addr(0x2000, 7, 0), 0x2000);
}

#[test]
fn cfg_va_is_direct_map_plus_bar_plus_offset() {
    assert_eq!(
        cfg_va(0x8104_1000, 0x2000),
        (0xffff_8000_0000_0000u64 + 0x8104_1000 + 0x2000) as usize
    );
}

#[test]
fn cfg_type_constants_match_the_spec() {
    assert_eq!(CFG_TYPE_COMMON, 1);
    assert_eq!(CFG_TYPE_NOTIFY, 2);
    assert_eq!(CFG_TYPE_ISR, 3);
    assert_eq!(CFG_TYPE_DEVICE, 4);
    assert_eq!(CFG_TYPE_PCI, 5);
    assert_eq!(VIRTIO_PCI_CAP_VENDOR, 0x09);
}

#[test]
fn feature_bit_positions_are_correct() {
    assert_eq!(VIRTIO_NET_F_MAC_BIT, 0x20);
    assert_eq!(VIRTIO_F_VERSION_1_BIT, 0x1);
}

fn transport() -> VirtioTransport {
    VirtioTransport {
        common_va: 0x1000,
        notify_base_va: 0x3000,
        notify_multiplier: 4,
        device_cfg_va: 0x2000,
    }
}

#[test]
fn device_that_keeps_its_features_is_accepted() {
    let t = transport();
    let (mut state, _) = t.begin_negotiation();
    // Reset is done, all features are offered, the choice is confirmed.
    for answer in [0u32, 0xffff_ffff, 0xffff_ffff, 0x0b] {
        assert!(t.awaited(state).is_some());
        state = t.negotiate(state, answer).0;
    }
    assert_eq!(state, Handshake::Accepted);
    assert!(t.awaited(state).is_none());
}

#[test]
fn legacy_device_is_refused() {
    let t = transport();
    let (mut state, _) = t.begin_negotiation();
    for answer in [0u32, 0xffff_ffff, 0] {
        state = t.negotiate(state, answer).0;
    }
    assert_eq!(state, Handshake::Refused);
}

#[test]
fn capabilities_are_found_in_configuration_space() {
    let mut cfg = vec![0u8; 256];
    cfg[0x06] = 0x10;
    cfg[0x34] = 0x40;
    // Common configuration: region 4, offset 0x1000.
    cfg[0x40..0x50].copy_from_slice(&[9, 0x50, 16, 1, 4, 0, 0, 0, 0, 0x10, 0, 0, 0, 1, 0, 0]);
    // Notifications, with a multiplier.
    cfg[0x50..0x64].copy_from_slice(&[
        9, 0, 20, 2, 4, 0, 0, 0, 0, 0x30, 0, 0, 0, 1, 0, 0, 4, 0, 0, 0,
    ]);
    let caps = walk_virtio_caps(&cfg);
    assert!(caps.common.present);
    assert_eq!(caps.common.bar, 4);
    assert_eq!(caps.common.offset, 0x1000);
    assert!(caps.notify.present);
    assert_eq!(caps.notify.notify_multiplier, 4);
    assert!(!caps.device.present);
}

#[test]
fn arp_probe_is_well_formed() {
    let mac = [0x52, 0x54, 0x00, 0x12, 0x34, 0x56];
    let f = build_arp_probe(&mac);
    assert_eq!(&f[0..6], &[0xff; 6], "broadcast destination");
    assert_eq!(&f[6..12], &mac, "our MAC as source");
    assert_eq!(&f[12..14], &[0x08, 0x06], "ARP ethertype");
    assert_eq!(&f[20..22], &[0x00, 0x01], "ARP request opcode");
    assert_eq!(&f[22..28], &mac, "sender hardware address");
    assert_eq!(f.len(), 42);
}

#[test]
fn virtio_constants() {
    assert_eq!(VIRTIO_VENDOR_ID, 0x1af4);
    assert_eq!(PCI_CLASS_NETWORK, 0x02);
    assert_eq!(VIRTIO_MSI_NO_VECTOR, 0xffff);
}

#[test]
fn net_header_is_twelve_bytes() {
    assert_eq!(core::mem::size_of::<VirtioNetHdr>(), 12);
    assert_eq!(NET_HDR_LEN, 12);
}

#[test]
fn queue_indices_are_rx0_tx1() {
    assert_eq!(RX_QUEUE, 0);
    assert_eq!(TX_QUEUE, 1);
}

#[test]
fn buffer_length_holds_header_plus_a_full_frame_within_a_page() {
    assert_eq!(BUF_LEN as usize, NET_HDR_LEN + ETH_FRAME_MAX);
    assert!(BUF_LEN as usize <= 4096, "buffer must fit one frame");
}

#[test]
fn descriptor_and_used_elem_sizes_match_the_spec() {
    assert_eq!(core::mem::size_of::<VirtqDesc>(), 16);
    assert_eq!(core::mem::size_of::<VirtqUsedElem>(), 8);
}

#[test]
fn ring_slot_wraps_at_queue_size_not_at_65536() {
    assert_eq!(ring_slot(0, 256), 0);
    assert_eq!(ring_slot(5, 256), 5);
    assert_eq!(ring_slot(256, 256), 0);
    assert_eq!(ring_slot(257, 256), 1);
}

#[test]
fn ring_slot_is_correct_across_the_u16_wrap_boundary() {
    assert_eq!(ring_slot(65535, 256), 255);
    assert_eq!(ring_slot(0u16.wrapping_sub(1).wrapping_add(1), 256), 0);
    assert_eq!(ring_slot(65535, 100), (65535 % 100) as usize);
    assert_eq!(ring_slot(200, 100), 0);
}

#[test]
fn desc_flags_have_the_spec_values() {
    assert_eq!(VIRTQ_DESC_F_NEXT, 1);
    assert_eq!(VIRTQ_DESC_F_WRITE, 2);
}

#[test]
fn max_queue_size_keeps_the_descriptor_table_within_one_frame() {
    assert_eq!(MAX_QUEUE_SIZE as usize * 16, 4096);
}

fn memory(frames: u64) -> PhysMem {
    let bytes: Vec<u8> = vec![0; (frames * 4096) as usize];
    let pool: Vec<u64> = (1..frames).rev().map(|i| i * 4096).collect();
    PhysMem::new(bytes, pool)
}

#[test]
fn used_ring_is_read_as_the_device_writes_it() {
    let mut mem = memory(8);
    let mut q = Virtqueue::new(&mut mem, 8);
    q.write_desc(&mut mem, 3, 0x5000, 64, VIRTQ_DESC_F_WRITE, 0);
    assert_eq!(mem.read_bytes(q.desc_phys + 48, 8), 0x5000u64.to_le_bytes().to_vec());
    q.push_avail(&mut mem, 3);
    assert_eq!(mem.read_bytes(q.avail_phys + 2, 4), vec![1, 0, 3, 0]);
    assert_eq!(q.pop_used(&mem), None);
    // The device hands the buffer back.
    mem.write_bytes(q.used_phys + 2, &[1, 0, 3, 0, 0, 0, 60, 0, 0, 0]);
    assert_eq!(q.used_idx(&mem), 1);
    assert_eq!(q.pop_used(&mem), Some((3, 60)));
    assert_eq!(q.pop_used(&mem), None);
    q.set_avail_flags(&mut mem, 1);
    assert_eq!(mem.read_bytes(q.avail_phys, 2), vec![1, 0]);
    assert_eq!(q.used_flags(&mem), 0);
}

#[test]
fn frame_is_sent_and_received() {
    let mut mem = memory(64);
    let t = transport();
    let queues = init_queues(&mut mem, &t, 256, 256).unwrap();
    let mac = [2, 0, 0, 0, 0, 1];
    let mut started = init(&mut mem, t, queues.rx, queues.tx, 0, 1, mac);
    let dev = &mut started.dev;
    assert_eq!((dev.rx_notify_off, dev.tx_notify_off), (0, 1));
    let w = dev.transmit(&mut mem, b"hello");
    assert_eq!(w.addr, 0x3004);
    assert_eq!(mem.read_bytes(dev.tx_buf + 12, 5), b"hello".to_vec());
    assert_eq!(dev.transmit_poll(&mem, 0), TxPoll::Again);
    // The device is done with the frame.
    let idx = dev.tx.avail_idx;
    mem.write_bytes(dev.tx.used_phys + 2, &idx.to_le_bytes());
    assert_eq!(dev.transmit_poll(&mem, 0), TxPoll::Sent);
    // A frame comes in.
    let buf = dev.rx_bufs[0];
    mem.write_bytes(buf + 12, b"ping");
    mem.write_bytes(dev.rx.used_phys + 4, &[0, 0, 0, 0, 16, 0, 0, 0]);
    mem.write_bytes(dev.rx.used_phys + 2, &[1, 0]);
    let (frames, _) = dev.poll_rx(&mut mem);
    assert_eq!(frames, vec![b"ping".to_vec()]);
    // A buffer that holds no whole header gives no packet, but is posted again.
    let posted = dev.rx.avail_idx;
    mem.write_bytes(dev.rx.used_phys + 12, &[1, 0, 0, 0, 11, 0, 0, 0]);
    mem.write_bytes(dev.rx.used_phys + 2, &[2, 0]);
    let (frames, _) = dev.poll_rx(&mut mem);
    assert!(frames.is_empty());
    assert_eq!(dev.rx.avail_idx, posted + 1);
    let mut none = None;
    assert!(rx_poll(&mut none, &mut mem).is_none());
}

fn net_device() -> PciDevice {
    PciDevice {
        bus: 0,
        device: 3,
        function: 0,
        vendor_id: VIRTIO_VENDOR_ID,
        device_id: 0x1041,
        class: PCI_CLASS_NETWORK,
        subclass: 0,
        prog_if: 0,
        bars: [0, 0, 0, 0, 0xfe00_0000, 0],
        bar_sizes: [0, 0, 0, 0, 0x4000, 0],
        bar_is_mmio: [false, false, false, false, true, false],
        has_msix: true,
        msix_table_size: 3,
    }
}

#[test]
fn network_device_is_found_and_reported() {
    let mut other = net_device();
    other.vendor_id = 0x8086;
    assert_eq!(find_virtio_net(&[other, net_device()]), Some(1));
    assert_eq!(find_virtio_net(&[other]), None);
    let text = String::from_utf8(pci_report(&[net_device()])).unwrap();
    assert!(text.contains("pci: 00:03.0 1af4:1041 class 02:00 prog_if 00"));
    assert!(text.contains("bar4 mmio base 0xfe000000 size 0x4000"));
    assert!(text.contains("msix capability, table size 3"));
    let up = virtio_report(&Some(InitResult { mac: [2, 0, 0, 0, 0, 1], tx_ok: true, device_id: 0x1041 }));
    let down = virtio_report(&None);
    assert_ne!(up, down);
    assert!(!rx_report(b"abcdefghijklmnop").is_empty());
}

#[test]
fn system_starts_in_order() {
    let mut p = BootPhase::Serial;
    let mut letters: Vec<u8> = Vec::new();
    let mut steps = 0;
    while p != BootPhase::Running {
        let (next, out) = kernel_main(p, true);
        letters.extend_from_slice(&out);
        p = next;
        steps += 1;
        assert!(steps < 100);
    }
    assert!(letters.starts_with(b"K"));
    let mut ticks: u64 = 9;
    let mut s = Sched::new();
    start_scheduler(&mut s, 1, 0x9999, &[0x4000_0000]);
    assert_eq!(timer_handler(&mut ticks, &mut s, 0), Switch::Stay);
    assert_eq!(ticks, 10);
    assert_eq!(resched_handler(&mut s, false, 0), Switch::Stay);
    assert_eq!(s.cpus[0].value.tick_count, 1);
    assert_eq!(resched_handler(&mut s, true, 0), Switch::Stay);
    assert_eq!(s.cpus[0].value.tick_count, 2);
    assert_eq!(uptime_ms(ticks), 10);
    let (lo, hi) = extra_reserved();
    assert!(lo < hi);
}

#[test]
fn memory_map_is_copied() {
    let e = LimineMemMapEntry { base: 0x1000, length: 0x2000, mem_type: 5, _unused: 0 };
    let m = copy_memmap(&[e]);
    assert_eq!(m.len(), 1);
    assert_eq!(m[0].base, 0x1000);
    assert_eq!(get_kernel_phys_range(0x20_0000, 0xffff_ffff_8010_0000), (0x20_0000, 0x30_0000));
    assert_eq!(direct_map_addr(0x1000, false), 0xffff_8000_0000_1000);
    assert_eq!(direct_map_addr(0x1000, true), 0xff00_0000_0000_1000);
}

#[test]
fn serial_line_is_set_up_once() {
    let mut ready = false;
    let writes = serial_init(&mut ready);
    assert_eq!(writes.len(), 7);
    assert_eq!(writes[1], PortWrite { port: 0x3fb, value: 0x80 });
    assert!(serial_init(&mut ready).is_empty());
    assert_eq!(serial_write_byte(0x60, b'K'), Some(PortWrite { port: DATA_PORT, value: b'K' }));
    assert_eq!(serial_write_byte(0x40, b'K'), None);
}

#[test]
fn first_process_is_the_first_to_run() {
    let mut elf = vec![0u8; 64];
    elf[0..4].copy_from_slice(&[0x7f, b'E', b'L', b'F']);
    elf[4] = ELFCLASS64;
    elf[5] = ELFDATA2LSB;
    elf[6] = 1;
    elf[16..18].copy_from_slice(&ET_EXEC.to_le_bytes());
    elf[18..20].copy_from_slice(&EM_X86_64.to_le_bytes());
    elf[20..24].copy_from_slice(&1u32.to_le_bytes());
    elf[24..32].copy_from_slice(&0x400000u64.to_le_bytes());
    elf[32..40].copy_from_slice(&64u64.to_le_bytes());
    elf[52..54].copy_from_slice(&64u16.to_le_bytes());
    elf[54..56].copy_from_slice(&ELF64_PHDR_SIZE.to_le_bytes());
    for cpus in 1..3u32 {
        let mut k = Kernel::new(memory(300), PageTable::new());
        start_scheduler(&mut k.sched, cpus, 0x9999, &[0x4000_0000, 0x4001_0000]);
        let c = Process::create(&mut k, &elf, "init", 1, 0x1234, 0x5000_0000);
        queue_init(&mut k, c, 0x5678, 0x5001_0000);
        let r = schedule(&mut k.sched, 0);
        let t = k.procs[0].thread.unwrap();
        assert_eq!(r, Switch::To { from: Some(0), to: t, hook: false });
        assert_eq!(k.sched.cpus[0].value.current, Some(t));
        assert_eq!(&k.procs[0].name[..5], b"init\0");
    }
}
