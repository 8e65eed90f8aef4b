//! Bringing the network device up, in the order: find it, agree on features,
//! set up the queues, go live, and send a first packet.

use vstd::prelude::*;
use crate::bytes::overwrite;
use crate::mem::{zero_page, PhysMem};
use super::device::{cap_pointer, cap_reachable, cap_va, caps_walked, walk_virtio_caps, MmioWrite, PciDevice, QueueSetup, VirtioCaps, VirtioTransport};
use super::net::{all_posted, lemma_all_posted_len, rx_done, sent, NetDevice, RX_QUEUE, TX_QUEUE};
use super::queue::{Virtqueue, MAX_QUEUE_SIZE};

verus! {

pub const VIRTIO_VENDOR_ID: u16 = 0x1af4;

/// The PCI class of network devices.
pub const PCI_CLASS_NETWORK: u8 = 0x02;

/// Stands for no interrupt.
pub const VIRTIO_MSI_NO_VECTOR: u16 = 0xffff;

/// The entry of the interrupt table that received packets use.
pub const RX_MSIX_TABLE_INDEX: u16 = 0;

/// What is reported of a device that has been brought up.
#[derive(Clone, Copy, Debug, PartialEq, Eq)]
pub struct InitResult {
    pub mac: [u8; 6],
    pub tx_ok: bool,
    pub device_id: u16,
}

/// `dev` is a virtio network device.
pub open spec fn is_virtio_net(dev: PciDevice) -> bool {
    dev.vendor_id == VIRTIO_VENDOR_ID && dev.class == PCI_CLASS_NETWORK
}

/// The place of the first virtio network device.
pub fn find_virtio_net(devs: &[PciDevice]) -> (r: Option<usize>)
    ensures
        match r {
            Some(i) => {
                &&& i < devs@.len()
                &&& is_virtio_net(devs@[i as int])
                &&& forall|j: int| 0 <= j < i ==> !is_virtio_net(#[trigger] devs@[j])
            },
            None => forall|j: int| 0 <= j < devs@.len() ==> !is_virtio_net(#[trigger] devs@[j]),
        },
{
    let mut i: usize = 0;
    while i < devs.len()
        invariant
            i <= devs@.len(),
            forall|j: int| 0 <= j < i ==> !is_virtio_net(#[trigger] devs@[j]),
        decreases devs@.len() - i,
    {
        if devs[i].vendor_id == VIRTIO_VENDOR_ID && devs[i].class == PCI_CLASS_NETWORK {
            return Some(i);
        }
        i += 1;
    }
    None
}

/// The memory regions among the first `n` of a device: where each is, and its
/// size.
pub open spec fn mmio_regions(dev: &PciDevice, n: nat) -> Seq<(u64, u64)>
    decreases n,
{
    if n == 0 {
        Seq::empty()
    } else {
        let before = mmio_regions(dev, (n - 1) as nat);
        if dev.bar_is_mmio@[n - 1] && dev.bar_sizes@[n - 1] != 0 {
            before.push((dev.bars@[n - 1], dev.bar_sizes@[n - 1]))
        } else {
            before
        }
    }
}

/// The memory regions of a device, to be mapped.
pub fn map_device_bars(dev: &PciDevice) -> (r: Vec<(u64, u64)>)
    ensures
        r@ == mmio_regions(dev, 6),
{
    let mut regions: Vec<(u64, u64)> = Vec::new();
    let mut i: usize = 0;
    assert(regions@ =~= Seq::<(u64, u64)>::empty());
    while i < 6
        invariant
            i <= 6,
            regions@ == mmio_regions(dev, i as nat),
        decreases 6 - i,
    {
        if dev.bar_is_mmio[i] && dev.bar_sizes[i] != 0 {
            regions.push((dev.bars[i], dev.bar_sizes[i]));
        }
        i += 1;
    }
    regions
}

/// A broadcast ARP request from `mac` that asks for the address 0.0.0.0: the
/// Ethernet header, then the request.
pub open spec fn arp_probe(mac: Seq<u8>) -> Seq<u8> {
    seq![0xffu8, 0xff, 0xff, 0xff, 0xff, 0xff] + mac + seq![
        0x08u8,
        0x06,
        0x00,
        0x01,
        0x08,
        0x00,
        6,
        4,
        0x00,
        0x01,
    ] + mac + Seq::new(14, |i: int| 0u8)
}

pub fn build_arp_probe(mac: &[u8; 6]) -> (r: [u8; 42])
    ensures
        r@ == arp_probe(mac@),
{
    let mut f: [u8; 42] = [0;42];
    let mut i: usize = 0;
    while i < 6
        invariant
            i <= 6,
            forall|j: int|
                0 <= j < 42 ==> #[trigger] f@[j] == (if j < i {
                    0xffu8
                } else if 6 <= j < 6 + i {
                    mac@[j - 6]
                } else if 22 <= j < 22 + i {
                    mac@[j - 22]
                } else {
                    0
                }),
        decreases 6 - i,
    {
        f[i] = 0xff;
        f[6 + i] = mac[i];
        f[22 + i] = mac[i];
        i += 1;
    }
    f[12] = 0x08;
    f[13] = 0x06;
    f[15] = 0x01;
    f[16] = 0x08;
    f[18] = 6;
    f[19] = 4;
    f[21] = 0x01;
    assert(f@ =~= arp_probe(mac@));
    f
}

/// The groups of registers in the configuration space `cfg`.
pub open spec fn caps_of(cfg: Seq<u8>) -> VirtioCaps {
    caps_walked(cfg, cap_pointer(cfg, 0x34), 48, VirtioCaps::none_found())
}

/// The transport of a device with the configuration space `cfg`, if it has all
/// the registers of a modern virtio device.
pub fn init_transport(dev: &PciDevice, cfg: &[u8]) -> (r: Option<VirtioTransport>)
    requires
        cfg@.len() == 256,
        caps_of(cfg@).common.present && caps_of(cfg@).notify.present && caps_of(cfg@).device.present
            ==> {
            &&& cap_reachable(dev, caps_of(cfg@).common)
            &&& cap_reachable(dev, caps_of(cfg@).notify)
            &&& cap_reachable(dev, caps_of(cfg@).device)
        },
    ensures
        r == (if caps_of(cfg@).common.present && caps_of(cfg@).notify.present && caps_of(
            cfg@,
        ).device.present {
            Some(
                VirtioTransport {
                    common_va: cap_va(dev, caps_of(cfg@).common),
                    notify_base_va: cap_va(dev, caps_of(cfg@).notify),
                    notify_multiplier: caps_of(cfg@).notify.notify_multiplier,
                    device_cfg_va: cap_va(dev, caps_of(cfg@).device),
                },
            )
        } else {
            None
        }),
{
    let caps = walk_virtio_caps(cfg);
    if !caps.common.present || !caps.notify.present || !caps.device.present {
        return None;
    }
    Some(VirtioTransport::new(dev, &caps))
}

/// The size of a queue that the device would make `advertised` entries large.
pub open spec fn capped(advertised: u16) -> u16 {
    if advertised <= MAX_QUEUE_SIZE {
        advertised
    } else {
        MAX_QUEUE_SIZE
    }
}

fn cap_size(advertised: u16) -> (r: u16)
    ensures
        r == capped(advertised),
{
    if advertised <= MAX_QUEUE_SIZE {
        advertised
    } else {
        MAX_QUEUE_SIZE
    }
}

/// The two queues, and what the device is told of them.
pub struct InitQueues {
    pub rx: Virtqueue,
    pub tx: Virtqueue,
    pub rx_setup: QueueSetup,
    pub tx_setup: QueueSetup,
}

/// Memory `m` with zeroes in the frames of `q`.
pub open spec fn cleared(m: Seq<u8>, q: Virtqueue) -> Seq<u8> {
    overwrite(
        overwrite(
            overwrite(m, q.desc_phys as int, zero_page()),
            q.avail_phys as int,
            zero_page(),
        ),
        q.used_phys as int,
        zero_page(),
    )
}

/// What the device is told of queue `index`.
pub open spec fn queue_told(
    t: &VirtioTransport,
    index: u16,
    q: Virtqueue,
    vector: u16,
    s: QueueSetup,
) -> bool {
    &&& s.select == t.common(22, 2, index as u64)
    &&& s.size.addr == t.common_va + 24 && s.size.width == 2
    &&& s.before@ == seq![
        t.common(24, 2, q.queue_size as u64),
        t.common(32, 8, q.desc_phys),
        t.common(40, 8, q.avail_phys),
        t.common(48, 8, q.used_phys),
        t.common(26, 2, vector as u64),
    ]
    &&& s.notify_off.addr == t.common_va + 30 && s.notify_off.width == 2
    &&& s.enable == t.common(28, 2, 1)
}

/// Make the two queues of a device that advertises the given sizes. Received
/// packets interrupt; sent ones are looked for. A device without one of the
/// queues is of no use.
pub fn init_queues(
    mem: &mut PhysMem,
    transport: &VirtioTransport,
    rx_advertised: u16,
    tx_advertised: u16,
) -> (r: Option<InitQueues>)
    requires
        old(mem).wf(),
        old(mem).pool@.len() >= 6,
        transport.wf(),
    ensures
        final(mem).wf(),
        final(mem).freed == old(mem).freed,
        if rx_advertised == 0 || tx_advertised == 0 {
            r is None && *final(mem) == *old(mem)
        } else {
            &&& r matches Some(q) && {
                &&& q.rx == (Virtqueue {
                    queue_size: capped(rx_advertised),
                    desc_phys: old(mem).nth_free(0),
                    avail_phys: old(mem).nth_free(1),
                    used_phys: old(mem).nth_free(2),
                    avail_idx: 0,
                    last_used_idx: 0,
                })
                &&& q.tx == (Virtqueue {
                    queue_size: capped(tx_advertised),
                    desc_phys: old(mem).nth_free(3),
                    avail_phys: old(mem).nth_free(4),
                    used_phys: old(mem).nth_free(5),
                    avail_idx: 0,
                    last_used_idx: 0,
                })
                &&& q.rx.wf(final(mem))
                &&& q.tx.wf(final(mem))
                &&& final(mem).bytes@ == cleared(cleared(old(mem).bytes@, q.rx), q.tx)
                &&& queue_told(transport, RX_QUEUE, q.rx, RX_MSIX_TABLE_INDEX, q.rx_setup)
                &&& queue_told(transport, TX_QUEUE, q.tx, VIRTIO_MSI_NO_VECTOR, q.tx_setup)
            }
            &&& final(mem).pool@ == old(mem).pool@.take(old(mem).pool@.len() - 6)
        },
{
    let rx_size: u16 = cap_size(rx_advertised);
    let tx_size: u16 = cap_size(tx_advertised);
    if rx_size == 0 || tx_size == 0 {
        return None;
    }
    let rx = Virtqueue::new(mem, rx_size);
    let tx = Virtqueue::new(mem, tx_size);
    assert(mem.pool@ =~= old(mem).pool@.take(old(mem).pool@.len() - 6));
    let rx_setup = transport.setup_queue(
        RX_QUEUE,
        rx.queue_size,
        rx.desc_phys,
        rx.avail_phys,
        rx.used_phys,
        RX_MSIX_TABLE_INDEX,
    );
    let tx_setup = transport.setup_queue(
        TX_QUEUE,
        tx.queue_size,
        tx.desc_phys,
        tx.avail_phys,
        tx.used_phys,
        VIRTIO_MSI_NO_VECTOR,
    );
    Some(InitQueues { rx, tx, rx_setup, tx_setup })
}

/// The device, live, and the stores that make it so.
pub struct InitDevice {
    pub dev: NetDevice,
    /// In this order: the receive buffers are there, the driver is ready, the
    /// first packet is there.
    pub writes: Vec<MmioWrite>,
}

/// Make the network device out of its queues, which are notified at the given
/// offsets, and send the first packet.
pub fn init(
    mem: &mut PhysMem,
    transport: VirtioTransport,
    rx: Virtqueue,
    tx: Virtqueue,
    rx_notify_off: u16,
    tx_notify_off: u16,
    mac: [u8; 6],
) -> (r: InitDevice)
    requires
        old(mem).wf(),
        old(mem).pool@.len() >= 17,
        rx.wf(old(mem)),
        tx.wf(old(mem)),
        transport.wf(),
        transport.can_notify(rx_notify_off),
        transport.can_notify(tx_notify_off),
    ensures
        r.dev.wf(final(mem)),
        r.dev.transport == transport,
        r.dev.rx == (Virtqueue { avail_idx: ((rx.avail_idx + 16) % 65536) as u16, ..rx }),
        r.dev.tx == (Virtqueue { avail_idx: tx.avail_idx.wrapping_add(1), ..tx }),
        r.dev.rx_notify_off == rx_notify_off,
        r.dev.tx_notify_off == tx_notify_off,
        r.dev.mac == mac,
        forall|i: int| 0 <= i < 16 ==> #[trigger] r.dev.rx_bufs@[i] == old(mem).nth_free(i),
        r.dev.tx_buf == old(mem).nth_free(16),
        final(mem).wf(),
        final(mem).freed == old(mem).freed,
        final(mem).pool@ == old(mem).pool@.take(old(mem).pool@.len() - 17),
        final(mem).bytes@ == sent(
            all_posted(old(mem).bytes@, rx, r.dev.rx_bufs@, 16),
            tx,
            r.dev.tx_buf,
            arp_probe(mac@),
        ),
        r.writes@ == seq![
            transport.notification(RX_QUEUE, rx_notify_off),
            transport.common(20, 1, 15),
            transport.notification(TX_QUEUE, tx_notify_off),
        ],
{
    let mut dev = NetDevice::new(mem, transport, rx, tx, rx_notify_off, tx_notify_off, mac);
    let mut writes: Vec<MmioWrite> = Vec::new();
    writes.push(dev.fill_rx(mem));
    writes.push(dev.transport.set_driver_ok());
    let probe = build_arp_probe(&mac);
    writes.push(dev.transmit(mem, &probe));
    proof {
        lemma_all_posted_len(old(mem).bytes@, rx, dev.rx_bufs@, 16);
        assert(mem.wf());
    }
    assert(writes@ =~= seq![
        transport.notification(RX_QUEUE, rx_notify_off),
        transport.common(20, 1, 15),
        transport.notification(TX_QUEUE, tx_notify_off),
    ]);
    InitDevice { dev, writes }
}

/// Take the packets that the device has received, if there is a device.
pub fn rx_poll(dev: &mut Option<NetDevice>, mem: &mut PhysMem) -> (r: Option<
    (Vec<Vec<u8>>, MmioWrite),
>)
    requires
        *old(dev) matches Some(d) ==> d.wf(old(mem)),
    ensures
        match (*old(dev), *final(dev), r) {
            (None, None, None) => *final(mem) == *old(mem),
            (Some(d0), Some(d1), Some((packets, notify))) => d1.wf(final(mem)) && rx_done(
                d0,
                d1,
                old(mem),
                final(mem),
                packets@,
                notify,
            ),
            _ => false,
        },
{
    match dev {
        Some(d) => Some(d.poll_rx(mem)),
        None => None,
    }
}

} // verus!
