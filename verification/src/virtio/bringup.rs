//! What the network device is told while it is brought up.

use vstd::prelude::*;
use crate::numbers::number_at;
use super::device::{cap_noted, cap_pointer, cap_va, caps_walked, CapLoc, handshake_step, Handshake, MmioRead, MmioWrite, PciDevice, QueueSetup, VirtioCaps, VirtioTransport};
use super::init::{arp_probe, caps_of, is_virtio_net, mmio_regions, queue_told};
use super::queue::Virtqueue;

verus! {

/// What a device knows of one of its queues.
pub struct QueueRegisters {
    pub size: u64,
    pub vector: u64,
    pub desc: u64,
    pub driver: u64,
    pub device: u64,
    pub enabled: bool,
}

/// What a device knows of its driver.
pub struct DeviceRegisters {
    pub status: u64,
    /// Which word of its features the device shows.
    pub shown: u64,
    /// Which word of features the driver writes.
    pub taken: u64,
    /// The features that the driver takes, by word.
    pub features: Map<u64, u64>,
    /// Which queue the queue registers belong to.
    pub queue: u64,
    pub queues: Map<u64, QueueRegisters>,
}

/// A device after a store to its common register at `off`.
pub open spec fn stored(d: DeviceRegisters, off: int, value: u64) -> DeviceRegisters {
    let q = d.queues[d.queue];
    if off == 0 {
        DeviceRegisters { shown: value, ..d }
    } else if off == 8 {
        DeviceRegisters { taken: value, ..d }
    } else if off == 12 {
        DeviceRegisters { features: d.features.insert(d.taken, value), ..d }
    } else if off == 20 {
        DeviceRegisters { status: value, ..d }
    } else if off == 22 {
        DeviceRegisters { queue: value, ..d }
    } else if off == 24 {
        DeviceRegisters {
            queues: d.queues.insert(d.queue, QueueRegisters { size: value, ..q }),
            ..d
        }
    } else if off == 26 {
        DeviceRegisters {
            queues: d.queues.insert(d.queue, QueueRegisters { vector: value, ..q }),
            ..d
        }
    } else if off == 28 {
        DeviceRegisters {
            queues: d.queues.insert(d.queue, QueueRegisters { enabled: value == 1, ..q }),
            ..d
        }
    } else if off == 32 {
        DeviceRegisters {
            queues: d.queues.insert(d.queue, QueueRegisters { desc: value, ..q }),
            ..d
        }
    } else if off == 40 {
        DeviceRegisters {
            queues: d.queues.insert(d.queue, QueueRegisters { driver: value, ..q }),
            ..d
        }
    } else if off == 48 {
        DeviceRegisters {
            queues: d.queues.insert(d.queue, QueueRegisters { device: value, ..q }),
            ..d
        }
    } else {
        d
    }
}

/// A device whose common registers start at `base` after some stores.
pub open spec fn told(d: DeviceRegisters, base: usize, writes: Seq<MmioWrite>) -> DeviceRegisters
    decreases writes.len(),
{
    if writes.len() == 0 {
        d
    } else {
        stored(
            told(d, base, writes.drop_last()),
            writes.last().addr - base,
            writes.last().value,
        )
    }
}

proof fn lemma_told(d: DeviceRegisters, base: usize, writes: Seq<MmioWrite>, n: int)
    requires
        0 < n <= writes.len(),
    ensures
        told(d, base, writes.take(n)) == stored(
            told(d, base, writes.take(n - 1)),
            writes[n - 1].addr - base,
            writes[n - 1].value,
        ),
{
    assert(writes.take(n).drop_last() =~= writes.take(n - 1));
}

/// Once a device was reset, it is told that it was noticed and has a driver, and is
/// asked for the first word of its features.
pub proof fn device_is_noticed(t: &VirtioTransport, d: DeviceRegisters, spins: u32)
    requires
        t.wf(),
    ensures
        ({
            let (next, writes) = handshake_step(t, Handshake::Resetting { spins }, 0);
            let after = told(d, t.common_va, writes);
            &&& next == Handshake::FeaturesLow
            &&& after.status == 1 + 2
            &&& after.shown == 0
            &&& after.features == d.features
        }),
{
    let writes = handshake_step(t, Handshake::Resetting { spins }, 0).1;
    assert(writes.take(0) =~= Seq::<MmioWrite>::empty());
    lemma_told(d, t.common_va, writes, 1);
    lemma_told(d, t.common_va, writes, 2);
    lemma_told(d, t.common_va, writes, 3);
    assert(writes.take(3) =~= writes);
}

/// Of the features that a device shows, its driver takes those two that it knows, if
/// they are shown: the address in the first word, the new interface in the second.
/// A device without the latter is told that its driver gave up.
pub proof fn known_features_are_taken(
    t: &VirtioTransport,
    d: DeviceRegisters,
    low: u32,
    high: u32,
)
    requires
        t.wf(),
    ensures
        ({
            let (middle, asked) = handshake_step(t, Handshake::FeaturesLow, low);
            let shown = told(d, t.common_va, asked);
            let (next, writes) = handshake_step(t, middle, high);
            let after = told(shown, t.common_va, writes);
            &&& shown.shown == 1
            &&& shown.status == d.status
            &&& high & 1 == 0 ==> next == Handshake::Refused && after.status == 128 + 2 + 1
                && after.features == d.features
            &&& high & 1 != 0 ==> {
                &&& next == Handshake::Confirming
                &&& after.features[0] == low & 32
                &&& after.features[1] == high & 1
                &&& after.status == 8 + 2 + 1
            }
        }),
{
    let (middle, asked) = handshake_step(t, Handshake::FeaturesLow, low);
    let base = t.common_va;
    assert(asked.take(0) =~= Seq::<MmioWrite>::empty());
    lemma_told(d, base, asked, 1);
    assert(asked.take(1) =~= asked);
    let shown = told(d, base, asked);
    let writes = handshake_step(t, middle, high).1;
    assert(writes.take(0) =~= Seq::<MmioWrite>::empty());
    lemma_told(shown, base, writes, 1);
    if high & 1 != 0 {
        lemma_told(shown, base, writes, 2);
        lemma_told(shown, base, writes, 3);
        lemma_told(shown, base, writes, 4);
        lemma_told(shown, base, writes, 5);
        assert(writes.take(5) =~= writes);
    } else {
        assert(writes.take(1) =~= writes);
    }
}

/// A device is used exactly if it keeps its mark that it takes the features; one that
/// does not is told that its driver gave up. Then it is told that the driver is ready.
pub proof fn device_confirms(
    t: &VirtioTransport,
    d: DeviceRegisters,
    status: u32,
    ready: MmioWrite,
)
    requires
        t.wf(),
        call_ensures(VirtioTransport::set_driver_ok, (t,), ready),
    ensures
        ({
            let (next, writes) = handshake_step(t, Handshake::Confirming, status);
            let after = told(d, t.common_va, writes);
            &&& status & 8 != 0 ==> next == Handshake::Accepted && after == d
            &&& status & 8 == 0 ==> next == Handshake::Refused && after.status == 128 + 2 + 1
        }),
        stored(d, ready.addr - t.common_va, ready.value).status == 8 + 4 + 2 + 1,
{
    let writes = handshake_step(t, Handshake::Confirming, status).1;
    assert(writes.take(0) =~= Seq::<MmioWrite>::empty());
    if status & 8 == 0 {
        lemma_told(d, t.common_va, writes, 1);
        assert(writes.take(1) =~= writes);
    }
}

/// While the device is brought up, its status and its features are read where they
/// are.
pub proof fn answers_are_read_from_the_device(
    t: &VirtioTransport,
    state: Handshake,
    r: Option<MmioRead>,
)
    requires
        t.wf(),
        call_ensures(VirtioTransport::awaited, (t, state), r),
    ensures
        state is Resetting || state is Confirming ==> r is Some && r->Some_0.addr == t.common_va + 20
            && r->Some_0.width == 1,
        state is FeaturesLow || state is FeaturesHigh ==> r is Some && r->Some_0.addr == t.common_va
            + 4 && r->Some_0.width == 4,
        state is Accepted || state is Refused ==> r is None,
{
}

/// A queue that is set up is known to the device by its size, its three tables and its
/// interrupt, and is enabled after it knows them; no other queue changes.
pub proof fn device_knows_the_queue(
    t: &VirtioTransport,
    d: DeviceRegisters,
    index: u16,
    q: Virtqueue,
    vector: u16,
    s: QueueSetup,
)
    requires
        t.wf(),
        queue_told(t, index, q, vector, s),
    ensures
        ({
            let selected = stored(d, s.select.addr - t.common_va, s.select.value);
            let known = told(selected, t.common_va, s.before@);
            let after = stored(known, s.enable.addr - t.common_va, s.enable.value);
            let it = after.queues[index as u64];
            &&& selected.queue == index
            &&& it.size == q.queue_size
            &&& it.desc == q.desc_phys
            &&& it.driver == q.avail_phys
            &&& it.device == q.used_phys
            &&& it.vector == vector
            &&& it.enabled
            &&& known.queues[index as u64].enabled == d.queues[index as u64].enabled
            &&& forall|other: u64| other != index ==> #[trigger] after.queues[other] == d.queues[other]
            &&& s.size.addr == t.common_va + 24
            &&& s.notify_off.addr == t.common_va + 30
        }),
{
    let base = t.common_va;
    let selected = stored(d, s.select.addr - base, s.select.value);
    let writes = s.before@;
    assert(writes.take(0) =~= Seq::<MmioWrite>::empty());
    lemma_told(selected, base, writes, 1);
    lemma_told(selected, base, writes, 2);
    lemma_told(selected, base, writes, 3);
    lemma_told(selected, base, writes, 4);
    lemma_told(selected, base, writes, 5);
    assert(writes.take(5) =~= writes);
}

/// A capability of the device is found by its type, and says in which of the device's
/// regions the registers are, and where.
pub proof fn capabilities_say_where_registers_are(cfg: Seq<u8>, ptr: int, caps: VirtioCaps)
    requires
        cfg.len() == 256,
        0 <= ptr,
        ptr + 20 <= 256,
    ensures
        ({
            let r = cap_noted(cfg, ptr, caps);
            let loc = if cfg[ptr + 3] == 1 {
                r.common
            } else if cfg[ptr + 3] == 2 {
                r.notify
            } else {
                r.device
            };
            let kept = cfg[ptr] != 9 || !(cfg[ptr + 3] == 1 || cfg[ptr + 3] == 2 || cfg[ptr + 3] == 4);
            &&& kept ==> r == caps
            &&& !kept ==> {
                &&& loc.present
                &&& loc.bar == cfg[ptr + 4]
                &&& loc.offset == number_at(cfg, ptr + 8, 4)
                &&& loc.length == number_at(cfg, ptr + 12, 4)
                &&& cfg[ptr + 3] == 2 ==> loc.notify_multiplier == number_at(cfg, ptr + 16, 4)
                &&& cfg[ptr + 3] != 1 ==> r.common == caps.common
                &&& cfg[ptr + 3] != 2 ==> r.notify == caps.notify
                &&& cfg[ptr + 3] != 4 ==> r.device == caps.device
            }
        }),
{
    reveal_with_fuel(number_at, 5);
    assert((ptr + 19) % 256 == ptr + 19);
    assert(ptr % 256 == ptr);
}

/// The packet that asks the network for an address goes to everybody, from this
/// device, and is a request for an Ethernet and an Internet address.
pub proof fn probe_is_an_address_request(mac: Seq<u8>, i: int)
    requires
        mac.len() == 6,
        0 <= i < 6,
    ensures
        ({
            let p = arp_probe(mac);
            &&& p.len() == 42
            &&& p[i] == 0xff
            &&& p[6 + i] == mac[i]
            &&& p[12] == 8 && p[13] == 6
            &&& p[14] == 0 && p[15] == 1
            &&& p[16] == 8 && p[17] == 0
            &&& p[18] == 6 && p[19] == 4
            &&& p[20] == 0 && p[21] == 1
            &&& p[22 + i] == mac[i]
            &&& forall|k: int| 28 <= k < 42 ==> #[trigger] p[k] == 0
        }),
{
}

/// The device that is looked for is a network device of virtio's.
pub proof fn network_device_is_found(dev: PciDevice)
    ensures
        is_virtio_net(dev) == (dev.vendor_id == 0x1af4 && dev.class == 2),
{
}

/// Where capability `k` of the device's list starts, from 0 on: the first is named at
/// 0x34, each further one in the second byte of the one before. The two lowest bits do
/// not count.
pub open spec fn cap_at(cfg: Seq<u8>, k: nat) -> int
    decreases k,
{
    (if k == 0 {
        cfg[0x34] as int
    } else {
        cfg[(cap_at(cfg, (k - 1) as nat) + 1) % 256] as int
    }) / 4 * 4
}

proof fn lemma_walk(cfg: Seq<u8>, k: nat, left: nat, caps: VirtioCaps, n: nat)
    requires
        n <= left,
        forall|j: nat| k <= j < k + n ==> #[trigger] cap_at(cfg, j) != 0,
    ensures
        exists|mid: VirtioCaps|
            caps_walked(cfg, cap_at(cfg, k), left, caps) == #[trigger] caps_walked(
                cfg,
                cap_at(cfg, k + n),
                (left - n) as nat,
                mid,
            ),
    decreases n,
{
    if n > 0 {
        let next = cap_noted(cfg, cap_at(cfg, k), caps);
        assert(cap_at(cfg, k) != 0);
        assert(cap_pointer(cfg, cap_at(cfg, k) + 1) == cap_at(cfg, k + 1));
        lemma_walk(cfg, k + 1, (left - 1) as nat, next, (n - 1) as nat);
        let mid = choose|mid: VirtioCaps|
            caps_walked(cfg, cap_at(cfg, k + 1), (left - 1) as nat, next) == #[trigger] caps_walked(
                cfg,
                cap_at(cfg, k + 1 + (n - 1) as nat),
                ((left - 1) - (n - 1)) as nat,
                mid,
            );
        assert(caps_walked(cfg, cap_at(cfg, k), left, caps) == caps_walked(
            cfg,
            cap_at(cfg, k + n),
            (left - n) as nat,
            mid,
        ));
    } else {
        assert(caps_walked(cfg, cap_at(cfg, k), left, caps) == caps_walked(
            cfg,
            cap_at(cfg, k + n),
            (left - n) as nat,
            caps,
        ));
    }
}

proof fn lemma_still_there(cfg: Seq<u8>, ptr: int, left: nat, caps: VirtioCaps)
    ensures
        caps.common.present ==> caps_walked(cfg, ptr, left, caps).common.present,
        caps.notify.present ==> caps_walked(cfg, ptr, left, caps).notify.present,
        caps.device.present ==> caps_walked(cfg, ptr, left, caps).device.present,
    decreases left,
{
    if ptr != 0 && left > 0 {
        lemma_still_there(
            cfg,
            cap_pointer(cfg, ptr + 1),
            (left - 1) as nat,
            cap_noted(cfg, ptr, caps),
        );
    }
}

/// Every capability of the device's list is found, if it is one of virtio's and among
/// the first 48: the common registers, the notifications and the device's own.
pub proof fn listed_capabilities_are_found(cfg: Seq<u8>, k: nat)
    requires
        cfg.len() == 256,
        k < 48,
        forall|j: nat| j <= k ==> #[trigger] cap_at(cfg, j) != 0,
        cap_at(cfg, k) + 20 <= 256,
        cfg[cap_at(cfg, k)] == 9,
    ensures
        cfg[cap_at(cfg, k) + 3] == 1 ==> caps_of(cfg).common.present,
        cfg[cap_at(cfg, k) + 3] == 2 ==> caps_of(cfg).notify.present,
        cfg[cap_at(cfg, k) + 3] == 4 ==> caps_of(cfg).device.present,
{
    let none = VirtioCaps::none_found();
    assert(cap_pointer(cfg, 0x34) == cap_at(cfg, 0));
    lemma_walk(cfg, 0, 48, none, k);
    let mid = choose|mid: VirtioCaps|
        caps_walked(cfg, cap_at(cfg, 0), 48, none) == #[trigger] caps_walked(
            cfg,
            cap_at(cfg, 0 + k),
            (48 - k) as nat,
            mid,
        );
    let ptr = cap_at(cfg, k);
    capabilities_say_where_registers_are(cfg, ptr, mid);
    lemma_still_there(
        cfg,
        cap_pointer(cfg, ptr + 1),
        (48 - k - 1) as nat,
        cap_noted(cfg, ptr, mid),
    );
}

/// Registers are where a capability says: at its offset into one of the device's
/// regions, in the mapping of all memory.
pub proof fn registers_are_in_their_region(dev: &PciDevice, loc: CapLoc)
    requires
        loc.bar < 6,
        0xffff_8000_0000_0000 + dev.bars@[loc.bar as int] + loc.offset <= usize::MAX,
    ensures
        cap_va(dev, loc) == 0xffff_8000_0000_0000 + dev.bars@[loc.bar as int] + loc.offset,
{
}

/// A queue is notified at its own place among the notifications, with its number.
pub proof fn queue_is_notified_at_its_place(t: &VirtioTransport, queue: u16, off: u16)
    requires
        t.can_notify(off),
    ensures
        ({
            let w = t.notification(queue, off);
            &&& w.addr == t.notify_base_va + off * t.notify_multiplier
            &&& w.width == 2
            &&& w.value == queue
        }),
{
    assert(off * t.notify_multiplier >= 0) by (nonlinear_arith);
}

/// The regions of a device that are memory and not empty are mapped, each whole.
pub proof fn device_regions_are_mapped(dev: &PciDevice, i: int, n: nat)
    requires
        0 <= i < n <= 6,
        dev.bar_is_mmio@[i],
        dev.bar_sizes@[i] != 0,
    ensures
        mmio_regions(dev, n).contains((dev.bars@[i], dev.bar_sizes@[i])),
    decreases n,
{
    let all = mmio_regions(dev, n);
    let it = (dev.bars@[i], dev.bar_sizes@[i]);
    if i < n - 1 {
        device_regions_are_mapped(dev, i, (n - 1) as nat);
        let before = mmio_regions(dev, (n - 1) as nat);
        let j = choose|j: int| 0 <= j < before.len() && before[j] == it;
        assert(all[j] == it);
    } else {
        assert(all.last() == it);
    }
}

} // verus!
