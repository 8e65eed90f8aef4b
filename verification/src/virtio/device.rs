//! The transport of a virtio device on PCI: where its registers are, and how it
//! is brought up.

use vstd::prelude::*;
use crate::mem::DIRECT_MAP_BASE;

verus! {

/// The capability of a PCI device that describes virtio registers.
pub const VIRTIO_PCI_CAP_VENDOR: u8 = 0x09;

pub const CFG_TYPE_COMMON: u8 = 1;

pub const CFG_TYPE_NOTIFY: u8 = 2;

pub const CFG_TYPE_ISR: u8 = 3;

pub const CFG_TYPE_DEVICE: u8 = 4;

pub const CFG_TYPE_PCI: u8 = 5;

pub const STATUS_ACKNOWLEDGE: u8 = 1;

pub const STATUS_DRIVER: u8 = 2;

pub const STATUS_DRIVER_OK: u8 = 4;

pub const STATUS_FEATURES_OK: u8 = 8;

pub const STATUS_NEEDS_RESET: u8 = 64;

pub const STATUS_FAILED: u8 = 128;

/// The device has a MAC address: bit 5 of the first feature word.
pub const VIRTIO_NET_F_MAC_BIT: u32 = 32;

/// The device is a modern one: bit 0 of the second feature word.
pub const VIRTIO_F_VERSION_1_BIT: u32 = 1;

/// How often a device is looked at that is slow to reset.
pub const RESET_SPIN_LIMIT: u32 = 1_000_000;

/// Offsets of the common registers.
pub const CFG_DEVICE_FEATURE_SELECT: usize = 0;

pub const CFG_DEVICE_FEATURE: usize = 4;

pub const CFG_DRIVER_FEATURE_SELECT: usize = 8;

pub const CFG_DRIVER_FEATURE: usize = 12;

pub const CFG_NUM_QUEUES: usize = 18;

pub const CFG_DEVICE_STATUS: usize = 20;

pub const CFG_QUEUE_SELECT: usize = 22;

pub const CFG_QUEUE_SIZE: usize = 24;

pub const CFG_QUEUE_MSIX_VECTOR: usize = 26;

pub const CFG_QUEUE_ENABLE: usize = 28;

pub const CFG_QUEUE_NOTIFY_OFF: usize = 30;

pub const CFG_QUEUE_DESC: usize = 32;

pub const CFG_QUEUE_DRIVER: usize = 40;

pub const CFG_QUEUE_DEVICE: usize = 48;

/// Where the kernel sees byte `offset` of the region at `bar_phys`.
pub fn cfg_va(bar_phys: u64, offset: u32) -> (r: usize)
    requires
        DIRECT_MAP_BASE + bar_phys + offset <= u64::MAX,
    ensures
        r == (DIRECT_MAP_BASE + bar_phys + offset) as usize,
{
    (DIRECT_MAP_BASE + bar_phys + offset as u64) as usize
}

/// Where a queue is notified.
pub fn notify_addr(notify_base_va: usize, queue_notify_off: u16, multiplier: u32) -> (r: usize)
    requires
        notify_base_va + queue_notify_off * multiplier <= usize::MAX,
    ensures
        r == notify_base_va + queue_notify_off * multiplier,
{
    proof {
        assert(0 <= queue_notify_off * multiplier <= 0xffff * 0xffff_ffff) by (nonlinear_arith)
            requires
                0 <= queue_notify_off <= 0xffff,
                0 <= multiplier <= 0xffff_ffff,
        ;
    }
    notify_base_va + (queue_notify_off as u64 * multiplier as u64) as usize
}

/// The features to use, out of those that the device has: its MAC address and
/// the modern interface.
pub fn negotiate_features(device_lo: u32, device_hi: u32) -> (r: (u32, u32))
    ensures
        r == (device_lo & VIRTIO_NET_F_MAC_BIT, device_hi & VIRTIO_F_VERSION_1_BIT),
{
    (device_lo & VIRTIO_NET_F_MAC_BIT, device_hi & VIRTIO_F_VERSION_1_BIT)
}

/// The features are those of a modern device.
pub fn has_version_1(driver_hi: u32) -> (r: bool)
    ensures
        r == (driver_hi & VIRTIO_F_VERSION_1_BIT != 0),
{
    driver_hi & VIRTIO_F_VERSION_1_BIT != 0
}

/// Nothing is used that the device does not have.
pub proof fn only_offered_features(device_lo: u32, device_hi: u32)
    ensures
        (device_lo & VIRTIO_NET_F_MAC_BIT) & !device_lo == 0,
        (device_hi & VIRTIO_F_VERSION_1_BIT) & !device_hi == 0,
{
    assert((device_lo & 32) & !device_lo == 0u32) by (bit_vector);
    assert((device_hi & 1) & !device_hi == 0u32) by (bit_vector);
}

/// Where one group of registers is.
#[derive(Clone, Copy, Debug, PartialEq, Eq, Structural)]
pub struct CapLoc {
    pub bar: u8,
    pub offset: u32,
    pub length: u32,
    pub notify_multiplier: u32,
    pub present: bool,
}

impl CapLoc {
    pub open spec fn absent() -> CapLoc {
        CapLoc { bar: 0, offset: 0, length: 0, notify_multiplier: 0, present: false }
    }
}

impl Default for CapLoc {
    fn default() -> (r: Self)
        ensures
            r == CapLoc::absent(),
    {
        CapLoc { bar: 0, offset: 0, length: 0, notify_multiplier: 0, present: false }
    }
}

/// The groups of registers that the driver uses.
#[derive(Clone, Copy, Debug, PartialEq, Eq, Structural)]
pub struct VirtioCaps {
    pub common: CapLoc,
    pub notify: CapLoc,
    pub device: CapLoc,
}

impl VirtioCaps {
    pub open spec fn none_found() -> VirtioCaps {
        VirtioCaps { common: CapLoc::absent(), notify: CapLoc::absent(), device: CapLoc::absent() }
    }
}

impl Default for VirtioCaps {
    fn default() -> (r: Self)
        ensures
            r == VirtioCaps::none_found(),
    {
        VirtioCaps {
            common: CapLoc::default(),
            notify: CapLoc::default(),
            device: CapLoc::default(),
        }
    }
}

/// Byte `off` of a device's configuration space; offsets wrap around in it.
pub open spec fn config_u8(cfg: Seq<u8>, off: int) -> u8 {
    cfg[off % 256]
}

/// The four bytes at `off` of the configuration space, as a number.
pub open spec fn config_u32(cfg: Seq<u8>, off: int) -> u32 {
    (config_u8(cfg, off) + 0x100 * config_u8(cfg, off + 1) + 0x1_0000 * config_u8(cfg, off + 2)
        + 0x100_0000 * config_u8(cfg, off + 3)) as u32
}

fn config_at(cfg: &[u8], off: usize) -> (r: u8)
    requires
        cfg@.len() == 256,
    ensures
        r == config_u8(cfg@, off as int),
{
    cfg[off % 256]
}

fn read_cap_u32(cfg: &[u8], off: usize) -> (r: u32)
    requires
        cfg@.len() == 256,
        off < 1024,
    ensures
        r == config_u32(cfg@, off as int),
{
    config_at(cfg, off) as u32 + 0x100 * (config_at(cfg, off + 1) as u32) + 0x1_0000 * (config_at(
        cfg,
        off + 2,
    ) as u32) + 0x100_0000 * (config_at(cfg, off + 3) as u32)
}

/// Where the capability list goes on that the byte at `off` points to: the
/// lowest two bits do not count.
pub open spec fn cap_pointer(cfg: Seq<u8>, off: int) -> int {
    config_u8(cfg, off) as int / 4 * 4
}

/// The group of registers that the capability at `ptr` describes.
pub open spec fn cap_loc(cfg: Seq<u8>, ptr: int) -> CapLoc {
    CapLoc {
        bar: config_u8(cfg, ptr + 4),
        offset: config_u32(cfg, ptr + 8),
        length: config_u32(cfg, ptr + 12),
        notify_multiplier: if config_u8(cfg, ptr + 3) == CFG_TYPE_NOTIFY {
            config_u32(cfg, ptr + 16)
        } else {
            0
        },
        present: true,
    }
}

/// `caps` with what the capability at `ptr` tells; a later one of a kind counts.
pub open spec fn cap_noted(cfg: Seq<u8>, ptr: int, caps: VirtioCaps) -> VirtioCaps {
    let kind = config_u8(cfg, ptr + 3);
    if config_u8(cfg, ptr) != VIRTIO_PCI_CAP_VENDOR {
        caps
    } else if kind == CFG_TYPE_COMMON {
        VirtioCaps { common: cap_loc(cfg, ptr), ..caps }
    } else if kind == CFG_TYPE_NOTIFY {
        VirtioCaps { notify: cap_loc(cfg, ptr), ..caps }
    } else if kind == CFG_TYPE_DEVICE {
        VirtioCaps { device: cap_loc(cfg, ptr), ..caps }
    } else {
        caps
    }
}

/// `caps` with what at most `left` capabilities from `ptr` on tell.
pub open spec fn caps_walked(cfg: Seq<u8>, ptr: int, left: nat, caps: VirtioCaps) -> VirtioCaps
    decreases left,
{
    if ptr == 0 || left == 0 {
        caps
    } else {
        caps_walked(cfg, cap_pointer(cfg, ptr + 1), (left - 1) as nat, cap_noted(cfg, ptr, caps))
    }
}

/// Find the groups of registers in a device's configuration space. A list that
/// runs in a circle is left after 48 capabilities.
pub fn walk_virtio_caps(cfg: &[u8]) -> (r: VirtioCaps)
    requires
        cfg@.len() == 256,
    ensures
        r == caps_walked(cfg@, cap_pointer(cfg@, 0x34), 48, VirtioCaps::none_found()),
{
    let mut caps = VirtioCaps::default();
    let mut ptr: usize = (config_at(cfg, 0x34) / 4 * 4) as usize;
    let mut left: usize = 48;
    while ptr != 0 && left > 0
        invariant
            cfg@.len() == 256,
            ptr < 256,
            left <= 48,
            caps_walked(cfg@, cap_pointer(cfg@, 0x34), 48, VirtioCaps::none_found())
                == caps_walked(cfg@, ptr as int, left as nat, caps),
        decreases left,
    {
        let id: u8 = config_at(cfg, ptr);
        let next: usize = (config_at(cfg, ptr + 1) / 4 * 4) as usize;
        if id == VIRTIO_PCI_CAP_VENDOR {
            let kind: u8 = config_at(cfg, ptr + 3);
            let mut loc = CapLoc {
                bar: config_at(cfg, ptr + 4),
                offset: read_cap_u32(cfg, ptr + 8),
                length: read_cap_u32(cfg, ptr + 12),
                notify_multiplier: 0,
                present: true,
            };
            if kind == CFG_TYPE_COMMON {
                caps.common = loc;
            } else if kind == CFG_TYPE_NOTIFY {
                loc.notify_multiplier = read_cap_u32(cfg, ptr + 16);
                caps.notify = loc;
            } else if kind == CFG_TYPE_DEVICE {
                caps.device = loc;
            }
        }
        ptr = next;
        left -= 1;
    }
    caps
}

/// What is known of a PCI device.
#[derive(Clone, Copy, Debug, PartialEq, Eq)]
pub struct PciDevice {
    pub bus: u8,
    pub device: u8,
    pub function: u8,
    pub vendor_id: u16,
    pub device_id: u16,
    pub class: u8,
    pub subclass: u8,
    pub prog_if: u8,
    pub bars: [u64; 6],
    pub bar_sizes: [u64; 6],
    pub bar_is_mmio: [bool; 6],
    /// It has message-signalled interrupts, and how many.
    pub has_msix: bool,
    pub msix_table_size: u16,
}

/// A store to a device register: the lowest `width` bytes of `value` at `addr`.
#[derive(Clone, Copy, Debug, PartialEq, Eq, Structural)]
pub struct MmioWrite {
    pub addr: usize,
    pub width: u8,
    pub value: u64,
}

/// A load from a device register.
#[derive(Clone, Copy, Debug, PartialEq, Eq, Structural)]
pub struct MmioRead {
    pub addr: usize,
    pub width: u8,
}

/// Where a virtio device's registers are, as the kernel sees them.
#[derive(Clone, Copy, Debug, PartialEq, Eq, Structural)]
pub struct VirtioTransport {
    pub common_va: usize,
    pub notify_base_va: usize,
    pub notify_multiplier: u32,
    pub device_cfg_va: usize,
}

/// The group of registers `loc` lies in a region of `dev` that the kernel sees.
pub open spec fn cap_reachable(dev: &PciDevice, loc: CapLoc) -> bool {
    &&& loc.bar < 6
    &&& DIRECT_MAP_BASE + dev.bars@[loc.bar as int] + loc.offset <= u64::MAX
}

/// Where the kernel sees the group of registers `loc`.
pub open spec fn cap_va(dev: &PciDevice, loc: CapLoc) -> usize {
    (DIRECT_MAP_BASE + dev.bars@[loc.bar as int] + loc.offset) as usize
}

/// What to do when a queue is set up, in this order.
pub struct QueueSetup {
    pub select: MmioWrite,
    /// Tells the size that the device gives the queue.
    pub size: MmioRead,
    pub before: Vec<MmioWrite>,
    /// Tells where the queue is notified.
    pub notify_off: MmioRead,
    pub enable: MmioWrite,
}

impl VirtioTransport {
    /// All common registers have addresses.
    pub open spec fn wf(&self) -> bool {
        self.common_va + 56 <= usize::MAX
    }

    pub fn new(dev: &PciDevice, caps: &VirtioCaps) -> (r: Self)
        requires
            cap_reachable(dev, caps.common),
            cap_reachable(dev, caps.notify),
            cap_reachable(dev, caps.device),
        ensures
            r == (VirtioTransport {
                common_va: cap_va(dev, caps.common),
                notify_base_va: cap_va(dev, caps.notify),
                notify_multiplier: caps.notify.notify_multiplier,
                device_cfg_va: cap_va(dev, caps.device),
            }),
    {
        VirtioTransport {
            common_va: cfg_va(dev.bars[caps.common.bar as usize], caps.common.offset),
            notify_base_va: cfg_va(dev.bars[caps.notify.bar as usize], caps.notify.offset),
            notify_multiplier: caps.notify.notify_multiplier,
            device_cfg_va: cfg_va(dev.bars[caps.device.bar as usize], caps.device.offset),
        }
    }

    /// A store to the common register at `off`.
    pub open spec fn common(&self, off: int, width: u8, value: u64) -> MmioWrite {
        MmioWrite { addr: (self.common_va + off) as usize, width, value }
    }

    fn common_write(&self, off: usize, width: u8, value: u64) -> (r: MmioWrite)
        requires
            self.wf(),
            off < 56,
        ensures
            r == self.common(off as int, width, value),
    {
        MmioWrite { addr: self.common_va + off, width, value }
    }

    /// How many queues the device has.
    pub fn num_queues(&self) -> (r: MmioRead)
        requires
            self.wf(),
        ensures
            r == (MmioRead { addr: (self.common_va + 18) as usize, width: 2 }),
    {
        MmioRead { addr: self.common_va + CFG_NUM_QUEUES, width: 2 }
    }

    /// Tell the device that the driver is ready.
    pub fn set_driver_ok(&self) -> (r: MmioWrite)
        requires
            self.wf(),
        ensures
            r == self.common(20, 1, 15),
    {
        self.common_write(CFG_DEVICE_STATUS, 1, 15)
    }

    /// Ask for the size of a queue; 0 stands for no queue.
    pub fn queue_size(&self, queue_index: u16) -> (r: (MmioWrite, MmioRead))
        requires
            self.wf(),
        ensures
            r.0 == self.common(22, 2, queue_index as u64),
            r.1 == (MmioRead { addr: (self.common_va + 24) as usize, width: 2 }),
    {
        (
            self.common_write(CFG_QUEUE_SELECT, 2, queue_index as u64),
            MmioRead { addr: self.common_va + CFG_QUEUE_SIZE, width: 2 },
        )
    }

    /// Give a queue its memory, its size and its interrupt, and enable it. Its
    /// size so far, and where it is notified, are read on the way.
    pub fn setup_queue(
        &self,
        queue_index: u16,
        queue_size: u16,
        desc_phys: u64,
        avail_phys: u64,
        used_phys: u64,
        msix_vector: u16,
    ) -> (r: QueueSetup)
        requires
            self.wf(),
        ensures
            r.select == self.common(22, 2, queue_index as u64),
            r.size == (MmioRead { addr: (self.common_va + 24) as usize, width: 2 }),
            r.before@ == seq![
                self.common(24, 2, queue_size as u64),
                self.common(32, 8, desc_phys),
                self.common(40, 8, avail_phys),
                self.common(48, 8, used_phys),
                self.common(26, 2, msix_vector as u64),
            ],
            r.notify_off == (MmioRead { addr: (self.common_va + 30) as usize, width: 2 }),
            r.enable == self.common(28, 2, 1),
    {
        let mut before: Vec<MmioWrite> = Vec::new();
        before.push(self.common_write(CFG_QUEUE_SIZE, 2, queue_size as u64));
        before.push(self.common_write(CFG_QUEUE_DESC, 8, desc_phys));
        before.push(self.common_write(CFG_QUEUE_DRIVER, 8, avail_phys));
        before.push(self.common_write(CFG_QUEUE_DEVICE, 8, used_phys));
        before.push(self.common_write(CFG_QUEUE_MSIX_VECTOR, 2, msix_vector as u64));
        assert(before@ =~= seq![
            self.common(24, 2, queue_size as u64),
            self.common(32, 8, desc_phys),
            self.common(40, 8, avail_phys),
            self.common(48, 8, used_phys),
            self.common(26, 2, msix_vector as u64),
        ]);
        QueueSetup {
            select: self.common_write(CFG_QUEUE_SELECT, 2, queue_index as u64),
            size: MmioRead { addr: self.common_va + CFG_QUEUE_SIZE, width: 2 },
            before,
            notify_off: MmioRead { addr: self.common_va + CFG_QUEUE_NOTIFY_OFF, width: 2 },
            enable: self.common_write(CFG_QUEUE_ENABLE, 2, 1),
        }
    }

    /// A queue that is notified at `notify_off` has an address to be notified at.
    pub open spec fn can_notify(&self, notify_off: u16) -> bool {
        self.notify_base_va + notify_off * self.notify_multiplier <= usize::MAX
    }

    /// Tell the device that a queue has new buffers.
    pub open spec fn notification(&self, queue_index: u16, notify_off: u16) -> MmioWrite {
        MmioWrite {
            addr: (self.notify_base_va + notify_off * self.notify_multiplier) as usize,
            width: 2,
            value: queue_index as u64,
        }
    }

    pub fn notify_queue(&self, queue_index: u16, notify_off: u16) -> (r: MmioWrite)
        requires
            self.can_notify(notify_off),
        ensures
            r == self.notification(queue_index, notify_off),
    {
        MmioWrite {
            addr: notify_addr(self.notify_base_va, notify_off, self.notify_multiplier),
            width: 2,
            value: queue_index as u64,
        }
    }

    /// Byte `i` of the device's own configuration.
    pub fn read_device_config(&self, i: usize) -> (r: MmioRead)
        requires
            self.device_cfg_va + i <= usize::MAX,
        ensures
            r == (MmioRead { addr: (self.device_cfg_va + i) as usize, width: 1 }),
    {
        MmioRead { addr: self.device_cfg_va + i, width: 1 }
    }
}

/// How far a device has been brought up. Each state waits for one register to
/// be read.
#[derive(Clone, Copy, Debug, PartialEq, Eq, Structural)]
pub enum Handshake {
    /// The status, until it is 0.
    Resetting { spins: u32 },
    /// The first word of features.
    FeaturesLow,
    /// The second one.
    FeaturesHigh { low: u32 },
    /// The status, to see whether the device takes the features.
    Confirming,
    /// The device can be used.
    Accepted,
    /// The device cannot be used.
    Refused,
}

/// The state that follows when `answer` has been read, and the stores to make.
pub open spec fn handshake_step(t: &VirtioTransport, state: Handshake, answer: u32) -> (
    Handshake,
    Seq<MmioWrite>,
) {
    match state {
        Handshake::Resetting { spins } => if answer != 0 && spins < RESET_SPIN_LIMIT {
            (Handshake::Resetting { spins: (spins + 1) as u32 }, Seq::empty())
        } else {
            (
                Handshake::FeaturesLow,
                seq![t.common(20, 1, 1), t.common(20, 1, 3), t.common(0, 4, 0)],
            )
        },
        Handshake::FeaturesLow => (
            Handshake::FeaturesHigh { low: answer },
            seq![t.common(0, 4, 1)],
        ),
        Handshake::FeaturesHigh { low } => if answer & VIRTIO_F_VERSION_1_BIT == 0 {
            (Handshake::Refused, seq![t.common(20, 1, 131)])
        } else {
            (
                Handshake::Confirming,
                seq![
                    t.common(8, 4, 0),
                    t.common(12, 4, (low & VIRTIO_NET_F_MAC_BIT) as u64),
                    t.common(8, 4, 1),
                    t.common(12, 4, (answer & VIRTIO_F_VERSION_1_BIT) as u64),
                    t.common(20, 1, 11),
                ],
            )
        },
        Handshake::Confirming => if answer & 8 == 0 {
            (Handshake::Refused, seq![t.common(20, 1, 131)])
        } else {
            (Handshake::Accepted, Seq::empty())
        },
        Handshake::Accepted => (state, Seq::empty()),
        Handshake::Refused => (state, Seq::empty()),
    }
}

impl VirtioTransport {
    /// Begin to bring the device up: reset it.
    pub fn begin_negotiation(&self) -> (r: (Handshake, MmioWrite))
        requires
            self.wf(),
        ensures
            r == (Handshake::Resetting { spins: 0 }, self.common(20, 1, 0)),
    {
        (Handshake::Resetting { spins: 0 }, self.common_write(CFG_DEVICE_STATUS, 1, 0))
    }

    /// The register that `state` waits for.
    pub fn awaited(&self, state: Handshake) -> (r: Option<MmioRead>)
        requires
            self.wf(),
        ensures
            r == (match state {
                Handshake::Resetting { .. } | Handshake::Confirming => Some(
                    MmioRead { addr: (self.common_va + 20) as usize, width: 1 },
                ),
                Handshake::FeaturesLow | Handshake::FeaturesHigh { .. } => Some(
                    MmioRead { addr: (self.common_va + 4) as usize, width: 4 },
                ),
                Handshake::Accepted | Handshake::Refused => None,
            }),
    {
        match state {
            Handshake::Resetting { .. } | Handshake::Confirming => Some(
                MmioRead { addr: self.common_va + CFG_DEVICE_STATUS, width: 1 },
            ),
            Handshake::FeaturesLow | Handshake::FeaturesHigh { .. } => Some(
                MmioRead { addr: self.common_va + CFG_DEVICE_FEATURE, width: 4 },
            ),
            Handshake::Accepted | Handshake::Refused => None,
        }
    }

    /// Go on with bringing the device up, now that the register that `state`
    /// waited for has been read as `answer`. A device that is not a modern one,
    /// or does not take the features, is refused and told so.
    pub fn negotiate(&self, state: Handshake, answer: u32) -> (r: (Handshake, Vec<MmioWrite>))
        requires
            self.wf(),
        ensures
            (r.0, r.1@) == handshake_step(self, state, answer),
    {
        let mut writes: Vec<MmioWrite> = Vec::new();
        let next = match state {
            Handshake::Resetting { spins } => {
                if answer != 0 && spins < RESET_SPIN_LIMIT {
                    Handshake::Resetting { spins: spins + 1 }
                } else {
                    writes.push(self.common_write(CFG_DEVICE_STATUS, 1, 1));
                    writes.push(self.common_write(CFG_DEVICE_STATUS, 1, 3));
                    writes.push(self.common_write(CFG_DEVICE_FEATURE_SELECT, 4, 0));
                    Handshake::FeaturesLow
                }
            },
            Handshake::FeaturesLow => {
                writes.push(self.common_write(CFG_DEVICE_FEATURE_SELECT, 4, 1));
                Handshake::FeaturesHigh { low: answer }
            },
            Handshake::FeaturesHigh { low } => {
                let (lo, hi): (u32, u32) = negotiate_features(low, answer);
                proof {
                    assert((answer & 1) & 1 == answer & 1) by (bit_vector);
                }
                if !has_version_1(hi) {
                    writes.push(self.common_write(CFG_DEVICE_STATUS, 1, 131));
                    Handshake::Refused
                } else {
                    writes.push(self.common_write(CFG_DRIVER_FEATURE_SELECT, 4, 0));
                    writes.push(self.common_write(CFG_DRIVER_FEATURE, 4, lo as u64));
                    writes.push(self.common_write(CFG_DRIVER_FEATURE_SELECT, 4, 1));
                    writes.push(self.common_write(CFG_DRIVER_FEATURE, 4, hi as u64));
                    writes.push(self.common_write(CFG_DEVICE_STATUS, 1, 11));
                    Handshake::Confirming
                }
            },
            Handshake::Confirming => {
                if answer & (STATUS_FEATURES_OK as u32) == 0 {
                    writes.push(self.common_write(CFG_DEVICE_STATUS, 1, 131));
                    Handshake::Refused
                } else {
                    Handshake::Accepted
                }
            },
            Handshake::Accepted => state,
            Handshake::Refused => state,
        };
        assert(writes@ =~= handshake_step(self, state, answer).1);
        (next, writes)
    }
}

/// The state after a number of answers.
pub open spec fn handshake_after(t: &VirtioTransport, answers: Seq<u32>) -> Handshake
    decreases answers.len(),
{
    if answers.len() == 0 {
        Handshake::Resetting { spins: 0 }
    } else {
        handshake_step(t, handshake_after(t, answers.drop_last()), answers.last()).0
    }
}

/// A device that resets at once is accepted exactly if it is a modern one and
/// takes the features.
pub proof fn who_is_accepted(t: &VirtioTransport, low: u32, high: u32, status: u32)
    ensures
        handshake_after(t, seq![0u32, low, high, status]) == (if high & VIRTIO_F_VERSION_1_BIT != 0
            && status & 8 != 0 {
            Handshake::Accepted
        } else {
            Handshake::Refused
        }),
{
    let all = seq![0u32, low, high, status];
    assert(all.drop_last() =~= seq![0u32, low, high]);
    assert(seq![0u32, low, high].drop_last() =~= seq![0u32, low]);
    assert(seq![0u32, low].drop_last() =~= seq![0u32]);
    assert(seq![0u32].drop_last() =~= Seq::<u32>::empty());
    reveal_with_fuel(handshake_after, 5);
}

/// A device that is refused is told so, whenever that happens.
pub proof fn refusal_is_told(t: &VirtioTransport, state: Handshake, answer: u32)
    requires
        state !is Refused,
        handshake_step(t, state, answer).0 is Refused,
    ensures
        handshake_step(t, state, answer).1 == seq![t.common(20, 1, 131)],
{
}

} // verus!
