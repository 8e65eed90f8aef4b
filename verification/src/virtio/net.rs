//! The network device: packets in and out of its queues. Queue 0 receives,
//! queue 1 transmits, and a header precedes each packet.

use vstd::prelude::*;
use crate::bytes::{le_u16, overwrite};
use crate::mem::PhysMem;
use super::device::{MmioWrite, VirtioTransport};
use super::queue::{desc_bytes, offered, slot_of, used_at, VirtqDesc, Virtqueue, VIRTQ_DESC_F_WRITE};

verus! {

pub const RX_QUEUE: u16 = 0;

pub const TX_QUEUE: u16 = 1;

/// How many buffers the device is given to receive into.
pub const RX_BUFFER_COUNT: usize = 16;

/// Bytes of the largest Ethernet frame.
pub const ETH_FRAME_MAX: usize = 1514;

/// Bytes of the header that precedes a packet.
pub const NET_HDR_LEN: usize = 12;

/// Bytes of a buffer: a header and a whole Ethernet frame.
pub const BUF_LEN: u32 = 1526;

/// How often a sent packet is looked for before it is given up.
pub const TX_POLL_LIMIT: u32 = 10_000_000;

/// The header of a packet.
#[derive(Clone, Copy, Debug, PartialEq, Eq, Structural)]
pub struct VirtioNetHdr {
    pub flags: u8,
    pub gso_type: u8,
    pub hdr_len: u16,
    pub gso_size: u16,
    pub csum_start: u16,
    pub csum_offset: u16,
    pub num_buffers: u16,
}

impl Default for VirtioNetHdr {
    fn default() -> (r: Self)
        ensures
            r == (VirtioNetHdr {
                flags: 0,
                gso_type: 0,
                hdr_len: 0,
                gso_size: 0,
                csum_start: 0,
                csum_offset: 0,
                num_buffers: 0,
            }),
    {
        VirtioNetHdr {
            flags: 0,
            gso_type: 0,
            hdr_len: 0,
            gso_size: 0,
            csum_start: 0,
            csum_offset: 0,
            num_buffers: 0,
        }
    }
}

/// The network device.
pub struct NetDevice {
    pub transport: VirtioTransport,
    pub rx: Virtqueue,
    pub tx: Virtqueue,
    pub rx_notify_off: u16,
    pub tx_notify_off: u16,
    /// The receive buffers, by descriptor.
    pub rx_bufs: [u64; RX_BUFFER_COUNT],
    /// The transmit buffer: one packet is sent at a time.
    pub tx_buf: u64,
    pub mac: [u8; 6],
}

/// The descriptor of a receive buffer.
pub open spec fn rx_desc(buf: u64) -> VirtqDesc {
    VirtqDesc { addr: buf, len: BUF_LEN, flags: VIRTQ_DESC_F_WRITE, next: 0 }
}

/// Memory `m` after receive buffer `id` has been given to the device as the
/// queue's entry `idx`.
pub open spec fn posted(m: Seq<u8>, q: Virtqueue, bufs: Seq<u64>, idx: u16, id: int) -> Seq<u8> {
    offered(
        overwrite(m, q.desc_phys + 16 * id, desc_bytes(rx_desc(bufs[id]))),
        q.avail_phys,
        q.queue_size,
        idx,
        id as u16,
    )
}

/// Memory `m` after the first `n` receive buffers have been given to the device.
pub open spec fn all_posted(m: Seq<u8>, q: Virtqueue, bufs: Seq<u64>, n: nat) -> Seq<u8>
    decreases n,
{
    if n == 0 {
        m
    } else {
        posted(
            all_posted(m, q, bufs, (n - 1) as nat),
            q,
            bufs,
            ((q.avail_idx + n - 1) % 65536) as u16,
            n - 1,
        )
    }
}

/// Giving buffers to the device changes bytes in place.
pub(crate) proof fn lemma_all_posted_len(m: Seq<u8>, q: Virtqueue, bufs: Seq<u64>, n: nat)
    ensures
        all_posted(m, q, bufs, n).len() == m.len(),
    decreases n,
{
    if n > 0 {
        lemma_all_posted_len(m, q, bufs, (n - 1) as nat);
    }
}

/// What receiving changes.
pub struct RxState {
    pub bytes: Seq<u8>,
    pub avail_idx: u16,
    pub last_used_idx: u16,
    /// The packets that were received.
    pub packets: Seq<Seq<u8>>,
}

/// `st` after one more used buffer has been taken: its packet is received and
/// the buffer given back. What is shorter than a header holds no packet. A
/// descriptor that stands for no buffer is dropped.
pub open spec fn rx_taken(q: Virtqueue, bufs: Seq<u64>, st: RxState) -> RxState {
    let e = used_at(st.bytes, q.used_phys, q.queue_size, st.last_used_idx);
    let last_used_idx = st.last_used_idx.wrapping_add(1);
    if e.id < 16 {
        let n = if e.len - 12 < 1514 {
            e.len - 12
        } else {
            1514
        };
        let at = bufs[e.id as int] + 12;
        RxState {
            bytes: posted(st.bytes, q, bufs, st.avail_idx, e.id as int),
            avail_idx: st.avail_idx.wrapping_add(1),
            last_used_idx,
            packets: if e.len >= 12 {
                st.packets.push(st.bytes.subrange(at, at + n))
            } else {
                st.packets
            },
        }
    } else {
        RxState { last_used_idx, ..st }
    }
}

/// `st` after `n` more used buffers have been taken.
pub open spec fn rx_polled(q: Virtqueue, bufs: Seq<u64>, st: RxState, n: nat) -> RxState
    decreases n,
{
    if n == 0 {
        st
    } else {
        rx_polled(q, bufs, rx_taken(q, bufs, st), (n - 1) as nat)
    }
}

/// Receiving keeps as many buffers with the device as it had: one that is taken
/// is given back.
pub proof fn buffers_stay_posted(q: Virtqueue, bufs: Seq<u64>, st: RxState)
    requires
        used_at(st.bytes, q.used_phys, q.queue_size, st.last_used_idx).id < 16,
    ensures
        ({
            let after = rx_taken(q, bufs, st);
            ahead(after.last_used_idx, after.avail_idx) == ahead(st.last_used_idx, st.avail_idx)
        }),
{
}

/// How far the index `to` is ahead of `from`; they wrap around at 65536.
pub open spec fn ahead(from: u16, to: u16) -> nat {
    if to >= from {
        (to - from) as nat
    } else {
        (to - from + 65536) as nat
    }
}

/// The bytes of each packet.
pub open spec fn packets_of(v: Seq<Vec<u8>>) -> Seq<Seq<u8>> {
    v.map_values(|p: Vec<u8>| p@)
}

/// What receiving does to a device and memory, the packets that it gives, and
/// the notification that it ends with.
pub open spec fn rx_done(
    before: NetDevice,
    after: NetDevice,
    m0: &PhysMem,
    m1: &PhysMem,
    packets: Seq<Vec<u8>>,
    notify: MmioWrite,
) -> bool {
    &&& after.rx_state(m1.bytes@, packets_of(packets)) == rx_polled(
        before.rx,
        before.rx_bufs@,
        before.rx_state(m0.bytes@, Seq::empty()),
        ahead(before.rx.last_used_idx, le_u16(m0.bytes@, before.rx.used_phys + 2)),
    )
    &&& after == (NetDevice {
        rx: Virtqueue {
            avail_idx: after.rx.avail_idx,
            last_used_idx: after.rx.last_used_idx,
            ..before.rx
        },
        ..before
    })
    &&& m1.pool == m0.pool
    &&& m1.freed == m0.freed
    &&& notify == before.transport.notification(RX_QUEUE, before.rx_notify_off)
}

/// Memory `m` after a packet has been put in the transmit buffer and offered.
pub open spec fn sent(m: Seq<u8>, q: Virtqueue, tx_buf: u64, frame: Seq<u8>) -> Seq<u8> {
    let zeroes = Seq::new(12, |i: int| 0u8);
    let body = if frame.len() <= 1514 {
        frame
    } else {
        frame.take(1514)
    };
    offered(
        overwrite(
            overwrite(overwrite(m, tx_buf as int, zeroes), tx_buf + 12, body),
            q.desc_phys as int,
            desc_bytes(
                VirtqDesc { addr: tx_buf, len: (12 + body.len()) as u32, flags: 0, next: 0 },
            ),
        ),
        q.avail_phys,
        q.queue_size,
        q.avail_idx,
        0,
    )
}

/// Whether a packet has been sent.
#[derive(Clone, Copy, Debug, PartialEq, Eq, Structural)]
pub enum TxPoll {
    Sent,
    GivenUp,
    /// Look again.
    Again,
}

impl NetDevice {
    pub open spec fn wf(&self, mem: &PhysMem) -> bool {
        &&& self.rx.wf(mem)
        &&& self.tx.wf(mem)
        &&& mem.holds(self.tx_buf)
        &&& forall|i: int| 0 <= i < 16 ==> mem.holds(#[trigger] self.rx_bufs@[i])
        &&& self.transport.can_notify(self.rx_notify_off)
        &&& self.transport.can_notify(self.tx_notify_off)
    }

    /// A device with buffers of its own, whose queues have been set up.
    pub fn new(
        mem: &mut PhysMem,
        transport: VirtioTransport,
        rx: Virtqueue,
        tx: Virtqueue,
        rx_notify_off: u16,
        tx_notify_off: u16,
        mac: [u8; 6],
    ) -> (r: Self)
        requires
            old(mem).wf(),
            old(mem).pool@.len() >= 17,
            rx.wf(old(mem)),
            tx.wf(old(mem)),
            transport.can_notify(rx_notify_off),
            transport.can_notify(tx_notify_off),
        ensures
            final(mem).wf(),
            r.wf(final(mem)),
            r.transport == transport,
            r.rx == rx,
            r.tx == tx,
            r.rx_notify_off == rx_notify_off,
            r.tx_notify_off == tx_notify_off,
            r.mac == mac,
            forall|i: int| 0 <= i < 16 ==> #[trigger] r.rx_bufs@[i] == old(mem).nth_free(i),
            r.tx_buf == old(mem).nth_free(16),
            final(mem).pool@ == old(mem).pool@.take(old(mem).pool@.len() - 17),
            final(mem).bytes == old(mem).bytes,
            final(mem).freed == old(mem).freed,
    {
        let ghost pool = mem.pool@;
        let mut rx_bufs: [u64; RX_BUFFER_COUNT] = [0;16];
        let mut i: usize = 0;
        while i < RX_BUFFER_COUNT
            invariant
                i <= 16,
                pool.len() >= 17,
                pool == old(mem).pool@,
                mem.wf(),
                mem.bytes == old(mem).bytes,
                mem.freed == old(mem).freed,
                mem.pool@ == pool.take(pool.len() - i),
                forall|j: int| 0 <= j < i ==> #[trigger] rx_bufs@[j] == pool[pool.len() - 1 - j],
                forall|j: int| 0 <= j < i ==> mem.holds(#[trigger] rx_bufs@[j]),
            decreases 16 - i,
        {
            let f = mem.alloc_frame();
            rx_bufs[i] = f.0;
            i += 1;
            assert(mem.pool@ =~= pool.take(pool.len() - i));
        }
        let tx_buf: u64 = mem.alloc_frame().0;
        assert(mem.pool@ =~= pool.take(pool.len() - 17));
        NetDevice { transport, rx, tx, rx_notify_off, tx_notify_off, rx_bufs, tx_buf, mac }
    }

    /// Give receive buffer `id` to the device.
    fn post(&mut self, mem: &mut PhysMem, id: usize)
        requires
            old(self).wf(old(mem)),
            id < 16,
        ensures
            final(self).wf(final(mem)),
            *final(self) == (NetDevice {
                rx: Virtqueue {
                    avail_idx: old(self).rx.avail_idx.wrapping_add(1),
                    ..old(self).rx
                },
                ..*old(self)
            }),
            final(mem).bytes@ == posted(
                old(mem).bytes@,
                old(self).rx,
                old(self).rx_bufs@,
                old(self).rx.avail_idx,
                id as int,
            ),
            final(mem).pool == old(mem).pool,
            final(mem).freed == old(mem).freed,
    {
        self.rx.write_desc(mem, id, self.rx_bufs[id], BUF_LEN, VIRTQ_DESC_F_WRITE, 0);
        self.rx.push_avail(mem, id as u16);
        proof {
            assert(mem.bytes@.len() == old(mem).bytes@.len());
            assert forall|i: int| 0 <= i < 16 implies mem.holds(#[trigger] self.rx_bufs@[i]) by {
                assert(old(mem).holds(old(self).rx_bufs@[i]));
            }
        }
    }

    /// Give all receive buffers to the device.
    pub fn fill_rx(&mut self, mem: &mut PhysMem) -> (r: MmioWrite)
        requires
            old(self).wf(old(mem)),
        ensures
            final(self).wf(final(mem)),
            *final(self) == (NetDevice {
                rx: Virtqueue {
                    avail_idx: ((old(self).rx.avail_idx + 16) % 65536) as u16,
                    ..old(self).rx
                },
                ..*old(self)
            }),
            final(mem).bytes@ == all_posted(old(mem).bytes@, old(self).rx, old(self).rx_bufs@, 16),
            final(mem).pool == old(mem).pool,
            final(mem).freed == old(mem).freed,
            r == old(self).transport.notification(RX_QUEUE, old(self).rx_notify_off),
    {
        let mut i: usize = 0;
        while i < RX_BUFFER_COUNT
            invariant
                i <= 16,
                self.wf(mem),
                *self == (NetDevice {
                    rx: Virtqueue {
                        avail_idx: ((old(self).rx.avail_idx + i) % 65536) as u16,
                        ..old(self).rx
                    },
                    ..*old(self)
                }),
                mem.bytes@ == all_posted(
                    old(mem).bytes@,
                    old(self).rx,
                    old(self).rx_bufs@,
                    i as nat,
                ),
                mem.pool == old(mem).pool,
                mem.freed == old(mem).freed,
            decreases 16 - i,
        {
            self.post(mem, i);
            i += 1;
        }
        self.transport.notify_queue(RX_QUEUE, self.rx_notify_off)
    }

    /// Send a packet: what is beyond the size of the largest frame is cut off.
    /// Whether it has gone out is for [`NetDevice::transmit_poll`] to tell.
    pub fn transmit(&mut self, mem: &mut PhysMem, frame: &[u8]) -> (r: MmioWrite)
        requires
            old(self).wf(old(mem)),
        ensures
            final(self).wf(final(mem)),
            *final(self) == (NetDevice {
                tx: Virtqueue {
                    avail_idx: old(self).tx.avail_idx.wrapping_add(1),
                    ..old(self).tx
                },
                ..*old(self)
            }),
            final(mem).bytes@ == sent(old(mem).bytes@, old(self).tx, old(self).tx_buf, frame@),
            final(mem).pool == old(mem).pool,
            final(mem).freed == old(mem).freed,
            r == old(self).transport.notification(TX_QUEUE, old(self).tx_notify_off),
    {
        let len: usize = if frame.len() <= ETH_FRAME_MAX {
            frame.len()
        } else {
            ETH_FRAME_MAX
        };
        let header: [u8; 12] = [0;12];
        assert(header@ =~= Seq::new(12, |i: int| 0u8));
        mem.write_bytes(self.tx_buf, &header);
        let body = vstd::slice::slice_subrange(frame, 0, len);
        assert(body@ =~= if frame@.len() <= 1514 {
            frame@
        } else {
            frame@.take(1514)
        });
        mem.write_bytes(self.tx_buf + NET_HDR_LEN as u64, body);
        self.tx.write_desc(mem, 0, self.tx_buf, (NET_HDR_LEN + len) as u32, 0, 0);
        self.tx.push_avail(mem, 0);
        proof {
            assert(mem.bytes@.len() == old(mem).bytes@.len());
            assert forall|i: int| 0 <= i < 16 implies mem.holds(#[trigger] self.rx_bufs@[i]) by {
                assert(old(mem).holds(old(self).rx_bufs@[i]));
            }
        }
        self.transport.notify_queue(TX_QUEUE, self.tx_notify_off)
    }

    /// See whether the packet has been sent, after `polls` looks in vain.
    pub fn transmit_poll(&mut self, mem: &PhysMem, polls: u32) -> (r: TxPoll)
        requires
            old(self).wf(mem),
        ensures
            final(self).wf(mem),
            if polls >= TX_POLL_LIMIT {
                r == TxPoll::GivenUp && *final(self) == *old(self)
            } else if le_u16(mem.bytes@, old(self).tx.used_phys + 2) == old(
                self,
            ).tx.last_used_idx {
                r == TxPoll::Again && *final(self) == *old(self)
            } else {
                &&& r == TxPoll::Sent
                &&& *final(self) == (NetDevice {
                    tx: Virtqueue {
                        last_used_idx: old(self).tx.last_used_idx.wrapping_add(1),
                        ..old(self).tx
                    },
                    ..*old(self)
                })
            },
    {
        if polls >= TX_POLL_LIMIT {
            return TxPoll::GivenUp;
        }
        match self.tx.pop_used(mem) {
            Some(_) => TxPoll::Sent,
            None => TxPoll::Again,
        }
    }

    /// What receiving changes of this device and memory `m`.
    pub open spec fn rx_state(&self, m: Seq<u8>, packets: Seq<Seq<u8>>) -> RxState {
        RxState {
            bytes: m,
            avail_idx: self.rx.avail_idx,
            last_used_idx: self.rx.last_used_idx,
            packets,
        }
    }

    /// Take all packets that the device has received, and give it the buffers
    /// back.
    pub fn poll_rx(&mut self, mem: &mut PhysMem) -> (r: (Vec<Vec<u8>>, MmioWrite))
        requires
            old(self).wf(old(mem)),
        ensures
            final(self).wf(final(mem)),
            rx_done(*old(self), *final(self), old(mem), final(mem), r.0@, r.1),
    {
        let mut packets: Vec<Vec<u8>> = Vec::new();
        let ghost q = self.rx;
        let ghost bufs = self.rx_bufs@;
        let ghost st0 = self.rx_state(mem.bytes@, Seq::empty());
        let ghost dev = le_u16(mem.bytes@, self.rx.used_phys + 2);
        let ghost n = ahead(self.rx.last_used_idx, dev);
        assert(packets_of(packets@) =~= Seq::<Seq<u8>>::empty());
        loop
            invariant
                self.wf(mem),
                *self == (NetDevice {
                    rx: Virtqueue {
                        avail_idx: self.rx.avail_idx,
                        last_used_idx: self.rx.last_used_idx,
                        ..q
                    },
                    ..*old(self)
                }),
                q == old(self).rx,
                bufs == old(self).rx_bufs@,
                dev == le_u16(mem.bytes@, q.used_phys + 2),
                mem.pool == old(mem).pool,
                mem.freed == old(mem).freed,
                rx_polled(q, bufs, st0, n) == rx_polled(
                    q,
                    bufs,
                    self.rx_state(mem.bytes@, packets_of(packets@)),
                    ahead(self.rx.last_used_idx, dev),
                ),
            ensures
                self.wf(mem),
                self.rx_state(mem.bytes@, packets_of(packets@)) == rx_polled(q, bufs, st0, n),
            decreases ahead(self.rx.last_used_idx, dev),
        {
            let ghost st = self.rx_state(mem.bytes@, packets_of(packets@));
            let ghost before = packets@;
            match self.rx.pop_used(mem) {
                None => {
                    break;
                },
                Some((id, total_len)) => {
                    if (id as usize) < RX_BUFFER_COUNT {
                        if total_len as usize >= NET_HDR_LEN {
                            let mut len: usize = total_len as usize - NET_HDR_LEN;
                            if len > ETH_FRAME_MAX {
                                len = ETH_FRAME_MAX;
                            }
                            assert(mem.holds(self.rx_bufs@[id as int]));
                            let at: u64 = self.rx_bufs[id as usize] + NET_HDR_LEN as u64;
                            let packet = mem.read_bytes(at, len);
                            packets.push(packet);
                            assert(packets_of(packets@) =~= packets_of(before).push(packet@));
                        }
                        let ghost m0 = mem.bytes@;
                        self.post(mem, id as usize);
                        proof {
                            lemma_post_keeps_used(m0, q, bufs, st.avail_idx, id as int);
                        }
                    }
                    assert(self.rx_state(mem.bytes@, packets_of(packets@)) == rx_taken(
                        q,
                        bufs,
                        st,
                    ));
                },
            }
        }
        let notify = self.transport.notify_queue(RX_QUEUE, self.rx_notify_off);
        (packets, notify)
    }
}

/// Giving a buffer back does not touch what the device writes.
#[verifier::spinoff_prover]
proof fn lemma_post_keeps_used(m: Seq<u8>, q: Virtqueue, bufs: Seq<u64>, idx: u16, id: int)
    requires
        0 < q.queue_size <= 256,
        0 <= id < 16,
        q.desc_phys % 4096 == 0,
        q.avail_phys % 4096 == 0,
        q.used_phys % 4096 == 0,
        q.desc_phys != q.used_phys,
        q.avail_phys != q.used_phys,
        q.used_phys + 4096 <= m.len(),
    ensures
        le_u16(posted(m, q, bufs, idx, id), q.used_phys + 2) == le_u16(m, q.used_phys + 2),
{
    let after = posted(m, q, bufs, idx, id);
    let slot = slot_of(idx, q.queue_size);
    let at = q.used_phys + 2;
    assert(0 <= slot < 256);
    assert(q.desc_phys + 4096 <= q.used_phys || q.used_phys + 4096 <= q.desc_phys);
    assert(q.avail_phys + 4096 <= q.used_phys || q.used_phys + 4096 <= q.avail_phys);
    let desc = desc_bytes(rx_desc(bufs[id]));
    assert(desc.len() == 16);
    let with_desc = overwrite(m, q.desc_phys + 16 * id, desc);
    assert(with_desc[at] == m[at] && with_desc[at + 1] == m[at + 1]);
    assert(after[at] == with_desc[at] && after[at + 1] == with_desc[at + 1]);
    crate::bytes::lemma_le_u16_same(after, q.used_phys + 2, m, q.used_phys + 2);
}

} // verus!
