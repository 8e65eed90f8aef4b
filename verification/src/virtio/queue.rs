//! Split virtqueues: a table of descriptors, the ring of those that the driver
//! offers, and the ring of those that the device has used. Each lies in a frame
//! of its own.

use vstd::prelude::*;
use crate::bytes::{bytes16, bytes32, bytes64, bytes_round_trip, le_u16, le_u32, lemma_le_u16_same, overwrite, read_u16, read_u32, u16_bytes, u32_bytes, u64_bytes};
use crate::mem::{zero_page, PhysMem};

verus! {

/// Most entries of a queue: its descriptors fill one frame.
pub const MAX_QUEUE_SIZE: u16 = 256;

/// A buffer that the device reads or writes.
#[derive(Clone, Copy, Debug, PartialEq, Eq, Structural)]
pub struct VirtqDesc {
    pub addr: u64,
    pub len: u32,
    pub flags: u16,
    pub next: u16,
}

/// A buffer that the device has used.
#[derive(Clone, Copy, Debug, PartialEq, Eq, Structural)]
pub struct VirtqUsedElem {
    pub id: u32,
    pub len: u32,
}

/// The buffer goes on in descriptor `next`.
pub const VIRTQ_DESC_F_NEXT: u16 = 1;

/// The device writes the buffer.
pub const VIRTQ_DESC_F_WRITE: u16 = 2;

/// The place in a ring of a free-running index.
pub open spec fn slot_of(idx: u16, queue_size: u16) -> int {
    idx as int % queue_size as int
}

pub fn ring_slot(idx: u16, queue_size: u16) -> (r: usize)
    requires
        queue_size > 0,
    ensures
        r == slot_of(idx, queue_size),
        r < queue_size,
{
    (idx % queue_size) as usize
}

/// Indices that follow each other have places that follow each other, also
/// where the index wraps around at 65536, if the size of the queue divides that.
pub proof fn slots_follow_each_other(idx: u16, queue_size: u16)
    requires
        queue_size > 0,
        65536int % (queue_size as int) == 0,
    ensures
        slot_of(idx.wrapping_add(1), queue_size) == (slot_of(idx, queue_size) + 1)
            % queue_size as int,
{
    let q = queue_size as int;
    let i = idx as int;
    vstd::arithmetic::div_mod::lemma_add_mod_noop(i, 1, q);
    if idx < u16::MAX {
        assert(idx.wrapping_add(1) == i + 1);
        if q > 1 {
            vstd::arithmetic::div_mod::lemma_small_mod(1, q as nat);
        }
    } else {
        assert(idx.wrapping_add(1) == 0);
        assert(i + 1 == 65536);
        if q > 1 {
            vstd::arithmetic::div_mod::lemma_small_mod(1, q as nat);
        }
        vstd::arithmetic::div_mod::lemma_small_mod(0, q as nat);
    }
}

/// How a descriptor lies in memory.
pub open spec fn desc_bytes(d: VirtqDesc) -> Seq<u8> {
    bytes64(d.addr) + bytes32(d.len) + bytes16(d.flags) + bytes16(d.next)
}

/// Memory `m` after descriptor `d` has been offered at index `idx` of the ring
/// at `avail`.
pub open spec fn offered(m: Seq<u8>, avail: u64, size: u16, idx: u16, d: u16) -> Seq<u8> {
    overwrite(
        overwrite(m, avail + 4 + 2 * slot_of(idx, size), bytes16(d)),
        avail + 2,
        bytes16(idx.wrapping_add(1)),
    )
}

/// What the device says of the buffer at index `idx` of the ring at `used`.
pub open spec fn used_at(m: Seq<u8>, used: u64, size: u16, idx: u16) -> VirtqUsedElem {
    VirtqUsedElem {
        id: le_u32(m, used + 4 + 8 * slot_of(idx, size)),
        len: le_u32(m, used + 4 + 8 * slot_of(idx, size) + 4),
    }
}

/// The driver's side of one queue.
#[derive(Clone, Copy, Debug, PartialEq, Eq, Structural)]
pub struct Virtqueue {
    pub queue_size: u16,
    pub desc_phys: u64,
    pub avail_phys: u64,
    pub used_phys: u64,
    /// The index that is offered next; it wraps around at 65536.
    pub avail_idx: u16,
    /// The index up to which used buffers have been taken.
    pub last_used_idx: u16,
}

impl Virtqueue {
    /// The queue lies in three different frames of `mem`.
    pub open spec fn wf(&self, mem: &PhysMem) -> bool {
        &&& 0 < self.queue_size <= 256
        &&& mem.holds(self.desc_phys)
        &&& mem.holds(self.avail_phys)
        &&& mem.holds(self.used_phys)
        &&& self.desc_phys != self.avail_phys
        &&& self.desc_phys != self.used_phys
        &&& self.avail_phys != self.used_phys
    }

    /// A queue of `queue_size` entries in three frames of zeroes.
    pub fn new(mem: &mut PhysMem, queue_size: u16) -> (r: Self)
        requires
            old(mem).wf(),
            old(mem).pool@.len() >= 3,
            0 < queue_size <= MAX_QUEUE_SIZE,
        ensures
            final(mem).wf(),
            r == (Virtqueue {
                queue_size,
                desc_phys: old(mem).nth_free(0),
                avail_phys: old(mem).nth_free(1),
                used_phys: old(mem).nth_free(2),
                avail_idx: 0,
                last_used_idx: 0,
            }),
            r.wf(final(mem)),
            final(mem).pool@ == old(mem).pool@.take(old(mem).pool@.len() - 3),
            final(mem).freed == old(mem).freed,
            final(mem).bytes@ == overwrite(
                overwrite(
                    overwrite(old(mem).bytes@, r.desc_phys as int, zero_page()),
                    r.avail_phys as int,
                    zero_page(),
                ),
                r.used_phys as int,
                zero_page(),
            ),
    {
        let ghost pool = mem.pool@;
        let ghost n = pool.len();
        let desc = mem.alloc_frame();
        let avail = mem.alloc_frame();
        let used = mem.alloc_frame();
        assert(mem.pool@ =~= pool.take(n - 3));
        proof {
            assert(old(mem).holds(pool[n - 1]));
            assert(old(mem).holds(pool[n - 2]));
            assert(old(mem).holds(pool[n - 3]));
        }
        mem.zero_frame(desc);
        mem.zero_frame(avail);
        mem.zero_frame(used);
        proof {
            assert forall|i: int| 0 <= i < mem.pool@.len() implies mem.holds(
                #[trigger] mem.pool@[i],
            ) by {
                assert(old(mem).holds(pool[i]));
            }
        }
        Virtqueue {
            queue_size,
            desc_phys: desc.0,
            avail_phys: avail.0,
            used_phys: used.0,
            avail_idx: 0,
            last_used_idx: 0,
        }
    }

    /// Write descriptor `index`.
    pub fn write_desc(
        &self,
        mem: &mut PhysMem,
        index: usize,
        addr: u64,
        len: u32,
        flags: u16,
        next: u16,
    )
        requires
            self.wf(old(mem)),
            index < MAX_QUEUE_SIZE,
        ensures
            final(mem).bytes@ == overwrite(
                old(mem).bytes@,
                self.desc_phys + 16 * index,
                desc_bytes(VirtqDesc { addr, len, flags, next }),
            ),
            final(mem).pool == old(mem).pool,
            final(mem).freed == old(mem).freed,
    {
        let at: u64 = self.desc_phys + 16 * index as u64;
        let mut b: Vec<u8> = Vec::new();
        let a = u64_bytes(addr);
        let l = u32_bytes(len);
        let f = u16_bytes(flags);
        let x = u16_bytes(next);
        b.extend_from_slice(&a);
        b.extend_from_slice(&l);
        b.extend_from_slice(&f);
        b.extend_from_slice(&x);
        assert(b@ =~= desc_bytes(VirtqDesc { addr, len, flags, next }));
        mem.write_bytes(at, b.as_slice());
    }

    /// Offer descriptor `desc_index` to the device: first the entry of the ring,
    /// then the index that makes it visible.
    pub fn push_avail(&mut self, mem: &mut PhysMem, desc_index: u16)
        requires
            old(self).wf(old(mem)),
        ensures
            *final(self) == (Virtqueue {
                avail_idx: old(self).avail_idx.wrapping_add(1),
                ..*old(self)
            }),
            final(self).wf(final(mem)),
            final(mem).bytes@ == offered(
                old(mem).bytes@,
                old(self).avail_phys,
                old(self).queue_size,
                old(self).avail_idx,
                desc_index,
            ),
            final(mem).pool == old(mem).pool,
            final(mem).freed == old(mem).freed,
    {
        let slot: usize = ring_slot(self.avail_idx, self.queue_size);
        let entry = u16_bytes(desc_index);
        mem.write_bytes(self.avail_phys + 4 + 2 * slot as u64, &entry);
        self.avail_idx = self.avail_idx.wrapping_add(1);
        let idx = u16_bytes(self.avail_idx);
        mem.write_bytes(self.avail_phys + 2, &idx);
    }

    /// The index up to which the device has used buffers.
    pub fn used_idx(&self, mem: &PhysMem) -> (r: u16)
        requires
            self.wf(mem),
        ensures
            r == le_u16(mem.bytes@, self.used_phys + 2),
    {
        assert(mem.bytes@.len() == mem.bytes.len());
        read_u16(mem.bytes.as_slice(), self.used_phys as usize + 2)
    }

    /// Take the next buffer that the device has used, if there is one: its
    /// descriptor and how many bytes were written.
    pub fn pop_used(&mut self, mem: &PhysMem) -> (r: Option<(u32, u32)>)
        requires
            old(self).wf(mem),
        ensures
            final(self).wf(mem),
            if le_u16(mem.bytes@, old(self).used_phys + 2) == old(self).last_used_idx {
                r is None && *final(self) == *old(self)
            } else {
                let e = used_at(
                    mem.bytes@,
                    old(self).used_phys,
                    old(self).queue_size,
                    old(self).last_used_idx,
                );
                &&& r == Some((e.id, e.len))
                &&& *final(self) == (Virtqueue {
                    last_used_idx: old(self).last_used_idx.wrapping_add(1),
                    ..*old(self)
                })
            },
    {
        if self.used_idx(mem) == self.last_used_idx {
            return None;
        }
        let slot: usize = ring_slot(self.last_used_idx, self.queue_size);
        assert(mem.bytes@.len() == mem.bytes.len());
        let at: usize = self.used_phys as usize + 4 + 8 * slot;
        let id: u32 = read_u32(mem.bytes.as_slice(), at);
        let len: u32 = read_u32(mem.bytes.as_slice(), at + 4);
        self.last_used_idx = self.last_used_idx.wrapping_add(1);
        Some((id, len))
    }

    /// Set the flags of the ring that the driver fills.
    pub fn set_avail_flags(&self, mem: &mut PhysMem, flags: u16)
        requires
            self.wf(old(mem)),
        ensures
            final(mem).bytes@ == overwrite(
                old(mem).bytes@,
                self.avail_phys as int,
                bytes16(flags),
            ),
            final(mem).pool == old(mem).pool,
            final(mem).freed == old(mem).freed,
    {
        let b = u16_bytes(flags);
        mem.write_bytes(self.avail_phys, &b);
    }

    /// The flags of the ring that the device fills.
    pub fn used_flags(&self, mem: &PhysMem) -> (r: u16)
        requires
            self.wf(mem),
        ensures
            r == le_u16(mem.bytes@, self.used_phys as int),
    {
        assert(mem.bytes@.len() == mem.bytes.len());
        read_u16(mem.bytes.as_slice(), self.used_phys as usize)
    }
}

/// What the driver offers is what the device finds: the descriptor at the index
/// that it was offered at, and that index made visible.
pub proof fn offer_is_seen(m: Seq<u8>, avail: u64, size: u16, idx: u16, d: u16)
    requires
        0 < size <= 256,
        avail + 4096 <= m.len(),
    ensures
        le_u16(offered(m, avail, size, idx, d), avail + 2) == idx.wrapping_add(1),
        le_u16(offered(m, avail, size, idx, d), avail + 4 + 2 * slot_of(idx, size)) == d,
{
    let after = offered(m, avail, size, idx, d);
    let slot = slot_of(idx, size);
    assert(0 <= slot < 256);
    bytes_round_trip(d, 0, 0);
    bytes_round_trip(idx.wrapping_add(1), 0, 0);
    lemma_le_u16_same(after, avail + 2, bytes16(idx.wrapping_add(1)), 0);
    lemma_le_u16_same(after, avail + 4 + 2 * slot, bytes16(d), 0);
}

} // verus!
