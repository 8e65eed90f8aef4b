//! What the network device sees, and what is handed out of what it received.

use vstd::prelude::*;
use crate::bytes::{bytes16, bytes32, bytes64, le_u16, overwrite};
use crate::mem::PhysMem;
use crate::numbers::{fields_are_read_least_byte_first, fields_are_written_least_byte_first, number_at};
use super::device::MmioWrite;
use super::net::{ahead, all_posted, packets_of, posted, rx_desc, rx_done, rx_polled, rx_taken, sent, NetDevice, RxState};
use super::queue::{desc_bytes, offered, used_at, Virtqueue, VirtqDesc};

verus! {

proof fn lemma_same_number(a: Seq<u8>, b: Seq<u8>, at: int, to: int, n: nat)
    requires
        forall|i: int| 0 <= i < n ==> #[trigger] a[at + i] == b[to + i],
    ensures
        number_at(a, at, n) == number_at(b, to, n),
    decreases n,
{
    if n > 0 {
        assert(a[at + 0] == b[to + 0]);
        assert forall|i: int| 0 <= i < n - 1 implies #[trigger] a[at + 1 + i] == b[to + 1 + i] by {
            assert(a[at + (i + 1)] == b[to + (i + 1)]);
        }
        lemma_same_number(a, b, at + 1, to + 1, (n - 1) as nat);
    }
}

/// Two bytes that hold `v` are read as `v`.
proof fn lemma_word(m: Seq<u8>, at: int, v: u16)
    requires
        m[at] == bytes16(v)[0],
        m[at + 1] == bytes16(v)[1],
    ensures
        number_at(m, at, 2) == v,
{
    fields_are_written_least_byte_first(v, 0, 0);
    assert forall|i: int| 0 <= i < 2 implies #[trigger] m[at + i] == bytes16(v)[0 + i] by {}
    lemma_same_number(m, bytes16(v), at, 0, 2);
}

/// The device finds buffer `id` offered under index `idx`: the index moved on by one,
/// and the ring names the descriptor where the device looks for it.
pub open spec fn device_is_offered(m: Seq<u8>, avail: u64, size: u16, idx: u16, id: int) -> bool {
    &&& number_at(m, avail + 2, 2) == (idx + 1) % 65536
    &&& number_at(m, avail + 4 + 2 * (idx as int % size as int), 2) == id
}

/// The device reads descriptor `id` as that of the `len` bytes at `addr`, which it may
/// write to if `writable`. No other descriptor follows.
pub open spec fn device_reads(
    m: Seq<u8>,
    desc: u64,
    id: int,
    addr: u64,
    len: int,
    writable: bool,
) -> bool {
    &&& number_at(m, desc + 16 * id, 8) == addr
    &&& number_at(m, desc + 16 * id + 8, 4) == len
    &&& number_at(m, desc + 16 * id + 12, 2) == (if writable {
        2int
    } else {
        0
    })
}

proof fn lemma_offer(m: Seq<u8>, avail: u64, size: u16, idx: u16, id: u16)
    requires
        0 < size <= 256,
        avail + 4096 <= m.len(),
    ensures
        device_is_offered(offered(m, avail, size, idx, id), avail, size, idx, id as int),
        forall|i: int|
            0 <= i < m.len() && !(avail <= i < avail + 4096) ==> #[trigger] offered(
                m,
                avail,
                size,
                idx,
                id,
            )[i] == m[i],
        offered(m, avail, size, idx, id).len() == m.len(),
{
    let r = offered(m, avail, size, idx, id);
    let slot = idx as int % size as int;
    assert(0 <= slot < 256);
    lemma_word(r, avail + 2, idx.wrapping_add(1));
    lemma_word(r, avail + 4 + 2 * slot, id);
}

proof fn lemma_desc(m: Seq<u8>, desc: u64, id: int, d: VirtqDesc)
    requires
        forall|i: int|
            0 <= i < 16 ==> #[trigger] m[desc + 16 * id + i] == desc_bytes(d)[i],
    ensures
        number_at(m, desc + 16 * id, 8) == d.addr,
        number_at(m, desc + 16 * id + 8, 4) == d.len,
        number_at(m, desc + 16 * id + 12, 2) == d.flags,
        number_at(m, desc + 16 * id + 14, 2) == d.next,
{
    let at = desc + 16 * id;
    fields_are_written_least_byte_first(d.flags, d.len, d.addr);
    assert forall|i: int| 0 <= i < 8 implies #[trigger] m[at + i] == bytes64(d.addr)[0 + i] by {
        assert(m[desc + 16 * id + i] == desc_bytes(d)[i]);
    }
    lemma_same_number(m, bytes64(d.addr), at, 0, 8);
    assert forall|i: int| 0 <= i < 4 implies #[trigger] m[at + 8 + i] == bytes32(d.len)[0 + i] by {
        assert(m[desc + 16 * id + (8 + i)] == desc_bytes(d)[8 + i]);
    }
    lemma_same_number(m, bytes32(d.len), at + 8, 0, 4);
    assert(m[desc + 16 * id + 12] == desc_bytes(d)[12]);
    assert(m[desc + 16 * id + 13] == desc_bytes(d)[13]);
    lemma_word(m, at + 12, d.flags);
    assert(m[desc + 16 * id + 14] == desc_bytes(d)[14]);
    assert(m[desc + 16 * id + 15] == desc_bytes(d)[15]);
    lemma_word(m, at + 14, d.next);
}

/// A frame that is sent is what the device reads: it is offered one descriptor, of
/// twelve zero bytes, the header, and then the frame, of which it gets 1514 bytes at
/// most.
pub proof fn device_sees_the_frame(mem: &PhysMem, q: Virtqueue, tx_buf: u64, frame: Seq<u8>, i: int)
    requires
        q.wf(mem),
        mem.holds(tx_buf),
        tx_buf != q.desc_phys,
        tx_buf != q.avail_phys,
    ensures
        ({
            let m = sent(mem.bytes@, q, tx_buf, frame);
            let n = if frame.len() <= 1514 {
                frame.len() as int
            } else {
                1514
            };
            &&& device_is_offered(m, q.avail_phys, q.queue_size, q.avail_idx, 0)
            &&& device_reads(m, q.desc_phys, 0, tx_buf, 12 + n, false)
            &&& 0 <= i < 12 ==> m[tx_buf + i] == 0
            &&& 0 <= i < n ==> m[tx_buf + 12 + i] == frame[i]
        }),
{
    lemma_sent(mem.bytes@, q, tx_buf, frame);
    lemma_frame_seen(mem.bytes@, q, tx_buf, cut(frame), i);
}

proof fn lemma_frame_seen(m0: Seq<u8>, q: Virtqueue, tx_buf: u64, body: Seq<u8>, i: int)
    requires
        0 < q.queue_size <= 256,
        q.desc_phys % 4096 == 0,
        q.avail_phys % 4096 == 0,
        tx_buf % 4096 == 0,
        q.desc_phys + 4096 <= m0.len(),
        q.avail_phys + 4096 <= m0.len(),
        tx_buf + 4096 <= m0.len(),
        q.desc_phys != q.avail_phys,
        tx_buf != q.desc_phys,
        tx_buf != q.avail_phys,
        body.len() <= 1514,
    ensures
        ({
            let d = VirtqDesc { addr: tx_buf, len: (12 + body.len()) as u32, flags: 0, next: 0 };
            let m = described(framed(m0, tx_buf, body), q, 0, d, q.avail_idx);
            &&& device_is_offered(m, q.avail_phys, q.queue_size, q.avail_idx, 0)
            &&& device_reads(m, q.desc_phys, 0, tx_buf, (12 + body.len()) as int, false)
            &&& 0 <= i < 12 ==> m[tx_buf + i] == 0
            &&& 0 <= i < body.len() ==> m[tx_buf + 12 + i] == body[i]
        }),
{
    let d = VirtqDesc { addr: tx_buf, len: (12 + body.len()) as u32, flags: 0, next: 0 };
    let a = framed(m0, tx_buf, body);
    let m = described(a, q, 0, d, q.avail_idx);
    lemma_framed(m0, tx_buf, body, i);
    lemma_described(a, q, 0, d, q.avail_idx);
    assert(tx_buf + 4096 <= q.avail_phys || q.avail_phys + 4096 <= tx_buf);
    assert(tx_buf + 4096 <= q.desc_phys || q.desc_phys + 4096 <= tx_buf);
    if 0 <= i < 12 {
        assert(m[tx_buf + i] == a[tx_buf + i]);
    }
    if 0 <= i < body.len() {
        assert(m[tx_buf + 12 + i] == a[tx_buf + 12 + i]);
    }
}

/// `a` with descriptor `id` written and offered.
#[verifier::opaque]
spec fn described(a: Seq<u8>, q: Virtqueue, id: int, d: VirtqDesc, idx: u16) -> Seq<u8> {
    offered(
        overwrite(a, q.desc_phys + 16 * id, desc_bytes(d)),
        q.avail_phys,
        q.queue_size,
        idx,
        id as u16,
    )
}

/// `m` with a frame and its header at `tx_buf`.
#[verifier::opaque]
spec fn framed(m: Seq<u8>, tx_buf: u64, body: Seq<u8>) -> Seq<u8> {
    overwrite(overwrite(m, tx_buf as int, Seq::new(12, |k: int| 0u8)), tx_buf + 12, body)
}

spec fn cut(frame: Seq<u8>) -> Seq<u8> {
    if frame.len() <= 1514 {
        frame
    } else {
        frame.take(1514)
    }
}

spec fn frame_desc(tx_buf: u64, frame: Seq<u8>) -> VirtqDesc {
    VirtqDesc { addr: tx_buf, len: (12 + cut(frame).len()) as u32, flags: 0, next: 0 }
}

proof fn lemma_sent(m: Seq<u8>, q: Virtqueue, tx_buf: u64, frame: Seq<u8>)
    ensures
        sent(m, q, tx_buf, frame) == described(
            framed(m, tx_buf, cut(frame)),
            q,
            0,
            frame_desc(tx_buf, frame),
            q.avail_idx,
        ),
{
    reveal(described);
    reveal(framed);
    assert(q.desc_phys + 16 * 0 == q.desc_phys);
}

proof fn lemma_framed(m: Seq<u8>, tx_buf: u64, body: Seq<u8>, i: int)
    requires
        tx_buf + 12 + body.len() <= m.len(),
    ensures
        framed(m, tx_buf, body).len() == m.len(),
        0 <= i < 12 ==> framed(m, tx_buf, body)[tx_buf + i] == 0,
        0 <= i < body.len() ==> framed(m, tx_buf, body)[tx_buf + 12 + i] == body[i],
{
    reveal(framed);
}

/// Writing a descriptor and offering it is seen by the device, and changes nothing
/// but the driver's two tables.
proof fn lemma_described(a: Seq<u8>, q: Virtqueue, id: int, d: VirtqDesc, idx: u16)
    requires
        0 < q.queue_size <= 256,
        q.desc_phys % 4096 == 0,
        q.avail_phys % 4096 == 0,
        q.desc_phys + 4096 <= a.len(),
        q.avail_phys + 4096 <= a.len(),
        q.desc_phys != q.avail_phys,
        0 <= id < 16,
    ensures
        ({
            let m = described(a, q, id, d, idx);
            &&& device_is_offered(m, q.avail_phys, q.queue_size, idx, id)
            &&& number_at(m, q.desc_phys + 16 * id, 8) == d.addr
            &&& number_at(m, q.desc_phys + 16 * id + 8, 4) == d.len
            &&& number_at(m, q.desc_phys + 16 * id + 12, 2) == d.flags
            &&& device_side_kept(q, a, m)
        }),
{
    reveal(described);
    let b = overwrite(a, q.desc_phys + 16 * id, desc_bytes(d));
    let m = offered(b, q.avail_phys, q.queue_size, idx, id as u16);
    lemma_offer(b, q.avail_phys, q.queue_size, idx, id as u16);
    assert(q.desc_phys + 4096 <= q.avail_phys || q.avail_phys + 4096 <= q.desc_phys);
    assert forall|k: int| 0 <= k < 16 implies #[trigger] m[q.desc_phys + 16 * id + k] == desc_bytes(
        d,
    )[k] by {
        assert(m[q.desc_phys + 16 * id + k] == b[q.desc_phys + 16 * id + k]);
    }
    lemma_desc(m, q.desc_phys, id, d);
    assert forall|i: int|
        0 <= i < a.len() && !(q.desc_phys <= i < q.desc_phys + 4096) && !(q.avail_phys <= i
            < q.avail_phys + 4096) implies #[trigger] m[i] == a[i] by {
        assert(m[i] == b[i]);
    }
}

/// A buffer that is posted is offered to the device, which may write a whole frame
/// with its header to it.
pub proof fn device_sees_the_buffer(mem: &PhysMem, q: Virtqueue, bufs: Seq<u64>, idx: u16, id: int)
    requires
        q.wf(mem),
        0 <= id < 16,
    ensures
        ({
            let m = posted(mem.bytes@, q, bufs, idx, id);
            &&& device_is_offered(m, q.avail_phys, q.queue_size, idx, id)
            &&& device_reads(m, q.desc_phys, id, bufs[id], 1526, true)
        }),
{
    reveal(described);
    lemma_described(mem.bytes@, q, id, rx_desc(bufs[id]), idx);
}

/// The device's list of used buffers and the buffers themselves lie outside of what
/// the driver writes.
pub open spec fn apart_from_driver(q: Virtqueue, bufs: Seq<u64>, len: nat) -> bool {
    &&& 0 < q.queue_size <= 256
    &&& q.desc_phys % 4096 == 0
    &&& q.avail_phys % 4096 == 0
    &&& q.used_phys % 4096 == 0
    &&& q.desc_phys + 4096 <= len
    &&& q.avail_phys + 4096 <= len
    &&& q.used_phys + 4096 <= len
    &&& q.desc_phys != q.avail_phys
    &&& q.used_phys != q.desc_phys
    &&& q.used_phys != q.avail_phys
    &&& bufs.len() == 16
    &&& forall|i: int|
        0 <= i < 16 ==> {
            let b = #[trigger] bufs[i];
            b % 4096 == 0 && b + 4096 <= len && b != q.desc_phys && b != q.avail_phys
        }
}

/// Entry `k` of the device's list of used buffers, counted from `from`: the buffer's
/// number, and how many bytes were written to it.
#[verifier::opaque]
pub open spec fn device_used(m: Seq<u8>, used: u64, size: u16, from: u16, k: int) -> (int, int) {
    let at = used + 4 + 8 * ((from + k) % 65536 % size as int);
    (number_at(m, at, 4), number_at(m, at + 4, 4))
}

/// The bytes of the frame in a buffer to which `len` bytes were written.
pub open spec fn frame_in(m: Seq<u8>, buf: u64, len: int) -> Seq<u8> {
    m.subrange(
        buf + 12,
        buf + 12 + (if len - 12 < 1514 {
            len - 12
        } else {
            1514
        }),
    )
}

/// `b` differs from `a` only where the driver writes.
spec fn device_side_kept(q: Virtqueue, a: Seq<u8>, b: Seq<u8>) -> bool {
    &&& a.len() == b.len()
    &&& forall|i: int|
        0 <= i < a.len() && !(q.desc_phys <= i < q.desc_phys + 4096) && !(q.avail_phys <= i
            < q.avail_phys + 4096) ==> #[trigger] b[i] == a[i]
}

proof fn lemma_used(a: Seq<u8>, b: Seq<u8>, q: Virtqueue, bufs: Seq<u64>, from: u16, k: int)
    requires
        apart_from_driver(q, bufs, a.len()),
        device_side_kept(q, a, b),
        0 <= k,
    ensures
        device_used(a, q.used_phys, q.queue_size, from, k) == device_used(
            b,
            q.used_phys,
            q.queue_size,
            from,
            k,
        ),
{
    reveal(device_used);
    let slot = (from + k) % 65536 % q.queue_size as int;
    assert(0 <= slot < 256);
    let at = q.used_phys + 4 + 8 * slot;
    assert forall|i: int| 0 <= i < 4 implies #[trigger] a[at + i] == b[at + i] by {}
    lemma_same_number(a, b, at, at, 4);
    assert forall|i: int| 0 <= i < 4 implies #[trigger] a[at + 4 + i] == b[at + 4 + i] by {}
    lemma_same_number(a, b, at + 4, at + 4, 4);
}

proof fn lemma_one_received(q: Virtqueue, bufs: Seq<u64>, st: RxState)
    requires
        apart_from_driver(q, bufs, st.bytes.len()),
        device_used(st.bytes, q.used_phys, q.queue_size, st.last_used_idx, 0).0 < 16,
        device_used(st.bytes, q.used_phys, q.queue_size, st.last_used_idx, 0).1 >= 12,
    ensures
        ({
            let e = device_used(st.bytes, q.used_phys, q.queue_size, st.last_used_idx, 0);
            let next = rx_taken(q, bufs, st);
            &&& 0 <= e.0
            &&& next.packets == st.packets.push(frame_in(st.bytes, bufs[e.0], e.1))
            &&& next.last_used_idx == st.last_used_idx.wrapping_add(1)
            &&& device_side_kept(q, st.bytes, next.bytes)
        }),
{
    reveal(device_used);
    let e = device_used(st.bytes, q.used_phys, q.queue_size, st.last_used_idx, 0);
    let u = used_at(st.bytes, q.used_phys, q.queue_size, st.last_used_idx);
    let slot = st.last_used_idx as int % q.queue_size as int;
    fields_are_read_least_byte_first(st.bytes, q.used_phys + 4 + 8 * slot);
    fields_are_read_least_byte_first(st.bytes, q.used_phys + 4 + 8 * slot + 4);
    assert(u.id == e.0 && u.len == e.1);
    reveal(described);
    lemma_described(st.bytes, q, u.id as int, rx_desc(bufs[u.id as int]), st.avail_idx);
}

#[verifier::opaque]
spec fn after_polls(q: Virtqueue, bufs: Seq<u64>, st: RxState, n: nat) -> RxState {
    rx_polled(q, bufs, st, n)
}

#[verifier::opaque]
spec fn after_one(q: Virtqueue, bufs: Seq<u64>, st: RxState) -> RxState {
    rx_taken(q, bufs, st)
}

proof fn lemma_poll(q: Virtqueue, bufs: Seq<u64>, st: RxState, n: nat)
    ensures
        n > 0 ==> after_polls(q, bufs, st, n) == after_polls(
            q,
            bufs,
            after_one(q, bufs, st),
            (n - 1) as nat,
        ),
        n == 0 ==> after_polls(q, bufs, st, n) == st,
{
    reveal(after_polls);
    reveal(after_one);
}

/// The first `n` entries of the device's list are frames.
spec fn all_frames(q: Virtqueue, st: RxState, n: nat) -> bool {
    forall|j: int|
        0 <= j < n ==> {
            let e = #[trigger] device_used(
                st.bytes,
                q.used_phys,
                q.queue_size,
                st.last_used_idx,
                j,
            );
            e.0 < 16 && 12 <= e.1
        }
}

proof fn lemma_next_frames(q: Virtqueue, bufs: Seq<u64>, st: RxState, n: nat)
    requires
        apart_from_driver(q, bufs, st.bytes.len()),
        n > 0,
        all_frames(q, st, n),
    ensures
        ({
            let e = device_used(st.bytes, q.used_phys, q.queue_size, st.last_used_idx, 0);
            let next = after_one(q, bufs, st);
            &&& next.packets == st.packets.push(frame_in(st.bytes, bufs[e.0], e.1))
            &&& next.bytes.len() == st.bytes.len()
            &&& all_frames(q, next, (n - 1) as nat)
            &&& device_side_kept(q, st.bytes, next.bytes)
            &&& forall|j: int|
                0 <= j ==> #[trigger] device_used(
                    next.bytes,
                    q.used_phys,
                    q.queue_size,
                    next.last_used_idx,
                    j,
                ) == device_used(st.bytes, q.used_phys, q.queue_size, st.last_used_idx, j + 1)
        }),
{
    reveal(after_one);
    let next = after_one(q, bufs, st);
    assert(device_used(st.bytes, q.used_phys, q.queue_size, st.last_used_idx, 0).0 < 16);
    lemma_one_received(q, bufs, st);
    assert forall|j: int| 0 <= j implies #[trigger] device_used(
        next.bytes,
        q.used_phys,
        q.queue_size,
        next.last_used_idx,
        j,
    ) == device_used(st.bytes, q.used_phys, q.queue_size, st.last_used_idx, j + 1) by {
        lemma_used(st.bytes, next.bytes, q, bufs, st.last_used_idx, j + 1);
        lemma_wrap(next.bytes, q.used_phys, q.queue_size, st.last_used_idx, j);
    }
}

proof fn lemma_frame_kept(q: Virtqueue, bufs: Seq<u64>, a: Seq<u8>, b: Seq<u8>, id: int, len: int)
    requires
        apart_from_driver(q, bufs, a.len()),
        device_side_kept(q, a, b),
        0 <= id < 16,
        12 <= len,
    ensures
        frame_in(b, bufs[id], len) == frame_in(a, bufs[id], len),
{
    let buf = bufs[id];
    assert(buf + 4096 <= q.avail_phys || q.avail_phys + 4096 <= buf);
    assert(buf + 4096 <= q.desc_phys || q.desc_phys + 4096 <= buf);
    assert(frame_in(b, buf, len) =~= frame_in(a, buf, len));
}

proof fn lemma_handed_out(q: Virtqueue, bufs: Seq<u64>, st: RxState, n: nat, k: int)
    requires
        apart_from_driver(q, bufs, st.bytes.len()),
        0 <= k < n,
        all_frames(q, st, n),
    ensures
        ({
            let after = after_polls(q, bufs, st, n);
            let e = device_used(st.bytes, q.used_phys, q.queue_size, st.last_used_idx, k);
            &&& after.packets.len() == st.packets.len() + n
            &&& after.packets[st.packets.len() + k] == frame_in(st.bytes, bufs[e.0], e.1)
            &&& forall|x: int| 0 <= x < st.packets.len() ==> #[trigger] after.packets[x] == st.packets[x]
        }),
    decreases n,
{
    let next = after_one(q, bufs, st);
    lemma_next_frames(q, bufs, st, n);
    lemma_poll(q, bufs, st, n);
    if n > 1 {
        let j = if k > 0 {
            k - 1
        } else {
            0
        };
        lemma_handed_out(q, bufs, next, (n - 1) as nat, j);
        let after = after_polls(q, bufs, st, n);
        let e = device_used(st.bytes, q.used_phys, q.queue_size, st.last_used_idx, k);
        if k > 0 {
            let d = device_used(next.bytes, q.used_phys, q.queue_size, next.last_used_idx, k - 1);
            assert(d == e);
            lemma_nonneg(st.bytes, q.used_phys, q.queue_size, st.last_used_idx, k);
            lemma_frame_kept(q, bufs, st.bytes, next.bytes, e.0, e.1);
        } else {
            assert(after.packets[st.packets.len() as int] == next.packets[st.packets.len() as int]);
        }
        assert forall|x: int| 0 <= x < st.packets.len() implies #[trigger] after.packets[x]
            == st.packets[x] by {
            assert(after.packets[x] == next.packets[x]);
        }
    } else {
        lemma_poll(q, bufs, next, 0);
    }
}

/// Every frame that the device says it received is handed out, in order, with the
/// bytes that the device wrote after the header.
pub proof fn received_frames_are_handed_out(
    q: Virtqueue,
    bufs: Seq<u64>,
    st: RxState,
    n: nat,
    k: int,
)
    requires
        apart_from_driver(q, bufs, st.bytes.len()),
        0 <= k < n,
        forall|j: int|
            0 <= j < n ==> {
                let e = #[trigger] device_used(
                    st.bytes,
                    q.used_phys,
                    q.queue_size,
                    st.last_used_idx,
                    j,
                );
                e.0 < 16 && 12 <= e.1
            },
    ensures
        ({
            let after = rx_polled(q, bufs, st, n);
            let e = device_used(st.bytes, q.used_phys, q.queue_size, st.last_used_idx, k);
            &&& after.packets.len() == st.packets.len() + n
            &&& after.packets[st.packets.len() + k] == frame_in(st.bytes, bufs[e.0], e.1)
            &&& forall|x: int| 0 <= x < st.packets.len() ==> #[trigger] after.packets[x] == st.packets[x]
        }),
{
    reveal(after_polls);
    lemma_handed_out(q, bufs, st, n, k);
}

proof fn lemma_wrap(m: Seq<u8>, used: u64, size: u16, from: u16, j: int)
    requires
        0 <= j,
    ensures
        device_used(m, used, size, from.wrapping_add(1), j) == device_used(m, used, size, from, j + 1),
{
    reveal(device_used);
    assert((from.wrapping_add(1) + j) % 65536 == (from + (j + 1)) % 65536);
}

proof fn lemma_number_nonneg(s: Seq<u8>, at: int, n: nat)
    ensures
        number_at(s, at, n) >= 0,
    decreases n,
{
    if n > 0 {
        lemma_number_nonneg(s, at + 1, (n - 1) as nat);
    }
}

proof fn lemma_nonneg(m: Seq<u8>, used: u64, size: u16, from: u16, k: int)
    ensures
        device_used(m, used, size, from, k).0 >= 0,
{
    reveal(device_used);
    let at = used + 4 + 8 * ((from + k) % 65536 % size as int);
    lemma_number_nonneg(m, at, 4);
}

/// What a poll of the device hands out are the frames that it received since the last
/// one, all of them, in order, and the device is notified that it has its buffers back.
pub proof fn poll_hands_out_what_was_received(
    before: NetDevice,
    after: NetDevice,
    m0: &PhysMem,
    m1: &PhysMem,
    packets: Seq<Vec<u8>>,
    notify: MmioWrite,
    n: nat,
    k: int,
)
    requires
        rx_done(before, after, m0, m1, packets, notify),
        apart_from_driver(before.rx, before.rx_bufs@, m0.bytes@.len()),
        number_at(m0.bytes@, before.rx.used_phys + 2, 2) == (before.rx.last_used_idx + n) % 65536,
        n < 65536,
        0 <= k < n,
        forall|j: int|
            0 <= j < n ==> {
                let e = #[trigger] device_used(
                    m0.bytes@,
                    before.rx.used_phys,
                    before.rx.queue_size,
                    before.rx.last_used_idx,
                    j,
                );
                e.0 < 16 && 12 <= e.1
            },
    ensures
        ({
            let e = device_used(
                m0.bytes@,
                before.rx.used_phys,
                before.rx.queue_size,
                before.rx.last_used_idx,
                k,
            );
            &&& packets.len() == n
            &&& packets[k]@ == frame_in(m0.bytes@, before.rx_bufs@[e.0], e.1)
            &&& notify.value == 0
        }),
{
    let st = before.rx_state(m0.bytes@, Seq::empty());
    fields_are_read_least_byte_first(m0.bytes@, before.rx.used_phys + 2);
    assert(ahead(before.rx.last_used_idx, le_u16(m0.bytes@, before.rx.used_phys + 2)) == n);
    received_frames_are_handed_out(before.rx, before.rx_bufs@, st, n, k);
    assert(packets_of(packets).len() == n);
    assert(packets_of(packets)[k] == packets[k]@);
}

proof fn lemma_all_posted_kept(m: Seq<u8>, q: Virtqueue, bufs: Seq<u64>, n: nat)
    requires
        0 < q.queue_size <= 256,
        q.desc_phys % 4096 == 0,
        q.avail_phys % 4096 == 0,
        q.desc_phys + 4096 <= m.len(),
        q.avail_phys + 4096 <= m.len(),
        q.desc_phys != q.avail_phys,
        n <= 16,
    ensures
        all_posted(m, q, bufs, n).len() == m.len(),
    decreases n,
{
    if n > 0 {
        lemma_all_posted_kept(m, q, bufs, (n - 1) as nat);
    }
}

/// When the device is given its buffers, it finds sixteen of them offered, the last one
/// under the last number.
pub proof fn device_is_given_its_buffers(mem: &PhysMem, q: Virtqueue, bufs: Seq<u64>)
    requires
        q.wf(mem),
    ensures
        ({
            let m = all_posted(mem.bytes@, q, bufs, 16);
            &&& number_at(m, q.avail_phys + 2, 2) == (q.avail_idx + 16) % 65536
            &&& device_reads(m, q.desc_phys, 15, bufs[15], 1526, true)
            &&& number_at(
                m,
                q.avail_phys + 4 + 2 * ((q.avail_idx + 15) % 65536 % q.queue_size as int),
                2,
            ) == 15
        }),
{
    let a = all_posted(mem.bytes@, q, bufs, 15);
    let idx = ((q.avail_idx + 15) % 65536) as u16;
    lemma_all_posted_kept(mem.bytes@, q, bufs, 15);
    reveal(described);
    lemma_described(a, q, 15, rx_desc(bufs[15]), idx);
    assert(all_posted(mem.bytes@, q, bufs, 16) == posted(a, q, bufs, idx, 15));
    assert((idx + 1) % 65536 == (q.avail_idx + 16) % 65536);
}

} // verus!
