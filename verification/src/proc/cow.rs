//! Share counts of copy-on-write frames.
//!
//! A frame that no entry tracks has one owner. The first share starts an
//! entry at two owners; an entry is dropped when its count would fall back
//! to one. A bucket that is full drops further first shares.

use vstd::prelude::*;
use crate::mem::PhysAddr;

verus! {

pub const COW_BUCKETS: usize = 256;

pub const COW_BUCKET_CAPACITY: usize = 32;

#[derive(Clone, Copy, Debug, PartialEq, Eq, Structural)]
pub struct CowEntry {
    pub frame: u64,
    pub refcount: u32,
}

#[derive(Clone, Copy)]
pub struct CowBucket {
    pub entries: [Option<CowEntry>; COW_BUCKET_CAPACITY],
}

impl CowBucket {
    pub fn new() -> (r: Self)
        ensures
            forall|i: int| 0 <= i < 32 ==> #[trigger] r.entries@[i] is None,
    {
        CowBucket { entries: [None;32] }
    }
}

/// The share table, hashed into buckets by frame number.
pub struct CowTable {
    pub buckets: Vec<CowBucket>,
}

/// The bucket a frame hashes to: the top eight bits of the frame number
/// times the golden-ratio constant.
#[verifier::opaque]
pub open spec fn bucket_of(frame: u64) -> int {
    (((frame / 4096) * 0x9e37_79b9_7f4a_7c15) % 0x1_0000_0000_0000_0000) / 0x100_0000_0000_0000
}

/// Slot `i` of the bucket tracks `frame`.
pub open spec fn tracks(b: Seq<Option<CowEntry>>, i: int, frame: u64) -> bool {
    &&& 0 <= i < b.len()
    &&& b[i] matches Some(e) && e.frame == frame
}

/// A bucket tracks each frame at most once, with at least two owners, and
/// only frames that hash to it.
pub open spec fn bucket_wf(b: Seq<Option<CowEntry>>, index: int) -> bool {
    &&& b.len() == 32
    &&& forall|i: int|
        0 <= i < 32 ==> (#[trigger] b[i] matches Some(e) ==> e.refcount >= 2 && bucket_of(e.frame)
            == index)
    &&& forall|i: int, j: int|
        0 <= i < j < 32 ==> (#[trigger] b[i] matches Some(x) ==> (#[trigger] b[j] matches Some(y)
            ==> x.frame != y.frame))
}

impl CowTable {
    pub open spec fn slots(&self, index: int) -> Seq<Option<CowEntry>> {
        self.buckets@[index].entries@
    }

    pub open spec fn wf(&self) -> bool {
        &&& self.buckets@.len() == 256
        &&& forall|k: int| 0 <= k < 256 ==> bucket_wf(#[trigger] self.slots(k), k)
    }

    /// The tracked frames and their share counts.
    pub open spec fn view(&self) -> Map<u64, u32> {
        Map::new(
            |f: u64| exists|i: int| tracks(self.slots(bucket_of(f)), i, f),
            |f: u64|
                self.slots(bucket_of(f))[choose|i: int| tracks(
                    self.slots(bucket_of(f)),
                    i,
                    f,
                )]->Some_0.refcount,
        )
    }

    pub fn new() -> (r: Self)
        ensures
            r.wf(),
            r@ == Map::<u64, u32>::empty(),
    {
        let mut buckets: Vec<CowBucket> = Vec::new();
        let mut k: usize = 0;
        while k < 256
            invariant
                k <= 256,
                buckets@.len() == k,
                forall|j: int, i: int|
                    0 <= j < k && 0 <= i < 32 ==> #[trigger] buckets@[j].entries@[i] is None,
            decreases 256 - k,
        {
            buckets.push(CowBucket::new());
            k += 1;
        }
        let r = CowTable { buckets };
        proof {
            assert forall|f: u64| !r@.contains_key(f) by {
                lemma_bucket_of_range(f);
            }
            assert(r@ =~= Map::<u64, u32>::empty());
        }
        r
    }
}

impl Default for CowTable {
    fn default() -> (r: Self)
        ensures
            r.wf(),
            r@ == Map::<u64, u32>::empty(),
    {
        CowTable::new()
    }
}

/// The tracked frames that hash to the same bucket as `frame`.
pub open spec fn bucket_mates(m: Map<u64, u32>, frame: u64) -> Set<u64> {
    m.dom().filter(|g: u64| bucket_of(g) == bucket_of(frame))
}

/// There is room to start tracking `frame`.
pub open spec fn has_room(m: Map<u64, u32>, frame: u64) -> bool {
    bucket_mates(m, frame).len() < COW_BUCKET_CAPACITY
}

/// One more owner of `frame`.
pub open spec fn shared(m: Map<u64, u32>, frame: u64) -> Map<u64, u32> {
    if m.contains_key(frame) {
        m.insert(
            frame,
            if m[frame] < u32::MAX {
                (m[frame] + 1) as u32
            } else {
                u32::MAX
            },
        )
    } else if has_room(m, frame) {
        m.insert(frame, 2)
    } else {
        m
    }
}

/// One owner fewer of `frame`.
pub open spec fn released(m: Map<u64, u32>, frame: u64) -> Map<u64, u32> {
    if !m.contains_key(frame) {
        m
    } else if m[frame] > 2 {
        m.insert(frame, (m[frame] - 1) as u32)
    } else {
        m.remove(frame)
    }
}

proof fn lemma_bucket_of_range(frame: u64)
    ensures
        0 <= bucket_of(frame) < 256,
{
    reveal(bucket_of);
}

/// The slot that tracks a frame is the only one, and holds its count.
proof fn lemma_tracked(t: &CowTable, frame: u64, i: int)
    requires
        t.wf(),
        tracks(t.slots(bucket_of(frame)), i, frame),
    ensures
        t@.contains_key(frame),
        t@[frame] == t.slots(bucket_of(frame))[i]->Some_0.refcount,
        forall|j: int| tracks(t.slots(bucket_of(frame)), j, frame) ==> j == i,
{
    lemma_bucket_of_range(frame);
    let b = t.slots(bucket_of(frame));
    assert(bucket_wf(b, bucket_of(frame)));
    assert forall|j: int| tracks(b, j, frame) implies j == i by {
        if j < i {
            assert(b[j] is Some && b[i] is Some);
        } else if i < j {
            assert(b[i] is Some && b[j] is Some);
        }
    }
}

/// The frames in the first `n` slots.
spec fn frames_upto(b: Seq<Option<CowEntry>>, n: nat) -> Set<u64>
    decreases n,
{
    if n == 0 {
        Set::empty()
    } else {
        match b[n - 1] {
            Some(e) => frames_upto(b, (n - 1) as nat).insert(e.frame),
            None => frames_upto(b, (n - 1) as nat),
        }
    }
}

proof fn lemma_frames_upto(b: Seq<Option<CowEntry>>, index: int, n: nat)
    requires
        bucket_wf(b, index),
        n <= 32,
    ensures
        frames_upto(b, n).finite(),
        frames_upto(b, n).len() <= n,
        (exists|i: int| 0 <= i < n && #[trigger] b[i] is None) ==> frames_upto(b, n).len() < n,
        (forall|i: int| 0 <= i < n ==> #[trigger] b[i] is Some) ==> frames_upto(b, n).len() == n,
        forall|f: u64|
            frames_upto(b, n).contains(f) <==> exists|i: int| i < n && tracks(b, i, f),
    decreases n,
{
    if n > 0 {
        let m = (n - 1) as nat;
        lemma_frames_upto(b, index, m);
        assert forall|f: u64| frames_upto(b, n).contains(f) implies exists|i: int|
            i < n && tracks(b, i, f) by {
            if frames_upto(b, m).contains(f) {
                let i = choose|i: int| i < m && tracks(b, i, f);
                assert(i < n && tracks(b, i, f));
            } else {
                assert(tracks(b, m as int, f));
            }
        }
        assert forall|f: u64| (exists|i: int| i < n && tracks(b, i, f)) implies frames_upto(
            b,
            n,
        ).contains(f) by {
            let i = choose|i: int| i < n && tracks(b, i, f);
            if i < m {
                assert(i < m && tracks(b, i, f));
            }
        }
        if let Some(e) = b[m as int] {
            assert(!frames_upto(b, m).contains(e.frame)) by {
                if frames_upto(b, m).contains(e.frame) {
                    let i = choose|i: int| i < m && tracks(b, i, e.frame);
                    assert(b[i] is Some && b[m as int] is Some);
                }
            }
            if exists|i: int| 0 <= i < n && #[trigger] b[i] is None {
                let i = choose|i: int| 0 <= i < n && #[trigger] b[i] is None;
                assert(0 <= i < m && b[i] is None);
            }
        }
    }
}

/// A bucket has an empty slot exactly where the table has room.
proof fn lemma_room(t: &CowTable, frame: u64)
    requires
        t.wf(),
    ensures
        has_room(t@, frame) <==> exists|i: int|
            0 <= i < 32 && #[trigger] t.slots(bucket_of(frame))[i] is None,
{
    lemma_bucket_of_range(frame);
    let k = bucket_of(frame);
    let b = t.slots(k);
    assert(bucket_wf(b, k));
    lemma_frames_upto(b, k, 32);
    assert(bucket_mates(t@, frame) =~= frames_upto(b, 32)) by {
        assert forall|f: u64| frames_upto(b, 32).contains(f) implies bucket_mates(
            t@,
            frame,
        ).contains(f) by {
            let i = choose|i: int| i < 32 && tracks(b, i, f);
            assert(bucket_of(f) == k);
            lemma_tracked(t, f, i);
        }
        assert forall|f: u64| bucket_mates(t@, frame).contains(f) implies frames_upto(
            b,
            32,
        ).contains(f) by {
            let i = choose|i: int| tracks(t.slots(bucket_of(f)), i, f);
            assert(i < 32 && tracks(b, i, f));
        }
    }
}

/// A bucket stays well formed when one slot is emptied, or takes a frame that
/// no other slot tracks.
proof fn lemma_slot_change_wf(b: Seq<Option<CowEntry>>, a: Seq<Option<CowEntry>>, index: int, i: int)
    requires
        bucket_wf(b, index),
        0 <= i < 32,
        a == b.update(i, a[i]),
        a[i] matches Some(e) ==> {
            &&& e.refcount >= 2
            &&& bucket_of(e.frame) == index
            &&& forall|j: int| tracks(b, j, e.frame) ==> j == i
        },
    ensures
        bucket_wf(a, index),
{
    assert forall|x: int, y: int| 0 <= x < y < 32 implies (#[trigger] a[x] matches Some(p) ==> (
    #[trigger] a[y] matches Some(q) ==> p.frame != q.frame)) by {
        if a[x] is Some && a[y] is Some {
            let f = a[x]->Some_0.frame;
            if f == a[y]->Some_0.frame {
                if x == i {
                    assert(tracks(b, y, f));
                } else if y == i {
                    assert(tracks(b, x, f));
                } else {
                    assert(b[x] is Some && b[y] is Some);
                }
            }
        }
    }
}

/// The counts after one slot of a bucket changed.
spec fn changed(m: Map<u64, u32>, was: Option<CowEntry>, is: Option<CowEntry>) -> Map<u64, u32> {
    let dropped = match was {
        Some(d) => m.remove(d.frame),
        None => m,
    };
    match is {
        Some(e) => dropped.insert(e.frame, e.refcount),
        None => dropped,
    }
}

/// Changing one slot changes the counts of the frames it tracked and tracks.
proof fn lemma_slot_change(before: &CowTable, after: &CowTable, index: int, i: int)
    requires
        before.wf(),
        after.buckets@.len() == 256,
        0 <= index < 256,
        0 <= i < 32,
        forall|k: int| 0 <= k < 256 && k != index ==> after.buckets@[k] == before.buckets@[k],
        after.slots(index) == before.slots(index).update(i, after.slots(index)[i]),
        after.slots(index)[i] matches Some(e) ==> {
            &&& e.refcount >= 2
            &&& bucket_of(e.frame) == index
            &&& forall|j: int| tracks(before.slots(index), j, e.frame) ==> j == i
        },
    ensures
        after.wf(),
        after@ == changed(before@, before.slots(index)[i], after.slots(index)[i]),
{
    let b = before.slots(index);
    let a = after.slots(index);
    assert(bucket_wf(b, index));
    lemma_slot_change_wf(b, a, index, i);
    assert forall|k: int| 0 <= k < 256 implies bucket_wf(#[trigger] after.slots(k), k) by {
        if k != index {
            assert(bucket_wf(before.slots(k), k));
        }
    }
    let expect = changed(before@, b[i], a[i]);
    assert forall|f: u64| #[trigger] after@.dom().contains(f) == expect.dom().contains(f) by {
        lemma_slot_change_at(before, after, index, i, f);
    }
    assert forall|f: u64| after@.dom().contains(f) implies #[trigger] after@[f] == expect[f] by {
        lemma_slot_change_at(before, after, index, i, f);
    }
    assert(after@.dom() =~= expect.dom());
    assert(after@ =~= expect);
}

proof fn lemma_slot_change_at(before: &CowTable, after: &CowTable, index: int, i: int, f: u64)
    requires
        before.wf(),
        after.wf(),
        0 <= index < 256,
        0 <= i < 32,
        forall|k: int| 0 <= k < 256 && k != index ==> after.buckets@[k] == before.buckets@[k],
        after.slots(index) == before.slots(index).update(i, after.slots(index)[i]),
    ensures
        ({
            let expect = changed(before@, before.slots(index)[i], after.slots(index)[i]);
            &&& after@.contains_key(f) == expect.contains_key(f)
            &&& after@.contains_key(f) ==> after@[f] == expect[f]
        }),
{
    lemma_bucket_of_range(f);
    let b = before.slots(index);
    let a = after.slots(index);
    assert(bucket_wf(b, index));
    assert(bucket_wf(a, index));
    let k = bucket_of(f);
    if k != index {
        assert(after.slots(k) == before.slots(k));
    } else {
        if before@.contains_key(f) {
            let j = choose|j: int| tracks(b, j, f);
            lemma_tracked(before, f, j);
            if j != i {
                assert(tracks(a, j, f));
                lemma_tracked(after, f, j);
            }
        }
        if tracks(a, i, f) {
            lemma_tracked(after, f, i);
        }
        if after@.contains_key(f) {
            let j = choose|j: int| tracks(a, j, f);
            lemma_tracked(after, f, j);
            if j != i {
                assert(tracks(b, j, f));
                lemma_tracked(before, f, j);
            }
        }
        if let Some(d) = b[i] {
            if d.frame == f {
                assert(tracks(b, i, f));
                lemma_tracked(before, f, i);
            }
        }
    }
}

pub fn bucket_index(frame: PhysAddr) -> (r: usize)
    ensures
        r == bucket_of(frame.0),
        r < COW_BUCKETS,
{
    proof {
        reveal(bucket_of);
    }
    let key: u64 = frame.0 / 4096;
    let hash: u64 = key.wrapping_mul(0x9e37_79b9_7f4a_7c15);
    (hash / 0x100_0000_0000_0000) as usize
}

/// The slot that tracks `frame`, if any.
fn find_slot(bucket: &CowBucket, frame: u64) -> (r: Option<usize>)
    ensures
        match r {
            Some(i) => tracks(bucket.entries@, i as int, frame),
            None => forall|j: int| !tracks(bucket.entries@, j, frame),
        },
{
    let mut i: usize = 0;
    while i < 32
        invariant
            i <= 32,
            forall|j: int| j < i ==> !tracks(bucket.entries@, j, frame),
        decreases 32 - i,
    {
        if let Some(entry) = bucket.entries[i] {
            if entry.frame == frame {
                return Some(i);
            }
        }
        i += 1;
    }
    None
}

/// The first empty slot, if any.
fn find_free(bucket: &CowBucket) -> (r: Option<usize>)
    ensures
        match r {
            Some(i) => i < 32 && bucket.entries@[i as int] is None,
            None => forall|j: int| 0 <= j < 32 ==> #[trigger] bucket.entries@[j] is Some,
        },
{
    let mut i: usize = 0;
    while i < 32
        invariant
            i <= 32,
            forall|j: int| 0 <= j < i ==> #[trigger] bucket.entries@[j] is Some,
        decreases 32 - i,
    {
        if bucket.entries[i].is_none() {
            return Some(i);
        }
        i += 1;
    }
    None
}

/// Store `value` in slot `i` of bucket `index`.
fn put(table: &mut CowTable, index: usize, i: usize, value: Option<CowEntry>)
    requires
        old(table).buckets@.len() == 256,
        index < 256,
        i < 32,
    ensures
        final(table).buckets@.len() == 256,
        forall|k: int|
            0 <= k < 256 && k != index ==> final(table).buckets@[k] == old(table).buckets@[k],
        final(table).slots(index as int) == old(table).slots(index as int).update(i as int, value),
{
    let mut bucket = table.buckets[index];
    bucket.entries[i] = value;
    table.buckets.set(index, bucket);
}

/// Record one more owner of `frame`.
pub fn cow_share(table: &mut CowTable, frame: PhysAddr)
    requires
        old(table).wf(),
    ensures
        final(table).wf(),
        final(table)@ == shared(old(table)@, frame.0),
{
    let index: usize = bucket_index(frame);
    let bucket = table.buckets[index];
    assert(bucket_wf(table.slots(index as int), index as int));
    proof {
        lemma_room(table, frame.0);
    }
    match find_slot(&bucket, frame.0) {
        Some(i) => {
            proof {
                lemma_tracked(table, frame.0, i as int);
            }
            let entry = bucket.entries[i].unwrap();
            let refcount: u32 = entry.refcount.saturating_add(1);
            put(table, index, i, Some(CowEntry { frame: frame.0, refcount }));
            proof {
                lemma_slot_change(old(table), table, index as int, i as int);
                assert(table@ =~= shared(old(table)@, frame.0));
            }
        },
        None => {
            if let Some(i) = find_free(&bucket) {
                put(table, index, i, Some(CowEntry { frame: frame.0, refcount: 2 }));
                proof {
                    assert(old(table).slots(index as int)[i as int] is None);
                    lemma_slot_change(old(table), table, index as int, i as int);
                }
            }
        },
    }
}

/// How many owners `frame` has.
pub fn cow_refcount(table: &CowTable, frame: PhysAddr) -> (r: u32)
    requires
        table.wf(),
    ensures
        r == (if table@.contains_key(frame.0) {
            table@[frame.0]
        } else {
            1
        }),
{
    let index: usize = bucket_index(frame);
    match find_slot(&table.buckets[index], frame.0) {
        Some(i) => {
            proof {
                lemma_tracked(table, frame.0, i as int);
            }
            table.buckets[index].entries[i].unwrap().refcount
        },
        None => 1,
    }
}

/// Drop one owner of `frame`.
pub fn cow_unshare(table: &mut CowTable, frame: PhysAddr)
    requires
        old(table).wf(),
    ensures
        final(table).wf(),
        final(table)@ == released(old(table)@, frame.0),
{
    let _tracked: bool = !cow_release(table, frame);
}

/// Drop one owner of `frame` and report whether the caller was the only one:
/// that no entry tracked it.
pub fn cow_release(table: &mut CowTable, frame: PhysAddr) -> (sole: bool)
    requires
        old(table).wf(),
    ensures
        final(table).wf(),
        final(table)@ == released(old(table)@, frame.0),
        sole == !old(table)@.contains_key(frame.0),
{
    let index: usize = bucket_index(frame);
    let bucket = table.buckets[index];
    assert(bucket_wf(table.slots(index as int), index as int));
    match find_slot(&bucket, frame.0) {
        Some(i) => {
            proof {
                lemma_tracked(table, frame.0, i as int);
            }
            let entry = bucket.entries[i].unwrap();
            if entry.refcount > 2 {
                let refcount: u32 = entry.refcount - 1;
                put(table, index, i, Some(CowEntry { frame: frame.0, refcount }));
            } else {
                put(table, index, i, None);
            }
            proof {
                lemma_slot_change(old(table), table, index as int, i as int);
                assert(table@ =~= released(old(table)@, frame.0));
            }
            false
        },
        None => true,
    }
}

/// Drop one owner of `frame` and run `action` on whether the caller was the
/// only one, with no other change to the table in between.
pub fn cow_resolve<R, F: FnOnce(bool) -> R>(table: &mut CowTable, frame: PhysAddr, action: F) -> (r:
    R)
    requires
        old(table).wf(),
        call_requires(action, (!old(table)@.contains_key(frame.0),)),
    ensures
        final(table).wf(),
        final(table)@ == released(old(table)@, frame.0),
        call_ensures(action, (!old(table)@.contains_key(frame.0),), r),
{
    let sole: bool = cow_release(table, frame);
    action(sole)
}

/// Every tracked frame has at least two owners.
pub open spec fn counts_wf(m: Map<u64, u32>) -> bool {
    forall|f: u64| m.contains_key(f) ==> #[trigger] m[f] >= 2
}

/// `n` further owners of `frame`.
pub open spec fn shared_times(m: Map<u64, u32>, frame: u64, n: nat) -> Map<u64, u32>
    decreases n,
{
    if n == 0 {
        m
    } else {
        shared(shared_times(m, frame, (n - 1) as nat), frame)
    }
}

/// `n` owners of `frame` fewer.
pub open spec fn released_times(m: Map<u64, u32>, frame: u64, n: nat) -> Map<u64, u32>
    decreases n,
{
    if n == 0 {
        m
    } else {
        released(released_times(m, frame, (n - 1) as nat), frame)
    }
}

/// A well-formed table tracks only frames with at least two owners.
pub proof fn counts_are_wf(t: &CowTable)
    requires
        t.wf(),
    ensures
        counts_wf(t@),
{
    assert forall|f: u64| t@.contains_key(f) implies #[trigger] t@[f] >= 2 by {
        lemma_bucket_of_range(f);
        let i = choose|i: int| tracks(t.slots(bucket_of(f)), i, f);
        lemma_tracked(t, f, i);
        assert(bucket_wf(t.slots(bucket_of(f)), bucket_of(f)));
    }
}

/// Releasing a frame undoes sharing it, unless the share was dropped or the
/// count had saturated.
pub proof fn release_undoes_share(m: Map<u64, u32>, frame: u64)
    requires
        counts_wf(m),
        m.contains_key(frame) || has_room(m, frame),
        m.contains_key(frame) ==> m[frame] < u32::MAX,
    ensures
        released(shared(m, frame), frame) == m,
{
    assert(released(shared(m, frame), frame) =~= m);
}

/// Sharing and releasing a frame leave every other frame's count alone.
pub proof fn other_frames_keep_their_count(m: Map<u64, u32>, frame: u64, other: u64)
    requires
        other != frame,
    ensures
        shared(m, frame).contains_key(other) == m.contains_key(other),
        released(m, frame).contains_key(other) == m.contains_key(other),
        m.contains_key(other) ==> shared(m, frame)[other] == m[other] && released(m, frame)[other]
            == m[other],
{
}

proof fn lemma_shared_times(m: Map<u64, u32>, frame: u64, n: nat)
    requires
        !m.contains_key(frame),
        has_room(m, frame),
        1 <= n < u32::MAX,
    ensures
        shared_times(m, frame, n) == m.insert(frame, (n + 1) as u32),
    decreases n,
{
    if n > 1 {
        lemma_shared_times(m, frame, (n - 1) as nat);
        assert(shared_times(m, frame, n) =~= m.insert(frame, (n + 1) as u32));
    } else {
        assert(shared_times(m, frame, 0) == m);
        assert(shared_times(m, frame, 1) =~= m.insert(frame, 2));
    }
}

proof fn lemma_released_times(m: Map<u64, u32>, frame: u64, n: nat, k: nat)
    requires
        !m.contains_key(frame),
        1 <= n < u32::MAX,
    ensures
        released_times(m.insert(frame, (n + 1) as u32), frame, k) == (if k < n {
            m.insert(frame, (n + 1 - k) as u32)
        } else {
            m
        }),
    decreases k,
{
    let s = m.insert(frame, (n + 1) as u32);
    if k > 0 {
        lemma_released_times(m, frame, n, (k - 1) as nat);
    }
    let expect = if k < n {
        m.insert(frame, (n + 1 - k) as u32)
    } else {
        m
    };
    assert(released_times(s, frame, k) =~= expect);
}

/// Of the `n + 1` owners that `n` shares of an untracked frame make, the first
/// `n` to release it find it tracked, and the last finds itself alone.
pub proof fn last_owner_is_sole(m: Map<u64, u32>, frame: u64, n: nat, k: nat)
    requires
        !m.contains_key(frame),
        has_room(m, frame),
        1 <= n < u32::MAX,
        k <= n,
    ensures
        released_times(shared_times(m, frame, n), frame, k).contains_key(frame) <==> k < n,
        released_times(shared_times(m, frame, n), frame, n) == m,
{
    lemma_shared_times(m, frame, n);
    lemma_released_times(m, frame, n, k);
    lemma_released_times(m, frame, n, n);
}

} // verus!
