//! Processes by number.

use vstd::prelude::*;

verus! {

pub const PTABLE_BUCKETS: usize = 64;

/// Entries in one bucket.
pub const PTABLE_BUCKET_CAP: usize = 16;

/// A process number and the process that has it.
#[derive(Clone, Copy, Debug, PartialEq, Eq, Structural)]
pub struct PTableEntry {
    pub pid: u32,
    pub process: usize,
}

/// One bucket of the process table.
#[derive(Clone, Copy)]
pub struct PTableBucket {
    pub entries: [Option<PTableEntry>; PTABLE_BUCKET_CAP],
}

/// The process table. A process is named by its index.
pub struct PTable {
    pub buckets: Vec<PTableBucket>,
}

/// The bucket of a process number: the top six bits of its product with the
/// golden-ratio constant.
#[verifier::opaque]
pub open spec fn pid_bucket(pid: u32) -> int {
    ((pid * 0x9e37_79b9) % 0x1_0000_0000) / 0x400_0000
}

pub fn ptable_bucket(pid: u32) -> (r: usize)
    ensures
        r == pid_bucket(pid),
        r < 64,
{
    proof {
        reveal(pid_bucket);
    }
    (pid.wrapping_mul(0x9e37_79b9) / 0x400_0000) as usize
}

proof fn lemma_bucket_range(pid: u32)
    ensures
        0 <= pid_bucket(pid) < 64,
{
    reveal(pid_bucket);
}

/// The first of the first `n` slots that holds process number `pid`.
pub open spec fn slot_of(b: Seq<Option<PTableEntry>>, pid: u32, n: nat) -> Option<int>
    decreases n,
{
    if n == 0 {
        None
    } else {
        match slot_of(b, pid, (n - 1) as nat) {
            Some(i) => Some(i),
            None => match b[n - 1] {
                Some(e) if e.pid == pid => Some(n - 1),
                _ => None,
            },
        }
    }
}

/// The first of the first `n` slots that is empty.
pub open spec fn empty_slot(b: Seq<Option<PTableEntry>>, n: nat) -> Option<int>
    decreases n,
{
    if n == 0 {
        None
    } else {
        match empty_slot(b, (n - 1) as nat) {
            Some(i) => Some(i),
            None => if b[n - 1] is None {
                Some(n - 1)
            } else {
                None
            },
        }
    }
}

/// The slot that an entry for `pid` goes to, if any.
pub open spec fn target_slot(b: Seq<Option<PTableEntry>>, pid: u32) -> Option<int> {
    match slot_of(b, pid, 16) {
        Some(i) => Some(i),
        None => empty_slot(b, 16),
    }
}

/// The bucket without the entries for `pid`.
pub open spec fn without(b: Seq<Option<PTableEntry>>, pid: u32) -> Seq<Option<PTableEntry>> {
    Seq::new(
        b.len(),
        |i: int|
            match b[i] {
                Some(e) if e.pid == pid => None,
                other => other,
            },
    )
}

proof fn lemma_slot_of(b: Seq<Option<PTableEntry>>, pid: u32, n: nat)
    ensures
        match slot_of(b, pid, n) {
            Some(i) => 0 <= i < n && (b[i] matches Some(e) && e.pid == pid) && forall|k: int|
                0 <= k < i ==> !(#[trigger] b[k] matches Some(e) && e.pid == pid),
            None => forall|k: int|
                0 <= k < n ==> !(#[trigger] b[k] matches Some(e) && e.pid == pid),
        },
    decreases n,
{
    if n > 0 {
        lemma_slot_of(b, pid, (n - 1) as nat);
    }
}

proof fn lemma_empty_slot(b: Seq<Option<PTableEntry>>, n: nat)
    ensures
        match empty_slot(b, n) {
            Some(i) => 0 <= i < n && b[i] is None,
            None => forall|k: int| 0 <= k < n ==> #[trigger] b[k] is Some,
        },
    decreases n,
{
    if n > 0 {
        lemma_empty_slot(b, (n - 1) as nat);
    }
}

/// Where two buckets agree about `pid` slot by slot, they have it at the same
/// slot.
proof fn lemma_same_slot(a: Seq<Option<PTableEntry>>, b: Seq<Option<PTableEntry>>, pid: u32, n: nat)
    requires
        forall|k: int|
            0 <= k < n ==> (#[trigger] a[k] matches Some(e) && e.pid == pid) == (
            b[k] matches Some(e) && e.pid == pid),
    ensures
        slot_of(a, pid, n) == slot_of(b, pid, n),
    decreases n,
{
    if n > 0 {
        lemma_same_slot(a, b, pid, (n - 1) as nat);
        assert((a[n - 1] matches Some(e) && e.pid == pid) == (b[n - 1] matches Some(e) && e.pid
            == pid));
    }
}

impl PTable {
    pub open spec fn wf(&self) -> bool {
        self.buckets@.len() == 64
    }

    /// The bucket of `pid`.
    pub open spec fn bucket(&self, pid: u32) -> Seq<Option<PTableEntry>> {
        self.buckets@[pid_bucket(pid)].entries@
    }

    /// The process with number `pid`.
    pub open spec fn lookup(&self, pid: u32) -> Option<usize> {
        match slot_of(self.bucket(pid), pid, 16) {
            Some(i) => Some(self.bucket(pid)[i]->Some_0.process),
            None => None,
        }
    }

    /// An entry for `pid` can be stored.
    pub open spec fn has_slot(&self, pid: u32) -> bool {
        target_slot(self.bucket(pid), pid) is Some
    }

    pub fn new() -> (r: Self)
        ensures
            r.wf(),
            forall|pid: u32| #[trigger] r.lookup(pid) is None,
            forall|pid: u32| #[trigger] r.has_slot(pid),
    {
        let mut buckets: Vec<PTableBucket> = Vec::new();
        let mut i: usize = 0;
        while i < PTABLE_BUCKETS
            invariant
                i <= 64,
                buckets@.len() == i,
                forall|b: int, k: int|
                    0 <= b < i && 0 <= k < 16 ==> #[trigger] buckets@[b].entries@[k] is None,
            decreases 64 - i,
        {
            buckets.push(PTableBucket { entries: [None;PTABLE_BUCKET_CAP] });
            i += 1;
        }
        let r = PTable { buckets };
        assert forall|pid: u32| #[trigger] r.lookup(pid) is None by {
            lemma_bucket_range(pid);
            lemma_slot_of(r.bucket(pid), pid, 16);
        }
        assert forall|pid: u32| #[trigger] r.has_slot(pid) by {
            lemma_bucket_range(pid);
            lemma_empty_slot(r.bucket(pid), 16);
            assert(r.bucket(pid)[0] is None);
        }
        r
    }
}

/// Let `pid` name `process`. Where the bucket is full of other numbers the
/// process stays without an entry.
pub fn ptable_insert(t: &mut PTable, pid: u32, process: usize)
    requires
        old(t).wf(),
    ensures
        final(t).wf(),
        final(t).buckets@ == (match target_slot(old(t).bucket(pid), pid) {
            Some(i) => old(t).buckets@.update(
                pid_bucket(pid),
                final(t).buckets@[pid_bucket(pid)],
            ),
            None => old(t).buckets@,
        }),
        final(t).bucket(pid) == (match target_slot(old(t).bucket(pid), pid) {
            Some(i) => old(t).bucket(pid).update(i, Some(PTableEntry { pid, process })),
            None => old(t).bucket(pid),
        }),
        final(t).lookup(pid) == (if old(t).has_slot(pid) {
            Some(process)
        } else {
            None
        }),
        forall|other: u32| other != pid ==> #[trigger] final(t).lookup(other) == old(t).lookup(other),
{
    let b: usize = ptable_bucket(pid);
    let ghost before = t.bucket(pid);
    let mut target: Option<usize> = None;
    let mut i: usize = 0;
    while i < PTABLE_BUCKET_CAP
        invariant_except_break
            slot_of(before, pid, i as nat) is None,
            match target {
                Some(k) => empty_slot(before, i as nat) == Some(k as int) && k < 16,
                None => empty_slot(before, i as nat) is None,
            },
        invariant
            i <= 16,
            t.wf(),
            *t == *old(t),
            b == pid_bucket(pid),
            b < 64,
            before == t.bucket(pid),
        ensures
            t.wf(),
            *t == *old(t),
            match target {
                Some(k) => target_slot(before, pid) == Some(k as int) && k < 16,
                None => target_slot(before, pid) is None,
            },
        decreases 16 - i,
    {
        match t.buckets[b].entries[i] {
            Some(e) => {
                if e.pid == pid {
                    target = Some(i);
                    proof {
                        lemma_slot_of(before, pid, 16);
                        lemma_slot_of(before, pid, i as nat);
                        assert(before[i as int] == Some(e));
                    }
                    break ;
                }
            },
            None => {
                if target.is_none() {
                    target = Some(i);
                }
            },
        }
        i += 1;
    }
    if let Some(k) = target {
        t.buckets[b].entries[k] = Some(PTableEntry { pid, process });
    }
    proof {
        let after = t.bucket(pid);
        lemma_slot_of(before, pid, 16);
        lemma_empty_slot(before, 16);
        lemma_slot_of(after, pid, 16);
        if target is Some {
            assert(after =~= before.update(target->Some_0 as int, Some(PTableEntry { pid, process })));
            assert(t.buckets@ =~= old(t).buckets@.update(b as int, t.buckets@[b as int]));
            let k = target->Some_0 as int;
            assert(after[k] == Some(PTableEntry { pid, process }));
            let j = slot_of(after, pid, 16)->Some_0;
            if j != k {
                assert(after[j] == before[j]);
            }
        }
        assert forall|other: u32| other != pid implies #[trigger] t.lookup(other) == old(t).lookup(
            other,
        ) by {
            lemma_bucket_range(other);
            let a = old(t).bucket(other);
            let z = t.bucket(other);
            assert forall|k: int| 0 <= k < 16 implies (#[trigger] a[k] matches Some(e) && e.pid
                == other) == (z[k] matches Some(e) && e.pid == other) by {}
            lemma_same_slot(a, z, other, 16);
            lemma_slot_of(a, other, 16);
        }
    }
}

/// Forget process number `pid`.
pub fn ptable_remove(t: &mut PTable, pid: u32)
    requires
        old(t).wf(),
    ensures
        final(t).wf(),
        final(t).buckets@ == old(t).buckets@.update(
            pid_bucket(pid),
            final(t).buckets@[pid_bucket(pid)],
        ),
        final(t).bucket(pid) == without(old(t).bucket(pid), pid),
        final(t).lookup(pid) is None,
        forall|other: u32| other != pid ==> #[trigger] final(t).lookup(other) == old(t).lookup(other),
{
    let b: usize = ptable_bucket(pid);
    let ghost before = t.bucket(pid);
    let ghost t0 = t.buckets@;
    let mut i: usize = 0;
    while i < PTABLE_BUCKET_CAP
        invariant
            i <= 16,
            t.wf(),
            b == pid_bucket(pid),
            b < 64,
            t0 == old(t).buckets@,
            t0.len() == 64,
            before == old(t).bucket(pid),
            t.buckets@ == t0.update(b as int, t.buckets@[b as int]),
            forall|k: int|
                0 <= k < 16 ==> #[trigger] t.buckets@[b as int].entries@[k] == (if k < i {
                    without(before, pid)[k]
                } else {
                    before[k]
                }),
        decreases 16 - i,
    {
        let gone: bool = match t.buckets[b].entries[i] {
            Some(e) => e.pid == pid,
            None => false,
        };
        if gone {
            t.buckets[b].entries[i] = None;
            assert(t.buckets@ =~= t0.update(b as int, t.buckets@[b as int]));
        }
        i += 1;
    }
    proof {
        let after = t.bucket(pid);
        assert(after =~= without(before, pid));
        lemma_slot_of(after, pid, 16);
        if let Some(i) = slot_of(after, pid, 16) {
            assert(after[i] == without(before, pid)[i]);
        }
        assert forall|other: u32| other != pid implies #[trigger] t.lookup(other) == old(t).lookup(
            other,
        ) by {
            lemma_bucket_range(other);
            let a = old(t).bucket(other);
            let z = t.bucket(other);
            assert forall|k: int| 0 <= k < 16 implies (#[trigger] a[k] matches Some(e) && e.pid
                == other) == (z[k] matches Some(e) && e.pid == other) by {
                if pid_bucket(other) == pid_bucket(pid) {
                    assert(z[k] == without(before, pid)[k]);
                }
            }
            lemma_same_slot(a, z, other, 16);
            lemma_slot_of(a, other, 16);
            if let Some(k) = slot_of(a, other, 16) {
                if pid_bucket(other) == pid_bucket(pid) {
                    assert(z[k] == without(before, pid)[k]);
                }
            }
        }
    }
}

/// The process with number `pid`.
pub fn ptable_find(t: &PTable, pid: u32) -> (r: Option<usize>)
    requires
        t.wf(),
    ensures
        r == t.lookup(pid),
{
    let b: usize = ptable_bucket(pid);
    let ghost all = t.bucket(pid);
    let mut i: usize = 0;
    while i < PTABLE_BUCKET_CAP
        invariant
            i <= 16,
            t.wf(),
            b == pid_bucket(pid),
            b < 64,
            all == t.bucket(pid),
            slot_of(all, pid, i as nat) is None,
        decreases 16 - i,
    {
        if let Some(e) = t.buckets[b].entries[i] {
            if e.pid == pid {
                proof {
                    lemma_slot_of(all, pid, 16);
                    lemma_slot_of(all, pid, i as nat);
                }
                return Some(e.process);
            }
        }
        i += 1;
    }
    None
}

} // verus!
