//! Run queues with eight priority levels.

use vstd::prelude::*;
use vstd::arithmetic::power2::{lemma2_to64, lemma_pow2_strictly_increases, pow2};
use vstd::bits::lemma_u32_shl_is_mul;
use super::thread::Thread;

verus! {

pub const MLFQ_LEVELS: usize = 8;

/// Slots in the ring of one level; one of them stays empty.
pub const QUEUE_DEPTH: usize = 256;

/// Ticks between two priority boosts.
pub const BOOST_INTERVAL: u32 = 1000;

/// Ticks a thread may run at a level before it drops to the next.
pub fn timeslice(level: usize) -> (r: u32)
    requires
        level < 32,
    ensures
        r == pow2(level as nat),
{
    proof {
        lemma2_to64();
        lemma_pow2_strictly_increases(level as nat, 32);
        lemma_u32_shl_is_mul(1, level as u32);
    }
    1u32 << (level as u32)
}

/// A bounded first-in first-out ring of threads.
struct RingQueue {
    buf: [usize; QUEUE_DEPTH],
    head: usize,
    tail: usize,
}

impl RingQueue {
    spec fn wf(&self) -> bool {
        self.head < 256 && self.tail < 256
    }

    spec fn count(&self) -> int {
        if self.tail >= self.head {
            self.tail - self.head
        } else {
            self.tail + 256 - self.head
        }
    }

    /// The queued threads, oldest first.
    spec fn items(&self) -> Seq<usize> {
        Seq::new(
            self.count() as nat,
            |i: int|
                self.buf@[if self.head + i < 256 {
                    self.head + i
                } else {
                    self.head + i - 256
                }],
        )
    }

    fn new() -> (r: Self)
        ensures
            r.wf(),
            r.items() == Seq::<usize>::empty(),
    {
        let r = RingQueue { buf: [0;QUEUE_DEPTH], head: 0, tail: 0 };
        assert(r.items() =~= Seq::<usize>::empty());
        r
    }

    fn push(&mut self, thread: usize) -> (r: bool)
        requires
            old(self).wf(),
        ensures
            final(self).wf(),
            r == (old(self).items().len() < 255),
            final(self).items() == (if r {
                old(self).items().push(thread)
            } else {
                old(self).items()
            }),
    {
        let next: usize = (self.tail + 1) % QUEUE_DEPTH;
        if next == self.head {
            return false;
        }
        self.buf[self.tail] = thread;
        self.tail = next;
        assert(self.items() =~= old(self).items().push(thread));
        true
    }

    fn pop(&mut self) -> (r: Option<usize>)
        requires
            old(self).wf(),
        ensures
            final(self).wf(),
            old(self).items().len() == 0 ==> r is None && final(self).items() == old(
                self,
            ).items(),
            old(self).items().len() > 0 ==> r == Some(old(self).items()[0])
                && final(self).items() == old(self).items().drop_first(),
    {
        if self.head == self.tail {
            return None;
        }
        let thread: usize = self.buf[self.head];
        self.head = (self.head + 1) % QUEUE_DEPTH;
        assert(self.items() =~= old(self).items().drop_first());
        Some(thread)
    }
}

/// A run queue: for each level, the runnable threads in arrival order. A
/// thread is named by its index.
pub struct MlfqQueue {
    levels: Vec<RingQueue>,
    total: u32,
}

/// The threads in the first `n` levels, counted.
pub open spec fn total_below(q: Seq<Seq<usize>>, n: nat) -> int
    decreases n,
{
    if n == 0 {
        0
    } else {
        total_below(q, (n - 1) as nat) + q[n - 1].len()
    }
}

/// The lowest-numbered of the first `n` levels that holds a thread.
pub open spec fn first_level(q: Seq<Seq<usize>>, n: nat) -> Option<int>
    decreases n,
{
    if n == 0 {
        None
    } else {
        match first_level(q, (n - 1) as nat) {
            Some(l) => Some(l),
            None => if q[n - 1].len() > 0 {
                Some(n - 1)
            } else {
                None
            },
        }
    }
}

/// The thread that is next to run.
pub open spec fn next_of(q: Seq<Seq<usize>>) -> Option<usize> {
    match first_level(q, 8) {
        Some(l) => Some(q[l][0]),
        None => None,
    }
}

/// The queue without the thread that is next to run.
pub open spec fn popped(q: Seq<Seq<usize>>) -> Seq<Seq<usize>> {
    match first_level(q, 8) {
        Some(l) => q.update(l, q[l].drop_first()),
        None => q,
    }
}

/// The level that a thread of priority `level` goes to.
pub open spec fn level_of(level: int) -> int {
    if level < 8 {
        level
    } else {
        7
    }
}

/// A thread of priority `level` can be queued.
pub open spec fn has_room(q: Seq<Seq<usize>>, level: int) -> bool {
    q[level_of(level)].len() < 255
}

/// The queue with a thread of priority `level` added, if there is room.
pub open spec fn pushed(q: Seq<Seq<usize>>, thread: usize, level: int) -> Seq<Seq<usize>> {
    if has_room(q, level) {
        q.update(level_of(level), q[level_of(level)].push(thread))
    } else {
        q
    }
}

/// Every queued thread is one of the first `n`.
pub open spec fn threads_below(q: Seq<Seq<usize>>, n: nat) -> bool {
    forall|l: int, i: int| 0 <= l < q.len() && 0 <= i < q[l].len() ==> #[trigger] q[l][i] < n
}

/// `src` and `dst` after up to `n` threads moved from one to the other, and
/// how many moved. A thread that `dst` has no room for goes back and ends it.
pub open spec fn stolen(
    src: Seq<Seq<usize>>,
    dst: Seq<Seq<usize>>,
    threads: Seq<Thread>,
    n: nat,
) -> (Seq<Seq<usize>>, Seq<Seq<usize>>, nat)
    decreases n,
{
    if n == 0 {
        (src, dst, 0)
    } else {
        match next_of(src) {
            None => (src, dst, 0),
            Some(t) => {
                let level = threads[t as int].priority as int;
                if has_room(dst, level) {
                    let (s, d, k) = stolen(
                        popped(src),
                        pushed(dst, t, level),
                        threads,
                        (n - 1) as nat,
                    );
                    (s, d, k + 1)
                } else {
                    (pushed(popped(src), t, level), dst, 0)
                }
            },
        }
    }
}

/// The threads of `level` that a boost takes up: those that fit on level 0,
/// and the one that no longer did.
pub open spec fn boost_takes(q: Seq<Seq<usize>>, level: int) -> Seq<usize> {
    let room = 255 - q[0].len();
    if q[level].len() <= room {
        q[level]
    } else {
        q[level].take(room + 1)
    }
}

/// The queue after the threads of `level` moved to level 0 as far as they fit.
/// The first that does not fit goes to the end of its level.
pub open spec fn boosted_level(q: Seq<Seq<usize>>, level: int) -> Seq<Seq<usize>> {
    let room = 255 - q[0].len();
    let l = q[level];
    if l.len() <= room {
        q.update(0, q[0] + l).update(level, Seq::empty())
    } else {
        q.update(0, q[0] + l.take(room)).update(level, l.skip(room + 1).push(l[room]))
    }
}

/// The queue after levels `1..n` were boosted in order.
pub open spec fn boosted_upto(q: Seq<Seq<usize>>, n: nat) -> Seq<Seq<usize>>
    decreases n,
{
    if n <= 1 {
        q
    } else {
        boosted_level(boosted_upto(q, (n - 1) as nat), n - 1)
    }
}

/// Boosting levels `1..n` takes up thread `t`.
pub open spec fn boost_touches(q: Seq<Seq<usize>>, n: nat, t: usize) -> bool
    decreases n,
{
    if n <= 1 {
        false
    } else {
        boost_touches(q, (n - 1) as nat, t) || boost_takes(
            boosted_upto(q, (n - 1) as nat),
            n - 1,
        ).contains(t)
    }
}

/// The threads after a boost: those taken up start over at priority 0.
pub open spec fn boost_threads(q: Seq<Seq<usize>>, n: nat, threads: Seq<Thread>) -> Seq<Thread> {
    Seq::new(
        threads.len(),
        |t: int|
            if boost_touches(q, n, t as usize) {
                Thread { priority: 0, ticks_used: 0, ..threads[t] }
            } else {
                threads[t]
            },
    )
}

proof fn lemma_total_update(q: Seq<Seq<usize>>, l: int, s: Seq<usize>, n: nat)
    requires
        0 <= l < q.len(),
        n <= q.len(),
    ensures
        total_below(q.update(l, s), n) == total_below(q, n) + (if l < n {
            s.len() - q[l].len()
        } else {
            0
        }),
    decreases n,
{
    if n > 0 {
        lemma_total_update(q, l, s, (n - 1) as nat);
    }
}

proof fn lemma_total_bound(q: Seq<Seq<usize>>, n: nat)
    requires
        n <= q.len(),
        forall|l: int| 0 <= l < q.len() ==> (#[trigger] q[l]).len() <= 255,
    ensures
        0 <= total_below(q, n) <= 255 * n,
    decreases n,
{
    if n > 0 {
        lemma_total_bound(q, (n - 1) as nat);
        assert(q[n - 1].len() <= 255);
    }
}

/// A level that is found is the lowest that holds a thread.
pub proof fn lemma_first_level(q: Seq<Seq<usize>>, n: nat)
    ensures
        match first_level(q, n) {
            Some(l) => 0 <= l < n && q[l].len() > 0 && forall|k: int|
                0 <= k < l ==> (#[trigger] q[k]).len() == 0,
            None => forall|k: int| 0 <= k < n ==> (#[trigger] q[k]).len() == 0,
        },
    decreases n,
{
    if n > 0 {
        lemma_first_level(q, (n - 1) as nat);
    }
}

proof fn lemma_level_sticks(q: Seq<Seq<usize>>, m: nat, n: nat)
    requires
        m <= n,
        first_level(q, m) is Some,
    ensures
        first_level(q, n) == first_level(q, m),
    decreases n,
{
    if m < n {
        lemma_level_sticks(q, m, (n - 1) as nat);
    }
}

pub proof fn lemma_pushed_below(q: Seq<Seq<usize>>, thread: usize, level: int, n: nat)
    requires
        q.len() == 8,
        level >= 0,
        threads_below(q, n),
        thread < n,
    ensures
        threads_below(pushed(q, thread, level), n),
        pushed(q, thread, level).len() == 8,
{
    let p = pushed(q, thread, level);
    assert forall|m: int, i: int| 0 <= m < p.len() && 0 <= i < p[m].len() implies #[trigger] p[m][i]
        < n by {
        if i < q[m].len() {
            assert(p[m][i] == q[m][i]);
        }
    }
}

pub proof fn lemma_popped_below(q: Seq<Seq<usize>>, n: nat)
    requires
        q.len() == 8,
        threads_below(q, n),
    ensures
        threads_below(popped(q), n),
        popped(q).len() == 8,
        next_of(q) matches Some(t) ==> t < n,
{
    lemma_first_level(q, 8);
    if let Some(l) = first_level(q, 8) {
        let p = popped(q);
        assert(q[l][0] < n);
        assert forall|m: int, i: int| 0 <= m < p.len() && 0 <= i < p[m].len() implies
            #[trigger] p[m][i] < n by {
            if m == l {
                assert(p[m][i] == q[m][i + 1]);
            } else {
                assert(p[m][i] == q[m][i]);
            }
        }
    }
}

pub proof fn lemma_stolen_below(
    src: Seq<Seq<usize>>,
    dst: Seq<Seq<usize>>,
    threads: Seq<Thread>,
    k: nat,
    n: nat,
)
    requires
        src.len() == 8,
        dst.len() == 8,
        threads_below(src, n),
        threads_below(dst, n),
    ensures
        threads_below(stolen(src, dst, threads, k).0, n),
        threads_below(stolen(src, dst, threads, k).1, n),
    decreases k,
{
    if k > 0 {
        if let Some(t) = next_of(src) {
            let level = threads[t as int].priority as int;
            lemma_popped_below(src, n);
            if has_room(dst, level) {
                lemma_pushed_below(dst, t, level, n);
                lemma_stolen_below(popped(src), pushed(dst, t, level), threads, (k - 1) as nat, n);
            } else {
                lemma_pushed_below(popped(src), t, level, n);
            }
        }
    }
}

proof fn lemma_boost_below(q: Seq<Seq<usize>>, level: int, n: nat)
    requires
        1 <= level < 8,
        q.len() == 8,
        q[0].len() <= 255,
        threads_below(q, n),
    ensures
        threads_below(boosted_level(q, level), n),
{
    let room = 255 - q[0].len();
    let l = q[level];
    let b = boosted_level(q, level);
    assert forall|m: int, i: int| 0 <= m < b.len() && 0 <= i < b[m].len() implies #[trigger] b[m][i]
        < n by {
        if m == 0 {
            if i < q[0].len() {
                assert(b[m][i] == q[0][i]);
            } else {
                assert(b[m][i] == q[level][i - q[0].len()]);
            }
        } else if m == level {
            if i < l.len() - room - 1 {
                assert(b[m][i] == q[level][i + room + 1]);
            } else {
                assert(b[m][i] == q[level][room]);
            }
        } else {
            assert(b[m][i] == q[m][i]);
        }
    }
}

pub proof fn lemma_boosted_below(q: Seq<Seq<usize>>, k: nat, n: nat)
    requires
        q.len() == 8,
        k <= 8,
        forall|l: int| 0 <= l < 8 ==> (#[trigger] q[l]).len() <= 255,
        threads_below(q, n),
    ensures
        threads_below(boosted_upto(q, k), n),
        boosted_upto(q, k).len() == 8,
        boosted_upto(q, k)[0].len() <= 255,
    decreases k,
{
    if k > 1 {
        lemma_boosted_below(q, (k - 1) as nat, n);
        lemma_boost_below(boosted_upto(q, (k - 1) as nat), k - 1, n);
    }
}

impl MlfqQueue {
    /// For each level, the queued threads in arrival order.
    pub closed spec fn view(&self) -> Seq<Seq<usize>> {
        Seq::new(8, |l: int| self.levels@[l].items())
    }

    pub closed spec fn wf(&self) -> bool {
        &&& self.levels@.len() == 8
        &&& forall|l: int| 0 <= l < 8 ==> (#[trigger] self.levels@[l]).wf()
        &&& self.total == total_below(self@, 8)
    }

    pub proof fn lemma_shape(&self)
        requires
            self.wf(),
        ensures
            self@.len() == 8,
            forall|l: int| 0 <= l < 8 ==> (#[trigger] self@[l]).len() <= 255,
    {
        assert forall|l: int| 0 <= l < 8 implies (#[trigger] self@[l]).len() <= 255 by {
            assert(self.levels@[l].wf());
        }
    }

    pub fn new() -> (r: Self)
        ensures
            r.wf(),
            r@ == Seq::new(8, |l: int| Seq::<usize>::empty()),
    {
        let mut levels: Vec<RingQueue> = Vec::new();
        let mut i: usize = 0;
        while i < MLFQ_LEVELS
            invariant
                i <= 8,
                levels@.len() == i,
                forall|l: int|
                    0 <= l < i ==> (#[trigger] levels@[l]).wf() && levels@[l].items() == Seq::<
                        usize,
                    >::empty(),
            decreases 8 - i,
        {
            levels.push(RingQueue::new());
            i += 1;
        }
        let r = MlfqQueue { levels, total: 0 };
        assert(r@ =~= Seq::new(8, |l: int| Seq::<usize>::empty()));
        proof {
            reveal_with_fuel(total_below, 9);
        }
        r
    }

    /// Queue a thread. False where its level is full.
    pub fn push(&mut self, thread: usize, level: usize) -> (r: bool)
        requires
            old(self).wf(),
        ensures
            final(self).wf(),
            r == has_room(old(self)@, level as int),
            final(self)@ == pushed(old(self)@, thread, level as int),
    {
        let l: usize = if level < MLFQ_LEVELS {
            level
        } else {
            MLFQ_LEVELS - 1
        };
        let ghost before = *self;
        assert(self.levels@[l as int].wf());
        let r = self.levels[l].push(thread);
        if r {
            proof {
                before.lemma_shape();
                lemma_total_bound(before@, 8);
                assert(self@ =~= pushed(before@, thread, level as int));
                lemma_total_update(before@, l as int, before@[l as int].push(thread), 8);
            }
            self.total = self.total + 1;
            assert(self@ =~= pushed(before@, thread, level as int));
        } else {
            assert(self@ =~= before@);
        }
        r
    }

    /// Take the thread that is next to run.
    pub fn pop(&mut self) -> (r: Option<usize>)
        requires
            old(self).wf(),
        ensures
            final(self).wf(),
            r == next_of(old(self)@),
            final(self)@ == popped(old(self)@),
    {
        let mut level: usize = 0;
        while level < MLFQ_LEVELS
            invariant
                level <= 8,
                self.wf(),
                self@ == old(self)@,
                first_level(self@, level as nat) is None,
            decreases 8 - level,
        {
            let ghost before = *self;
            assert(self.levels@[level as int].wf());
            let got = self.levels[level].pop();
            if let Some(thread) = got {
                proof {
                    before.lemma_shape();
                    lemma_level_sticks(before@, (level + 1) as nat, 8);
                    assert(self@ =~= popped(before@));
                    lemma_total_bound(before@, 8);
                    lemma_total_bound(self@, 8);
                    lemma_total_update(
                        before@,
                        level as int,
                        before@[level as int].drop_first(),
                        8,
                    );
                }
                self.total = self.total - 1;
                assert(self@ =~= popped(before@));
                return Some(thread);
            }
            assert(self@ =~= before@);
            level += 1;
        }
        None
    }

    /// Move up to `n` threads to `dst`, next to run first.
    pub fn steal_into(&mut self, dst: &mut MlfqQueue, n: usize, threads: &Vec<Thread>) -> (r: usize)
        requires
            old(self).wf(),
            old(dst).wf(),
            threads_below(old(self)@, threads@.len()),
        ensures
            final(self).wf(),
            final(dst).wf(),
            (final(self)@, final(dst)@, r as nat) == stolen(
                old(self)@,
                old(dst)@,
                threads@,
                n as nat,
            ),
    {
        let mut moved: usize = 0;
        while moved < n
            invariant
                moved <= n,
                self.wf(),
                dst.wf(),
                threads_below(self@, threads@.len()),
                ({
                    let (s, d, k) = stolen(self@, dst@, threads@, (n - moved) as nat);
                    stolen(old(self)@, old(dst)@, threads@, n as nat) == (s, d, (k + moved) as nat)
                }),
            decreases n - moved,
        {
            let ghost before = self@;
            proof {
                lemma_first_level(before, 8);
                self.lemma_shape();
                dst.lemma_shape();
            }
            let thread: usize = match self.pop() {
                Some(thread) => thread,
                None => return moved,
            };
            proof {
                let l = first_level(before, 8)->Some_0;
                assert(before[l][0] == thread);
                assert forall|m: int, i: int| 0 <= m < self@.len() && 0 <= i < self@[m].len() implies
                    #[trigger] self@[m][i] < threads@.len() by {
                    if m == l {
                        assert(self@[m][i] == before[m][i + 1]);
                    } else {
                        assert(self@[m][i] == before[m][i]);
                    }
                }
            }
            let level: usize = threads[thread].priority as usize;
            if !dst.push(thread, level) {
                let _ = self.push(thread, level);
                return moved;
            }
            moved += 1;
        }
        moved
    }

    /// Bring every queued thread to level 0 as far as there is room, to keep
    /// low priorities from starving.
    pub fn boost_all(&mut self, threads: &mut Vec<Thread>)
        requires
            old(self).wf(),
            threads_below(old(self)@, old(threads)@.len()),
        ensures
            final(self).wf(),
            final(self)@ == boosted_upto(old(self)@, 8),
            final(threads)@ == boost_threads(old(self)@, 8, old(threads)@),
    {
        let ghost q0 = self@;
        let ghost t0 = threads@;
        let mut level: usize = 1;
        assert(threads@ =~= boost_threads(q0, 1, t0));
        while level < MLFQ_LEVELS
            invariant
                1 <= level <= 8,
                self.wf(),
                self@ == boosted_upto(q0, level as nat),
                threads_below(self@, t0.len()),
                threads@ == boost_threads(q0, level as nat, t0),
            decreases 8 - level,
        {
            self.boost_one(level, threads);
            assert(threads@ =~= boost_threads(q0, (level + 1) as nat, t0));
            level += 1;
        }
    }

    /// Bring the threads of one level to level 0.
    fn boost_one(&mut self, level: usize, threads: &mut Vec<Thread>)
        requires
            old(self).wf(),
            1 <= level < 8,
            threads_below(old(self)@, old(threads)@.len()),
        ensures
            final(self).wf(),
            final(self)@ == boosted_level(old(self)@, level as int),
            threads_below(final(self)@, old(threads)@.len()),
            final(threads)@ == Seq::new(
                old(threads)@.len(),
                |t: int|
                    if boost_takes(old(self)@, level as int).contains(t as usize) {
                        Thread { priority: 0, ticks_used: 0, ..old(threads)@[t] }
                    } else {
                        old(threads)@[t]
                    },
            ),
    {
        let ghost q = self@;
        let ghost l = q[level as int];
        let ghost t0 = threads@;
        let mut i: usize = 0;
        proof {
            self.lemma_shape();
            assert(q[0] + l.take(0) =~= q[0]);
            assert(l.skip(0) =~= l);
            assert(self@ =~= q.update(0, q[0] + l.take(0)).update(level as int, l.skip(0)));
        }
        loop
            invariant
                q == old(self)@,
                t0 == old(threads)@,
                1 <= level < 8,
                l == q[level as int],
                self.wf(),
                i <= l.len(),
                i + q[0].len() <= 255,
                q.len() == 8,
                forall|k: int| 0 <= k < 8 ==> (#[trigger] q[k]).len() <= 255,
                threads_below(q, t0.len()),
                self@ == q.update(0, q[0] + l.take(i as int)).update(
                    level as int,
                    l.skip(i as int),
                ),
                threads@ == Seq::new(
                    t0.len(),
                    |t: int|
                        if l.take(i as int).contains(t as usize) {
                            Thread { priority: 0, ticks_used: 0, ..t0[t] }
                        } else {
                            t0[t]
                        },
                ),
            decreases l.len() - i,
        {
            let ghost here = *self;
            let ghost h = self@;
            let ghost ts = threads@;
            assert(self.levels@[level as int].wf() && self.levels@[0].wf());
            assert(h[level as int] =~= l.skip(i as int));
            assert(h[0] =~= q[0] + l.take(i as int));
            let got = self.levels[level].pop();
            let thread: usize = match got {
                Some(thread) => thread,
                None => {
                    proof {
                        assert(self@ =~= h);
                        assert(l.take(i as int) =~= l);
                        assert(l.skip(i as int) =~= Seq::<usize>::empty());
                        assert(self@ =~= boosted_level(q, level as int));
                        assert(threads_below(self@, t0.len())) by {
                            lemma_boost_below(q, level as int, t0.len());
                        }
                    }
                    return ;
                },
            };
            assert(thread == l[i as int]);
            assert(q[level as int][i as int] < t0.len());
            let mut entry: Thread = threads[thread];
            entry.priority = 0;
            entry.ticks_used = 0;
            threads.set(thread, entry);
            proof {
                let next = l.take(i + 1);
                assert(threads@.len() == threads.len());
                assert(next =~= l.take(i as int).push(thread));
                assert forall|t: int| 0 <= t < t0.len() implies #[trigger] threads@[t] == (
                if next.contains(t as usize) {
                    Thread { priority: 0, ticks_used: 0, ..t0[t] }
                } else {
                    t0[t]
                }) by {
                    if l.take(i as int).contains(t as usize) {
                        let k = choose|k: int|
                            0 <= k < i && #[trigger] l.take(i as int)[k] == t as usize;
                        assert(next[k] == t as usize);
                    }
                    if next.contains(t as usize) {
                        let k = choose|k: int| 0 <= k < i + 1 && #[trigger] next[k] == t as usize;
                        if k < i {
                            assert(l.take(i as int)[k] == t as usize);
                        }
                    }
                    assert(next[i as int] == thread);
                }
                assert(threads@ =~= Seq::new(
                    t0.len(),
                    |t: int|
                        if next.contains(t as usize) {
                            Thread { priority: 0, ticks_used: 0, ..t0[t] }
                        } else {
                            t0[t]
                        },
                ));
            }
            let ghost mid = *self;
            if self.levels[0].push(thread) {
                proof {
                    assert(h[0].push(thread) =~= q[0] + l.take(i + 1));
                    assert(h[level as int].drop_first() =~= l.skip(i + 1));
                    assert(self@ =~= h.update(level as int, h[level as int].drop_first()).update(
                        0,
                        h[0].push(thread),
                    ));
                    assert(self@ =~= q.update(0, q[0] + l.take(i + 1)).update(
                        level as int,
                        l.skip(i + 1),
                    ));
                    lemma_total_update(h, level as int, h[level as int].drop_first(), 8);
                    lemma_total_update(
                        h.update(level as int, h[level as int].drop_first()),
                        0,
                        h[0].push(thread),
                        8,
                    );
                }
                i += 1;
                continue ;
            }
            assert(self.levels@[level as int].items().len() < 255);
            let _ = self.levels[level].push(thread);
            proof {
                assert(h[level as int].drop_first().push(thread) =~= l.skip(i + 1).push(
                    l[i as int],
                ));
                assert(i == 255 - q[0].len());
                assert(self@ =~= h.update(
                    level as int,
                    h[level as int].drop_first().push(thread),
                ));
                lemma_total_update(
                    h,
                    level as int,
                    h[level as int].drop_first().push(thread),
                    8,
                );
                assert(self@ =~= boosted_level(q, level as int));
                lemma_boost_below(q, level as int, t0.len());
            }
            return ;
        }
    }

    pub fn len(&self) -> (r: u32)
        requires
            self.wf(),
        ensures
            r == total_below(self@, 8),
    {
        self.total
    }

    pub fn is_empty(&self) -> (r: bool)
        requires
            self.wf(),
        ensures
            r == (total_below(self@, 8) == 0),
    {
        self.len() == 0
    }
}

impl Default for MlfqQueue {
    fn default() -> (r: Self)
        ensures
            r.wf(),
            r@ == Seq::new(8, |l: int| Seq::<usize>::empty()),
    {
        MlfqQueue::new()
    }
}

/// A thread pushed onto an empty queue is the next one to run, and taking it
/// leaves the queue empty again.
pub proof fn push_then_pop(q: Seq<Seq<usize>>, thread: usize, level: int)
    requires
        q.len() == 8,
        0 <= level,
        forall|l: int| 0 <= l < 8 ==> (#[trigger] q[l]).len() == 0,
    ensures
        next_of(pushed(q, thread, level)) == Some(thread),
        popped(pushed(q, thread, level)) == q,
{
    let l = level_of(level);
    let p = pushed(q, thread, level);
    lemma_first_level(p, 8);
    assert(p[l].len() == 1);
    assert(first_level(p, 8) == Some(l));
    assert(p[l].drop_first() =~= q[l]);
    assert(popped(p) =~= q);
}

/// Every queued thread is queued at the level of its priority.
pub open spec fn at_own_level(q: Seq<Seq<usize>>, threads: Seq<Thread>) -> bool {
    forall|l: int, i: int|
        0 <= l < q.len() && 0 <= i < q[l].len() ==> level_of(
            threads[#[trigger] q[l][i] as int].priority as int,
        ) == l
}

} // verus!
