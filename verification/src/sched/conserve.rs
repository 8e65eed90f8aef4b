//! No thread is lost: what leaves one queue is in another, or runs.

use vstd::multiset::Multiset;
use vstd::prelude::*;
use vstd::seq_lib::{lemma_multiset_commutative, to_multiset_build};
use super::percpu::{cpu_slot, SchedView};
use super::queue::{at_own_level, boosted_level, boosted_upto, first_level, has_room, lemma_first_level, level_of, next_of, popped, pushed, stolen};
use super::schedule::{dispatched, picked};
use super::thread::Thread;

verus! {

/// The threads on the first `n` levels of a queue.
pub open spec fn queued_below(q: Seq<Seq<usize>>, n: nat) -> Multiset<usize>
    decreases n,
{
    if n == 0 {
        Multiset::empty()
    } else {
        queued_below(q, (n - 1) as nat).add(q[n - 1].to_multiset())
    }
}

/// The threads of a queue.
pub open spec fn queued(q: Seq<Seq<usize>>) -> Multiset<usize> {
    queued_below(q, 8)
}

proof fn lemma_same_below(q: Seq<Seq<usize>>, l: int, s: Seq<usize>, n: nat)
    requires
        n <= l < q.len(),
    ensures
        queued_below(q.update(l, s), n) == queued_below(q, n),
    decreases n,
{
    if n > 0 {
        lemma_same_below(q, l, s, (n - 1) as nat);
    }
}

/// A level that is replaced takes its threads out and brings others in.
proof fn lemma_level_replaced(q: Seq<Seq<usize>>, l: int, s: Seq<usize>, n: nat)
    requires
        0 <= l < n <= q.len(),
    ensures
        queued_below(q.update(l, s), n).add(q[l].to_multiset()) == queued_below(q, n).add(
            s.to_multiset(),
        ),
    decreases n,
{
    broadcast use vstd::multiset::group_multiset_axioms;

    let u = q.update(l, s);
    if l == n - 1 {
        lemma_same_below(q, l, s, (n - 1) as nat);
        assert(queued_below(u, n).add(q[l].to_multiset()) =~= queued_below(q, n).add(
            s.to_multiset(),
        ));
    } else {
        lemma_level_replaced(q, l, s, (n - 1) as nat);
        assert(u[n - 1] == q[n - 1]);
        assert(queued_below(u, n).add(q[l].to_multiset()) =~= queued_below(u, (n - 1) as nat).add(
            q[l].to_multiset(),
        ).add(q[n - 1].to_multiset()));
        assert(queued_below(q, n).add(s.to_multiset()) =~= queued_below(q, (n - 1) as nat).add(
            s.to_multiset(),
        ).add(q[n - 1].to_multiset()));
    }
}

/// Queueing a thread adds it and nothing else.
pub proof fn push_adds_the_thread(q: Seq<Seq<usize>>, thread: usize, level: int)
    requires
        q.len() == 8,
        0 <= level,
        has_room(q, level),
    ensures
        queued(pushed(q, thread, level)) == queued(q).insert(thread),
{
    broadcast use vstd::multiset::group_multiset_axioms;

    let l = level_of(level);
    lemma_level_replaced(q, l, q[l].push(thread), 8);
    to_multiset_build(q[l], thread);
    assert(queued(pushed(q, thread, level)) =~= queued(q).insert(thread)) by {
        assert forall|x: usize|
            #[trigger] queued(pushed(q, thread, level)).count(x) == queued(q).insert(thread).count(
                x,
            ) by {
            assert(queued(pushed(q, thread, level)).add(q[l].to_multiset()).count(x) == queued(
                q,
            ).add(q[l].push(thread).to_multiset()).count(x));
        }
    }
}

/// Taking the next thread from a queue takes it and nothing else.
pub proof fn pop_takes_the_thread(q: Seq<Seq<usize>>)
    requires
        q.len() == 8,
        next_of(q) is Some,
    ensures
        queued(q) == queued(popped(q)).insert(next_of(q)->Some_0),
{
    broadcast use vstd::multiset::group_multiset_axioms;

    lemma_first_level(q, 8);
    let l = first_level(q, 8)->Some_0;
    let t = q[l][0];
    let rest = q[l].drop_first();
    lemma_level_replaced(q, l, rest, 8);
    lemma_multiset_commutative(seq![t], rest);
    assert(seq![t] + rest =~= q[l]);
    to_multiset_build(Seq::<usize>::empty(), t);
    Seq::<usize>::empty().to_multiset_ensures();
    assert(Seq::<usize>::empty().push(t) =~= seq![t]);
    assert(queued(q) =~= queued(popped(q)).insert(t)) by {
        assert forall|x: usize|
            #[trigger] queued(q).count(x) == queued(popped(q)).insert(t).count(x) by {
            assert(queued(popped(q)).add(q[l].to_multiset()).count(x) == queued(q).add(
                rest.to_multiset(),
            ).count(x));
        }
    }
}

/// Stealing loses no thread and makes none: every thread that one queue has
/// fewer, the other has more.
pub proof fn stealing_keeps_threads(
    src: Seq<Seq<usize>>,
    dst: Seq<Seq<usize>>,
    threads: Seq<Thread>,
    n: nat,
)
    requires
        src.len() == 8,
        dst.len() == 8,
        forall|l: int| 0 <= l < 8 ==> (#[trigger] src[l]).len() <= 255,
        at_own_level(src, threads),
    ensures
        ({
            let (s, d, k) = stolen(src, dst, threads, n);
            &&& k <= n
            &&& queued(s).add(queued(d)) == queued(src).add(queued(dst))
            &&& queued(s).len() == queued(src).len() - k
        }),
    decreases n,
{
    broadcast use vstd::multiset::group_multiset_axioms;

    if n > 0 {
        lemma_first_level(src, 8);
        if let Some(t) = next_of(src) {
            let l = first_level(src, 8)->Some_0;
            let rest = popped(src);
            let level = threads[t as int].priority as int;
            pop_takes_the_thread(src);
            if has_room(dst, level) {
                push_adds_the_thread(dst, t, level);
                assert forall|m: int, i: int|
                    0 <= m < rest.len() && 0 <= i < rest[m].len() implies level_of(
                    threads[#[trigger] rest[m][i] as int].priority as int,
                ) == m by {
                    if m == l {
                        assert(rest[m][i] == src[m][i + 1]);
                    } else {
                        assert(rest[m][i] == src[m][i]);
                    }
                }
                stealing_keeps_threads(rest, pushed(dst, t, level), threads, (n - 1) as nat);
                assert(queued(rest).add(queued(dst).insert(t)) =~= queued(rest).insert(t).add(
                    queued(dst),
                ));
            } else {
                assert(src[l][0] == t);
                assert(level_of(level) == l);
                assert(rest[l].len() < 255);
                push_adds_the_thread(rest, t, level);
            }
        }
    }
}

/// A boost moves threads between the levels of a queue, and loses none.
pub proof fn boost_keeps_threads(q: Seq<Seq<usize>>, k: nat)
    requires
        q.len() == 8,
        k <= 8,
        forall|l: int| 0 <= l < 8 ==> (#[trigger] q[l]).len() <= 255,
    ensures
        boosted_upto(q, k).len() == 8,
        boosted_upto(q, k)[0].len() <= 255,
        queued(boosted_upto(q, k)) == queued(q),
    decreases k,
{
    broadcast use vstd::multiset::group_multiset_axioms;

    if k > 1 {
        boost_keeps_threads(q, (k - 1) as nat);
        let b = boosted_upto(q, (k - 1) as nat);
        lemma_boost_level(b, k - 1);
    }
}

proof fn lemma_boost_level(b: Seq<Seq<usize>>, level: int)
    requires
        b.len() == 8,
        1 <= level < 8,
        b[0].len() <= 255,
    ensures
        boosted_level(b, level).len() == 8,
        boosted_level(b, level)[0].len() <= 255,
        queued(boosted_level(b, level)) == queued(b),
{
    broadcast use vstd::multiset::group_multiset_axioms;

    let room = 255 - b[0].len();
    let l = b[level];
    let up = if l.len() <= room {
        l
    } else {
        l.take(room)
    };
    let rest = if l.len() <= room {
        Seq::empty()
    } else {
        l.skip(room + 1).push(l[room])
    };
    let m = b.update(0, b[0] + up);
    lemma_level_replaced(b, 0, b[0] + up, 8);
    lemma_multiset_commutative(b[0], up);
    lemma_level_replaced(m, level, rest, 8);
    assert(m[level] == l);
    Seq::<usize>::empty().to_multiset_ensures();
    assert(l.to_multiset() =~= up.to_multiset().add(rest.to_multiset())) by {
        if l.len() > room {
            let tail = l.skip(room + 1);
            lemma_multiset_commutative(up, l.skip(room));
            assert(up + l.skip(room) =~= l);
            lemma_multiset_commutative(seq![l[room]], tail);
            assert(seq![l[room]] + tail =~= l.skip(room));
            to_multiset_build(tail, l[room]);
            to_multiset_build(Seq::<usize>::empty(), l[room]);
            assert(Seq::<usize>::empty().push(l[room]) =~= seq![l[room]]);
        }
    }
    let r = boosted_level(b, level);
    assert(r == m.update(level, rest));
    assert(queued(r) =~= queued(b)) by {
        assert forall|x: usize| #[trigger] queued(r).count(x) == queued(b).count(x) by {
            assert(queued(m).add(b[0].to_multiset()).count(x) == queued(b).add(
                (b[0] + up).to_multiset(),
            ).count(x));
            assert(queued(r).add(l.to_multiset()).count(x) == queued(m).add(
                rest.to_multiset(),
            ).count(x));
            assert(l.to_multiset().count(x) == up.to_multiset().add(rest.to_multiset()).count(x));
        }
    }
}

/// A CPU that has something queued runs the thread that it takes from its queue,
/// and the others stay where they are.
pub proof fn turn_keeps_threads(v: SchedView, cpu_id: u32)
    requires
        v.cpus.len() == 64,
        v.cpus[cpu_slot(cpu_id)].queue.len() == 8,
        next_of(v.cpus[cpu_slot(cpu_id)].queue) is Some,
    ensures
        ({
            let me = cpu_slot(cpu_id);
            let (x, next) = picked(v, cpu_id);
            let w = dispatched(x, cpu_id, next).0;
            &&& next is Some
            &&& w.cpus[me].current == next
            &&& queued(v.cpus[me].queue) == queued(w.cpus[me].queue).insert(next->Some_0)
            &&& forall|i: int|
                0 <= i < 64 && i != me ==> #[trigger] w.cpus[i] == v.cpus[i]
        }),
{
    pop_takes_the_thread(v.cpus[cpu_slot(cpu_id)].queue);
}

} // verus!
