//! The order in which a run queue serves what has been queued.

use vstd::prelude::*;
use super::queue::{first_level, has_room, lemma_first_level, level_of, next_of, popped, pushed, total_below};

verus! {

/// A run queue that holds nothing.
pub open spec fn nothing_queued() -> Seq<Seq<usize>> {
    Seq::new(8, |l: int| Seq::<usize>::empty())
}

/// An empty queue after threads were pushed in the order of `items`, each with
/// its level.
pub open spec fn filled(items: Seq<(usize, usize)>) -> Seq<Seq<usize>>
    decreases items.len(),
{
    if items.len() == 0 {
        nothing_queued()
    } else {
        pushed(filled(items.drop_last()), items.last().0, items.last().1 as int)
    }
}

/// There was room for each thread when it was pushed.
pub open spec fn all_fit(items: Seq<(usize, usize)>) -> bool
    decreases items.len(),
{
    items.len() > 0 ==> all_fit(items.drop_last()) && has_room(
        filled(items.drop_last()),
        items.last().1 as int,
    )
}

/// A queue after `n` threads were popped.
pub open spec fn drained(q: Seq<Seq<usize>>, n: nat) -> Seq<Seq<usize>>
    decreases n,
{
    if n == 0 {
        q
    } else {
        popped(drained(q, (n - 1) as nat))
    }
}

/// The positions in `items` of what was pushed to level `l`, in the order in which
/// it was.
pub open spec fn arrivals(items: Seq<(usize, usize)>, l: int) -> Seq<int>
    decreases items.len(),
{
    if items.len() == 0 {
        Seq::empty()
    } else {
        let before = arrivals(items.drop_last(), l);
        if level_of(items.last().1 as int) == l {
            before.push(items.len() - 1)
        } else {
            before
        }
    }
}

/// The positions in `items` of what was pushed to the first `n` levels, level by
/// level.
pub open spec fn service(items: Seq<(usize, usize)>, n: nat) -> Seq<int>
    decreases n,
{
    if n == 0 {
        Seq::empty()
    } else {
        service(items, (n - 1) as nat) + arrivals(items, n - 1)
    }
}

/// Position `a` of `items` is served before position `b`: its level is lower, or
/// the same and it was pushed earlier.
pub open spec fn served_before(items: Seq<(usize, usize)>, a: int, b: int) -> bool {
    let la = level_of(items[a].1 as int);
    let lb = level_of(items[b].1 as int);
    la < lb || (la == lb && a < b)
}

/// The threads of the first `n` levels, level by level.
spec fn flat(q: Seq<Seq<usize>>, n: nat) -> Seq<usize>
    decreases n,
{
    if n == 0 {
        Seq::empty()
    } else {
        flat(q, (n - 1) as nat) + q[n - 1]
    }
}

/// Changing a level changes nothing of what comes before it.
proof fn lemma_flat_below(q: Seq<Seq<usize>>, l: int, s: Seq<usize>, n: nat)
    requires
        n <= l < q.len(),
    ensures
        flat(q.update(l, s), n) == flat(q, n),
    decreases n,
{
    if n > 0 {
        lemma_flat_below(q, l, s, (n - 1) as nat);
    }
}

proof fn lemma_flat_empty(q: Seq<Seq<usize>>, n: nat)
    requires
        forall|k: int| 0 <= k < n ==> (#[trigger] q[k]).len() == 0,
    ensures
        flat(q, n) == Seq::<usize>::empty(),
    decreases n,
{
    if n > 0 {
        lemma_flat_empty(q, (n - 1) as nat);
        assert(q[n - 1].len() == 0);
        assert(flat(q, n) =~= Seq::<usize>::empty());
    }
}

/// Taking the first thread of the lowest level in use takes the first of all.
proof fn lemma_flat_popped(q: Seq<Seq<usize>>, l: int, n: nat)
    requires
        0 <= l < n <= q.len(),
        q[l].len() > 0,
        forall|k: int| 0 <= k < l ==> (#[trigger] q[k]).len() == 0,
    ensures
        flat(q, n).len() > 0,
        flat(q, n)[0] == q[l][0],
        flat(q.update(l, q[l].drop_first()), n) == flat(q, n).drop_first(),
    decreases n,
{
    let p = q.update(l, q[l].drop_first());
    if n == l + 1 {
        lemma_flat_empty(q, l as nat);
        lemma_flat_below(q, l, q[l].drop_first(), l as nat);
        assert(flat(q, n) =~= q[l]);
        assert(flat(p, n) =~= q[l].drop_first());
    } else {
        lemma_flat_popped(q, l, (n - 1) as nat);
        assert(p[n - 1] == q[n - 1]);
        assert(flat(p, n) =~= flat(q, n).drop_first());
    }
}

proof fn lemma_flat_len(q: Seq<Seq<usize>>, n: nat)
    ensures
        flat(q, n).len() == total_below(q, n),
    decreases n,
{
    if n > 0 {
        lemma_flat_len(q, (n - 1) as nat);
    }
}

/// What is popped is the first of all, and the rest stays.
proof fn lemma_popped_flat(q: Seq<Seq<usize>>)
    requires
        q.len() == 8,
    ensures
        popped(q).len() == 8,
        flat(q, 8).len() == 0 ==> next_of(q) is None && popped(q) == q,
        flat(q, 8).len() > 0 ==> next_of(q) == Some(flat(q, 8)[0]) && flat(popped(q), 8) == flat(
            q,
            8,
        ).drop_first(),
{
    lemma_first_level(q, 8);
    match first_level(q, 8) {
        Some(l) => lemma_flat_popped(q, l, 8),
        None => lemma_flat_empty(q, 8),
    }
}

proof fn lemma_drained_flat(q: Seq<Seq<usize>>, n: nat)
    requires
        q.len() == 8,
        n <= flat(q, 8).len(),
    ensures
        drained(q, n).len() == 8,
        flat(drained(q, n), 8) == flat(q, 8).skip(n as int),
    decreases n,
{
    if n > 0 {
        lemma_drained_flat(q, (n - 1) as nat);
        lemma_popped_flat(drained(q, (n - 1) as nat));
        assert(flat(q, 8).skip(n - 1).drop_first() =~= flat(q, 8).skip(n as int));
    } else {
        assert(flat(q, 8).skip(0) =~= flat(q, 8));
    }
}

/// The arrivals at a level are positions of that level, in ascending order, and
/// the level holds their threads.
proof fn lemma_arrivals(items: Seq<(usize, usize)>, l: int)
    requires
        0 <= l < 8,
        all_fit(items),
    ensures
        filled(items).len() == 8,
        filled(items)[l].len() == arrivals(items, l).len(),
        forall|i: int|
            0 <= i < arrivals(items, l).len() ==> {
                let a = #[trigger] arrivals(items, l)[i];
                &&& 0 <= a < items.len()
                &&& level_of(items[a].1 as int) == l
                &&& filled(items)[l][i] == items[a].0
            },
        forall|i: int, j: int|
            0 <= i < j < arrivals(items, l).len() ==> #[trigger] arrivals(items, l)[i]
                < #[trigger] arrivals(items, l)[j],
    decreases items.len(),
{
    if items.len() > 0 {
        let before = items.drop_last();
        lemma_arrivals(before, l);
        assert forall|i: int| 0 <= i < arrivals(items, l).len() implies ({
            let a = #[trigger] arrivals(items, l)[i];
            &&& 0 <= a < items.len()
            &&& level_of(items[a].1 as int) == l
            &&& filled(items)[l][i] == items[a].0
        }) by {
            if i < arrivals(before, l).len() {
                let a = arrivals(before, l)[i];
                assert(before[a] == items[a]);
            }
        }
        assert forall|i: int, j: int|
            0 <= i < j < arrivals(items, l).len() implies #[trigger] arrivals(items, l)[i]
            < #[trigger] arrivals(items, l)[j] by {
            assert(arrivals(items, l)[i] == arrivals(before, l)[i]);
            if j < arrivals(before, l).len() {
                assert(arrivals(items, l)[j] == arrivals(before, l)[j]);
            }
        }
    }
}

/// One more thread is served in one more place.
proof fn lemma_service_len(items: Seq<(usize, usize)>, n: nat)
    requires
        n <= 8,
    ensures
        items.len() == 0 ==> service(items, n).len() == 0,
        items.len() > 0 ==> service(items, n).len() == service(items.drop_last(), n).len() + (
        if level_of(items.last().1 as int) < n {
            1int
        } else {
            0
        }),
    decreases n,
{
    if n > 0 {
        lemma_service_len(items, (n - 1) as nat);
    }
}

proof fn lemma_service_complete(items: Seq<(usize, usize)>)
    ensures
        service(items, 8).len() == items.len(),
    decreases items.len(),
{
    lemma_service_len(items, 8);
    if items.len() > 0 {
        lemma_service_complete(items.drop_last());
    }
}

/// The service runs through the levels in order, and through each in the order of
/// its arrivals; the queue holds the threads in that order.
proof fn lemma_service(items: Seq<(usize, usize)>, n: nat)
    requires
        n <= 8,
        all_fit(items),
    ensures
        flat(filled(items), n).len() == service(items, n).len(),
        forall|i: int|
            0 <= i < service(items, n).len() ==> {
                let a = #[trigger] service(items, n)[i];
                &&& 0 <= a < items.len()
                &&& level_of(items[a].1 as int) < n
                &&& flat(filled(items), n)[i] == items[a].0
            },
        forall|i: int, j: int|
            0 <= i < j < service(items, n).len() ==> served_before(
                items,
                #[trigger] service(items, n)[i],
                #[trigger] service(items, n)[j],
            ),
    decreases n,
{
    if n > 0 {
        let m = (n - 1) as nat;
        lemma_service(items, m);
        lemma_arrivals(items, m as int);
        let before = service(items, m);
        let here = arrivals(items, m as int);
        assert forall|i: int| 0 <= i < service(items, n).len() implies ({
            let a = #[trigger] service(items, n)[i];
            &&& 0 <= a < items.len()
            &&& level_of(items[a].1 as int) < n
            &&& flat(filled(items), n)[i] == items[a].0
        }) by {
            if i < before.len() {
                assert(service(items, n)[i] == before[i]);
            } else {
                assert(service(items, n)[i] == here[i - before.len()]);
            }
        }
        assert forall|i: int, j: int| 0 <= i < j < service(items, n).len() implies served_before(
            items,
            #[trigger] service(items, n)[i],
            #[trigger] service(items, n)[j],
        ) by {
            if j < before.len() {
                assert(served_before(items, before[i], before[j]));
            } else if i >= before.len() {
                assert(here[i - before.len()] < here[j - before.len()]);
            } else {
                assert(level_of(items[before[i]].1 as int) < m);
                assert(level_of(items[here[j - before.len()]].1 as int) == m);
            }
        }
    }
}

/// Threads that have been pushed onto an empty queue come out of it one by one:
/// each push once, the highest priority first, and among those of one level the
/// one pushed first. Meanwhile the queue counts those that are still to come, and
/// then it is empty.
pub proof fn every_push_is_served_in_order(items: Seq<(usize, usize)>)
    requires
        all_fit(items),
    ensures
        ({
            let order = service(items, 8);
            &&& order.len() == items.len()
            &&& order.no_duplicates()
            &&& forall|i: int| 0 <= i < order.len() ==> 0 <= #[trigger] order[i] < items.len()
            &&& forall|i: int, j: int|
                0 <= i < j < order.len() ==> served_before(
                    items,
                    #[trigger] order[i],
                    #[trigger] order[j],
                )
            &&& forall|n: int|
                0 <= n < items.len() ==> next_of(#[trigger] drained(filled(items), n as nat))
                    == Some(items[order[n]].0)
            &&& forall|n: int|
                0 <= n <= items.len() ==> total_below(
                    #[trigger] drained(filled(items), n as nat),
                    8,
                ) == items.len() - n
            &&& next_of(drained(filled(items), items.len())) is None
        }),
{
    let order = service(items, 8);
    let q = filled(items);
    lemma_service_complete(items);
    lemma_service(items, 8);
    lemma_arrivals(items, 0);
    assert forall|n: int| 0 <= n <= items.len() implies {
        let d = #[trigger] drained(q, n as nat);
        &&& total_below(d, 8) == items.len() - n
        &&& n < items.len() ==> next_of(d) == Some(items[order[n]].0)
        &&& n == items.len() ==> next_of(d) is None
    } by {
        let d = drained(q, n as nat);
        lemma_drained_flat(q, n as nat);
        lemma_flat_len(d, 8);
        lemma_popped_flat(d);
        if n < items.len() {
            assert(flat(d, 8)[0] == flat(q, 8)[n]);
            assert(flat(q, 8)[n] == items[order[n]].0);
        }
    }
    assert(next_of(drained(q, items.len())) is None);
}

/// The next pop of a queue gives nothing exactly where the queue counts nothing.
pub proof fn empty_gives_nothing(q: Seq<Seq<usize>>)
    requires
        q.len() == 8,
    ensures
        next_of(q) is None <==> total_below(q, 8) == 0,
{
    lemma_popped_flat(q);
    lemma_flat_len(q, 8);
}

} // verus!
