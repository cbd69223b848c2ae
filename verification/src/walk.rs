//! Walking the chain: what following the links from a member leads to.

use vstd::prelude::*;
use crate::adapter::Adapter;
use crate::chain::chained;
use crate::ring::{head_of, is_ring, pred, record_at, succ};

verus! {

/// The position reached from `from` by following `next` for `steps` steps.
/// It means something only while every slot on the way is populated.
pub open spec fn walk_next<A: Adapter>(
    entries: Seq<A::EntryType>,
    from: usize,
    steps: nat,
) -> usize
    decreases steps,
{
    if steps == 0 {
        from
    } else {
        A::links(entries[walk_next::<A>(entries, from, (steps - 1) as nat) as int])@.unwrap().next
    }
}

/// The position reached from `from` by following `prev` for `steps` steps.
/// It means something only while every slot on the way is populated.
pub open spec fn walk_prev<A: Adapter>(
    entries: Seq<A::EntryType>,
    from: usize,
    steps: nat,
) -> usize
    decreases steps,
{
    if steps == 0 {
        from
    } else {
        A::links(entries[walk_prev::<A>(entries, from, (steps - 1) as nat) as int])@.unwrap().prev
    }
}

/// One step forward on a ring of `n` members, counted modulo `n`.
proof fn lemma_succ_mod(a: int, n: int)
    requires
        0 <= a,
        0 < n,
    ensures
        succ(a % n, n) == (a + 1) % n,
{
    assert((a + 1) % n == if a % n + 1 >= n {
        0
    } else {
        a % n + 1
    }) by (nonlinear_arith)
        requires
            0 <= a,
            0 < n,
    ;
}

/// One step backward on a ring of `n` members, counted modulo `n`.
proof fn lemma_pred_mod(a: int, n: int)
    requires
        0 < n,
    ensures
        pred(a % n, n) == (a - 1) % n,
{
    assert((a - 1) % n == if a % n <= 0 {
        n - 1
    } else {
        a % n - 1
    }) by (nonlinear_arith)
        requires
            0 < n,
    ;
}

/// On a chain of `n` members, `steps` steps along `next` from the member at
/// index `i` lead to the member at index `(i + steps) % n`.
pub proof fn lemma_walk_next<A: Adapter>(
    entries: Seq<A::EntryType>,
    ring: Seq<usize>,
    i: int,
    steps: nat,
)
    requires
        is_ring(ring, entries.len()),
        chained::<A>(entries, ring),
        0 <= i < ring.len(),
    ensures
        walk_next::<A>(entries, ring[i], steps) == ring[(i + steps) % (ring.len() as int)],
    decreases steps,
{
    let n: int = ring.len() as int;
    if steps == 0 {
        assert(i % n == i) by (nonlinear_arith)
            requires
                0 <= i < n,
        ;
    } else {
        lemma_walk_next::<A>(entries, ring, i, (steps - 1) as nat);
        let at: int = (i + steps - 1) % n;
        assert(0 <= at < n) by (nonlinear_arith)
            requires
                at == (i + steps - 1) % n,
                0 < n,
        ;
        assert(A::links(entries[ring[at] as int])@ == Some(record_at(ring, at)));
        lemma_succ_mod(i + steps - 1, n);
    }
}

/// On a chain of `n` members, `steps` steps along `prev` from the member at
/// index `i` lead to the member at index `(i - steps) % n`.
pub proof fn lemma_walk_prev<A: Adapter>(
    entries: Seq<A::EntryType>,
    ring: Seq<usize>,
    i: int,
    steps: nat,
)
    requires
        is_ring(ring, entries.len()),
        chained::<A>(entries, ring),
        0 <= i < ring.len(),
    ensures
        walk_prev::<A>(entries, ring[i], steps) == ring[(i - steps) % (ring.len() as int)],
    decreases steps,
{
    let n: int = ring.len() as int;
    if steps == 0 {
        assert(i % n == i) by (nonlinear_arith)
            requires
                0 <= i < n,
        ;
    } else {
        lemma_walk_prev::<A>(entries, ring, i, (steps - 1) as nat);
        let at: int = (i - (steps - 1)) % n;
        assert(0 <= at < n) by (nonlinear_arith)
            requires
                at == (i - (steps - 1)) % n,
                0 < n,
        ;
        assert(A::links(entries[ring[at] as int])@ == Some(record_at(ring, at)));
        lemma_pred_mod(i - (steps - 1), n);
    }
}

/// Walking a chain from its head. Along `next` the walk visits the members
/// in the order of the ring, each once, and is back at the head after as
/// many steps as there are members. Along `prev` it visits them in the
/// opposite order, the tail first, and is back at the head after as many
/// steps.
pub proof fn lemma_walk_from_head<A: Adapter>(entries: Seq<A::EntryType>, ring: Seq<usize>)
    requires
        is_ring(ring, entries.len()),
        chained::<A>(entries, ring),
        ring.len() > 0,
    ensures
        forall|steps: nat|
            steps < ring.len() ==> #[trigger] walk_next::<A>(entries, ring[0], steps)
                == ring[steps as int],
        walk_next::<A>(entries, ring[0], ring.len()) == ring[0],
        forall|steps: nat|
            0 < steps <= ring.len() ==> #[trigger] walk_prev::<A>(entries, ring[0], steps)
                == ring[ring.len() - steps],
        walk_prev::<A>(entries, ring[0], 0) == ring[0],
{
    let n: int = ring.len() as int;
    assert forall|steps: nat| steps < ring.len() implies #[trigger] walk_next::<A>(
        entries,
        ring[0],
        steps,
    ) == ring[steps as int] by {
        lemma_walk_next::<A>(entries, ring, 0, steps);
        assert(steps as int % n == steps) by (nonlinear_arith)
            requires
                0 <= steps < n,
        ;
    }
    lemma_walk_next::<A>(entries, ring, 0, ring.len());
    assert(n % n == 0) by (nonlinear_arith)
        requires
            0 < n,
    ;
    assert forall|steps: nat| 0 < steps <= ring.len() implies #[trigger] walk_prev::<A>(
        entries,
        ring[0],
        steps,
    ) == ring[ring.len() - steps] by {
        lemma_walk_prev::<A>(entries, ring, 0, steps);
        assert((0 - steps) % n == n - steps) by (nonlinear_arith)
            requires
                0 < steps <= n,
        ;
    }
}

/// The links leave no choice of ring: two rings that the same entries are
/// chained along, and that start at the same head, are one and the same. What
/// a list holds is therefore fixed by its head and the slots of the entries.
pub proof fn lemma_ring_unique<A: Adapter>(
    entries: Seq<A::EntryType>,
    first: Seq<usize>,
    second: Seq<usize>,
)
    requires
        is_ring(first, entries.len()),
        is_ring(second, entries.len()),
        chained::<A>(entries, first),
        chained::<A>(entries, second),
        head_of(first) == head_of(second),
    ensures
        first == second,
{
    if first.len() > 0 && second.len() > 0 {
        lemma_walk_from_head::<A>(entries, first);
        lemma_walk_from_head::<A>(entries, second);
        if first.len() < second.len() {
            assert(walk_next::<A>(entries, second[0], first.len()) == second[first.len() as int]);
            assert(false);
        }
        if second.len() < first.len() {
            assert(walk_next::<A>(entries, first[0], second.len()) == first[second.len() as int]);
            assert(false);
        }
        assert forall|i: int| 0 <= i < first.len() implies first[i] == second[i] by {
            assert(walk_next::<A>(entries, first[0], i as nat) == first[i]);
            assert(walk_next::<A>(entries, second[0], i as nat) == second[i]);
        }
    }
    assert(first =~= second);
}

} // verus!
