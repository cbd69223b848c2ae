//! The ring of members as a sequence of positions.
//!
//! A list is modelled by the sequence of its members, head first, each member
//! being the position of an entry in the caller's storage. The sequence is
//! read as a ring: the member after the last one is the first one. This
//! module holds what is true of such sequences alone, whatever the entries
//! are.

use vstd::prelude::*;
use crate::links::LinksInner;

verus! {

/// The index that follows `k` on a ring of `n` members.
pub open spec fn succ(k: int, n: int) -> int {
    if k + 1 >= n {
        0
    } else {
        k + 1
    }
}

/// The index that precedes `k` on a ring of `n` members.
pub open spec fn pred(k: int, n: int) -> int {
    if k <= 0 {
        n - 1
    } else {
        k - 1
    }
}

/// Whether `ring` can be the members of a list over `len` entries: every
/// member is the position of an entry, and no entry is a member twice.
pub open spec fn is_ring(ring: Seq<usize>, len: nat) -> bool {
    &&& ring.no_duplicates()
    &&& forall|k: int| 0 <= k < ring.len() ==> #[trigger] ring[k] < len
}

/// The member that a list with these members has as its head.
pub open spec fn head_of(ring: Seq<usize>) -> Option<usize> {
    if ring.len() == 0 {
        None
    } else {
        Some(ring[0])
    }
}

/// The record that the slot of the `k`-th member holds: its neighbours on
/// the ring. The only member of a ring of one is its own neighbour on both
/// sides.
pub open spec fn record_at(ring: Seq<usize>, k: int) -> LinksInner {
    LinksInner { prev: ring[pred(k, ring.len() as int)], next: ring[succ(k, ring.len() as int)] }
}

/// Where the member at index `p` stands once a member was inserted after
/// index `k`.
pub open spec fn after_insert(p: int, k: int) -> int {
    if p <= k {
        p
    } else {
        p + 1
    }
}

/// Where the member at index `p` stands once the member at index `k` was
/// removed.
pub open spec fn after_remove(p: int, k: int) -> int {
    if p < k {
        p
    } else {
        p - 1
    }
}

/// A member of a ring is found at its own index.
pub proof fn lemma_index_of(ring: Seq<usize>, k: int)
    requires
        ring.no_duplicates(),
        0 <= k < ring.len(),
    ensures
        ring.contains(ring[k]),
        ring.index_of(ring[k]) == k,
{
    assert(ring.contains(ring[k]));
}

/// Inserting a new member after index `k` gives a ring again, on which the
/// new member stands between the `k`-th member and the one that followed it.
pub proof fn lemma_insert(ring: Seq<usize>, k: int, entry: usize)
    requires
        ring.no_duplicates(),
        0 <= k < ring.len(),
        !ring.contains(entry),
    ensures
        ring.insert(k + 1, entry).len() == ring.len() + 1,
        ring.insert(k + 1, entry).no_duplicates(),
        ring.insert(k + 1, entry)[k + 1] == entry,
        ring.insert(k + 1, entry).index_of(entry) == k + 1,
        record_at(ring.insert(k + 1, entry), k + 1) == (LinksInner {
            prev: ring[k],
            next: ring[succ(k, ring.len() as int)],
        }),
        forall|other: usize|
            ring.insert(k + 1, entry).contains(other) <==> other == entry || ring.contains(other),
{
    let grown = ring.insert(k + 1, entry);
    assert forall|i: int, j: int| 0 <= i < grown.len() && 0 <= j < grown.len() && i != j implies grown[i]
        != grown[j] by {
        if i != k + 1 && j != k + 1 {
            let pi: int = if i <= k { i } else { i - 1 };
            let pj: int = if j <= k { j } else { j - 1 };
            assert(grown[i] == ring[pi]);
            assert(grown[j] == ring[pj]);
        } else if i == k + 1 {
            let pj: int = if j <= k { j } else { j - 1 };
            assert(grown[j] == ring[pj]);
        } else {
            let pi: int = if i <= k { i } else { i - 1 };
            assert(grown[i] == ring[pi]);
        }
    }
    lemma_index_of(grown, k + 1);
    assert forall|other: usize| grown.contains(other) <==> other == entry || ring.contains(
        other,
    ) by {
        if grown.contains(other) {
            let i: int = grown.index_of(other);
            if i != k + 1 {
                let pi: int = if i <= k { i } else { i - 1 };
                assert(grown[i] == ring[pi]);
            }
        }
        if ring.contains(other) {
            let p: int = ring.index_of(other);
            assert(grown[after_insert(p, k)] == ring[p]);
        }
    }
}

/// What inserting a new member after index `k` does to the member that stood
/// at index `p`: it keeps its neighbours, but that the `k`-th member is now
/// followed by the new one, and the member after it preceded by the new one.
pub proof fn lemma_insert_at(ring: Seq<usize>, k: int, entry: usize, p: int)
    requires
        ring.no_duplicates(),
        0 <= k < ring.len(),
        !ring.contains(entry),
        0 <= p < ring.len(),
    ensures
        ring.insert(k + 1, entry)[after_insert(p, k)] == ring[p],
        ring.insert(k + 1, entry).index_of(ring[p]) == after_insert(p, k),
        record_at(ring.insert(k + 1, entry), after_insert(p, k)) == (LinksInner {
            prev: if p == succ(k, ring.len() as int) {
                entry
            } else {
                record_at(ring, p).prev
            },
            next: if p == k {
                entry
            } else {
                record_at(ring, p).next
            },
        }),
{
    let grown = ring.insert(k + 1, entry);
    lemma_insert(ring, k, entry);
    assert(grown[after_insert(p, k)] == ring[p]);
    lemma_index_of(grown, after_insert(p, k));
    let n: int = ring.len() as int;
    let q: int = after_insert(p, k);
    if p != succ(k, n) {
        assert(grown[pred(q, n + 1)] == ring[pred(p, n)]);
    }
    if p != k {
        assert(grown[succ(q, n + 1)] == ring[succ(p, n)]);
    }
}

/// Removing the member at index `k` gives a ring again, without that member.
pub proof fn lemma_remove(ring: Seq<usize>, k: int)
    requires
        ring.no_duplicates(),
        0 <= k < ring.len(),
    ensures
        ring.remove(k).len() == ring.len() - 1,
        ring.remove(k).no_duplicates(),
        forall|other: usize|
            ring.remove(k).contains(other) <==> other != ring[k] && ring.contains(other),
{
    let shrunk = ring.remove(k);
    assert forall|i: int, j: int|
        0 <= i < shrunk.len() && 0 <= j < shrunk.len() && i != j implies shrunk[i] != shrunk[j] by {
        let pi: int = if i < k { i } else { i + 1 };
        let pj: int = if j < k { j } else { j + 1 };
        assert(shrunk[i] == ring[pi]);
        assert(shrunk[j] == ring[pj]);
    }
    assert forall|other: usize| shrunk.contains(other) <==> other != ring[k] && ring.contains(
        other,
    ) by {
        if shrunk.contains(other) {
            let i: int = shrunk.index_of(other);
            let pi: int = if i < k { i } else { i + 1 };
            assert(shrunk[i] == ring[pi]);
        }
        if other != ring[k] && ring.contains(other) {
            let p: int = ring.index_of(other);
            assert(shrunk[after_remove(p, k)] == ring[p]);
        }
    }
}

/// What removing the member at index `k` does to the member that stood at
/// another index `p`: it keeps its neighbours, but that the two neighbours of
/// the removed member are now each other's.
pub proof fn lemma_remove_at(ring: Seq<usize>, k: int, p: int)
    requires
        ring.no_duplicates(),
        0 <= k < ring.len(),
        0 <= p < ring.len(),
        p != k,
    ensures
        ring.remove(k)[after_remove(p, k)] == ring[p],
        ring.remove(k).index_of(ring[p]) == after_remove(p, k),
        record_at(ring.remove(k), after_remove(p, k)) == (LinksInner {
            prev: if p == succ(k, ring.len() as int) {
                ring[pred(k, ring.len() as int)]
            } else {
                record_at(ring, p).prev
            },
            next: if p == pred(k, ring.len() as int) {
                ring[succ(k, ring.len() as int)]
            } else {
                record_at(ring, p).next
            },
        }),
{
    let shrunk = ring.remove(k);
    lemma_remove(ring, k);
    let n: int = ring.len() as int;
    let q: int = after_remove(p, k);
    assert(shrunk[q] == ring[p]);
    lemma_index_of(shrunk, q);
    if p != succ(k, n) {
        assert(shrunk[pred(q, n - 1)] == ring[pred(p, n)]);
    } else {
        assert(shrunk[pred(q, n - 1)] == ring[pred(k, n)]);
    }
    if p != pred(k, n) {
        assert(shrunk[succ(q, n - 1)] == ring[succ(p, n)]);
    } else {
        assert(shrunk[succ(q, n - 1)] == ring[succ(k, n)]);
    }
}

} // verus!
