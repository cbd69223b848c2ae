//! The chain: the ring as the link slots of the entries record it.

use vstd::prelude::*;
use crate::adapter::Adapter;
use crate::links::{Links, LinksInner};
use crate::ring::{
    after_insert, after_remove, is_ring, lemma_index_of, lemma_insert, lemma_insert_at,
    lemma_remove, lemma_remove_at, pred, record_at, succ,
};

verus! {

/// Whether the slots of the members of `ring` record the ring: the slot of
/// each member holds the positions of the members before and after it.
/// Following `next` from a member then leads through every member once and
/// back to it, and following `prev` does the same the other way round.
pub open spec fn chained<A: Adapter>(entries: Seq<A::EntryType>, ring: Seq<usize>) -> bool {
    forall|k: int|
        0 <= k < ring.len() ==> A::links(entries[(#[trigger] ring[k]) as int])@ == Some(
            record_at(ring, k),
        )
}

/// The entry at position `j` once the members of `ring` were linked: a
/// member holds in its slot its neighbours on `ring`, and is otherwise as
/// `obj` was; an entry that is no member is `obj` itself.
pub open spec fn relinked<A: Adapter>(obj: A::EntryType, ring: Seq<usize>, j: int) -> A::EntryType {
    if j <= usize::MAX && ring.contains(j as usize) {
        A::with_links(obj, Links::holding(Some(record_at(ring, ring.index_of(j as usize)))))
    } else {
        obj
    }
}

/// The entries once the members of `ring` were linked into that ring:
/// the slots of the members record `ring`, and nothing else has changed.
pub open spec fn relink<A: Adapter>(entries: Seq<A::EntryType>, ring: Seq<usize>) -> Seq<
    A::EntryType,
> {
    Seq::new(entries.len(), |j: int| relinked::<A>(entries[j], ring, j))
}

/// The entries once the slot of the one at position `entry` was emptied.
pub open spec fn unlink<A: Adapter>(entries: Seq<A::EntryType>, entry: usize) -> Seq<
    A::EntryType,
> {
    entries.update(entry as int, A::with_links(entries[entry as int], Links::holding(None)))
}

/// Whether `after` differs from `before` in link slots at most.
pub open spec fn slots_only<A: Adapter>(
    before: Seq<A::EntryType>,
    after: Seq<A::EntryType>,
) -> bool {
    &&& after.len() == before.len()
    &&& forall|j: int|
        0 <= j < before.len() ==> #[trigger] after[j] == A::with_links(
            before[j],
            A::links(after[j]),
        )
}

/// Entries differ from themselves in nothing.
pub proof fn lemma_slots_only_same<A: Adapter>(entries: Seq<A::EntryType>)
    ensures
        slots_only::<A>(entries, entries),
{
    assert forall|j: int| 0 <= j < entries.len() implies #[trigger] entries[j] == A::with_links(
        entries[j],
        A::links(entries[j]),
    ) by {
        A::lemma_with_own_links(entries[j]);
    }
}

/// Rewriting the slot of one entry changes that slot and nothing else.
pub proof fn lemma_slot_rewritten<A: Adapter>(
    origin: Seq<A::EntryType>,
    before: Seq<A::EntryType>,
    i: int,
    slot: Links,
)
    requires
        slots_only::<A>(origin, before),
        0 <= i < before.len(),
    ensures
        slots_only::<A>(origin, before.update(i, A::with_links(before[i], slot))),
        A::links(before.update(i, A::with_links(before[i], slot))[i]) == slot,
{
    let after = before.update(i, A::with_links(before[i], slot));
    A::lemma_links_of_with_links(before[i], slot);
    assert forall|j: int| 0 <= j < origin.len() implies #[trigger] after[j] == A::with_links(
        origin[j],
        A::links(after[j]),
    ) by {
        if j == i {
            assert(before[i] == A::with_links(origin[i], A::links(before[i])));
            A::lemma_with_links_twice(origin[i], A::links(before[i]), slot);
        } else {
            assert(after[j] == before[j]);
        }
    }
}

/// Rewriting the content of one slot changes that content and nothing else.
pub proof fn lemma_record_rewritten<A: Adapter>(
    origin: Seq<A::EntryType>,
    before: Seq<A::EntryType>,
    i: int,
    record: Option<LinksInner>,
)
    requires
        slots_only::<A>(origin, before),
        0 <= i < before.len(),
    ensures
        slots_only::<A>(
            origin,
            before.update(i, A::with_links(before[i], Links::holding(record))),
        ),
        A::links(before.update(i, A::with_links(before[i], Links::holding(record)))[i])@
            == record,
{
    lemma_slot_rewritten::<A>(origin, before, i, Links::holding(record));
    Links::lemma_holding_view(record);
}

/// Linking the members of a ring makes their slots record the ring, and
/// changes link slots only.
pub proof fn lemma_relink_chained<A: Adapter>(entries: Seq<A::EntryType>, ring: Seq<usize>)
    requires
        is_ring(ring, entries.len()),
    ensures
        chained::<A>(relink::<A>(entries, ring), ring),
        slots_only::<A>(entries, relink::<A>(entries, ring)),
{
    let linked = relink::<A>(entries, ring);
    assert forall|k: int| 0 <= k < ring.len() implies A::links(
        linked[(#[trigger] ring[k]) as int],
    )@ == Some(record_at(ring, k)) by {
        crate::ring::lemma_index_of(ring, k);
        let slot = Links::holding(Some(record_at(ring, k)));
        A::lemma_links_of_with_links(entries[ring[k] as int], slot);
        Links::lemma_holding_view(Some(record_at(ring, k)));
    }
    assert forall|j: int| 0 <= j < entries.len() implies #[trigger] linked[j] == A::with_links(
        entries[j],
        A::links(linked[j]),
    ) by {
        if j <= usize::MAX && ring.contains(j as usize) {
            let slot = Links::holding(Some(record_at(ring, ring.index_of(j as usize))));
            A::lemma_links_of_with_links(entries[j], slot);
        } else {
            A::lemma_with_own_links(entries[j]);
        }
    }
}

/// `relink` is the only way to link a ring: entries that differ from
/// `before` in link slots only, in which the members of `ring` record the
/// ring and every other entry has the slot it had, are `relink(before, ring)`.
pub proof fn lemma_relink_only<A: Adapter>(
    before: Seq<A::EntryType>,
    after: Seq<A::EntryType>,
    ring: Seq<usize>,
)
    requires
        is_ring(ring, before.len()),
        slots_only::<A>(before, after),
        chained::<A>(after, ring),
        forall|j: int|
            0 <= j < before.len() && !(j <= usize::MAX && ring.contains(j as usize)) ==> A::links(
                #[trigger] after[j],
            ) == A::links(before[j]),
    ensures
        after == relink::<A>(before, ring),
{
    let linked = relink::<A>(before, ring);
    assert forall|j: int| 0 <= j < before.len() implies after[j] == linked[j] by {
        assert(after[j] == A::with_links(before[j], A::links(after[j])));
        if j <= usize::MAX && ring.contains(j as usize) {
            let k: int = ring.index_of(j as usize);
            assert(ring[k] == j);
            assert(A::links(after[ring[k] as int])@ == Some(record_at(ring, k)));
            A::links(after[j]).lemma_holding();
        } else {
            A::lemma_with_own_links(before[j]);
        }
    }
    assert(after =~= linked);
}

/// Linking a new entry into a chain after the member at index `k`: if the
/// slot of the new entry records that member and the one that followed it,
/// the slots of those two record the new entry in between, and nothing else
/// has changed, then the entries are chained along the ring with the new
/// member inserted.
pub proof fn lemma_insert_chained<A: Adapter>(
    before: Seq<A::EntryType>,
    after: Seq<A::EntryType>,
    ring: Seq<usize>,
    k: int,
    entry: usize,
)
    requires
        is_ring(ring, before.len()),
        chained::<A>(before, ring),
        0 <= k < ring.len(),
        entry < before.len(),
        A::links(before[entry as int])@ is None,
        slots_only::<A>(before, after),
        A::links(after[entry as int])@ == Some(
            LinksInner { prev: ring[k], next: ring[succ(k, ring.len() as int)] },
        ),
        forall|p: int|
            0 <= p < ring.len() ==> A::links(after[(#[trigger] ring[p]) as int])@ == Some(
                LinksInner {
                    prev: if p == succ(k, ring.len() as int) {
                        entry
                    } else {
                        record_at(ring, p).prev
                    },
                    next: if p == k {
                        entry
                    } else {
                        record_at(ring, p).next
                    },
                },
            ),
        forall|j: int|
            0 <= j < before.len() && j != entry && !(j <= usize::MAX && ring.contains(
                j as usize,
            )) ==> A::links(#[trigger] after[j]) == A::links(before[j]),
    ensures
        !ring.contains(entry),
        is_ring(ring.insert(k + 1, entry), before.len()),
        chained::<A>(after, ring.insert(k + 1, entry)),
        after == relink::<A>(before, ring.insert(k + 1, entry)),
{
    lemma_unlinked_is_no_member::<A>(before, ring, entry);
    let grown = ring.insert(k + 1, entry);
    lemma_insert(ring, k, entry);
    assert forall|i: int| 0 <= i < grown.len() implies #[trigger] grown[i] < before.len() by {
        if i != k + 1 {
            let p: int = if i <= k { i } else { i - 1 };
            lemma_insert_at(ring, k, entry, p);
            assert(grown[after_insert(p, k)] == ring[p]);
        }
    }
    assert forall|i: int| 0 <= i < grown.len() implies A::links(
        after[(#[trigger] grown[i]) as int],
    )@ == Some(record_at(grown, i)) by {
        if i != k + 1 {
            let p: int = if i <= k { i } else { i - 1 };
            lemma_insert_at(ring, k, entry, p);
            assert(grown[after_insert(p, k)] == ring[p]);
            assert(A::links(after[ring[p] as int])@ == Some(record_at(grown, i)));
        }
    }
    assert forall|j: int|
        0 <= j < before.len() && !(j <= usize::MAX && grown.contains(j as usize)) implies A::links(
            #[trigger] after[j],
        ) == A::links(before[j]) by {
        if j <= usize::MAX {
            assert(!grown.contains(j as usize));
            assert(j as usize != entry);
            assert(!ring.contains(j as usize));
        }
    }
    lemma_relink_only::<A>(before, after, grown);
}

/// Taking the member at index `k` out of a chain: if its slot is empty, the
/// slots of its two neighbours record each other in its place, and nothing
/// else has changed, then the entries are chained along the ring without
/// that member.
pub proof fn lemma_remove_chained<A: Adapter>(
    before: Seq<A::EntryType>,
    after: Seq<A::EntryType>,
    ring: Seq<usize>,
    k: int,
)
    requires
        is_ring(ring, before.len()),
        chained::<A>(before, ring),
        0 <= k < ring.len(),
        slots_only::<A>(before, after),
        A::links(after[ring[k] as int])@ is None,
        forall|p: int|
            0 <= p < ring.len() && p != k ==> A::links(after[(#[trigger] ring[p]) as int])@
                == Some(
                LinksInner {
                    prev: if p == succ(k, ring.len() as int) {
                        ring[pred(k, ring.len() as int)]
                    } else {
                        record_at(ring, p).prev
                    },
                    next: if p == pred(k, ring.len() as int) {
                        ring[succ(k, ring.len() as int)]
                    } else {
                        record_at(ring, p).next
                    },
                },
            ),
        forall|j: int|
            0 <= j < before.len() && !(j <= usize::MAX && ring.contains(j as usize)) ==> A::links(
                #[trigger] after[j],
            ) == A::links(before[j]),
    ensures
        is_ring(ring.remove(k), before.len()),
        chained::<A>(after, ring.remove(k)),
        after == relink::<A>(unlink::<A>(before, ring[k]), ring.remove(k)),
{
    let shrunk = ring.remove(k);
    let entry: usize = ring[k];
    let emptied = unlink::<A>(before, entry);
    lemma_remove(ring, k);
    lemma_index_of(ring, k);
    assert forall|i: int| 0 <= i < shrunk.len() implies #[trigger] shrunk[i] < before.len() by {
        let p: int = if i < k { i } else { i + 1 };
        lemma_remove_at(ring, k, p);
        assert(shrunk[after_remove(p, k)] == ring[p]);
    }
    assert forall|i: int| 0 <= i < shrunk.len() implies A::links(
        after[(#[trigger] shrunk[i]) as int],
    )@ == Some(record_at(shrunk, i)) by {
        let p: int = if i < k { i } else { i + 1 };
        lemma_remove_at(ring, k, p);
        assert(shrunk[after_remove(p, k)] == ring[p]);
        assert(A::links(after[ring[p] as int])@ == Some(record_at(shrunk, i)));
    }
    assert forall|j: int| 0 <= j < emptied.len() implies #[trigger] after[j] == A::with_links(
        emptied[j],
        A::links(after[j]),
    ) by {
        assert(after[j] == A::with_links(before[j], A::links(after[j])));
        if j == entry {
            A::lemma_with_links_twice(before[j], Links::holding(None), A::links(after[j]));
        }
    }
    assert forall|j: int|
        0 <= j < emptied.len() && !(j <= usize::MAX && shrunk.contains(
            j as usize,
        )) implies A::links(#[trigger] after[j]) == A::links(emptied[j]) by {
        if j == entry {
            A::lemma_links_of_with_links(before[j], Links::holding(None));
            A::links(after[j]).lemma_holding();
        } else if j <= usize::MAX {
            assert(!ring.contains(j as usize));
        }
    }
    lemma_relink_only::<A>(emptied, after, shrunk);
}

/// An entry whose slot is empty is on no chain.
pub proof fn lemma_unlinked_is_no_member<A: Adapter>(
    entries: Seq<A::EntryType>,
    ring: Seq<usize>,
    entry: usize,
)
    requires
        chained::<A>(entries, ring),
        A::links(entries[entry as int])@ is None,
    ensures
        !ring.contains(entry),
{
    if ring.contains(entry) {
        let k: int = ring.index_of(entry);
        assert(A::links(entries[ring[k] as int])@ == Some(record_at(ring, k)));
    }
}

/// Linking forgets what was linked before: where `linked` differs from
/// `entries` in link slots only, and only in entries that are members of
/// `ring`, linking `ring` in `linked` gives what linking it in `entries`
/// gives.
pub proof fn lemma_relink_again<A: Adapter>(
    entries: Seq<A::EntryType>,
    linked: Seq<A::EntryType>,
    ring: Seq<usize>,
)
    requires
        slots_only::<A>(entries, linked),
        forall|j: int|
            0 <= j < entries.len() && !(j <= usize::MAX && ring.contains(j as usize))
                ==> #[trigger] linked[j] == entries[j],
    ensures
        relink::<A>(linked, ring) == relink::<A>(entries, ring),
{
    let first = relink::<A>(linked, ring);
    let second = relink::<A>(entries, ring);
    assert forall|j: int| 0 <= j < entries.len() implies first[j] == second[j] by {
        if j <= usize::MAX && ring.contains(j as usize) {
            let slot = Links::holding(Some(record_at(ring, ring.index_of(j as usize))));
            assert(linked[j] == A::with_links(entries[j], A::links(linked[j])));
            A::lemma_with_links_twice(entries[j], A::links(linked[j]), slot);
        } else {
            assert(linked[j] == entries[j]);
        }
    }
    assert(first =~= second);
}

/// Removing a member and pushing it back. After the removal the remaining
/// members are chained along the ring without it, and its slot is empty, so
/// that it can be linked again. After the push the members are chained along
/// the ring with the entry as the tail, and the entries are what linking
/// that ring in the entries from before the removal gives: nothing in them
/// tells where the entry stood before.
pub proof fn lemma_remove_then_push_back<A: Adapter>(
    entries: Seq<A::EntryType>,
    ring: Seq<usize>,
    entry: usize,
)
    requires
        is_ring(ring, entries.len()),
        chained::<A>(entries, ring),
        ring.contains(entry),
    ensures
        ({
            let shrunk = ring.remove(ring.index_of(entry));
            let removed = relink::<A>(unlink::<A>(entries, entry), shrunk);
            let again = shrunk.push(entry);
            let pushed = relink::<A>(removed, again);
            &&& is_ring(shrunk, entries.len())
            &&& chained::<A>(removed, shrunk)
            &&& !shrunk.contains(entry)
            &&& A::links(removed[entry as int])@ is None
            &&& is_ring(again, entries.len())
            &&& chained::<A>(pushed, again)
            &&& pushed == relink::<A>(entries, again)
            &&& slots_only::<A>(entries, pushed)
        }),
{
    let k: int = ring.index_of(entry);
    let shrunk = ring.remove(k);
    let emptied = unlink::<A>(entries, entry);
    let removed = relink::<A>(emptied, shrunk);
    let again = shrunk.push(entry);
    let pushed = relink::<A>(removed, again);
    lemma_remove(ring, k);
    assert forall|i: int| 0 <= i < shrunk.len() implies #[trigger] shrunk[i] < entries.len() by {
        let p: int = if i < k { i } else { i + 1 };
        lemma_remove_at(ring, k, p);
        assert(shrunk[after_remove(p, k)] == ring[p]);
    }
    lemma_relink_chained::<A>(emptied, shrunk);
    A::lemma_links_of_with_links(entries[entry as int], Links::holding(None));
    Links::lemma_holding_view(None);
    assert(removed[entry as int] == emptied[entry as int]);

    assert(again.no_duplicates()) by {
        assert forall|i: int, j: int|
            0 <= i < again.len() && 0 <= j < again.len() && i != j implies again[i]
            != again[j] by {
            if i < shrunk.len() {
                assert(shrunk.contains(shrunk[i]));
            }
            if j < shrunk.len() {
                assert(shrunk.contains(shrunk[j]));
            }
        }
    }
    lemma_relink_chained::<A>(removed, again);

    lemma_slots_only_same::<A>(entries);
    lemma_slot_rewritten::<A>(entries, entries, entry as int, Links::holding(None));
    assert forall|j: int| 0 <= j < entries.len() implies #[trigger] removed[j] == A::with_links(
        entries[j],
        A::links(removed[j]),
    ) by {
        assert(removed[j] == A::with_links(emptied[j], A::links(removed[j])));
        assert(emptied[j] == A::with_links(entries[j], A::links(emptied[j])));
        A::lemma_with_links_twice(entries[j], A::links(emptied[j]), A::links(removed[j]));
    }
    assert forall|j: int|
        0 <= j < entries.len() && !(j <= usize::MAX && again.contains(
            j as usize,
        )) implies #[trigger] removed[j] == entries[j] by {
        if j <= usize::MAX {
            assert(again[again.len() - 1] == entry);
            assert(j as usize != entry);
            if shrunk.contains(j as usize) {
                let i: int = shrunk.index_of(j as usize);
                assert(again[i] == j as usize);
            }
        }
    }
    lemma_relink_again::<A>(entries, removed, again);
    lemma_relink_chained::<A>(entries, again);
}

/// Linking one ring leaves another alone: entries chained along `other` stay
/// chained along it when a ring that shares no member with it is linked.
pub proof fn lemma_relink_apart<A: Adapter>(
    entries: Seq<A::EntryType>,
    ring: Seq<usize>,
    other: Seq<usize>,
)
    requires
        is_ring(other, entries.len()),
        chained::<A>(entries, other),
        forall|k: int| 0 <= k < other.len() ==> !ring.contains(#[trigger] other[k]),
    ensures
        chained::<A>(relink::<A>(entries, ring), other),
{
    let linked = relink::<A>(entries, ring);
    assert forall|k: int| 0 <= k < other.len() implies A::links(
        linked[(#[trigger] other[k]) as int],
    )@ == Some(record_at(other, k)) by {
        assert(!ring.contains(other[k]));
        assert(linked[other[k] as int] == entries[other[k] as int]);
    }
}

/// Emptying the slot of an entry leaves alone every chain that the entry is
/// not on.
pub proof fn lemma_unlink_apart<A: Adapter>(
    entries: Seq<A::EntryType>,
    entry: usize,
    other: Seq<usize>,
)
    requires
        entry < entries.len(),
        is_ring(other, entries.len()),
        chained::<A>(entries, other),
        !other.contains(entry),
    ensures
        chained::<A>(unlink::<A>(entries, entry), other),
{
    let emptied = unlink::<A>(entries, entry);
    assert forall|k: int| 0 <= k < other.len() implies A::links(
        emptied[(#[trigger] other[k]) as int],
    )@ == Some(record_at(other, k)) by {
        assert(other.contains(other[k]));
        assert(emptied[other[k] as int] == entries[other[k] as int]);
    }
}

} // verus!
