//! The list controller.

use vstd::prelude::*;
use core::marker::PhantomData;
use crate::adapter::Adapter;
use crate::chain::{
    chained, lemma_insert_chained, lemma_record_rewritten, lemma_relink_only,
    lemma_remove_chained, lemma_slot_rewritten, lemma_slots_only_same,
    lemma_unlinked_is_no_member, relink, unlink,
};
use crate::links::{Links, LinksInner};
use crate::ring::{
    after_insert, head_of, is_ring, lemma_index_of, lemma_insert, lemma_insert_at,
    lemma_remove_at, pred, record_at, succ,
};
use crate::walk::{lemma_ring_unique, lemma_walk_from_head, walk_next, walk_prev};

verus! {

/// A circular doubly-linked list of entries that the caller owns.
///
/// The entries live in a slice of the caller's, which every operation is
/// handed, and an entry is named by its position in that slice. The list
/// never owns, copies or moves an entry, and touches nothing of it but its
/// link slot, which it finds through the adapter `A`. It holds the position
/// of its head and nothing else: the tail is the member before the head.
///
/// The view of a list is the sequence of its members, head first. Between
/// two operations the list is well-formed over the entries, see
/// [`wf`](List::wf); every operation asks for that and gives it back. Whoever
/// owns the entries keeps it so in between: a linked entry stays at its
/// position, and its slot is left to the list.
pub struct List<A: Adapter> {
    head: Option<usize>,
    ring: Ghost<Seq<usize>>,
    _adapter: PhantomData<A>,
}

impl<A: Adapter> View for List<A> {
    type V = Seq<usize>;

    closed spec fn view(&self) -> Seq<usize> {
        self.ring@
    }
}

impl<A: Adapter> List<A> {
    /// The position of the head, or `None` for an empty list.
    pub closed spec fn spec_head(&self) -> Option<usize> {
        self.head
    }

    /// Whether the list is well-formed over `entries`: its members are
    /// distinct positions in `entries`, the slot of each member records its
    /// two neighbours on the ring, and the head is the first member. This is
    /// the circular invariant: from any member, following `next` leads
    /// through every member once and back, and so does following `prev`, the
    /// other way round (see [`lemma_walk`](List::lemma_walk)).
    pub open spec fn wf(&self, entries: Seq<A::EntryType>) -> bool {
        &&& is_ring(self@, entries.len())
        &&& chained::<A>(entries, self@)
        &&& self.spec_head() == head_of(self@)
    }

    /// Walking a list from its head. Along `next` the walk visits the
    /// members in the order of the view, each once, and is back at the head
    /// after as many steps as there are members. Along `prev` it visits them
    /// in the opposite order, the tail first.
    pub proof fn lemma_walk(&self, entries: Seq<A::EntryType>)
        requires
            self.wf(entries),
            self@.len() > 0,
        ensures
            self.spec_head() == Some(self@[0]),
            forall|steps: nat|
                steps < self@.len() ==> #[trigger] walk_next::<A>(entries, self@[0], steps)
                    == self@[steps as int],
            walk_next::<A>(entries, self@[0], self@.len()) == self@[0],
            forall|steps: nat|
                0 < steps <= self@.len() ==> #[trigger] walk_prev::<A>(entries, self@[0], steps)
                    == self@[self@.len() - steps],
    {
        lemma_walk_from_head::<A>(entries, self@);
    }

    /// The members of a list are fixed by its head and the slots of the
    /// entries: two lists that are well-formed over the same entries and have
    /// the same head have the same members in the same order.
    pub proof fn lemma_same_head_same_members(&self, other: &Self, entries: Seq<A::EntryType>)
        requires
            self.wf(entries),
            other.wf(entries),
            self.spec_head() == other.spec_head(),
        ensures
            self@ == other@,
    {
        lemma_ring_unique::<A>(entries, self@, other@);
    }

    /// An empty list.
    pub fn new() -> (list: Self)
        ensures
            list@ == Seq::<usize>::empty(),
            list.spec_head() is None,
            forall|entries: Seq<A::EntryType>| #[trigger] list.wf(entries),
    {
        List { head: None, ring: Ghost(Seq::empty()), _adapter: PhantomData }
    }

    /// Whether the list has no head.
    pub fn is_empty(&self) -> (empty: bool)
        ensures
            empty == (self.spec_head() is None),
    {
        self.head.is_none()
    }

    /// The position of the head, or `None` for an empty list.
    #[verifier::when_used_as_spec(spec_head)]
    pub fn head(&self) -> (head: Option<usize>)
        ensures
            head == self.spec_head(),
    {
        self.head
    }

    /// The record in the slot of the linked entry at `ptr`.
    fn inner_ref(entries: &[A::EntryType], ptr: usize) -> (inner: &LinksInner)
        requires
            ptr < entries@.len(),
            A::links(entries@[ptr as int])@ is Some,
        ensures
            A::links(entries@[ptr as int])@ == Some(*inner),
    {
        A::to_links(&entries[ptr]).record()
    }

    /// The record in the slot of the linked entry at `ptr`, to be rewritten
    /// in place.
    fn inner_mut(entries: &mut [A::EntryType], ptr: usize) -> (inner: &mut LinksInner)
        requires
            ptr < old(entries)@.len(),
            A::links(old(entries)@[ptr as int])@ is Some,
        ensures
            A::links(old(entries)@[ptr as int])@ == Some(*inner),
            final(entries)@ == old(entries)@.update(
                ptr as int,
                A::with_links(
                    old(entries)@[ptr as int],
                    Links::holding(Some(*final(inner))),
                ),
            ),
    {
        let slot = A::to_links_mut(&mut entries[ptr]);
        proof {
            final(slot).lemma_holding();
        }
        slot.record_mut()
    }

    /// Makes `obj` the only member of an empty list: its slot records
    /// `obj` itself on both sides, and `obj` becomes the head.
    pub fn insert_only_entry(&mut self, entries: &mut [A::EntryType], obj: usize)
        requires
            old(self).wf(old(entries)@),
            old(self)@.len() == 0,
            obj < old(entries)@.len(),
            A::links(old(entries)@[obj as int])@ is None,
        ensures
            final(self)@ == seq![obj],
            final(self).spec_head() == Some(obj),
            A::links(final(entries)@[obj as int])@ == Some(LinksInner { prev: obj, next: obj }),
            final(entries)@ == relink::<A>(old(entries)@, final(self)@),
            final(self).wf(final(entries)@),
    {
        let ghost before = entries@;
        let slot = A::to_links_mut(&mut entries[obj]);
        slot.write(LinksInner { prev: obj, next: obj });
        let ghost written = *slot;
        self.head = Some(obj);
        proof {
            self.ring@ = seq![obj];
            let ring = seq![obj];
            assert(entries@ == before.update(
                obj as int,
                A::with_links(before[obj as int], written),
            ));
            lemma_slots_only_same::<A>(before);
            lemma_slot_rewritten::<A>(before, before, obj as int, written);
            assert(ring[0] == obj);
            assert(record_at(ring, 0) == LinksInner { prev: obj, next: obj });
            assert(chained::<A>(entries@, ring));
            assert forall|j: int|
                0 <= j < before.len() && !(j <= usize::MAX && ring.contains(
                    j as usize,
                )) implies A::links(#[trigger] entries@[j]) == A::links(before[j]) by {
                assert(ring.contains(obj));
            }
            lemma_relink_only::<A>(before, entries@, ring);
        }
    }

    /// Appends `obj` as the new tail: the member before the head. On an
    /// empty list `obj` becomes the head.
    pub fn push_back(&mut self, entries: &mut [A::EntryType], obj: usize)
        requires
            old(self).wf(old(entries)@),
            obj < old(entries)@.len(),
            A::links(old(entries)@[obj as int])@ is None,
        ensures
            final(self)@ == old(self)@.push(obj),
            final(self).spec_head() == (if old(self)@.len() == 0 {
                Some(obj)
            } else {
                old(self).spec_head()
            }),
            final(entries)@ == relink::<A>(old(entries)@, final(self)@),
            final(self).wf(final(entries)@),
    {
        if let Some(head) = self.head {
            proof {
                let n: int = self@.len() as int;
                assert(A::links(entries@[self@[0] as int])@ == Some(record_at(self@, 0)));
                lemma_index_of(self@, n - 1);
                assert(self@.insert(n, obj) =~= self@.push(obj));
            }
            let tail: usize = Self::inner_ref(entries, head).prev;
            self.insert_after(entries, tail, obj);
        } else {
            proof {
                assert(self@.push(obj) =~= seq![obj]);
            }
            self.insert_only_entry(entries, obj);
        }
    }

    /// Links `obj` into the ring right before the head. The head stays where
    /// it is: the list still starts at the member it started at, and `obj`,
    /// standing before that member on the ring, is the new tail. On an empty
    /// list `obj` becomes the head.
    pub fn push_front(&mut self, entries: &mut [A::EntryType], obj: usize)
        requires
            old(self).wf(old(entries)@),
            obj < old(entries)@.len(),
            A::links(old(entries)@[obj as int])@ is None,
        ensures
            final(self)@ == old(self)@.push(obj),
            final(self).spec_head() == (if old(self)@.len() == 0 {
                Some(obj)
            } else {
                old(self).spec_head()
            }),
            final(self).spec_head() is Some,
            Some(A::links(final(entries)@[obj as int])@.unwrap().next) == final(self).spec_head(),
            A::links(final(entries)@[final(self).spec_head().unwrap() as int])@.unwrap().prev
                == obj,
            final(entries)@ == relink::<A>(old(entries)@, final(self)@),
            final(self).wf(final(entries)@),
    {
        if let Some(head) = self.head {
            proof {
                lemma_index_of(self@, 0);
            }
            self.insert_before(entries, head, obj);
        } else {
            proof {
                assert(self@.push(obj) =~= seq![obj]);
            }
            self.insert_only_entry(entries, obj);
        }
    }

    /// Links `new` into the ring right after the member `existing`. The head
    /// stays where it is.
    pub fn insert_after(&mut self, entries: &mut [A::EntryType], existing: usize, new: usize)
        requires
            old(self).wf(old(entries)@),
            old(self)@.contains(existing),
            new < old(entries)@.len(),
            A::links(old(entries)@[new as int])@ is None,
        ensures
            final(self)@ == old(self)@.insert(old(self)@.index_of(existing) + 1, new),
            final(self).spec_head() == old(self).spec_head(),
            final(entries)@ == relink::<A>(old(entries)@, final(self)@),
            final(self).wf(final(entries)@),
    {
        let ghost before = entries@;
        let ghost ring = self@;
        let ghost k: int = ring.index_of(existing);
        let ghost n: int = ring.len() as int;
        proof {
            lemma_slots_only_same::<A>(before);
            lemma_unlinked_is_no_member::<A>(before, ring, new);
            assert(A::links(before[ring[k] as int])@ == Some(record_at(ring, k)));
            assert(A::links(before[ring[succ(k, n)] as int])@ == Some(
                record_at(ring, succ(k, n)),
            ));
        }
        let next: usize = Self::inner_ref(entries, existing).next;

        let slot = A::to_links_mut(&mut entries[new]);
        slot.write(LinksInner { prev: existing, next });
        let ghost written = *slot;
        let ghost linked = entries@;
        proof {
            assert(linked == before.update(new as int, A::with_links(before[new as int], written)));
            lemma_slot_rewritten::<A>(before, before, new as int, written);
        }

        let existing_inner = Self::inner_mut(entries, existing);
        existing_inner.next = new;
        let ghost existing_record = *existing_inner;
        let ghost forward = entries@;
        proof {
            lemma_record_rewritten::<A>(before, linked, existing as int, Some(existing_record));
        }

        let next_inner = Self::inner_mut(entries, next);
        next_inner.prev = new;
        let ghost next_record = *next_inner;
        proof {
            lemma_record_rewritten::<A>(before, forward, next as int, Some(next_record));
            self.ring@ = ring.insert(k + 1, new);
            let after = entries@;
            assert forall|p: int| 0 <= p < n implies A::links(
                after[(#[trigger] ring[p]) as int],
            )@ == Some(
                LinksInner {
                    prev: if p == succ(k, n) {
                        new
                    } else {
                        record_at(ring, p).prev
                    },
                    next: if p == k {
                        new
                    } else {
                        record_at(ring, p).next
                    },
                },
            ) by {
                assert(A::links(before[ring[p] as int])@ == Some(record_at(ring, p)));
                if p != k && p != succ(k, n) {
                    assert(ring[p] != ring[k] && ring[p] != ring[succ(k, n)]);
                    assert(after[ring[p] as int] == before[ring[p] as int]);
                }
            }
            assert forall|j: int|
                0 <= j < before.len() && j != new && !(j <= usize::MAX && ring.contains(
                    j as usize,
                )) implies A::links(#[trigger] after[j]) == A::links(before[j]) by {
                assert(ring.contains(ring[k]));
                assert(ring.contains(ring[succ(k, n)]));
                assert(after[j] == before[j]);
            }
            lemma_insert_chained::<A>(before, after, ring, k, new);
            assert(head_of(self@) == head_of(ring)) by {
                lemma_insert_at(ring, k, new, 0);
            }
        }
    }

    /// Links `new` into the ring right before the member `existing`. The
    /// head stays where it is, also where `existing` is the head: `new` then
    /// stands before the head on the ring, which makes it the tail.
    pub fn insert_before(&mut self, entries: &mut [A::EntryType], existing: usize, new: usize)
        requires
            old(self).wf(old(entries)@),
            old(self)@.contains(existing),
            new < old(entries)@.len(),
            A::links(old(entries)@[new as int])@ is None,
        ensures
            final(self)@ == (if old(self).spec_head() == Some(existing) {
                old(self)@.push(new)
            } else {
                old(self)@.insert(old(self)@.index_of(existing), new)
            }),
            final(self).spec_head() == old(self).spec_head(),
            A::links(final(entries)@[new as int])@.unwrap().next == existing,
            A::links(final(entries)@[existing as int])@.unwrap().prev == new,
            final(entries)@ == relink::<A>(old(entries)@, final(self)@),
            final(self).wf(final(entries)@),
    {
        let ghost ring = self@;
        let ghost k: int = ring.index_of(existing);
        let ghost n: int = ring.len() as int;
        proof {
            assert(A::links(entries@[ring[k] as int])@ == Some(record_at(ring, k)));
            lemma_index_of(ring, pred(k, n));
            lemma_index_of(ring, 0);
            if k == 0 {
                assert(ring.insert(n, new) =~= ring.push(new));
            }
        }
        let prev: usize = Self::inner_ref(entries, existing).prev;
        self.insert_after(entries, prev, new);
        proof {
            lemma_unlinked_is_no_member::<A>(old(entries)@, ring, new);
            lemma_insert(ring, pred(k, n), new);
            lemma_insert_at(ring, pred(k, n), new, k);
            let grown = self@;
            let at: int = after_insert(k, pred(k, n));
            assert(grown[at] == existing);
            assert(A::links(entries@[grown[at] as int])@ == Some(record_at(grown, at)));
            assert(A::links(entries@[grown[pred(k, n) + 1] as int])@ == Some(
                record_at(grown, pred(k, n) + 1),
            ));
        }
    }

    /// Takes the member `entry` off the list and empties its slot. Its two
    /// neighbours become each other's. If `entry` was the head, the member
    /// after it becomes the head; if it was the only member, the list is
    /// empty afterwards.
    pub fn remove(&mut self, entries: &mut [A::EntryType], entry: usize)
        requires
            old(self).wf(old(entries)@),
            old(self)@.contains(entry),
        ensures
            final(self)@ == old(self)@.remove(old(self)@.index_of(entry)),
            final(self).spec_head() == (if old(self)@.len() == 1 {
                None
            } else if old(self).spec_head() == Some(entry) {
                Some(A::links(old(entries)@[entry as int])@.unwrap().next)
            } else {
                old(self).spec_head()
            }),
            A::links(final(entries)@[entry as int])@ is None,
            final(entries)@ == relink::<A>(unlink::<A>(old(entries)@, entry), final(self)@),
            final(self).wf(final(entries)@),
    {
        let ghost before = entries@;
        let ghost ring = self@;
        let ghost k: int = ring.index_of(entry);
        let ghost n: int = ring.len() as int;
        proof {
            lemma_slots_only_same::<A>(before);
            assert(A::links(before[ring[k] as int])@ == Some(record_at(ring, k)));
            assert(A::links(before[ring[succ(k, n)] as int])@ == Some(
                record_at(ring, succ(k, n)),
            ));
            assert(A::links(before[ring[pred(k, n)] as int])@ == Some(
                record_at(ring, pred(k, n)),
            ));
        }
        let inner = Self::inner_ref(entries, entry);
        let next: usize = inner.next;
        let prev: usize = inner.prev;

        let slot = A::to_links_mut(&mut entries[entry]);
        slot.clear();
        let ghost cleared = *slot;
        let ghost emptied = entries@;
        proof {
            assert(emptied == before.update(
                entry as int,
                A::with_links(before[entry as int], cleared),
            ));
            lemma_slot_rewritten::<A>(before, before, entry as int, cleared);
        }

        if next == entry {
            self.head = None;
        } else {
            let prev_inner = Self::inner_mut(entries, prev);
            prev_inner.next = next;
            let ghost prev_record = *prev_inner;
            let ghost bridged = entries@;
            proof {
                lemma_record_rewritten::<A>(before, emptied, prev as int, Some(prev_record));
            }

            let next_inner = Self::inner_mut(entries, next);
            next_inner.prev = prev;
            let ghost next_record = *next_inner;
            proof {
                lemma_record_rewritten::<A>(before, bridged, next as int, Some(next_record));
            }

            if self.head.unwrap() == entry {
                self.head = Some(next);
            }
        }
        proof {
            self.ring@ = ring.remove(k);
            let after = entries@;
            assert forall|p: int| 0 <= p < n && p != k implies A::links(
                after[(#[trigger] ring[p]) as int],
            )@ == Some(
                LinksInner {
                    prev: if p == succ(k, n) {
                        ring[pred(k, n)]
                    } else {
                        record_at(ring, p).prev
                    },
                    next: if p == pred(k, n) {
                        ring[succ(k, n)]
                    } else {
                        record_at(ring, p).next
                    },
                },
            ) by {
                assert(A::links(before[ring[p] as int])@ == Some(record_at(ring, p)));
                if p != pred(k, n) && p != succ(k, n) {
                    assert(ring[p] != ring[pred(k, n)] && ring[p] != ring[succ(k, n)]);
                    assert(after[ring[p] as int] == before[ring[p] as int]);
                }
            }
            assert forall|j: int|
                0 <= j < before.len() && !(j <= usize::MAX && ring.contains(
                    j as usize,
                )) implies A::links(#[trigger] after[j]) == A::links(before[j]) by {
                assert(ring.contains(ring[k]));
                assert(ring.contains(ring[succ(k, n)]));
                assert(ring.contains(ring[pred(k, n)]));
                assert(after[j] == before[j]);
            }
            lemma_remove_chained::<A>(before, after, ring, k);
            if n > 1 {
                if k == 0 {
                    lemma_remove_at(ring, k, 1);
                } else {
                    lemma_remove_at(ring, k, 0);
                }
            }
        }
    }
}

} // verus!
