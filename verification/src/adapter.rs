//! How the list finds the link slot inside an entry.

use vstd::prelude::*;
use crate::links::Links;

verus! {

/// Locates the [`Links`] slot embedded in an entry.
///
/// An implementation exists once for each entry type that can be put on a
/// list, and projects an entry to the field that holds its slot. It keeps no
/// state. The two spec functions describe the projection as a lens: `links`
/// reads the slot of an entry, `with_links` is the entry with another slot in
/// its place and every other part as it was. The three proof functions are
/// the laws that make the two fit together.
pub trait Adapter {
    /// The entries that a list with this adapter accepts.
    type EntryType;

    /// The slot embedded in `obj`.
    spec fn links(obj: Self::EntryType) -> Links;

    /// `obj` with `slot` in place of its own slot, and nothing else changed.
    spec fn with_links(obj: Self::EntryType, slot: Links) -> Self::EntryType;

    /// Reading the slot that was just put in gives that slot.
    proof fn lemma_links_of_with_links(obj: Self::EntryType, slot: Links)
        ensures
            Self::links(Self::with_links(obj, slot)) == slot,
    ;

    /// Putting an entry's own slot back in leaves the entry as it is.
    proof fn lemma_with_own_links(obj: Self::EntryType)
        ensures
            Self::with_links(obj, Self::links(obj)) == obj,
    ;

    /// Of two slots put in one after the other, only the second counts.
    proof fn lemma_with_links_twice(obj: Self::EntryType, first: Links, second: Links)
        ensures
            Self::with_links(Self::with_links(obj, first), second) == Self::with_links(obj, second),
    ;

    /// The slot of `obj`, to be read.
    fn to_links(obj: &Self::EntryType) -> (slot: &Links)
        ensures
            *slot == Self::links(*obj),
    ;

    /// The slot of `obj`, to be rewritten in place. Whatever is written, the
    /// rest of the entry stays as it was.
    fn to_links_mut(obj: &mut Self::EntryType) -> (slot: &mut Links)
        ensures
            *slot == Self::links(*old(obj)),
            *final(obj) == Self::with_links(*old(obj), *final(slot)),
    ;
}

} // verus!
