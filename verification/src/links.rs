//! The link slot that an entry embeds.

use vstd::prelude::*;

verus! {

/// What a populated slot records: the positions of the entries before and
/// after its own entry on the ring.
#[derive(Clone, Copy, Debug)]
pub struct LinksInner {
    pub prev: usize,
    pub next: usize,
}

/// Link storage embedded in an entry.
///
/// A slot is empty while its entry is on no list and holds one
/// [`LinksInner`] while the entry is linked. Only the list writes to it.
#[derive(Debug)]
pub struct Links {
    inner: Option<LinksInner>,
}

impl View for Links {
    type V = Option<LinksInner>;

    closed spec fn view(&self) -> Option<LinksInner> {
        self.inner
    }
}

impl Links {
    /// The slot whose content is `record`.
    pub closed spec fn holding(record: Option<LinksInner>) -> Links {
        Links { inner: record }
    }

    /// A slot is nothing more than its content.
    pub proof fn lemma_holding(self)
        ensures
            Links::holding(self@) == self,
    {
    }

    /// The content of `holding(record)` is `record`.
    pub proof fn lemma_holding_view(record: Option<LinksInner>)
        ensures
            Links::holding(record)@ == record,
    {
    }

    /// An empty slot, for an entry that is on no list yet.
    pub fn new() -> (slot: Self)
        ensures
            slot@ is None,
    {
        Links { inner: None }
    }

    /// Whether the slot is populated, that is, whether its entry is on a list.
    pub fn is_linked(&self) -> (linked: bool)
        ensures
            linked == (self@ is Some),
    {
        self.inner.is_some()
    }

    /// The position of the entry before this one, if the slot is populated.
    pub fn prev(&self) -> (prev: Option<usize>)
        ensures
            prev == (match self@ {
                Some(record) => Some(record.prev),
                None => None,
            }),
    {
        match &self.inner {
            Some(record) => Some(record.prev),
            None => None,
        }
    }

    /// The position of the entry after this one, if the slot is populated.
    pub fn next(&self) -> (next: Option<usize>)
        ensures
            next == (match self@ {
                Some(record) => Some(record.next),
                None => None,
            }),
    {
        match &self.inner {
            Some(record) => Some(record.next),
            None => None,
        }
    }

    /// Populates the slot with `record`.
    pub(crate) fn write(&mut self, record: LinksInner)
        ensures
            final(self)@ == Some(record),
    {
        self.inner = Some(record);
    }

    /// Empties the slot.
    pub(crate) fn clear(&mut self)
        ensures
            final(self)@ is None,
    {
        self.inner = None;
    }

    /// The record of a populated slot.
    pub(crate) fn record(&self) -> (record: &LinksInner)
        requires
            self@ is Some,
        ensures
            self@ == Some(*record),
    {
        self.inner.as_ref().unwrap()
    }

    /// The record of a populated slot, to be rewritten in place.
    pub(crate) fn record_mut(&mut self) -> (record: &mut LinksInner)
        requires
            old(self)@ is Some,
        ensures
            old(self)@ == Some(*record),
            final(self)@ == Some(*final(record)),
    {
        self.inner.as_mut().unwrap()
    }
}

} // verus!
