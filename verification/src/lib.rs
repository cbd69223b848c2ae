//! An intrusive circular doubly-linked list.
//!
//! The link fields of the list live inside the entries themselves, in a
//! [`Links`] slot that every entry embeds. The entries stay in storage that the
//! caller owns, a slice, and the list names an entry by its position in that
//! slice. An [`Adapter`] tells the list where the slot of an entry is. The
//! [`List`] holds nothing but the position of its head: every other member is
//! reached over the `prev` and `next` positions recorded in the slots.
//!
//! A position stands for an entry only while the entry stays where it is. An
//! entry must therefore keep its place in the slice for as long as it is
//! linked: remove it from the list before moving it or taking it out.

pub mod adapter;
pub mod chain;
pub mod links;
pub mod list;
pub mod ring;
pub mod task_list;
pub mod walk;

pub use adapter::Adapter;
pub use links::{Links, LinksInner};
pub use list::List;
pub use task_list::TaskList;
