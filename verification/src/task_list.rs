//! An entry type that can be linked: a task with an identifier.

use vstd::prelude::*;
use crate::adapter::Adapter;
use crate::links::Links;

verus! {

/// A task that can be put on a [`List`](crate::list::List) of tasks.
///
/// It is its own adapter: `List<TaskList>` links tasks through their
/// `task_links` slot.
#[derive(Debug)]
pub struct TaskList {
    pub id: usize,
    pub task_links: Links,
}

impl Adapter for TaskList {
    type EntryType = TaskList;

    open spec fn links(obj: TaskList) -> Links {
        obj.task_links
    }

    open spec fn with_links(obj: TaskList, slot: Links) -> TaskList {
        TaskList { id: obj.id, task_links: slot }
    }

    proof fn lemma_links_of_with_links(obj: TaskList, slot: Links) {
    }

    proof fn lemma_with_own_links(obj: TaskList) {
    }

    proof fn lemma_with_links_twice(obj: TaskList, first: Links, second: Links) {
    }

    fn to_links(obj: &TaskList) -> (slot: &Links) {
        &obj.task_links
    }

    fn to_links_mut(obj: &mut TaskList) -> (slot: &mut Links) {
        &mut obj.task_links
    }
}

} // verus!
