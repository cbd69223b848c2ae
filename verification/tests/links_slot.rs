use intrusive_list::{Adapter, Links, LinksInner, List, TaskList};

#[test]
fn new_slot_is_empty() {
    let slot = Links::new();
    assert!(!slot.is_linked());
    assert_eq!(slot.prev(), None);
    assert_eq!(slot.next(), None);
}

#[test]
fn adapter_projects_a_task_to_its_slot() {
    let mut task = TaskList { id: 7, task_links: Links::new() };
    assert!(!TaskList::to_links(&task).is_linked());
    assert!(!TaskList::to_links_mut(&mut task).is_linked());
    assert_eq!(task.id, 7);
}

#[test]
fn slot_is_populated_while_linked_only() {
    let mut entries = vec![TaskList { id: 1, task_links: Links::new() }];
    let mut list: List<TaskList> = List::new();
    assert!(!entries[0].task_links.is_linked());
    list.push_back(&mut entries, 0);
    assert!(entries[0].task_links.is_linked());
    list.remove(&mut entries, 0);
    assert!(!entries[0].task_links.is_linked());
}

#[test]
fn record_holds_both_neighbours() {
    let record = LinksInner { prev: 3, next: 5 };
    let copy = record;
    assert_eq!(record.prev, 3);
    assert_eq!(copy.next, 5);
}
