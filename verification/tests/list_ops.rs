use intrusive_list::{Adapter, Links, List, TaskList};

fn tasks(count: usize) -> Vec<TaskList> {
    let mut entries = Vec::new();
    for id in 0..count {
        entries.push(TaskList { id: id + 1, task_links: Links::new() });
    }
    entries
}

fn next_of(entries: &[TaskList], at: usize) -> Option<usize> {
    TaskList::to_links(&entries[at]).next()
}

fn prev_of(entries: &[TaskList], at: usize) -> Option<usize> {
    TaskList::to_links(&entries[at]).prev()
}

fn linked(entries: &[TaskList], at: usize) -> bool {
    TaskList::to_links(&entries[at]).is_linked()
}

/// The members in ring order, read off the `next` links from the head.
fn members(list: &List<TaskList>, entries: &[TaskList]) -> Vec<usize> {
    let mut out = Vec::new();
    if let Some(head) = list.head() {
        let mut at = head;
        loop {
            out.push(at);
            at = next_of(entries, at).unwrap();
            if at == head {
                break;
            }
            assert!(out.len() <= entries.len());
        }
    }
    out
}

/// The members in reverse ring order, read off the `prev` links from the head.
fn members_backwards(list: &List<TaskList>, entries: &[TaskList]) -> Vec<usize> {
    let mut out = Vec::new();
    if let Some(head) = list.head() {
        let mut at = head;
        loop {
            out.push(at);
            at = prev_of(entries, at).unwrap();
            if at == head {
                break;
            }
            assert!(out.len() <= entries.len());
        }
    }
    out
}

#[test]
fn new_list_is_empty_and_has_no_head() {
    let list: List<TaskList> = List::new();
    assert!(list.is_empty());
    assert_eq!(list.head(), None);
}

#[test]
fn insert_only_entry_makes_a_self_loop() {
    let mut entries = tasks(3);
    let mut list: List<TaskList> = List::new();
    list.insert_only_entry(&mut entries, 1);
    assert!(!list.is_empty());
    assert_eq!(list.head(), Some(1));
    assert_eq!(next_of(&entries, 1), Some(1));
    assert_eq!(prev_of(&entries, 1), Some(1));
    assert!(!linked(&entries, 0));
    assert!(!linked(&entries, 2));
}

#[test]
fn push_back_on_empty_list_makes_a_self_loop() {
    let mut entries = tasks(2);
    let mut list: List<TaskList> = List::new();
    list.push_back(&mut entries, 0);
    assert_eq!(list.head(), Some(0));
    assert_eq!(next_of(&entries, 0), Some(0));
    assert_eq!(prev_of(&entries, 0), Some(0));
}

#[test]
fn push_front_on_empty_list_makes_a_self_loop() {
    let mut entries = tasks(2);
    let mut list: List<TaskList> = List::new();
    list.push_front(&mut entries, 1);
    assert_eq!(list.head(), Some(1));
    assert_eq!(next_of(&entries, 1), Some(1));
    assert_eq!(prev_of(&entries, 1), Some(1));
}

#[test]
fn push_back_keeps_the_order_of_the_pushes() {
    let mut entries = tasks(6);
    let mut list: List<TaskList> = List::new();
    for at in [4usize, 0, 2, 5, 1] {
        list.push_back(&mut entries, at);
    }
    assert_eq!(list.head(), Some(4));
    assert_eq!(members(&list, &entries), vec![4, 0, 2, 5, 1]);
    assert_eq!(members_backwards(&list, &entries), vec![4, 1, 5, 2, 0]);
    assert!(!linked(&entries, 3));
}

#[test]
fn two_entries_pushed_then_removed() {
    let a = 0;
    let b = 1;
    let mut entries = tasks(2);
    let mut list: List<TaskList> = List::new();

    list.push_back(&mut entries, a);
    list.push_back(&mut entries, b);
    assert_eq!(list.head(), Some(a));
    assert_eq!(next_of(&entries, a), Some(b));
    assert_eq!(next_of(&entries, b), Some(a));
    assert_eq!(prev_of(&entries, a), Some(b));
    assert_eq!(prev_of(&entries, b), Some(a));

    list.remove(&mut entries, b);
    assert_eq!(list.head(), Some(a));
    assert_eq!(next_of(&entries, a), Some(a));
    assert_eq!(prev_of(&entries, a), Some(a));
    assert!(!list.is_empty());

    list.remove(&mut entries, a);
    assert_eq!(list.head(), None);
    assert!(list.is_empty());
}

#[test]
fn push_front_links_before_the_head_and_leaves_the_head() {
    let h = 0;
    let x = 2;
    let mut entries = tasks(3);
    let mut list: List<TaskList> = List::new();
    list.push_back(&mut entries, h);
    list.push_back(&mut entries, 1);

    list.push_front(&mut entries, x);
    assert_eq!(list.head(), Some(h));
    assert_eq!(next_of(&entries, x), Some(h));
    assert_eq!(prev_of(&entries, h), Some(x));
    assert_eq!(prev_of(&entries, x), Some(1));
    assert_eq!(next_of(&entries, 1), Some(x));
    assert_eq!(members(&list, &entries), vec![0, 1, 2]);
}

#[test]
fn insert_before_the_head_leaves_the_head() {
    let mut entries = tasks(3);
    let mut list: List<TaskList> = List::new();
    list.push_back(&mut entries, 1);
    list.insert_before(&mut entries, 1, 0);
    assert_eq!(list.head(), Some(1));
    assert_eq!(members(&list, &entries), vec![1, 0]);
    assert_eq!(next_of(&entries, 0), Some(1));
    assert_eq!(prev_of(&entries, 1), Some(0));
}

#[test]
fn insert_before_a_member_that_is_not_the_head() {
    let mut entries = tasks(4);
    let mut list: List<TaskList> = List::new();
    list.push_back(&mut entries, 0);
    list.push_back(&mut entries, 1);
    list.push_back(&mut entries, 2);
    list.insert_before(&mut entries, 2, 3);
    assert_eq!(list.head(), Some(0));
    assert_eq!(members(&list, &entries), vec![0, 1, 3, 2]);
    assert_eq!(members_backwards(&list, &entries), vec![0, 2, 3, 1]);
}

#[test]
fn insert_after_the_only_member() {
    let mut entries = tasks(2);
    let mut list: List<TaskList> = List::new();
    list.insert_only_entry(&mut entries, 1);
    list.insert_after(&mut entries, 1, 0);
    assert_eq!(list.head(), Some(1));
    assert_eq!(next_of(&entries, 1), Some(0));
    assert_eq!(prev_of(&entries, 1), Some(0));
    assert_eq!(next_of(&entries, 0), Some(1));
    assert_eq!(prev_of(&entries, 0), Some(1));
}

#[test]
fn insert_after_a_member_in_the_middle() {
    let mut entries = tasks(4);
    let mut list: List<TaskList> = List::new();
    list.push_back(&mut entries, 0);
    list.push_back(&mut entries, 1);
    list.push_back(&mut entries, 2);
    list.insert_after(&mut entries, 0, 3);
    assert_eq!(list.head(), Some(0));
    assert_eq!(members(&list, &entries), vec![0, 3, 1, 2]);
    assert_eq!(members_backwards(&list, &entries), vec![0, 2, 1, 3]);
    assert_eq!(prev_of(&entries, 3), Some(0));
    assert_eq!(next_of(&entries, 3), Some(1));
}

#[test]
fn insert_after_the_tail() {
    let mut entries = tasks(3);
    let mut list: List<TaskList> = List::new();
    list.push_back(&mut entries, 0);
    list.push_back(&mut entries, 1);
    list.insert_after(&mut entries, 1, 2);
    assert_eq!(members(&list, &entries), vec![0, 1, 2]);
    assert_eq!(prev_of(&entries, 0), Some(2));
}

#[test]
fn remove_a_member_in_the_middle() {
    let mut entries = tasks(4);
    let mut list: List<TaskList> = List::new();
    for at in 0..4 {
        list.push_back(&mut entries, at);
    }
    list.remove(&mut entries, 2);
    assert_eq!(list.head(), Some(0));
    assert_eq!(members(&list, &entries), vec![0, 1, 3]);
    assert_eq!(members_backwards(&list, &entries), vec![0, 3, 1]);
    assert!(!linked(&entries, 2));
    assert_eq!(next_of(&entries, 2), None);
    assert_eq!(prev_of(&entries, 2), None);
}

#[test]
fn remove_the_head_advances_the_head() {
    let mut entries = tasks(3);
    let mut list: List<TaskList> = List::new();
    for at in 0..3 {
        list.push_back(&mut entries, at);
    }
    list.remove(&mut entries, 0);
    assert_eq!(list.head(), Some(1));
    assert_eq!(members(&list, &entries), vec![1, 2]);
    assert_eq!(members_backwards(&list, &entries), vec![1, 2]);
    assert!(!linked(&entries, 0));
}

#[test]
fn remove_the_tail() {
    let mut entries = tasks(3);
    let mut list: List<TaskList> = List::new();
    for at in 0..3 {
        list.push_back(&mut entries, at);
    }
    list.remove(&mut entries, 2);
    assert_eq!(list.head(), Some(0));
    assert_eq!(members(&list, &entries), vec![0, 1]);
    assert_eq!(prev_of(&entries, 0), Some(1));
}

#[test]
fn remove_the_only_member_empties_the_list() {
    let mut entries = tasks(1);
    let mut list: List<TaskList> = List::new();
    list.push_back(&mut entries, 0);
    list.remove(&mut entries, 0);
    assert!(list.is_empty());
    assert_eq!(list.head(), None);
    assert!(!linked(&entries, 0));
}

#[test]
fn remove_every_member_in_turn() {
    let mut entries = tasks(5);
    let mut list: List<TaskList> = List::new();
    for at in 0..5 {
        list.push_back(&mut entries, at);
    }
    let mut expected = vec![0, 1, 2, 3, 4];
    for at in [3usize, 0, 4, 1, 2] {
        list.remove(&mut entries, at);
        expected.retain(|member| *member != at);
        assert_eq!(members(&list, &entries), expected);
        let mut backwards = members_backwards(&list, &entries);
        if backwards.len() > 1 {
            backwards[1..].reverse();
        }
        assert_eq!(backwards, expected);
        assert!(!linked(&entries, at));
    }
    assert!(list.is_empty());
}

#[test]
fn removed_entry_can_be_pushed_back() {
    let mut entries = tasks(3);
    let mut list: List<TaskList> = List::new();
    for at in 0..3 {
        list.push_back(&mut entries, at);
    }
    list.remove(&mut entries, 1);
    assert!(!linked(&entries, 1));
    list.push_back(&mut entries, 1);
    assert_eq!(list.head(), Some(0));
    assert_eq!(members(&list, &entries), vec![0, 2, 1]);
    assert_eq!(members_backwards(&list, &entries), vec![0, 1, 2]);
    assert_eq!(prev_of(&entries, 1), Some(2));
    assert_eq!(next_of(&entries, 1), Some(0));
    assert_eq!(next_of(&entries, 0), Some(2));
    assert_eq!(prev_of(&entries, 2), Some(0));
}

#[test]
fn only_member_removed_and_pushed_back() {
    let mut entries = tasks(1);
    let mut list: List<TaskList> = List::new();
    list.push_back(&mut entries, 0);
    list.remove(&mut entries, 0);
    list.push_back(&mut entries, 0);
    assert_eq!(list.head(), Some(0));
    assert_eq!(next_of(&entries, 0), Some(0));
    assert_eq!(prev_of(&entries, 0), Some(0));
}

#[test]
fn head_removed_and_pushed_back_becomes_the_tail() {
    let mut entries = tasks(3);
    let mut list: List<TaskList> = List::new();
    for at in 0..3 {
        list.push_back(&mut entries, at);
    }
    list.remove(&mut entries, 0);
    list.push_back(&mut entries, 0);
    assert_eq!(list.head(), Some(1));
    assert_eq!(members(&list, &entries), vec![1, 2, 0]);
}

#[test]
fn operations_leave_the_rest_of_an_entry_alone() {
    let mut entries = tasks(4);
    let mut list: List<TaskList> = List::new();
    list.push_back(&mut entries, 3);
    list.push_front(&mut entries, 1);
    list.insert_after(&mut entries, 3, 0);
    list.insert_before(&mut entries, 1, 2);
    list.remove(&mut entries, 3);
    assert_eq!(entries.len(), 4);
    for at in 0..4 {
        assert_eq!(entries[at].id, at + 1);
    }
}

#[test]
fn two_lists_over_the_same_entries() {
    let mut entries = tasks(5);
    let mut even: List<TaskList> = List::new();
    let mut odd: List<TaskList> = List::new();
    even.push_back(&mut entries, 0);
    odd.push_back(&mut entries, 1);
    even.push_back(&mut entries, 2);
    odd.push_back(&mut entries, 3);
    even.push_back(&mut entries, 4);
    assert_eq!(members(&even, &entries), vec![0, 2, 4]);
    assert_eq!(members(&odd, &entries), vec![1, 3]);
    even.remove(&mut entries, 2);
    odd.push_back(&mut entries, 2);
    assert_eq!(members(&even, &entries), vec![0, 4]);
    assert_eq!(members(&odd, &entries), vec![1, 3, 2]);
}

#[test]
fn walking_wraps_around_the_ring() {
    let mut entries = tasks(3);
    let mut list: List<TaskList> = List::new();
    for at in [2usize, 0, 1] {
        list.push_back(&mut entries, at);
    }
    let ring = [2usize, 0, 1];
    let mut forwards = list.head().unwrap();
    let mut backwards = list.head().unwrap();
    for steps in 1..=7usize {
        forwards = next_of(&entries, forwards).unwrap();
        backwards = prev_of(&entries, backwards).unwrap();
        assert_eq!(forwards, ring[steps % 3]);
        assert_eq!(backwards, ring[(3 - steps % 3) % 3]);
    }
}
