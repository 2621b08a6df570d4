use reactive_core::counters::CounterList;
use reactive_core::keyed::{reconcile, Insert, KeyError, KeyedEntries};

#[test]
fn counter_ids_are_never_reused() {
    let mut list = CounterList::new(3);
    assert_eq!(list.ids(), &vec![0, 1, 2]);
    assert_eq!(list.add(), Some(3));
    list.remove(1);
    assert_eq!(list.ids(), &vec![0, 2, 3]);
    assert_eq!(list.add(), Some(4));
    list.remove(9);
    assert_eq!(list.ids(), &vec![0, 2, 3, 4]);
}

#[test]
fn removing_a_counter_tears_down_only_its_row() {
    let mut list = CounterList::new(5);
    let before = list.ids().clone();
    list.remove(2);
    let d = reconcile(&before, list.ids()).unwrap();
    assert_eq!(d.removed, vec![2]);
    assert!(d.added.is_empty());
    assert_eq!(d.moved.len(), 2);
    let before = list.ids().clone();
    let id = list.add().unwrap();
    let d = reconcile(&before, list.ids()).unwrap();
    assert_eq!(d.added, vec![Insert { key: id, at: 4 }]);
    assert!(d.removed.is_empty() && d.moved.is_empty());
}

#[test]
fn kept_entries_keep_their_state() {
    let mut entries: KeyedEntries<u32> = KeyedEntries::new();
    entries.apply(&vec![1, 2, 3], &vec![10, 20, 30]).unwrap();
    let d = entries.apply(&vec![3, 1, 4], &vec![40]).unwrap();
    assert_eq!(d.removed, vec![2]);
    assert_eq!(d.added, vec![Insert { key: 4, at: 2 }]);
    assert_eq!(entries.keys(), &vec![3, 1, 4]);
    assert_eq!(entries.state(0), Some(30));
    assert_eq!(entries.state(1), Some(10));
    assert_eq!(entries.state(2), Some(40));
    assert_eq!(entries.state(3), None);
}

#[test]
fn wrong_number_of_built_entries_is_refused() {
    let mut entries: KeyedEntries<u32> = KeyedEntries::new();
    assert_eq!(entries.apply(&vec![1, 2], &vec![10]).err(), Some(KeyError::BuildCountMismatch));
    assert!(entries.keys().is_empty());
    assert_eq!(entries.apply(&vec![1, 1], &vec![10, 11]).err(), Some(KeyError::DuplicateKey));
}
