use reactive_core::keyed::{reconcile, Insert, KeyError, Move};

#[test]
fn reorder_only_moves() {
    let d = reconcile(&vec![1, 2, 3], &vec![3, 1, 2]).unwrap();
    assert!(d.removed.is_empty());
    assert!(d.added.is_empty());
    assert_eq!(
        d.moved,
        vec![
            Move { key: 3, from: 2, to: 0 },
            Move { key: 1, from: 0, to: 1 },
            Move { key: 2, from: 1, to: 2 },
        ]
    );
}

#[test]
fn replaced_key_is_one_removal_and_one_insertion() {
    let d = reconcile(&vec![1, 2], &vec![1, 3]).unwrap();
    assert_eq!(d.removed, vec![2]);
    assert_eq!(d.added, vec![Insert { key: 3, at: 1 }]);
    assert!(d.moved.is_empty());
}

#[test]
fn unchanged_list_has_empty_diff() {
    let d = reconcile(&vec![4, 5], &vec![4, 5]).unwrap();
    assert!(d.removed.is_empty() && d.added.is_empty() && d.moved.is_empty());
}

#[test]
fn empty_lists() {
    let d = reconcile(&vec![], &vec![7, 8]).unwrap();
    assert_eq!(d.added, vec![Insert { key: 7, at: 0 }, Insert { key: 8, at: 1 }]);
    let d = reconcile(&vec![7, 8], &vec![]).unwrap();
    assert_eq!(d.removed, vec![7, 8]);
}

#[test]
fn duplicate_keys_are_refused() {
    assert_eq!(reconcile(&vec![1], &vec![2, 2]).err(), Some(KeyError::DuplicateKey));
    assert_eq!(reconcile(&vec![1, 1], &vec![2]).err(), Some(KeyError::DuplicateKey));
}
