use reactive_core::todos::Todos;

#[test]
fn test_remaining() {
    let td = Todos::new(vec![true, false, false, true, true, false]);

    assert_eq!(td.num_remaining(), 3);
}

#[test]
fn remaining_changes_with_pushes() {
    let mut td = Todos::new(vec![]);
    assert_eq!(td.num_remaining(), 0);
    td.push(true);
    td.push(false);
    assert_eq!(td.num_remaining(), 1);
}
