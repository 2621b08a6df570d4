use reactive_core::todo_id::add_todo;

#[test]
fn ids_are_random_v4_uuids() {
    let a = add_todo("milk");
    let b = add_todo("milk");
    assert_ne!(a, b);
    for id in [a, b] {
        assert_eq!((id >> 76) & 0xF, 4);
        assert_eq!((id >> 62) & 0x3, 2);
    }
}
