use reactive_core::action::Action;

#[test]
fn last_completion_sets_the_value() {
    let mut a: Action<String, u32, String> = Action::new();
    assert!(!a.pending());
    a.dispatch("x".to_string());
    a.dispatch("y".to_string());
    assert!(a.pending());
    a.complete(Ok(2));
    a.complete(Ok(1));
    assert_eq!(a.value(), Some(&Ok(1)));
    assert_eq!(a.input(), Some(&"y".to_string()));
    assert!(!a.pending());
}

#[test]
fn failed_mutation_is_kept_as_error() {
    let mut a: Action<String, u32, String> = Action::new();
    assert_eq!(a.value(), None);
    a.dispatch("x".to_string());
    a.complete(Err("rejected".to_string()));
    assert_eq!(a.value(), Some(&Err("rejected".to_string())));
}
