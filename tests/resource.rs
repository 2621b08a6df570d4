use reactive_core::resource::{Resource, ResourceState};

#[test]
fn later_generation_wins_over_late_completion() {
    let mut r: Resource<i32, String> = Resource::new();
    let g1 = r.start_load().unwrap();
    let g2 = r.start_load().unwrap();
    assert_eq!((g1, g2), (1, 2));
    assert!(r.loading());
    assert!(r.complete(g2, Ok(20)));
    assert!(!r.complete(g1, Ok(10)));
    assert_eq!(r.read(), Some(&Ok(20)));
    assert_eq!(*r.state(), ResourceState::Settled(2));
    assert!(!r.loading());
}

#[test]
fn previous_value_stays_visible_while_reloading() {
    let mut r: Resource<i32, String> = Resource::new();
    assert_eq!(r.read(), None);
    assert_eq!(*r.state(), ResourceState::Idle);
    let g1 = r.start_load().unwrap();
    assert_eq!(r.read(), None);
    assert!(r.complete(g1, Ok(10)));
    let g2 = r.start_load().unwrap();
    assert!(r.loading());
    assert_eq!(r.read(), Some(&Ok(10)));
    assert!(r.complete(g2, Err("down".to_string())));
    assert_eq!(r.read(), Some(&Err("down".to_string())));
    assert_eq!(r.generation(), 2);
}

#[test]
fn completion_before_any_load_is_ignored() {
    let mut r: Resource<i32, String> = Resource::new();
    assert!(!r.complete(0, Ok(1)));
    assert_eq!(r.read(), None);
}
