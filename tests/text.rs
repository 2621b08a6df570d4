use reactive_core::text::{capitalize, shout, uppercase_conversion};

#[test]
fn capitalizes_each_name() {
    let names = vec!["alice", "bob", "Carol", "élan"];
    assert_eq!(uppercase_conversion(&names), vec!["Alice", "Bob", "Carol", "élan"]);
}

#[test]
fn capitalize_single_letter() {
    assert_eq!(capitalize("z"), "Z");
}

#[test]
fn shouts_name() {
    assert_eq!(shout("Bill"), "BILL");
    assert_eq!(shout("añb1"), "AñB1");
}
