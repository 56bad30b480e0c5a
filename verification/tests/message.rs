use memlyzer::message::Message;
use std::cmp::Ordering;

#[test]
fn messages_compare_by_checksum_only() {
    let a = Message::from("a", 7);
    let b = Message::from("b", 7);
    let c = Message::from("a", 9);
    assert!(a == b);
    assert!(a != c);
    assert_eq!(a.partial_cmp(&c), Some(Ordering::Less));
    assert_eq!(c.partial_cmp(&a), Some(Ordering::Greater));
    assert_eq!(a.partial_cmp(&b), Some(Ordering::Equal));
    assert_eq!(a.content, "a");
    assert_eq!(c.magic_number, 9);
}
