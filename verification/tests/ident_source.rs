use rusty_frp::ident::IdSource;

#[test]
fn ids_count_up_from_zero() {
    let mut ids = IdSource::new();
    assert_eq!(ids.new_id(), 0);
    assert_eq!(ids.new_id(), 1);
    assert_eq!(ids.peek(), 2);
    assert_eq!(ids.remaining(), u32::MAX - 2);
}

#[test]
fn peek_does_not_use_an_id() {
    let mut ids = IdSource::new();
    assert_eq!(ids.peek(), 0);
    assert_eq!(ids.peek(), 0);
    assert_eq!(ids.new_id(), 0);
}
