use message_index::{Message, Store};

#[test]
fn insert_message() {
    let mut store = Store::new();
    let mut new_message = Message::default();
    new_message.flume_seq = Some(1234);

    store.insert(new_message).expect("Error inserting message");

    let results = store.load_range(0, 1);

    assert_eq!(results[0].flume_seq, Some(1234));
}

#[test]
fn find_or_create_key_when_key_exists() {
    let mut store = Store::new();
    let first = store.resolve_or_create("piet").unwrap();
    let second = store.resolve_or_create("piet").unwrap();
    assert_eq!(first, second);
    assert_eq!(store.load_keys().len(), 1);
}

#[test]
fn find_or_create_key_when_key_does_not_exist() {
    let mut store = Store::new();
    store.resolve_or_create("piet").unwrap();

    let results = store.load_keys();

    assert_eq!(results.len(), 1);
    assert_eq!(results[0].key, "piet");
}
