use message_index::{Message, MessageDraft, Store, StoreError};

fn draft(author: Option<&str>, content_type: Option<&str>, content: Option<&str>) -> MessageDraft {
    MessageDraft {
        key: None,
        author: author.map(|a| a.to_string()),
        root: None,
        fork: None,
        seq: None,
        received_time: None,
        asserted_time: None,
        content_type: content_type.map(|c| c.to_string()),
        content: content.map(|c| c.to_string()),
        is_decrypted: None,
    }
}

#[test]
fn resolve_many_times_gives_one_key() {
    let mut store = Store::new();
    store.resolve_or_create("other").unwrap();
    let k = store.resolve_or_create("@alice").unwrap();
    for _ in 0..10 {
        assert_eq!(store.resolve_or_create("@alice"), Ok(k));
    }
    let keys = store.load_keys();
    assert_eq!(keys.len(), 2);
    assert_eq!(keys.iter().filter(|r| r.key == "@alice").count(), 1);
    assert_eq!(k, 2);
}

#[test]
fn scenario_piet_key_created_once() {
    let mut store = Store::new();
    assert_eq!(store.lookup("piet"), None);
    let k = store.resolve_or_create("piet").unwrap();
    let keys = store.load_keys();
    assert_eq!(keys[0].id, Some(k));
    assert_eq!(keys[0].key, "piet");
    assert_eq!(store.resolve_or_create("piet"), Ok(k));
    assert_eq!(store.lookup("piet"), Some(k));
    assert_eq!(store.load_keys().iter().filter(|r| r.key == "piet").count(), 1);
}

#[test]
fn surrogate_keys_count_from_one() {
    let mut store = Store::new();
    assert_eq!(store.resolve_or_create("a"), Ok(1));
    assert_eq!(store.resolve_or_create("b"), Ok(2));
    assert_eq!(store.resolve_or_create("a"), Ok(1));
    assert_eq!(store.resolve_or_create("c"), Ok(3));
    assert_eq!(store.lookup("b"), Some(2));
    assert_eq!(store.lookup("d"), None);
}

#[test]
fn appends_are_consecutive() {
    let mut store = Store::new();
    let mut seqs = Vec::new();
    for i in 0..5 {
        let author = format!("@author{}", i % 2);
        seqs.push(store.append(draft(Some(&author), None, None)).unwrap());
    }
    assert_eq!(seqs, vec![0, 1, 2, 3, 4]);
}

#[test]
fn append_continues_after_explicit_insert() {
    let mut store = Store::new();
    let mut m = Message::default();
    m.flume_seq = Some(1234);
    assert_eq!(store.insert(m), Ok(1234));
    assert_eq!(store.append(draft(None, None, None)), Ok(1235));
    assert_eq!(store.append(draft(None, None, None)), Ok(1236));
}

#[test]
fn scenario_load_inserted_message() {
    let mut store = Store::new();
    let mut m = Message::default();
    m.flume_seq = Some(1234);
    store.insert(m).unwrap();
    let results = store.load_range(1234, 1);
    assert_eq!(results.len(), 1);
    assert_eq!(results[0].flume_seq, Some(1234));
    assert_eq!(results[0].author_id, None);
    assert_eq!(results[0].content, None);
}

#[test]
fn append_then_load_round_trip() {
    let mut store = Store::new();
    store.append(draft(Some("@bob"), None, None)).unwrap();
    let s = store.append(draft(Some("@alice"), Some("post"), Some("hello"))).unwrap();
    let results = store.load_range(s, 1);
    assert_eq!(results.len(), 1);
    assert_eq!(results[0].flume_seq, Some(s));
    assert_eq!(results[0].content.as_deref(), Some("hello"));
    assert_eq!(results[0].content_type.as_deref(), Some("post"));
    let alice = store.resolve_or_create("@alice").unwrap();
    assert_eq!(results[0].author_id, Some(alice));
    assert_eq!(alice, 2);
}

#[test]
fn append_resolves_all_four_addresses() {
    let mut store = Store::new();
    store.resolve_or_create("%root").unwrap();
    let d = MessageDraft {
        key: Some("%msg".to_string()),
        author: Some("@carol".to_string()),
        root: Some("%root".to_string()),
        fork: Some("%msg".to_string()),
        seq: Some(7),
        received_time: Some(1.5f64.to_bits()),
        asserted_time: Some(2.25f64.to_bits()),
        content_type: None,
        content: None,
        is_decrypted: Some(false),
    };
    let s = store.append(d).unwrap();
    let m = &store.load_range(s, 1)[0];
    assert_eq!(m.key_id, Some(2));
    assert_eq!(m.author_id, Some(3));
    assert_eq!(m.root_key_id, Some(1));
    assert_eq!(m.fork_key_id, Some(2));
    assert_eq!(m.seq, Some(7));
    assert_eq!(m.received_time.map(f64::from_bits), Some(1.5));
    assert_eq!(m.asserted_time.map(f64::from_bits), Some(2.25));
    assert_eq!(m.is_decrypted, Some(false));
    assert_eq!(store.load_keys().len(), 3);
}

#[test]
fn messages_reference_existing_keys() {
    let mut store = Store::new();
    for i in 0..4 {
        let a = format!("@a{}", i);
        store.append(draft(Some(&a), None, None)).unwrap();
    }
    let keys = store.load_keys();
    for m in store.load_range(0, 100) {
        let id = m.author_id.unwrap();
        assert!(keys.iter().any(|k| k.id == Some(id)));
    }
}

#[test]
fn insert_with_unknown_key_is_referential_violation() {
    let mut store = Store::new();
    let mut m = Message::default();
    m.author_id = Some(1);
    assert_eq!(store.insert(m), Err(StoreError::ReferentialViolation));
    assert_eq!(store.load_range(0, 10).len(), 0);
    store.resolve_or_create("@x").unwrap();
    let mut m = Message::default();
    m.author_id = Some(1);
    assert_eq!(store.insert(m), Ok(0));
}

#[test]
fn insert_out_of_order_is_sequence_conflict() {
    let mut store = Store::new();
    let mut m = Message::default();
    m.flume_seq = Some(5);
    store.insert(m).unwrap();
    let mut m = Message::default();
    m.flume_seq = Some(5);
    assert_eq!(store.insert(m), Err(StoreError::SequenceConflict));
    let mut m = Message::default();
    m.flume_seq = Some(3);
    assert_eq!(store.insert(m), Err(StoreError::SequenceConflict));
    let mut m = Message::default();
    m.flume_seq = None;
    assert_eq!(store.insert(m), Ok(6));
}

#[test]
fn append_after_last_sequence_is_storage_unavailable() {
    let mut store = Store::new();
    let mut m = Message::default();
    m.flume_seq = Some(i64::MAX);
    store.insert(m).unwrap();
    let r = store.append(draft(Some("@late"), None, Some("x")));
    assert_eq!(r, Err(StoreError::StorageUnavailable));
    assert_eq!(store.load_keys().len(), 0);
    assert_eq!(store.lookup("@late"), None);
    assert_eq!(store.load_range(0, 10).len(), 1);
}

#[test]
fn mark_decrypted_replaces_content() {
    let mut store = Store::new();
    let mut d = draft(Some("@alice"), Some("private"), None);
    d.is_decrypted = Some(false);
    let s = store.append(d).unwrap();
    store.append(draft(Some("@bob"), None, Some("other"))).unwrap();
    assert_eq!(store.mark_decrypted(s, "plaintext".to_string()), Ok(()));
    let results = store.load_range(s, 1);
    assert_eq!(results[0].content.as_deref(), Some("plaintext"));
    assert_eq!(results[0].is_decrypted, Some(true));
    assert_eq!(results[0].content_type.as_deref(), Some("private"));
    let next = store.load_range(s + 1, 1);
    assert_eq!(next[0].content.as_deref(), Some("other"));
    assert_eq!(store.mark_decrypted(99, "x".to_string()), Err(StoreError::NotFound));
}

#[test]
fn load_range_bounds() {
    let mut store = Store::new();
    assert!(store.load_range(0, 5).is_empty());
    for s in [2i64, 4, 6, 8] {
        let mut m = Message::default();
        m.flume_seq = Some(s);
        store.insert(m).unwrap();
    }
    let seqs = |v: Vec<Message>| v.iter().map(|m| m.flume_seq.unwrap()).collect::<Vec<_>>();
    assert_eq!(seqs(store.load_range(3, 2)), vec![4, 6]);
    assert_eq!(seqs(store.load_range(0, 100)), vec![2, 4, 6, 8]);
    assert_eq!(seqs(store.load_range(8, 3)), vec![8]);
    assert_eq!(seqs(store.load_range(9, 3)), Vec::<i64>::new());
    assert_eq!(seqs(store.load_range(2, 0)), Vec::<i64>::new());
    assert_eq!(seqs(store.load_range(i64::MIN, usize::MAX)), vec![2, 4, 6, 8]);
}

#[test]
fn default_message_is_at_zero() {
    let m = Message::default();
    assert_eq!(m.flume_seq, Some(0));
    assert_eq!(m.key_id, None);
    assert_eq!(m.content, None);
    assert_eq!(m.is_decrypted, None);
}
