use kvdb::store::KVDB;

#[test]
fn store_round_trip() {
    let mut store = KVDB::create_new();
    store.put(b"doc".to_vec(), b"contents".to_vec()).unwrap();

    // the stored value is the serialized record: key, separator, size, payload
    let mut expected = b"doc;".to_vec();
    expected.extend_from_slice(&8u64.to_be_bytes());
    expected.extend_from_slice(b"contents");
    assert_eq!(store.get(&b"doc".to_vec()), Some(expected));
    assert_eq!(store.get(&b"other".to_vec()), None);

    store.delete(&b"doc".to_vec()).unwrap();
    assert_eq!(store.get(&b"doc".to_vec()), None);
}

#[test]
fn store_reopens_from_bytes() {
    let mut store = KVDB::create_new();
    store.put(b"a".to_vec(), b"1".to_vec()).unwrap();
    store.put(b"b".to_vec(), b"2".to_vec()).unwrap();
    let bytes = store.as_bytes().clone();

    let store2 = KVDB::open(bytes).unwrap();
    assert!(store2.get(&b"a".to_vec()).is_some());
    assert!(store2.get(&b"b".to_vec()).is_some());
    assert!(store2.get(&b"c".to_vec()).is_none());

    // garbage does not open
    assert!(KVDB::open(vec![9u8; 40]).is_err());
}
