use resp_kv::store::Store;

#[test]
fn data_inserts() {
    let mut store = Store::new();

    store.set(b"foo".to_vec(), b"bar".to_vec());

    assert_eq!(store.get(&b"foo".to_vec()), Some(b"bar".to_vec()));
}

#[test]
fn get_before_set_is_none() {
    let store = Store::new();
    assert_eq!(store.get(&b"anything".to_vec()), None);
}

#[test]
fn last_write_wins() {
    let mut store = Store::new();
    store.set(b"k".to_vec(), b"v1".to_vec());
    store.set(b"k".to_vec(), b"v2".to_vec());
    assert_eq!(store.get(&b"k".to_vec()), Some(b"v2".to_vec()));
}

#[test]
fn distinct_keys_keep_their_values() {
    let mut store = Store::new();
    store.set(b"a".to_vec(), b"1".to_vec());
    store.set(b"b".to_vec(), b"2".to_vec());
    assert_eq!(store.get(&b"a".to_vec()), Some(b"1".to_vec()));
    assert_eq!(store.get(&b"b".to_vec()), Some(b"2".to_vec()));
}
