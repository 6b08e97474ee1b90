use homebox::store::{copy_bytes, rank, Entry, Rank, RecordStore, Write};

fn entry(key: &[u8], value: &[u8]) -> Entry {
    Entry { key: key.to_vec(), value: value.to_vec() }
}

#[test]
fn rank_is_byte_lexicographic() {
    assert_eq!(rank(&[], &[]), Rank::Same);
    assert_eq!(rank(&[], &[0]), Rank::Before);
    assert_eq!(rank(&[0], &[]), Rank::After);
    assert_eq!(rank(&[1, 2], &[1, 2]), Rank::Same);
    assert_eq!(rank(&[1, 2], &[1, 2, 0]), Rank::Before);
    assert_eq!(rank(&[1, 3], &[1, 2, 9]), Rank::After);
    assert_eq!(rank(&[0, 255], &[1]), Rank::Before);
    assert_eq!(rank(&[128], &[127, 255]), Rank::After);
}

#[test]
fn copy_bytes_copies() {
    assert_eq!(copy_bytes(&[]), Vec::<u8>::new());
    assert_eq!(copy_bytes(&[1, 2, 3]), vec![1, 2, 3]);
}

#[test]
fn absent_key_is_no_error() {
    let store = RecordStore::new();
    assert_eq!(store.get(&[1, 2]), None);
    assert!(!store.contains(&[1, 2]));
    assert_eq!(store.len(), 0);
}

#[test]
fn put_is_an_upsert_and_the_last_writer_wins() {
    let mut store = RecordStore::new();
    store.put(vec![1], vec![10]);
    store.put(vec![1], vec![11]);
    assert_eq!(store.get(&[1]), Some(vec![11]));
    assert_eq!(store.len(), 1);
    store.put(vec![1], vec![]);
    assert_eq!(store.get(&[1]), Some(vec![]));
    assert!(store.contains(&[1]));
}

#[test]
fn delete_of_an_absent_key_changes_nothing() {
    let mut store = RecordStore::new();
    store.put(vec![1], vec![10]);
    store.delete(&[2]);
    assert_eq!(store.len(), 1);
    store.delete(&[1]);
    assert_eq!(store.get(&[1]), None);
    store.delete(&[1]);
    assert_eq!(store.len(), 0);
}

#[test]
fn scan_yields_the_anchored_keys_in_order() {
    let mut store = RecordStore::new();
    for key in [vec![2, 9], vec![1, 5], vec![2], vec![2, 0, 7], vec![3], vec![2, 0], vec![1, 255]] {
        let value = vec![key.len() as u8];
        store.put(key, value);
    }
    assert_eq!(
        store.scan_prefix(&[2]),
        vec![
            entry(&[2], &[1]),
            entry(&[2, 0], &[2]),
            entry(&[2, 0, 7], &[3]),
            entry(&[2, 9], &[2]),
        ]
    );
    assert_eq!(store.scan_prefix(&[2, 0]), vec![entry(&[2, 0], &[2]), entry(&[2, 0, 7], &[3])]);
    assert_eq!(store.scan_prefix(&[4]), vec![]);
    assert_eq!(store.scan_prefix(&[]).len(), 7);
    let all = store.scan_prefix(&[]);
    for pair in all.windows(2) {
        assert_eq!(rank(&pair[0].key, &pair[1].key), Rank::Before);
    }
}

#[test]
fn scan_is_restartable() {
    let mut store = RecordStore::new();
    store.put(vec![7, 1], vec![1]);
    let first = store.scan_prefix(&[7]);
    let second = store.scan_prefix(&[7]);
    assert_eq!(first, second);
    store.put(vec![7, 0], vec![0]);
    assert_eq!(store.scan_prefix(&[7]).len(), 2);
    assert_eq!(first.len(), 1);
}

#[test]
fn changes_are_made_in_order() {
    let mut store = RecordStore::new();
    store.put(vec![1], vec![1]);
    store.apply(&vec![
        Write::Put { key: vec![2], value: vec![2] },
        Write::Delete { key: vec![1] },
        Write::Put { key: vec![1], value: vec![3] },
        Write::Put { key: vec![2], value: vec![4] },
        Write::Delete { key: vec![9] },
    ]);
    assert_eq!(store.get(&[1]), Some(vec![3]));
    assert_eq!(store.get(&[2]), Some(vec![4]));
    assert_eq!(store.len(), 2);
    store.apply(&vec![]);
    assert_eq!(store.len(), 2);
}
