use merk_store::error::StoreError;
use merk_store::store::MerkHandle;

fn kv(k: &[u8]) -> Vec<u8> {
    k.to_vec()
}

fn put_many(store: &mut MerkHandle, pairs: &[(&[u8], &[u8])]) {
    let mut b = store.batch().unwrap();
    for (k, v) in pairs {
        b.put(k.to_vec(), v.to_vec()).unwrap();
    }
    store.commit(&mut b).unwrap();
}

#[test]
fn get_returns_committed_value() {
    let mut store = MerkHandle::new();
    put_many(&mut store, &[(b"alpha", b"1"), (b"beta", b"2")]);
    assert_eq!(store.get(&kv(b"alpha")).unwrap(), Some(b"1".to_vec()));
    assert_eq!(store.get(&kv(b"beta")).unwrap(), Some(b"2".to_vec()));
    assert_eq!(store.get(&kv(b"gamma")).unwrap(), None);
}

#[test]
fn last_staged_operation_wins_per_key() {
    let mut store = MerkHandle::new();
    put_many(&mut store, &[(b"gone", b"old")]);
    let mut b = store.batch().unwrap();
    b.put(kv(b"k"), kv(b"first")).unwrap();
    b.put(kv(b"k"), kv(b"second")).unwrap();
    b.put(kv(b"gone"), kv(b"x")).unwrap();
    b.delete(kv(b"gone")).unwrap();
    store.commit(&mut b).unwrap();
    assert_eq!(store.get(&kv(b"k")).unwrap(), Some(b"second".to_vec()));
    assert_eq!(store.get(&kv(b"gone")).unwrap(), None);
}

#[test]
fn commit_order_of_staging_is_irrelevant() {
    let mut s1 = MerkHandle::new();
    let mut s2 = MerkHandle::new();
    put_many(&mut s1, &[(b"a", b"1"), (b"b", b"2"), (b"c", b"3")]);
    // same operation set staged in a different call order
    put_many(&mut s2, &[(b"c", b"3"), (b"a", b"1"), (b"b", b"2")]);
    assert_eq!(s1.root_hash().unwrap(), s2.root_hash().unwrap());
}

#[test]
fn mixed_puts_and_deletes_apply_atomically() {
    let mut store = MerkHandle::new();
    put_many(&mut store, &[(b"a", b"1"), (b"b", b"2"), (b"c", b"3")]);
    let mut b = store.batch().unwrap();
    b.delete(kv(b"b")).unwrap();
    b.put(kv(b"d"), kv(b"4")).unwrap();
    b.put(kv(b"a"), kv(b"10")).unwrap();
    store.commit(&mut b).unwrap();
    assert_eq!(store.get(&kv(b"a")).unwrap(), Some(b"10".to_vec()));
    assert_eq!(store.get(&kv(b"b")).unwrap(), None);
    assert_eq!(store.get(&kv(b"c")).unwrap(), Some(b"3".to_vec()));
    assert_eq!(store.get(&kv(b"d")).unwrap(), Some(b"4".to_vec()));
}

#[test]
fn empty_batch_commit_keeps_root_hash() {
    let mut store = MerkHandle::new();
    put_many(&mut store, &[(b"a", b"1")]);
    let before = store.root_hash().unwrap();
    let mut b = store.batch().unwrap();
    store.commit(&mut b).unwrap();
    assert_eq!(store.root_hash().unwrap(), before);
}

#[test]
fn root_hash_changes_when_contents_change() {
    let mut store = MerkHandle::new();
    let empty_root = store.root_hash().unwrap();
    assert_eq!(empty_root.len(), 32);
    put_many(&mut store, &[(b"a", b"1")]);
    assert_ne!(store.root_hash().unwrap(), empty_root);
}

#[test]
fn batch_reuse_is_rejected_after_commit() {
    let mut store = MerkHandle::new();
    let mut b = store.batch().unwrap();
    b.put(kv(b"a"), kv(b"1")).unwrap();
    store.commit(&mut b).unwrap();
    assert_eq!(b.put(kv(b"x"), kv(b"y")), Err(StoreError::BatchAlreadyCommitted));
    assert_eq!(b.delete(kv(b"a")), Err(StoreError::BatchAlreadyCommitted));
    assert_eq!(store.commit(&mut b), Err(StoreError::BatchAlreadyCommitted));
    // the rejected attempts changed nothing
    assert_eq!(store.get(&kv(b"a")).unwrap(), Some(b"1".to_vec()));
}

#[test]
fn failed_commit_attempt_still_consumes_the_batch() {
    let mut store = MerkHandle::new();
    let mut b = store.batch().unwrap();
    // delete of an absent key is rejected by the store
    b.delete(kv(b"missing")).unwrap();
    assert_eq!(store.commit(&mut b), Err(StoreError::ApplyError));
    assert_eq!(store.commit(&mut b), Err(StoreError::BatchAlreadyCommitted));
}

#[test]
fn delete_of_absent_key_rejects_whole_batch() {
    let mut store = MerkHandle::new();
    put_many(&mut store, &[(b"a", b"1")]);
    let before = store.root_hash().unwrap();
    let mut b = store.batch().unwrap();
    b.put(kv(b"b"), kv(b"2")).unwrap();
    b.delete(kv(b"missing")).unwrap();
    assert_eq!(store.commit(&mut b), Err(StoreError::ApplyError));
    // all-or-nothing: the staged put must not have been applied
    assert_eq!(store.get(&kv(b"b")).unwrap(), None);
    assert_eq!(store.root_hash().unwrap(), before);
}

#[test]
fn close_makes_every_operation_fail() {
    let mut store = MerkHandle::new();
    put_many(&mut store, &[(b"a", b"1")]);
    store.close().unwrap();
    assert_eq!(store.get(&kv(b"a")), Err(StoreError::StoreClosed));
    assert_eq!(store.root_hash(), Err(StoreError::StoreClosed));
    assert!(matches!(store.batch(), Err(StoreError::StoreClosed)));
    assert_eq!(store.snapshot(), Err(StoreError::StoreClosed));
    assert_eq!(store.num_chunks(), Err(StoreError::StoreClosed));
    assert_eq!(store.chunk(0), Err(StoreError::StoreClosed));
    assert_eq!(store.prove_sync(&vec![kv(b"a")]), Err(StoreError::StoreClosed));
    assert_eq!(store.close(), Err(StoreError::StoreClosed));
    assert_eq!(store.destroy(), Err(StoreError::StoreClosed));
}

#[test]
fn destroy_makes_every_operation_fail() {
    let mut store = MerkHandle::new();
    put_many(&mut store, &[(b"a", b"1")]);
    store.destroy().unwrap();
    assert_eq!(store.get(&kv(b"a")), Err(StoreError::StoreClosed));
    assert_eq!(store.root_hash(), Err(StoreError::StoreClosed));
    assert!(matches!(store.batch(), Err(StoreError::StoreClosed)));
    assert_eq!(store.destroy(), Err(StoreError::StoreClosed));
}

#[test]
fn commit_after_close_fails_and_consumes_batch() {
    let mut store = MerkHandle::new();
    let mut b = store.batch().unwrap();
    b.put(kv(b"a"), kv(b"1")).unwrap();
    store.close().unwrap();
    assert_eq!(store.commit(&mut b), Err(StoreError::StoreClosed));
    assert_eq!(store.commit(&mut b), Err(StoreError::BatchAlreadyCommitted));
}

#[test]
fn snapshot_round_trips_through_from_snapshot() {
    let mut store = MerkHandle::new();
    put_many(&mut store, &[(b"a", b"1"), (b"b", b"2"), (b"longer key", b"longer value bytes")]);
    let snap = store.snapshot().unwrap();
    let copy = MerkHandle::from_snapshot(&snap).unwrap();
    assert_eq!(copy.root_hash().unwrap(), store.root_hash().unwrap());
    assert_eq!(copy.get(&kv(b"a")).unwrap(), Some(b"1".to_vec()));
    assert_eq!(copy.get(&kv(b"longer key")).unwrap(), Some(b"longer value bytes".to_vec()));
    assert_eq!(copy.snapshot().unwrap(), snap);
}

#[test]
fn from_snapshot_rejects_garbage() {
    assert!(matches!(
        MerkHandle::from_snapshot(&vec![1, 2, 3]),
        Err(StoreError::OpenError)
    ));
    // unsorted entries are not canonical either
    let mut store_b_first = MerkHandle::new();
    put_many(&mut store_b_first, &[(b"b", b"2")]);
    let mut store_a = MerkHandle::new();
    put_many(&mut store_a, &[(b"a", b"1")]);
    let mut bad = store_b_first.snapshot().unwrap();
    bad.extend_from_slice(&store_a.snapshot().unwrap());
    assert!(matches!(MerkHandle::from_snapshot(&bad), Err(StoreError::OpenError)));
}

#[test]
fn empty_store_snapshot_is_empty() {
    let store = MerkHandle::new();
    assert_eq!(store.snapshot().unwrap(), Vec::<u8>::new());
    let reopened = MerkHandle::from_snapshot(&Vec::new()).unwrap();
    assert_eq!(reopened.root_hash().unwrap(), store.root_hash().unwrap());
}

#[test]
fn empty_value_is_distinct_from_absence() {
    let mut store = MerkHandle::new();
    put_many(&mut store, &[(b"", b""), (b"present", b"")]);
    // an empty key and an empty value are ordinary data
    assert_eq!(store.get(&kv(b"")).unwrap(), Some(Vec::new()));
    assert_eq!(store.get(&kv(b"present")).unwrap(), Some(Vec::new()));
    // absence stays distinguishable from an empty value
    assert_eq!(store.get(&kv(b"absent")).unwrap(), None);
    let snap = store.snapshot().unwrap();
    let copy = MerkHandle::from_snapshot(&snap).unwrap();
    assert_eq!(copy.get(&kv(b"")).unwrap(), Some(Vec::new()));
}

#[test]
fn prefix_and_binary_keys_round_trip() {
    let mut store = MerkHandle::new();
    put_many(
        &mut store,
        &[
            (b"ab", b"two"),
            (b"a", b"one"),
            (&[0xffu8, 0x00], b"hi"),
            (&[0x00u8], b"lo"),
        ],
    );
    assert_eq!(store.get(&kv(b"a")).unwrap(), Some(b"one".to_vec()));
    assert_eq!(store.get(&kv(b"ab")).unwrap(), Some(b"two".to_vec()));
    assert_eq!(store.get(&kv(&[0x00u8])).unwrap(), Some(b"lo".to_vec()));
    assert_eq!(store.get(&kv(&[0xffu8, 0x00])).unwrap(), Some(b"hi".to_vec()));
    let snap = store.snapshot().unwrap();
    let copy = MerkHandle::from_snapshot(&snap).unwrap();
    assert_eq!(copy.root_hash().unwrap(), store.root_hash().unwrap());
}

#[test]
fn error_messages_are_stable() {
    assert_eq!(StoreError::StoreClosed.message(), "store is closed");
    assert_eq!(
        StoreError::BatchAlreadyCommitted.message(),
        "batch was already committed"
    );
}
