use merk_store::chunks::CHUNK_PAYLOAD;
use merk_store::error::StoreError;
use merk_store::restore::Restorer;
use merk_store::store::MerkHandle;
use merk_store::verify::verify_proof;

fn kv(k: &[u8]) -> Vec<u8> {
    k.to_vec()
}

fn put_many(store: &mut MerkHandle, pairs: &[(&[u8], &[u8])]) {
    let mut b = store.batch().unwrap();
    for (k, v) in pairs {
        b.put(k.to_vec(), v.to_vec()).unwrap();
    }
    store.commit(&mut b).unwrap();
}

/// A store whose snapshot spans several chunks.
fn big_store() -> MerkHandle {
    let mut store = MerkHandle::new();
    let big = vec![7u8; 3 * CHUNK_PAYLOAD];
    put_many(
        &mut store,
        &[(b"big", big.as_slice()), (b"small", b"tiny"), (b"zz", b"last")],
    );
    store
}

fn collect_chunks(store: &mut MerkHandle) -> Vec<Vec<u8>> {
    let n = store.num_chunks().unwrap();
    let mut out = Vec::new();
    for i in 0..n {
        out.push(store.chunk(i).unwrap());
    }
    out
}

#[test]
fn chunk_round_trip_restores_equal_root() {
    let mut store = big_store();
    let root = store.root_hash().unwrap();
    let stated = store.snapshot().unwrap().len();
    let chunks = collect_chunks(&mut store);
    assert!(chunks.len() >= 2);
    // the chunk count is exactly the snapshot length split into full payloads
    assert_eq!(chunks.len(), (stated + CHUNK_PAYLOAD - 1) / CHUNK_PAYLOAD);

    let mut restorer = Restorer::new(root.clone(), stated);
    assert_eq!(restorer.remaining_chunks(), Some(chunks.len()));
    for (fed, c) in chunks.iter().enumerate() {
        restorer.process_chunk(c).unwrap();
        assert_eq!(restorer.remaining_chunks(), Some(chunks.len() - fed - 1));
    }
    let restored = restorer.finalize().unwrap();
    assert_eq!(restored.root_hash().unwrap(), root);
    assert_eq!(restored.get(&kv(b"small")).unwrap(), Some(b"tiny".to_vec()));
    assert_eq!(
        restored.get(&kv(b"big")).unwrap(),
        Some(vec![7u8; 3 * CHUNK_PAYLOAD])
    );
}

#[test]
fn empty_store_round_trip_needs_no_chunks() {
    let mut store = MerkHandle::new();
    let root = store.root_hash().unwrap();
    assert_eq!(store.num_chunks().unwrap(), 0);
    let mut restorer = Restorer::new(root.clone(), 0);
    assert_eq!(restorer.remaining_chunks(), Some(0));
    let restored = restorer.finalize().unwrap();
    assert_eq!(restored.root_hash().unwrap(), root);
}

#[test]
fn corrupting_any_byte_never_restores_silently() {
    let mut store = MerkHandle::new();
    put_many(&mut store, &[(b"a", b"1"), (b"b", b"2")]);
    let root = store.root_hash().unwrap();
    let stated = store.snapshot().unwrap().len();
    let chunks = collect_chunks(&mut store);
    assert_eq!(chunks.len(), 1);
    let chunk = &chunks[0];

    for pos in 0..chunk.len() {
        for flip in [0x01u8, 0x80u8] {
            let mut bad = chunk.clone();
            bad[pos] ^= flip;
            let mut restorer = Restorer::new(root.clone(), stated);
            let outcome = match restorer.process_chunk(&bad) {
                Err(e) => Err(e),
                Ok(()) => restorer.finalize().map(|mut restored| {
                    let r = restored.root_hash().unwrap();
                    let _ = restored.close();
                    r
                }),
            };
            match outcome {
                Err(StoreError::InvalidChunk) | Err(StoreError::RootHashMismatch) => {},
                Err(e) => panic!("unexpected error {:?} at byte {}", e, pos),
                Ok(r) => panic!("silent success at byte {} with root {:?}", pos, r),
            }
        }
    }
}

#[test]
fn chunks_must_arrive_in_order() {
    let mut store = big_store();
    let root = store.root_hash().unwrap();
    let stated = store.snapshot().unwrap().len();
    let chunks = collect_chunks(&mut store);
    let mut restorer = Restorer::new(root, stated);
    assert_eq!(
        restorer.process_chunk(&chunks[1]),
        Err(StoreError::InvalidChunk)
    );
    // the rejected chunk changed nothing; the right one is still accepted
    restorer.process_chunk(&chunks[0]).unwrap();
}

#[test]
fn restorer_rejects_use_after_finalize() {
    let mut store = MerkHandle::new();
    put_many(&mut store, &[(b"a", b"1")]);
    let root = store.root_hash().unwrap();
    let stated = store.snapshot().unwrap().len();
    let chunks = collect_chunks(&mut store);
    let mut restorer = Restorer::new(root, stated);
    restorer.process_chunk(&chunks[0]).unwrap();
    restorer.finalize().unwrap();
    assert_eq!(
        restorer.process_chunk(&chunks[0]),
        Err(StoreError::AlreadyFinalized)
    );
    assert!(matches!(
        restorer.finalize(),
        Err(StoreError::AlreadyFinalized)
    ));
    assert_eq!(restorer.remaining_chunks(), Some(0));
}

#[test]
fn finalize_against_wrong_target_fails_hard() {
    let mut store = MerkHandle::new();
    put_many(&mut store, &[(b"a", b"1")]);
    let stated = store.snapshot().unwrap().len();
    let chunks = collect_chunks(&mut store);
    let mut restorer = Restorer::new(vec![0u8; 32], stated);
    restorer.process_chunk(&chunks[0]).unwrap();
    assert!(matches!(
        restorer.finalize(),
        Err(StoreError::RootHashMismatch)
    ));
    // the aborted restore publishes nothing and reports no precise count
    assert_eq!(restorer.remaining_chunks(), None);
    assert!(matches!(
        restorer.finalize(),
        Err(StoreError::AlreadyFinalized)
    ));
}

#[test]
fn finalize_before_all_chunks_fails_hard() {
    let mut store = big_store();
    let root = store.root_hash().unwrap();
    let stated = store.snapshot().unwrap().len();
    let chunks = collect_chunks(&mut store);
    let mut restorer = Restorer::new(root, stated);
    restorer.process_chunk(&chunks[0]).unwrap();
    assert!(matches!(
        restorer.finalize(),
        Err(StoreError::RootHashMismatch)
    ));
}

#[test]
fn chunk_index_out_of_range_is_an_error() {
    let mut store = MerkHandle::new();
    put_many(&mut store, &[(b"a", b"1")]);
    let n = store.num_chunks().unwrap();
    assert_eq!(n, 1);
    assert_eq!(store.chunk(n), Err(StoreError::ChunkIndexOutOfRange));
}

#[test]
fn chunk_producer_reflects_each_commit() {
    let mut store = MerkHandle::new();
    put_many(&mut store, &[(b"a", b"1")]);
    let n1 = store.num_chunks().unwrap();
    let c1 = store.chunk(0).unwrap();
    assert_eq!(n1, 1);
    // commit content that grows the snapshot past one chunk
    let big = vec![9u8; 2 * CHUNK_PAYLOAD];
    put_many(&mut store, &[(b"b", big.as_slice())]);
    let n2 = store.num_chunks().unwrap();
    assert!(n2 > n1);
    // the first chunk now reflects the new snapshot, not the cached one
    let c1_after = store.chunk(0).unwrap();
    assert_ne!(c1, c1_after);
}

#[test]
fn proof_round_trip_returns_authenticated_values() {
    let mut store = MerkHandle::new();
    put_many(&mut store, &[(b"a", b"1"), (b"b", b"2")]);
    let root = store.root_hash().unwrap();
    let keys = vec![kv(b"a"), kv(b"b")];
    let proof = store.prove_sync(&keys).unwrap();
    let vals = verify_proof(&proof, &keys, &root).unwrap();
    assert_eq!(vals, vec![Some(b"1".to_vec()), Some(b"2".to_vec())]);
}

#[test]
fn proof_against_wrong_root_fails() {
    let mut store = MerkHandle::new();
    put_many(&mut store, &[(b"a", b"1"), (b"b", b"2")]);
    let keys = vec![kv(b"a"), kv(b"b")];
    let proof = store.prove_sync(&keys).unwrap();
    let wrong = vec![0u8; 32];
    assert!(matches!(
        verify_proof(&proof, &keys, &wrong),
        Err(StoreError::ProofHashMismatch)
    ));
}

#[test]
fn proof_for_absent_key_shows_authenticated_absence() {
    let mut store = MerkHandle::new();
    put_many(&mut store, &[(b"a", b"1"), (b"b", b"2")]);
    let root = store.root_hash().unwrap();
    let keys = vec![kv(b"a"), kv(b"never inserted")];
    let proof = store.prove_sync(&keys).unwrap();
    let vals = verify_proof(&proof, &keys, &root).unwrap();
    assert_eq!(vals, vec![Some(b"1".to_vec()), None]);
}

#[test]
fn proof_with_wrong_digest_width_is_invalid_format() {
    let mut store = MerkHandle::new();
    put_many(&mut store, &[(b"a", b"1")]);
    let keys = vec![kv(b"a")];
    let proof = store.prove_sync(&keys).unwrap();
    // a 20-byte digest belongs to another digest scheme
    let narrow = vec![0u8; 20];
    assert!(matches!(
        verify_proof(&proof, &keys, &narrow),
        Err(StoreError::InvalidProofFormat)
    ));
}

#[test]
fn tampered_proof_is_rejected() {
    let mut store = MerkHandle::new();
    put_many(&mut store, &[(b"a", b"1"), (b"b", b"2")]);
    let root = store.root_hash().unwrap();
    let keys = vec![kv(b"a")];
    let mut proof = store.prove_sync(&keys).unwrap();
    let last = proof.len() - 1;
    proof[last] ^= 0x01;
    assert!(matches!(
        verify_proof(&proof, &keys, &root),
        Err(StoreError::ProofHashMismatch)
    ));
}

#[test]
fn restored_store_can_serve_chunks_itself() {
    let mut store = big_store();
    let root = store.root_hash().unwrap();
    let stated = store.snapshot().unwrap().len();
    let chunks = collect_chunks(&mut store);
    let mut restorer = Restorer::new(root.clone(), stated);
    for c in &chunks {
        restorer.process_chunk(c).unwrap();
    }
    let mut restored = restorer.finalize().unwrap();
    let again = collect_chunks(&mut restored);
    assert_eq!(again, chunks);
}
