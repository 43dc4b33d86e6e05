//! Independent proof verification.
//!
//! A proof produced by `MerkHandle::prove_sync` is the store's canonical
//! snapshot. The verifier is a pure function of the proof bytes, the expected
//! root digest, and the queried keys: it recomputes the digest, refuses a
//! proof that does not hash to the expected root, decodes the snapshot, and
//! answers each queried key with its authenticated value or its
//! authenticated absence.

use vstd::prelude::*;

use crate::bytes::bytes_eq;
use crate::codec::{dec_snapshot, decode_snapshot, opt_key_view, view_entries, PairV};
use crate::digest::{sha256, sha256_of, DIGEST_LEN};
use crate::error::StoreError;
use crate::kv::{get_value, lookup, Entry};

verus! {

/// The value bound to `k` in a decoded pair list, scanning from the front.
pub open spec fn lookup_pairs(s: Seq<PairV>, k: Seq<u8>) -> Option<Seq<u8>>
    decreases s.len(),
{
    if s.len() == 0 {
        None
    } else if s[0].0 == k {
        Some(s[0].1)
    } else {
        lookup_pairs(s.skip(1), k)
    }
}

/// Looking up in an entry list and in its pair image agree.
pub proof fn lemma_lookup_view(s: Seq<Entry>, k: Seq<u8>)
    ensures
        lookup_pairs(view_entries(s), k) == lookup(s, k),
    decreases s.len(),
{
    if s.len() > 0 {
        assert(view_entries(s)[0] == (s[0].key@, s[0].value@));
        assert(view_entries(s).skip(1) =~= view_entries(s.skip(1)));
        lemma_lookup_view(s.skip(1), k);
    }
}

/// Verifies `proof_bytes` against `expected_hash` and answers each queried
/// key. Fails with `InvalidProofFormat` when the expected digest is not 32
/// bytes wide or the proof is not a canonical snapshot; fails with
/// `ProofHashMismatch` when the proof does not hash to the expected root.
/// Never answers from a proof that does not match the root.
pub fn verify_proof(proof_bytes: &Vec<u8>, keys: &Vec<Vec<u8>>, expected_hash: &Vec<u8>) -> (r:
    Result<Vec<Option<Vec<u8>>>, StoreError>)
    ensures
        match r {
            Ok(vals) => expected_hash@.len() == DIGEST_LEN && sha256_of(proof_bytes@) == expected_hash@
                && dec_snapshot(proof_bytes@, None) is Some && vals@.len() == keys@.len() && forall|
                i: int,
            |
                0 <= i < keys@.len() ==> opt_key_view(#[trigger] vals@[i]) == lookup_pairs(
                    dec_snapshot(proof_bytes@, None).unwrap(),
                    keys@[i]@,
                ),
            Err(e) => match e {
                StoreError::InvalidProofFormat => expected_hash@.len() != DIGEST_LEN || (sha256_of(
                    proof_bytes@,
                ) == expected_hash@ && dec_snapshot(proof_bytes@, None) is None),
                StoreError::ProofHashMismatch => expected_hash@.len() == DIGEST_LEN && sha256_of(
                    proof_bytes@,
                ) != expected_hash@,
                _ => false,
            },
        },
{
    if expected_hash.len() != DIGEST_LEN {
        return Err(StoreError::InvalidProofFormat);
    }
    let d = sha256(proof_bytes);
    if !bytes_eq(&d, expected_hash) {
        return Err(StoreError::ProofHashMismatch);
    }
    let entries = match decode_snapshot(proof_bytes) {
        Some(v) => v,
        None => {
            return Err(StoreError::InvalidProofFormat);
        },
    };
    let mut vals: Vec<Option<Vec<u8>>> = Vec::new();
    let mut i: usize = 0;
    while i < keys.len()
        invariant
            i <= keys@.len(),
            vals@.len() == i,
            dec_snapshot(proof_bytes@, None) == Some(view_entries(entries@)),
            forall|j: int|
                0 <= j < i ==> opt_key_view(#[trigger] vals@[j]) == lookup_pairs(
                    view_entries(entries@),
                    keys@[j]@,
                ),
        decreases keys@.len() - i,
    {
        let v = get_value(&entries, &keys[i]);
        proof {
            lemma_lookup_view(entries@, keys@[i as int]@);
        }
        vals.push(v);
        i += 1;
    }
    Ok(vals)
}

/// Proof completeness: verifying a store's own proof against its own root
/// digest answers every key with exactly the store's binding for it, or its
/// absence.
pub proof fn lemma_prove_verify_complete(h: crate::store::MerkHandle, k: Seq<u8>)
    requires
        h.wf(),
    ensures
        sha256_of(h.snap_spec()) == h.root_spec(),
        dec_snapshot(h.snap_spec(), None) is Some,
        lookup_pairs(dec_snapshot(h.snap_spec(), None).unwrap(), k) == lookup(h.entries@, k),
{
    crate::store::lemma_snapshot_roundtrip(h);
    lemma_lookup_view(h.entries@, k);
}

} // verus!
