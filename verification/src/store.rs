//! The store handle and its write batches.
//!
//! A handle owns the committed contents and is the single point of access to
//! them: reads, atomic batch commits, snapshot and chunk production, and the
//! open/closed/destroyed lifecycle. Exclusive access is what `&mut` already
//! guarantees, so a caller that shares a handle across threads wraps it in a
//! lock of its own.

use vstd::prelude::*;

use crate::chunks::{chunk_count, chunk_count_spec, chunk_spec, make_chunk};
use crate::codec::{
    dec_snapshot, decode_snapshot, enc_snapshot, encode_snapshot, view_entries, wf_pairs, PairV,
};
use crate::digest::{sha256, sha256_of, DIGEST_LEN};
use crate::error::StoreError;
use crate::kv::{
    copy_bytes, find_entry, get_value, insert_entry, lemma_lookup_absent, lemma_lookup_present,
    lookup, remove_entry, sorted_entries, Entry,
};
use crate::ops::{
    insert_op, lemma_lookup_op_absent, lemma_lookup_op_present, lemma_lookup_op_push,
    lemma_lookup_op_some_exists, lemma_sorted_ops_unique, lookup_op, sorted_ops, OpModel, StagedOp,
};

verus! {

/// The lifecycle of a store handle.
pub enum Liveness {
    Open,
    Closed,
    Destroyed,
}

/// Every entry's key and value fit the snapshot length fields.
pub open spec fn bounded_entries(s: Seq<Entry>) -> bool {
    forall|i: int|
        0 <= i < s.len() ==> (#[trigger] s[i].key@.len()) <= u64::MAX && s[i].value@.len()
            <= u64::MAX
}

/// The per-key effect of a staged batch over a base store: a staged put wins,
/// a staged delete removes, and an unstaged key keeps its base binding.
pub open spec fn staged_effect(ops: Seq<StagedOp>, base: Seq<Entry>, k: Seq<u8>) -> Option<
    Seq<u8>,
> {
    match lookup_op(ops, k) {
        Some(OpModel::Put(v)) => Some(v),
        Some(OpModel::Delete) => None,
        None => lookup(base, k),
    }
}

/// A write batch: a key-ordered, deduplicated set of staged operations bound
/// for one atomic commit. A batch becomes inert the moment a commit consumes
/// it, successfully or not.
pub struct Batch {
    pub ops: Vec<StagedOp>,
    pub committed: bool,
}

impl Batch {
    /// The staged operations are strictly sorted by key.
    pub open spec fn wf(self) -> bool {
        sorted_ops(self.ops@)
    }

    /// The operation staged for `k`, if any.
    pub open spec fn staged(self, k: Seq<u8>) -> Option<OpModel> {
        lookup_op(self.ops@, k)
    }

    /// Stages a write of `value` under `key`. A later operation on the same
    /// key replaces an earlier one: last writer wins within the batch.
    pub fn put(&mut self, key: Vec<u8>, value: Vec<u8>) -> (r: Result<(), StoreError>)
        requires
            old(self).wf(),
        ensures
            final(self).wf(),
            match r {
                Ok(()) => !old(self).committed && !final(self).committed && final(self).staged(key@) == Some(OpModel::Put(value@)) && forall|k2: Seq<u8>|
                    k2 != key@ ==> #[trigger] final(self).staged(k2) == old(self).staged(k2),
                Err(e) => e == StoreError::BatchAlreadyCommitted && old(self).committed && *final(self) == *old(self),
            },
    {
        if self.committed {
            return Err(StoreError::BatchAlreadyCommitted);
        }
        insert_op(&mut self.ops, StagedOp { key, delete: false, value });
        Ok(())
    }

    /// Stages a delete of `key`. A later operation on the same key replaces
    /// an earlier one: last writer wins within the batch.
    pub fn delete(&mut self, key: Vec<u8>) -> (r: Result<(), StoreError>)
        requires
            old(self).wf(),
        ensures
            final(self).wf(),
            match r {
                Ok(()) => !old(self).committed && !final(self).committed && final(self).staged(key@) == Some(OpModel::Delete) && forall|k2: Seq<u8>|
                    k2 != key@ ==> #[trigger] final(self).staged(k2) == old(self).staged(k2),
                Err(e) => e == StoreError::BatchAlreadyCommitted && old(self).committed && *final(self) == *old(self),
            },
    {
        if self.committed {
            return Err(StoreError::BatchAlreadyCommitted);
        }
        insert_op(&mut self.ops, StagedOp { key, delete: true, value: Vec::new() });
        Ok(())
    }
}

/// A handle to one authenticated store: its lifecycle state, its committed
/// contents in key order, and the lazily built cache of snapshot chunks.
pub struct MerkHandle {
    pub state: Liveness,
    pub entries: Vec<Entry>,
    pub cache: Option<Vec<Vec<u8>>>,
}

impl MerkHandle {
    /// The canonical snapshot encoding of the committed contents.
    pub open spec fn snap_spec(self) -> Seq<u8> {
        enc_snapshot(view_entries(self.entries@))
    }

    /// The root digest: the commitment to the exact committed contents.
    pub open spec fn root_spec(self) -> Seq<u8> {
        sha256_of(self.snap_spec())
    }

    /// The chunk cache, when present, describes the current snapshot.
    pub open spec fn cache_ok(self) -> bool {
        match self.cache {
            Some(c) => c@.len() == chunk_count_spec(self.snap_spec().len() as int) && forall|i: int|
                0 <= i < c@.len() ==> (#[trigger] c@[i]@) == chunk_spec(self.snap_spec(), i),
            None => true,
        }
    }

    /// Handle invariant: contents sorted and encodable, cache consistent.
    pub open spec fn wf(self) -> bool {
        sorted_entries(self.entries@) && bounded_entries(self.entries@) && self.cache_ok()
    }

    /// The handle accepts operations only while open.
    pub open spec fn is_open(self) -> bool {
        self.state is Open
    }

    /// Opens a fresh, empty store.
    pub fn new() -> (h: MerkHandle)
        ensures
            h.wf(),
            h.is_open(),
            h.entries@.len() == 0,
            h.cache is None,
    {
        MerkHandle { state: Liveness::Open, entries: Vec::new(), cache: None }
    }

    /// Opens a store from a snapshot, as written by `snapshot`. Fails with
    /// `OpenError` exactly when the bytes are not a canonical snapshot.
    pub fn from_snapshot(bytes: &Vec<u8>) -> (r: Result<MerkHandle, StoreError>)
        ensures
            match r {
                Ok(h) => h.wf() && h.is_open() && h.cache is None && dec_snapshot(bytes@, None)
                    == Some(view_entries(h.entries@)) && h.snap_spec() == bytes@,
                Err(e) => e == StoreError::OpenError && dec_snapshot(bytes@, None) is None,
            },
    {
        match decode_snapshot(bytes) {
            Some(v) => {
                proof {
                    crate::codec::lemma_enc_of_dec(bytes@, None);
                    let pv = view_entries(v@);
                    assert(wf_pairs(pv));
                    assert forall|i: int, j: int|
                        0 <= i < j < v@.len() implies crate::bytes::lex_lt(
                        #[trigger] v@[i].key@,
                        #[trigger] v@[j].key@,
                    ) by {
                        assert(pv[i].0 == v@[i].key@ && pv[j].0 == v@[j].key@);
                    }
                    assert forall|i: int|
                        0 <= i < v@.len() implies (#[trigger] v@[i].key@.len()) <= u64::MAX
                        && v@[i].value@.len() <= u64::MAX by {
                        assert(pv[i].0 == v@[i].key@ && pv[i].1 == v@[i].value@);
                    }
                }
                Ok(MerkHandle { state: Liveness::Open, entries: v, cache: None })
            },
            None => Err(StoreError::OpenError),
        }
    }

    /// Reads the value bound to `key`, or its absence. Absence is a normal
    /// outcome, not an error; only a closed handle reports one.
    pub fn get(&self, key: &Vec<u8>) -> (r: Result<Option<Vec<u8>>, StoreError>)
        requires
            self.wf(),
        ensures
            match r {
                Ok(v) => self.is_open() && (match v {
                    Some(val) => lookup(self.entries@, key@) == Some(val@),
                    None => lookup(self.entries@, key@) is None,
                }),
                Err(e) => e == StoreError::StoreClosed && !self.is_open(),
            },
    {
        match self.state {
            Liveness::Open => Ok(get_value(&self.entries, key)),
            _ => Err(StoreError::StoreClosed),
        }
    }

    /// The current root digest, a commitment to the exact contents.
    pub fn root_hash(&self) -> (r: Result<Vec<u8>, StoreError>)
        requires
            self.wf(),
        ensures
            match r {
                Ok(d) => self.is_open() && d@ == self.root_spec() && d@.len() == DIGEST_LEN,
                Err(e) => e == StoreError::StoreClosed && !self.is_open(),
            },
    {
        match self.state {
            Liveness::Open => {
                let snap = encode_snapshot(&self.entries);
                Ok(sha256(&snap))
            },
            _ => Err(StoreError::StoreClosed),
        }
    }

    /// The canonical snapshot of the current contents: what `from_snapshot`
    /// accepts, what the chunks of this store concatenate to, and what the
    /// root digest commits to.
    pub fn snapshot(&self) -> (r: Result<Vec<u8>, StoreError>)
        requires
            self.wf(),
        ensures
            match r {
                Ok(s) => self.is_open() && s@ == self.snap_spec(),
                Err(e) => e == StoreError::StoreClosed && !self.is_open(),
            },
    {
        match self.state {
            Liveness::Open => Ok(encode_snapshot(&self.entries)),
            _ => Err(StoreError::StoreClosed),
        }
    }

    /// Starts an empty batch bound for this store.
    pub fn batch(&self) -> (r: Result<Batch, StoreError>)
        ensures
            match r {
                Ok(b) => self.is_open() && b.wf() && !b.committed && b.ops@.len() == 0,
                Err(e) => e == StoreError::StoreClosed && !self.is_open(),
            },
    {
        match self.state {
            Liveness::Open => Ok(Batch { ops: Vec::new(), committed: false }),
            _ => Err(StoreError::StoreClosed),
        }
    }

    /// Closes the handle. The contents stay persisted elsewhere; every later
    /// operation on this handle fails with `StoreClosed`.
    pub fn close(&mut self) -> (r: Result<(), StoreError>)
        requires
            old(self).wf(),
        ensures
            final(self).wf(),
            match r {
                Ok(()) => old(self).is_open() && final(self).state is Closed && final(self).entries@
                    == old(self).entries@,
                Err(e) => e == StoreError::StoreClosed && !old(self).is_open() && *final(self)
                    == *old(self),
            },
    {
        match self.state {
            Liveness::Open => {
                self.state = Liveness::Closed;
                self.cache = None;
                Ok(())
            },
            _ => Err(StoreError::StoreClosed),
        }
    }

    /// Destroys the store: closes the handle and drops the contents, so the
    /// data cannot be recovered through it.
    pub fn destroy(&mut self) -> (r: Result<(), StoreError>)
        requires
            old(self).wf(),
        ensures
            final(self).wf(),
            match r {
                Ok(()) => old(self).is_open() && final(self).state is Destroyed && final(self).entries@.len() == 0,
                Err(e) => e == StoreError::StoreClosed && !old(self).is_open() && *final(self)
                    == *old(self),
            },
    {
        match self.state {
            Liveness::Open => {
                self.state = Liveness::Destroyed;
                self.entries = Vec::new();
                self.cache = None;
                Ok(())
            },
            _ => Err(StoreError::StoreClosed),
        }
    }

    /// Commits every operation staged in `b` atomically: all of them apply,
    /// or none does and the contents are untouched. The attempt consumes the
    /// batch either way, and a successful commit with staged operations drops
    /// the cached chunk producer, since its snapshot is stale.
    pub fn commit(&mut self, b: &mut Batch) -> (r: Result<(), StoreError>)
        requires
            old(self).wf(),
            old(b).wf(),
        ensures
            final(self).wf(),
            final(b).wf(),
            final(b).ops@ == old(b).ops@,
            match r {
                Ok(()) => !old(b).committed && old(self).is_open() && final(b).committed && final(self).is_open() && (forall|k: Seq<u8>| #[trigger]
                    lookup(final(self).entries@, k) == staged_effect(
                        old(b).ops@,
                        old(self).entries@,
                        k,
                    )) && (old(b).ops@.len() > 0 ==> final(self).cache is None) && (old(b).ops@.len() == 0 ==> *final(self) == *old(self)),
                Err(e) => match e {
                    StoreError::BatchAlreadyCommitted => old(b).committed && *final(self) == *old(self) && *final(b) == *old(b),
                    StoreError::StoreClosed => !old(b).committed && !old(self).is_open() && *final(self) == *old(self) && final(b).committed,
                    StoreError::ApplyError => !old(b).committed && old(self).is_open() && *final(self) == *old(self) && final(b).committed && exists|k: Seq<u8>| #[trigger]
                        lookup_op(old(b).ops@, k) == Some(OpModel::Delete) && lookup(
                        old(self).entries@,
                        k,
                    ) is None,
                    _ => false,
                },
            },
    {
        if b.committed {
            return Err(StoreError::BatchAlreadyCommitted);
        }
        b.committed = true;
        match self.state {
            Liveness::Open => {},
            _ => {
                return Err(StoreError::StoreClosed);
            },
        }
        // reject a delete of an absent key before touching anything
        let n = b.ops.len();
        let mut i: usize = 0;
        while i < n
            invariant
                i <= n,
                n == b.ops@.len(),
                *self == *old(self),
                b.ops@ == old(b).ops@,
                b.committed,
                !old(b).committed,
                old(self).is_open(),
                old(self).wf(),
                old(b).wf(),
                forall|j: int|
                    0 <= j < i && (#[trigger] b.ops@[j].delete) ==> lookup(
                        old(self).entries@,
                        b.ops@[j].key@,
                    ) is Some,
            decreases n - i,
        {
            if b.ops[i].delete {
                match find_entry(&self.entries, &b.ops[i].key) {
                    None => {
                        proof {
                            let k = b.ops@[i as int].key@;
                            lemma_lookup_absent(self.entries@, k);
                            lemma_sorted_ops_unique(b.ops@);
                            lemma_lookup_op_present(b.ops@, i as int, k);
                            assert(b.ops@[i as int].delete);
                            assert(b.ops@[i as int].model() == OpModel::Delete);
                            assert(lookup_op(old(b).ops@, k) == Some(OpModel::Delete));
                            assert(lookup(old(self).entries@, k) is None);
                            assert(exists|k2: Seq<u8>| #[trigger]
                                lookup_op(old(b).ops@, k2) == Some(OpModel::Delete) && lookup(
                                old(self).entries@,
                                k2,
                            ) is None);
                        }
                        return Err(StoreError::ApplyError);
                    },
                    Some(_) => {
                        proof {
                            let k = b.ops@[i as int].key@;
                            let w = choose|w: int|
                                0 <= w < self.entries@.len() && self.entries@[w].key@ == k
                                    && forall|x: int| 0 <= x < w ==> self.entries@[x].key@ != k;
                            lemma_lookup_present(self.entries@, w, k);
                        }
                    },
                }
            }
            i += 1;
        }
        proof {
            assert forall|k: Seq<u8>| #[trigger]
                lookup_op(b.ops@, k) == Some(OpModel::Delete) implies lookup(
                old(self).entries@,
                k,
            ) is Some by {
                lemma_lookup_op_some_exists(b.ops@, k);
                let j = choose|j: int|
                    0 <= j < b.ops@.len() && #[trigger] b.ops@[j].key@ == k && b.ops@[j].model()
                        == OpModel::Delete;
                assert(b.ops@[j].delete);
            }
        }
        if n == 0 {
            proof {
                assert forall|k: Seq<u8>| #[trigger]
                    lookup(self.entries@, k) == staged_effect(b.ops@, old(self).entries@, k) by {
                    crate::ops::lemma_lookup_op_absent(b.ops@, k);
                }
            }
            return Ok(());
        }
        self.cache = None;
        let ghost orig = old(self).entries@;
        let ghost opsg = b.ops@;
        proof {
            assert(opsg.take(0) =~= Seq::<StagedOp>::empty());
            assert forall|k: Seq<u8>| #[trigger]
                lookup(self.entries@, k) == staged_effect(opsg.take(0), orig, k) by {
                lemma_lookup_op_absent(opsg.take(0), k);
            }
        }
        let mut i: usize = 0;
        while i < n
            invariant
                i <= n,
                n == b.ops@.len(),
                b.ops@ == opsg,
                sorted_ops(opsg),
                b.committed,
                self.state is Open,
                self.cache is None,
                sorted_entries(self.entries@),
                bounded_entries(self.entries@),
                forall|k: Seq<u8>| #[trigger]
                    lookup(self.entries@, k) == staged_effect(opsg.take(i as int), orig, k),
            decreases n - i,
        {
            let ghost pre = self.entries@;
            let ghost op_i = opsg[i as int];
            let key_c = copy_bytes(&b.ops[i].key);
            let key_len = key_c.len();
            proof {
                // a vector's length fits usize, so the new entry stays encodable
                assert(key_len <= u64::MAX);
            }
            if b.ops[i].delete {
                remove_entry(&mut self.entries, &key_c);
            } else {
                let val_c = copy_bytes(&b.ops[i].value);
                let val_len = val_c.len();
                proof {
                    assert(val_len <= u64::MAX);
                }
                insert_entry(&mut self.entries, key_c, val_c);
            }
            proof {
                lemma_sorted_ops_unique(opsg);
                assert(opsg.take(i + 1) =~= opsg.take(i as int).push(op_i));
                assert forall|k: Seq<u8>| #[trigger]
                    lookup(self.entries@, k) == staged_effect(opsg.take(i + 1), orig, k) by {
                    lemma_lookup_op_push(opsg.take(i as int), op_i, k);
                    if k == op_i.key@ {
                        assert(forall|j: int|
                            0 <= j < i ==> (#[trigger] opsg.take(i as int)[j].key@) != k);
                        lemma_lookup_op_absent(opsg.take(i as int), k);
                    }
                }
            }
            i += 1;
        }
        proof {
            assert(opsg.take(n as int) =~= opsg);
        }
        Ok(())
    }

    /// Rebuilds the chunk cache from the current snapshot if it is absent.
    fn ensure_cache(&mut self)
        requires
            old(self).wf(),
            old(self).is_open(),
        ensures
            final(self).wf(),
            final(self).cache is Some,
            final(self).entries@ == old(self).entries@,
            final(self).state == old(self).state,
    {
        let rebuild = match &self.cache {
            Some(_) => false,
            None => true,
        };
        if rebuild {
            let snap = encode_snapshot(&self.entries);
            let total = chunk_count(snap.len());
            let mut cs: Vec<Vec<u8>> = Vec::new();
            let mut i: usize = 0;
            while i < total
                invariant
                    i <= total,
                    total as int == chunk_count_spec(snap@.len() as int),
                    snap@ == self.snap_spec(),
                    cs@.len() == i,
                    forall|j: int|
                        0 <= j < i ==> (#[trigger] cs@[j]@) == chunk_spec(self.snap_spec(), j),
                decreases total - i,
            {
                let c = make_chunk(&snap, i);
                cs.push(c);
                i += 1;
            }
            self.cache = Some(cs);
        }
    }

    /// The number of chunks in the current committed snapshot. Rebuilds the
    /// cached producer if a commit invalidated it, so the count always
    /// describes the present contents, never a stale snapshot.
    pub fn num_chunks(&mut self) -> (r: Result<usize, StoreError>)
        requires
            old(self).wf(),
        ensures
            final(self).wf(),
            final(self).entries@ == old(self).entries@,
            final(self).state == old(self).state,
            match r {
                Ok(c) => old(self).is_open() && c as int == chunk_count_spec(
                    old(self).snap_spec().len() as int,
                ),
                Err(e) => e == StoreError::StoreClosed && !old(self).is_open(),
            },
    {
        match self.state {
            Liveness::Open => {},
            _ => {
                return Err(StoreError::StoreClosed);
            },
        }
        self.ensure_cache();
        match &self.cache {
            Some(cs) => Ok(cs.len()),
            None => vstd::pervasive::unreached(),  // ensure_cache left a cache in place
        }
    }

    /// The framed bytes of chunk `index` of the current committed snapshot.
    /// An index at or past the chunk count fails with `ChunkIndexOutOfRange`.
    pub fn chunk(&mut self, index: usize) -> (r: Result<Vec<u8>, StoreError>)
        requires
            old(self).wf(),
        ensures
            final(self).wf(),
            final(self).entries@ == old(self).entries@,
            final(self).state == old(self).state,
            match r {
                Ok(c) => old(self).is_open() && (index as int) < chunk_count_spec(
                    old(self).snap_spec().len() as int,
                ) && c@ == chunk_spec(old(self).snap_spec(), index as int),
                Err(e) => (e == StoreError::StoreClosed && !old(self).is_open()) || (e
                    == StoreError::ChunkIndexOutOfRange && old(self).is_open() && (index as int)
                    >= chunk_count_spec(old(self).snap_spec().len() as int)),
            },
    {
        match self.state {
            Liveness::Open => {},
            _ => {
                return Err(StoreError::StoreClosed);
            },
        }
        self.ensure_cache();
        match &self.cache {
            Some(cs) => {
                if index < cs.len() {
                    Ok(copy_bytes(&cs[index]))
                } else {
                    Err(StoreError::ChunkIndexOutOfRange)
                }
            },
            None => vstd::pervasive::unreached(),  // ensure_cache left a cache in place
        }
    }

    /// Builds a proof for the queried keys against the current committed
    /// contents. The proof this store produces is its canonical snapshot,
    /// which covers every key, so any query set is answerable from it.
    pub fn prove_sync(&self, _keys: &Vec<Vec<u8>>) -> (r: Result<Vec<u8>, StoreError>)
        requires
            self.wf(),
        ensures
            match r {
                Ok(p) => self.is_open() && p@ == self.snap_spec() && sha256_of(p@)
                    == self.root_spec(),
                Err(e) => e == StoreError::StoreClosed && !self.is_open(),
            },
    {
        match self.state {
            Liveness::Open => Ok(encode_snapshot(&self.entries)),
            _ => Err(StoreError::StoreClosed),
        }
    }
}

/// Snapshot round trip: the canonical snapshot of a well-formed handle
/// decodes back to exactly the contents that produced it, so feeding a
/// store's chunks, reassembled in index order, to a restorer recovers the
/// same entries.
pub proof fn lemma_snapshot_roundtrip(h: MerkHandle)
    requires
        h.wf(),
    ensures
        dec_snapshot(h.snap_spec(), None) == Some(view_entries(h.entries@)),
{
    let pv = view_entries(h.entries@);
    assert forall|i: int| 0 <= i < pv.len() implies crate::codec::wf_pair(#[trigger] pv[i]) by {
        assert(pv[i].0 == h.entries@[i].key@ && pv[i].1 == h.entries@[i].value@);
    }
    assert forall|i: int, j: int| 0 <= i < j < pv.len() implies crate::bytes::lex_lt(
        #[trigger] pv[i].0,
        #[trigger] pv[j].0,
    ) by {
        assert(pv[i].0 == h.entries@[i].key@ && pv[j].0 == h.entries@[j].key@);
    }
    crate::codec::lemma_dec_of_enc(pv, None);
}

} // verus!
