//! The restorer: a receiver-side state machine that reassembles a store from
//! chunks and refuses to publish one whose root digest is not the target.
//!
//! A restorer starts collecting with a target digest and the stated total
//! payload length. Chunks must arrive in index order, carry the exact frame
//! the producer emits, and fill the stated length precisely. `finalize`
//! recomputes the digest of the assembled snapshot and hands out an open
//! store only when it equals the target.

use vstd::prelude::*;

use crate::bytes::bytes_eq;
use crate::chunks::CHUNK_PAYLOAD;
use crate::codec::{dec_snapshot, from_be64, push_bytes, read_be64};
use crate::digest::{sha256, sha256_of, DIGEST_LEN};
use crate::error::StoreError;
use crate::store::MerkHandle;

verus! {

/// Where a restorer stands: still collecting chunks, finalized into a store,
/// or aborted after an integrity failure.
pub enum RestoreState {
    Collecting,
    Finalized,
    Aborted,
}

/// The payload length the protocol demands for the next chunk: a full piece,
/// or whatever remains of the stated length.
pub open spec fn want_spec(stated: int, consumed: int) -> int {
    if stated - consumed >= CHUNK_PAYLOAD as int {
        CHUNK_PAYLOAD as int
    } else {
        stated - consumed
    }
}

/// A receiver that rebuilds a store from an ordered chunk sequence.
pub struct Restorer {
    pub expected: Vec<u8>,
    pub stated: usize,
    pub buf: Vec<u8>,
    pub next_index: usize,
    pub state: RestoreState,
}

impl Restorer {
    /// Restorer invariant: a 32-byte target, and no more bytes than stated.
    pub open spec fn wf(self) -> bool {
        self.expected@.len() == DIGEST_LEN && self.buf@.len() <= self.stated && self.next_index
            <= self.buf@.len()
    }

    /// How many payload bytes have been assembled so far.
    pub open spec fn consumed(self) -> int {
        self.buf@.len() as int
    }

    /// Whether `c` is exactly the chunk the protocol expects next: the next
    /// index, the demanded payload length, and a well-formed frame.
    pub open spec fn acceptable(self, c: Seq<u8>) -> bool {
        let want = want_spec(self.stated as int, self.consumed());
        self.consumed() < self.stated && c.len() == 16 + want && from_be64(c.take(8))
            == self.next_index as u64 && from_be64(c.subrange(8, 16)) == want as u64
    }

    /// Starts collecting toward `expected_hash` with `stated_length` total
    /// payload bytes.
    pub fn new(expected_hash: Vec<u8>, stated_length: usize) -> (r: Restorer)
        requires
            expected_hash@.len() == DIGEST_LEN,
        ensures
            r.wf(),
            r.state is Collecting,
            r.expected@ == expected_hash@,
            r.stated == stated_length,
            r.consumed() == 0,
            r.next_index == 0,
    {
        Restorer {
            expected: expected_hash,
            stated: stated_length,
            buf: Vec::new(),
            next_index: 0,
            state: RestoreState::Collecting,
        }
    }

    /// Feeds the next chunk, in producer order. A chunk that is out of order,
    /// wrongly framed, wrongly sized, or beyond the stated length fails with
    /// `InvalidChunk` and changes nothing.
    pub fn process_chunk(&mut self, chunk: &Vec<u8>) -> (r: Result<(), StoreError>)
        requires
            old(self).wf(),
        ensures
            final(self).wf(),
            final(self).expected@ == old(self).expected@,
            final(self).stated == old(self).stated,
            match r {
                Ok(()) => old(self).state is Collecting && old(self).acceptable(chunk@) && final(self).state is Collecting && final(self).buf@ == old(self).buf@ + chunk@.skip(16)
                    && final(self).next_index == old(self).next_index + 1,
                Err(e) => *final(self) == *old(self) && match e {
                    StoreError::AlreadyFinalized => !(old(self).state is Collecting),
                    StoreError::InvalidChunk => old(self).state is Collecting && !old(self).acceptable(chunk@),
                    _ => false,
                },
            },
    {
        match self.state {
            RestoreState::Collecting => {},
            _ => {
                return Err(StoreError::AlreadyFinalized);
            },
        }
        let consumed = self.buf.len();
        if consumed >= self.stated {
            return Err(StoreError::InvalidChunk);
        }
        let remaining = self.stated - consumed;
        let want: usize = if remaining >= CHUNK_PAYLOAD {
            CHUNK_PAYLOAD
        } else {
            remaining
        };
        if chunk.len() != 16 + want {
            return Err(StoreError::InvalidChunk);
        }
        let idx = read_be64(chunk, 0);
        proof {
            assert(chunk@.subrange(0, 8) =~= chunk@.take(8));
        }
        if idx != self.next_index as u64 {
            return Err(StoreError::InvalidChunk);
        }
        let plen = read_be64(chunk, 8);
        if plen != want as u64 {
            return Err(StoreError::InvalidChunk);
        }
        let payload = crate::codec::copy_range(chunk, 16, want);
        proof {
            assert(payload@ =~= chunk@.skip(16));
        }
        push_bytes(&mut self.buf, &payload);
        self.next_index = self.next_index + 1;
        Ok(())
    }

    /// How many chunks are still expected: an exact count while collecting,
    /// zero once finalized, and indeterminate after an abort.
    pub fn remaining_chunks(&self) -> (r: Option<usize>)
        requires
            self.wf(),
        ensures
            match self.state {
                RestoreState::Collecting => r == Some(
                    (if (self.stated as int - self.consumed()) == 0 {
                        0int
                    } else {
                        ((self.stated as int - self.consumed()) - 1) / (CHUNK_PAYLOAD as int) + 1
                    }) as usize,
                ),
                RestoreState::Finalized => r == Some(0usize),
                RestoreState::Aborted => r is None,
            },
    {
        match self.state {
            RestoreState::Collecting => {
                let rem = self.stated - self.buf.len();
                if rem == 0 {
                    Some(0)
                } else {
                    Some((rem - 1) / CHUNK_PAYLOAD + 1)
                }
            },
            RestoreState::Finalized => Some(0),
            RestoreState::Aborted => None,
        }
    }

    /// Completes the restore. The assembled bytes must fill the stated
    /// length and hash to the target digest, or the restore aborts with
    /// `RootHashMismatch` and discards the partial store; assembled bytes
    /// that hash correctly but are structurally unsound abort with
    /// `InvalidChunk`. On success the returned store is open and its root
    /// digest equals the target this restorer was constructed with.
    pub fn finalize(&mut self) -> (r: Result<MerkHandle, StoreError>)
        requires
            old(self).wf(),
        ensures
            final(self).wf(),
            match r {
                Ok(h) => old(self).state is Collecting && old(self).consumed() == old(self).stated
                    && sha256_of(old(self).buf@) == old(self).expected@ && h.wf() && h.is_open()
                    && h.root_spec() == old(self).expected@ && h.snap_spec() == old(self).buf@
                    && final(self).state is Finalized,
                Err(e) => match e {
                    StoreError::AlreadyFinalized => !(old(self).state is Collecting) && *final(self)
                        == *old(self),
                    StoreError::RootHashMismatch => old(self).state is Collecting && (old(self).consumed() != old(self).stated || sha256_of(old(self).buf@) != old(self).expected@) && final(self).state is Aborted,
                    StoreError::InvalidChunk => old(self).state is Collecting && old(self).consumed() == old(self).stated && sha256_of(old(self).buf@) == old(self).expected@ && dec_snapshot(old(self).buf@, None) is None && final(self).state is Aborted,
                    _ => false,
                },
            },
    {
        match self.state {
            RestoreState::Collecting => {},
            _ => {
                return Err(StoreError::AlreadyFinalized);
            },
        }
        if self.buf.len() != self.stated {
            self.state = RestoreState::Aborted;
            self.buf = Vec::new();
            self.next_index = 0;
            return Err(StoreError::RootHashMismatch);
        }
        let d = sha256(&self.buf);
        if !bytes_eq(&d, &self.expected) {
            self.state = RestoreState::Aborted;
            self.buf = Vec::new();
            self.next_index = 0;
            return Err(StoreError::RootHashMismatch);
        }
        match MerkHandle::from_snapshot(&self.buf) {
            Ok(h) => {
                self.state = RestoreState::Finalized;
                self.buf = Vec::new();
                self.next_index = 0;
                Ok(h)
            },
            Err(_) => {
                self.state = RestoreState::Aborted;
                self.buf = Vec::new();
                self.next_index = 0;
                Err(StoreError::InvalidChunk)
            },
        }
    }
}

/// Transfer liveness: a restorer that has assembled exactly the first
/// `next_index` payloads of a snapshot, with the snapshot's length stated,
/// accepts the producer's next chunk, and accepting it assembles one payload
/// more.
pub proof fn lemma_producer_chunk_accepted(snap: Seq<u8>, r: Restorer)
    requires
        r.stated == snap.len(),
        r.buf@ == crate::chunks::payloads_concat(snap, r.next_index as int),
        (r.next_index as int) < crate::chunks::chunk_count_spec(snap.len() as int),
    ensures
        r.acceptable(crate::chunks::chunk_spec(snap, r.next_index as int)),
        r.buf@ + crate::chunks::chunk_spec(snap, r.next_index as int).skip(16)
            == crate::chunks::payloads_concat(snap, r.next_index as int + 1),
{
    let cp = CHUNK_PAYLOAD as int;
    let i = r.next_index as int;
    let len = snap.len() as int;
    crate::chunks::lemma_chunk_bounds(len, i);
    crate::chunks::lemma_payloads_prefix(snap, i);
    let payload = crate::chunks::chunk_payload_spec(snap, i);
    let c = crate::chunks::chunk_spec(snap, i);
    // the assembled bytes so far stop exactly at the i-th chunk boundary
    assert(i * cp <= len);
    assert(r.consumed() == i * cp);
    let want = want_spec(r.stated as int, r.consumed());
    assert((i + 1) * cp == i * cp + cp) by (nonlinear_arith);
    assert(payload.len() == want);
    // the frame fields are the index and the payload length
    assert(c =~= crate::codec::be64(i as u64) + crate::codec::be64(payload.len() as u64)
        + payload);
    assert(c.len() == 16 + want);
    assert(c.take(8) =~= crate::codec::be64(i as u64));
    crate::codec::lemma_be64_roundtrip(i as u64);
    assert(c.subrange(8, 16) =~= crate::codec::be64(payload.len() as u64));
    crate::codec::lemma_be64_roundtrip(payload.len() as u64);
    assert(c.skip(16) =~= payload);
}

/// Chunking round trip at the specification level: the payloads of a store's
/// chunks, concatenated in index order, are its snapshot; that snapshot
/// hashes to the store's root digest and decodes back to exactly the store's
/// entries. A restorer constructed with the store's root digest and snapshot
/// length therefore finalizes the reassembled bytes into an equal store.
pub proof fn lemma_chunk_transfer_complete(h: MerkHandle)
    requires
        h.wf(),
    ensures
        ({
            let snap = h.snap_spec();
            let n = crate::chunks::chunk_count_spec(snap.len() as int);
            crate::chunks::payloads_concat(snap, n) == snap && sha256_of(snap) == h.root_spec()
                && dec_snapshot(snap, None) == Some(crate::codec::view_entries(h.entries@))
        }),
{
    crate::chunks::lemma_chunks_cover(h.snap_spec());
    crate::store::lemma_snapshot_roundtrip(h);
}

} // verus!
