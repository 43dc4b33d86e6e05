//! Chunk framing: a snapshot split into an ordered sequence of framed pieces.
//!
//! Chunk `i` carries the bytes of the snapshot from offset `i * CHUNK_PAYLOAD`
//! up to the next boundary, framed by an 8-byte big-endian index and an 8-byte
//! big-endian payload length. Concatenating the payloads in index order gives
//! back the snapshot exactly.

use vstd::prelude::*;

use crate::codec::{be64, chunk_frame, push_be64, push_bytes};

verus! {

/// The number of snapshot bytes each chunk carries, except a shorter final one.
pub const CHUNK_PAYLOAD: usize = 1024;

/// How many chunks a snapshot of `len` bytes is split into.
pub open spec fn chunk_count_spec(len: int) -> int {
    if len == 0 {
        0
    } else {
        (len - 1) / (CHUNK_PAYLOAD as int) + 1
    }
}

/// The payload of chunk `i`: one aligned slice of the snapshot.
pub open spec fn chunk_payload_spec(snap: Seq<u8>, i: int) -> Seq<u8> {
    let lo = i * (CHUNK_PAYLOAD as int);
    let hi = if lo + (CHUNK_PAYLOAD as int) <= snap.len() {
        lo + (CHUNK_PAYLOAD as int)
    } else {
        snap.len() as int
    };
    snap.subrange(lo, hi)
}

/// The framed bytes of chunk `i`.
pub open spec fn chunk_spec(snap: Seq<u8>, i: int) -> Seq<u8> {
    chunk_frame(i as u64, chunk_payload_spec(snap, i))
}

/// A chunk index below the count addresses a non-empty, in-bounds payload.
pub proof fn lemma_chunk_bounds(len: int, i: int)
    requires
        0 <= i < chunk_count_spec(len),
    ensures
        i * (CHUNK_PAYLOAD as int) < len,
        chunk_count_spec(len) <= len,
{
    let cp = CHUNK_PAYLOAD as int;
    assert(i <= (len - 1) / cp);
    assert(i * cp <= ((len - 1) / cp) * cp) by (nonlinear_arith)
        requires
            i <= (len - 1) / cp && cp > 0,
    ;
    assert(((len - 1) / cp) * cp <= len - 1) by (nonlinear_arith)
        requires
            len >= 1 && cp > 0,
    ;
    assert((len - 1) / cp + 1 <= len) by (nonlinear_arith)
        requires
            len >= 1 && cp > 1,
    ;
}

/// The payloads of chunks `0 .. n`, concatenated in order.
pub open spec fn payloads_concat(snap: Seq<u8>, n: int) -> Seq<u8>
    decreases n,
{
    if n <= 0 {
        Seq::empty()
    } else {
        payloads_concat(snap, n - 1) + chunk_payload_spec(snap, n - 1)
    }
}

/// Concatenating the first `n` payloads covers the snapshot up to the `n`th
/// chunk boundary.
pub proof fn lemma_payloads_prefix(snap: Seq<u8>, n: int)
    requires
        0 <= n <= chunk_count_spec(snap.len() as int),
    ensures
        payloads_concat(snap, n) == if n * (CHUNK_PAYLOAD as int) <= snap.len() {
            snap.take(n * (CHUNK_PAYLOAD as int))
        } else {
            snap
        },
    decreases n,
{
    let cp = CHUNK_PAYLOAD as int;
    let len = snap.len() as int;
    if n == 0 {
        assert(snap.take(0) =~= Seq::<u8>::empty());
    } else {
        lemma_chunk_bounds(len, n - 1);
        lemma_payloads_prefix(snap, n - 1);
        assert((n - 1) * cp == n * cp - cp) by (nonlinear_arith);
        if n * cp <= len {
            assert(snap.take(n * cp - cp) + snap.subrange(n * cp - cp, n * cp) =~= snap.take(
                n * cp,
            ));
        } else {
            assert(snap.take(n * cp - cp) + snap.subrange(n * cp - cp, len) =~= snap);
        }
    }
}

/// Chunking round trip at the byte level: the payloads of all chunks of a
/// snapshot, concatenated in index order, are the snapshot itself.
pub proof fn lemma_chunks_cover(snap: Seq<u8>)
    ensures
        payloads_concat(snap, chunk_count_spec(snap.len() as int)) == snap,
{
    let cp = CHUNK_PAYLOAD as int;
    let len = snap.len() as int;
    let n = chunk_count_spec(len);
    lemma_payloads_prefix(snap, n);
    if len == 0 {
        assert(payloads_concat(snap, 0) =~= snap);
    } else {
        if n * cp <= len {
            assert(n * cp > len - 1) by (nonlinear_arith)
                requires
                    n == (len - 1) / cp + 1 && cp > 0 && len >= 1,
            ;
            assert(snap.take(len) =~= snap);
        }
    }
}

/// The number of chunks in a snapshot of `snap_len` bytes.
pub fn chunk_count(snap_len: usize) -> (r: usize)
    ensures
        r as int == chunk_count_spec(snap_len as int),
{
    if snap_len == 0 {
        0
    } else {
        (snap_len - 1) / CHUNK_PAYLOAD + 1
    }
}

/// Builds the framed bytes of chunk `i` of the snapshot.
pub fn make_chunk(snap: &Vec<u8>, i: usize) -> (r: Vec<u8>)
    requires
        (i as int) < chunk_count_spec(snap@.len() as int),
    ensures
        r@ == chunk_spec(snap@, i as int),
{
    let sl = snap.len();
    proof {
        lemma_chunk_bounds(sl as int, i as int);
        assert((i as int) * (CHUNK_PAYLOAD as int) < sl as int);
    }
    let lo = i * CHUNK_PAYLOAD;
    let hi = if sl - lo > CHUNK_PAYLOAD {
        lo + CHUNK_PAYLOAD
    } else {
        sl
    };
    let mut r: Vec<u8> = Vec::new();
    push_be64(&mut r, i as u64);
    push_be64(&mut r, (hi - lo) as u64);
    let payload = crate::codec::copy_range(snap, lo, hi - lo);
    push_bytes(&mut r, &payload);
    proof {
        assert(payload@ == chunk_payload_spec(snap@, i as int));
        assert(Seq::<u8>::empty() + be64(i as u64) =~= be64(i as u64));
        assert(r@ =~= chunk_spec(snap@, i as int));
    }
    r
}

} // verus!
