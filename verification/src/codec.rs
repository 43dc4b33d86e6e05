//! The canonical wire encoding of a store snapshot.
//!
//! A snapshot is the store's entries in strictly ascending key order, each
//! encoded as an 8-byte big-endian key length, the key, an 8-byte big-endian
//! value length, and the value. The encoding is canonical: decoding succeeds
//! exactly on byte strings produced by encoding, and recovers the entries.

use vstd::prelude::*;

use crate::bytes::lex_lt;
use crate::kv::Entry;

verus! {

/// The eight big-endian bytes of `n`.
pub open spec fn be64(n: u64) -> Seq<u8> {
    seq![
        (n >> 56) as u8,
        (n >> 48) as u8,
        (n >> 40) as u8,
        (n >> 32) as u8,
        (n >> 24) as u8,
        (n >> 16) as u8,
        (n >> 8) as u8,
        n as u8,
    ]
}

/// The value of eight big-endian bytes.
pub open spec fn from_be64(s: Seq<u8>) -> u64 {
    ((s[0] as u64) << 56) | ((s[1] as u64) << 48) | ((s[2] as u64) << 40) | ((s[3] as u64) << 32)
        | ((s[4] as u64) << 24) | ((s[5] as u64) << 16) | ((s[6] as u64) << 8) | (s[7] as u64)
}

/// Reading back the eight bytes of `n` gives `n`.
pub proof fn lemma_be64_roundtrip(n: u64)
    ensures
        from_be64(be64(n)) == n,
{
    let b0 = (n >> 56) as u8;
    let b1 = (n >> 48) as u8;
    let b2 = (n >> 40) as u8;
    let b3 = (n >> 32) as u8;
    let b4 = (n >> 24) as u8;
    let b5 = (n >> 16) as u8;
    let b6 = (n >> 8) as u8;
    let b7 = n as u8;
    assert(((b0 as u64) << 56) | ((b1 as u64) << 48) | ((b2 as u64) << 40) | ((b3 as u64) << 32)
        | ((b4 as u64) << 24) | ((b5 as u64) << 16) | ((b6 as u64) << 8) | (b7 as u64) == n) by (bit_vector)
        requires
            b0 == (n >> 56) as u8 && b1 == (n >> 48) as u8 && b2 == (n >> 40) as u8 && b3 == (n
                >> 32) as u8 && b4 == (n >> 24) as u8 && b5 == (n >> 16) as u8 && b6 == (n
                >> 8) as u8 && b7 == n as u8,
    ;
}

/// Writing back the value of eight bytes gives the same eight bytes.
pub proof fn lemma_be64_canonical(s: Seq<u8>)
    requires
        s.len() == 8,
    ensures
        be64(from_be64(s)) == s,
{
    let b0 = s[0];
    let b1 = s[1];
    let b2 = s[2];
    let b3 = s[3];
    let b4 = s[4];
    let b5 = s[5];
    let b6 = s[6];
    let b7 = s[7];
    let n = from_be64(s);
    assert((n >> 56) as u8 == b0 && (n >> 48) as u8 == b1 && (n >> 40) as u8 == b2 && (n
        >> 32) as u8 == b3 && (n >> 24) as u8 == b4 && (n >> 16) as u8 == b5 && (n >> 8) as u8 == b6
        && n as u8 == b7) by (bit_vector)
        requires
            n == ((b0 as u64) << 56) | ((b1 as u64) << 48) | ((b2 as u64) << 40) | ((
            b3 as u64) << 32) | ((b4 as u64) << 24) | ((b5 as u64) << 16) | ((b6 as u64) << 8) | (
            b7 as u64),
    ;
    assert(be64(from_be64(s)) =~= s);
}

/// A key-value pair at the specification level.
pub type PairV = (Seq<u8>, Seq<u8>);

/// The specification-level image of an entry list.
pub open spec fn view_entries(s: Seq<Entry>) -> Seq<PairV> {
    Seq::new(s.len(), |i: int| (s[i].key@, s[i].value@))
}

/// Key and value lengths that fit the 8-byte length fields.
pub open spec fn wf_pair(p: PairV) -> bool {
    p.0.len() <= u64::MAX && p.1.len() <= u64::MAX
}

/// All pairs well-formed and keys strictly ascending.
pub open spec fn wf_pairs(s: Seq<PairV>) -> bool {
    (forall|i: int| 0 <= i < s.len() ==> wf_pair(#[trigger] s[i])) && (forall|i: int, j: int|
        0 <= i < j < s.len() ==> lex_lt(#[trigger] s[i].0, #[trigger] s[j].0))
}

/// The encoding of one pair.
pub open spec fn enc_pair(p: PairV) -> Seq<u8> {
    be64(p.0.len() as u64) + p.0 + be64(p.1.len() as u64) + p.1
}

/// The canonical encoding of a snapshot: the pairs in order.
pub open spec fn enc_snapshot(s: Seq<PairV>) -> Seq<u8>
    decreases s.len(),
{
    if s.len() == 0 {
        Seq::empty()
    } else {
        enc_pair(s[0]) + enc_snapshot(s.skip(1))
    }
}

/// Decodes `b` as a snapshot whose first key must sort after `last` (if any).
/// Returns the pairs exactly when `b` is a canonical snapshot encoding.
pub open spec fn dec_snapshot(b: Seq<u8>, last: Option<Seq<u8>>) -> Option<Seq<PairV>>
    decreases b.len(),
{
    if b.len() == 0 {
        Some(Seq::empty())
    } else if b.len() < 8 {
        None
    } else {
        let klen = from_be64(b.take(8)) as int;
        if 8 + klen + 8 > b.len() {
            None
        } else {
            let k = b.subrange(8, 8 + klen);
            if match last {
                Some(l) => !lex_lt(l, k),
                None => false,
            } {
                None
            } else {
                let vlen = from_be64(b.subrange(8 + klen, 16 + klen)) as int;
                if 16 + klen + vlen > b.len() {
                    None
                } else {
                    let v = b.subrange(16 + klen, 16 + klen + vlen);
                    match dec_snapshot(b.skip(16 + klen + vlen), Some(k)) {
                        None => None,
                        Some(rest) => Some(seq![(k, v)] + rest),
                    }
                }
            }
        }
    }
}

/// Decoding inverts encoding: a well-formed snapshot is recovered exactly.
pub proof fn lemma_dec_of_enc(s: Seq<PairV>, last: Option<Seq<u8>>)
    requires
        wf_pairs(s),
        s.len() > 0 && last is Some ==> lex_lt(last.unwrap(), s[0].0),
    ensures
        dec_snapshot(enc_snapshot(s), last) == Some(s),
    decreases s.len(),
{
    if s.len() == 0 {
        assert(enc_snapshot(s).len() == 0);
    } else {
        let p = s[0];
        let e = enc_pair(p);
        let b = enc_snapshot(s);
        let rest = enc_snapshot(s.skip(1));
        assert(b == e + rest);
        let kl = p.0.len() as int;
        let vl = p.1.len() as int;
        assert(e.len() == 16 + kl + vl);
        lemma_be64_roundtrip(p.0.len() as u64);
        lemma_be64_roundtrip(p.1.len() as u64);
        assert(b.take(8) =~= be64(p.0.len() as u64));
        assert(from_be64(b.take(8)) as int == kl);
        assert(8 + kl + 8 <= b.len());
        assert(b.subrange(8, 8 + kl) =~= p.0);
        assert(b.subrange(8 + kl, 16 + kl) =~= be64(p.1.len() as u64));
        assert(from_be64(b.subrange(8 + kl, 16 + kl)) as int == vl);
        assert(16 + kl + vl <= b.len());
        assert(b.subrange(16 + kl, 16 + kl + vl) =~= p.1);
        assert(b.skip(16 + kl + vl) =~= rest);
        assert(wf_pairs(s.skip(1)));
        if s.len() > 1 {
            assert(s.skip(1)[0] == s[1]);
            assert(lex_lt(p.0, s.skip(1)[0].0));
        }
        lemma_dec_of_enc(s.skip(1), Some(p.0));
        assert(dec_snapshot(b, last) == Some(seq![(p.0, p.1)] + s.skip(1)));
        assert(seq![(p.0, p.1)] + s.skip(1) =~= s);
    }
}

/// A prefix of `b` split at three interior points is the concatenation of
/// its four segments.
proof fn lemma_take_split(b: Seq<u8>, a1: int, a2: int, a3: int, a4: int)
    requires
        0 <= a1 <= a2 <= a3 <= a4 <= b.len(),
    ensures
        b.take(a4) == b.take(a1) + b.subrange(a1, a2) + b.subrange(a2, a3) + b.subrange(a3, a4),
{
    assert(b.take(a4) =~= b.take(a1) + b.subrange(a1, a2) + b.subrange(a2, a3) + b.subrange(
        a3,
        a4,
    ));
}

/// A sequence is its prefix followed by the rest.
proof fn lemma_take_skip(b: Seq<u8>, m: int)
    requires
        0 <= m <= b.len(),
    ensures
        b.take(m) + b.skip(m) == b,
{
    assert(b.take(m) + b.skip(m) =~= b);
}

/// Encoding is the only preimage of decoding: whatever decodes was the
/// encoding of what it decoded to, and what it decoded to is well-formed.
#[verifier::rlimit(100)]
#[verifier::spinoff_prover]
pub proof fn lemma_enc_of_dec(b: Seq<u8>, last: Option<Seq<u8>>)
    requires
        dec_snapshot(b, last) is Some,
    ensures
        wf_pairs(dec_snapshot(b, last).unwrap()),
        enc_snapshot(dec_snapshot(b, last).unwrap()) == b,
        dec_snapshot(b, last).unwrap().len() > 0 && last is Some ==> lex_lt(
            last.unwrap(),
            dec_snapshot(b, last).unwrap()[0].0,
        ),
    decreases b.len(),
{
    if b.len() == 0 {
        assert(dec_snapshot(b, last).unwrap() =~= Seq::<PairV>::empty());
        assert(enc_snapshot(Seq::<PairV>::empty()) =~= b);
    } else {
        let klen = from_be64(b.take(8)) as int;
        let k = b.subrange(8, 8 + klen);
        let vlen = from_be64(b.subrange(8 + klen, 16 + klen)) as int;
        let v = b.subrange(16 + klen, 16 + klen + vlen);
        let tail = b.skip(16 + klen + vlen);
        lemma_enc_of_dec(tail, Some(k));
        let rest = dec_snapshot(tail, Some(k)).unwrap();
        let s = dec_snapshot(b, last).unwrap();
        assert(s == seq![(k, v)] + rest);
        assert(s[0] == (k, v));
        assert(s.skip(1) =~= rest);
        // well-formedness: the head pair fits, and the keys ascend
        assert(k.len() == klen && v.len() == vlen);
        assert(klen <= u64::MAX && vlen <= u64::MAX);
        assert forall|i: int, j: int| 0 <= i < j < s.len() implies lex_lt(
            #[trigger] s[i].0,
            #[trigger] s[j].0,
        ) by {
            assert(wf_pairs(rest));
            if i == 0 {
                assert(lex_lt(k, rest[0].0));
                if j - 1 > 0 {
                    assert(lex_lt(rest[0].0, rest[j - 1].0));
                    crate::bytes::lemma_lex_trans(k, rest[0].0, rest[j - 1].0);
                }
                assert(s[j] == rest[j - 1]);
            } else {
                assert(s[i] == rest[i - 1] && s[j] == rest[j - 1]);
            }
        }
        // the bytes are exactly the head encoding followed by the tail
        assert(be64(k.len() as u64) == b.take(8)) by {
            lemma_be64_canonical(b.take(8));
            assert(k.len() == klen);
            assert((klen as u64) == from_be64(b.take(8)));
        }
        assert(be64(v.len() as u64) == b.subrange(8 + klen, 16 + klen)) by {
            lemma_be64_canonical(b.subrange(8 + klen, 16 + klen));
            assert(v.len() == vlen);
        }
        lemma_take_split(b, 8, 8 + klen, 16 + klen, 16 + klen + vlen);
        assert(enc_pair((k, v)) == b.take(8) + b.subrange(8, 8 + klen) + b.subrange(
            8 + klen,
            16 + klen,
        ) + b.subrange(16 + klen, 16 + klen + vlen));
        lemma_take_skip(b, 16 + klen + vlen);
        assert(enc_snapshot(s) == enc_pair(s[0]) + enc_snapshot(s.skip(1)));
        assert(enc_pair(s[0]) == enc_pair((k, v)));
        assert(enc_snapshot(s.skip(1)) == enc_snapshot(rest));
        assert(enc_snapshot(s) == b);
    }
}

/// Appending one pair to a snapshot appends its encoding.
pub proof fn lemma_enc_push(s: Seq<PairV>, p: PairV)
    ensures
        enc_snapshot(s.push(p)) == enc_snapshot(s) + enc_pair(p),
    decreases s.len(),
{
    if s.len() == 0 {
        assert(s.push(p)[0] == p);
        assert(s.push(p).skip(1) =~= Seq::<PairV>::empty());
        assert(enc_snapshot(Seq::<PairV>::empty()) == Seq::<u8>::empty());
        assert(enc_snapshot(s.push(p)) == enc_pair(p) + Seq::<u8>::empty());
        assert(enc_pair(p) + Seq::<u8>::empty() =~= Seq::<u8>::empty() + enc_pair(p));
        assert(enc_snapshot(s) == Seq::<u8>::empty());
    } else {
        assert(s.push(p)[0] == s[0]);
        assert(s.push(p).skip(1) =~= s.skip(1).push(p));
        lemma_enc_push(s.skip(1), p);
        assert(enc_pair(s[0]) + (enc_snapshot(s.skip(1)) + enc_pair(p)) =~= (enc_pair(s[0])
            + enc_snapshot(s.skip(1))) + enc_pair(p));
    }
}

/// Appends the eight big-endian bytes of `n` to `out`.
pub fn push_be64(out: &mut Vec<u8>, n: u64)
    ensures
        final(out)@ == old(out)@ + be64(n),
{
    let ghost s0 = out@;
    out.push((n >> 56) as u8);
    out.push((n >> 48) as u8);
    out.push((n >> 40) as u8);
    out.push((n >> 32) as u8);
    out.push((n >> 24) as u8);
    out.push((n >> 16) as u8);
    out.push((n >> 8) as u8);
    out.push(n as u8);
    proof {
        assert(out@ =~= s0 + be64(n));
    }
}

/// Appends all of `v` to `out`.
pub fn push_bytes(out: &mut Vec<u8>, v: &Vec<u8>)
    ensures
        final(out)@ == old(out)@ + v@,
{
    let ghost s0 = out@;
    let mut i: usize = 0;
    while i < v.len()
        invariant
            i <= v.len(),
            out@ == s0 + v@.take(i as int),
        decreases v.len() - i,
    {
        out.push(v[i]);
        proof {
            assert(s0 + v@.take(i + 1) =~= (s0 + v@.take(i as int)).push(v@[i as int]));
        }
        i += 1;
    }
    proof {
        assert(s0 + v@.take(v@.len() as int) =~= s0 + v@);
    }
}

/// Reads the eight big-endian bytes at `pos`.
pub fn read_be64(b: &Vec<u8>, pos: usize) -> (r: u64)
    requires
        pos + 8 <= b@.len(),
    ensures
        r == from_be64(b@.subrange(pos as int, pos as int + 8)),
{
    let n = b.len();
    assert(pos + 8 <= n);
    let r = ((b[pos] as u64) << 56) | ((b[pos + 1] as u64) << 48) | ((b[pos + 2] as u64) << 40) | ((
    b[pos + 3] as u64) << 32) | ((b[pos + 4] as u64) << 24) | ((b[pos + 5] as u64) << 16) | ((b[pos
        + 6] as u64) << 8) | (b[pos + 7] as u64);
    proof {
        let s = b@.subrange(pos as int, pos as int + 8);
        assert(s[0] == b@[pos as int] && s[1] == b@[pos as int + 1] && s[2] == b@[pos as int + 2]
            && s[3] == b@[pos as int + 3] && s[4] == b@[pos as int + 4] && s[5] == b@[pos as int + 5]
            && s[6] == b@[pos as int + 6] && s[7] == b@[pos as int + 7]);
    }
    r
}

/// Copies `len` bytes starting at `start` into a fresh vector.
pub fn copy_range(b: &Vec<u8>, start: usize, len: usize) -> (r: Vec<u8>)
    requires
        start + len <= b@.len(),
    ensures
        r@ == b@.subrange(start as int, start as int + len as int),
{
    let mut r: Vec<u8> = Vec::new();
    let n = b.len();
    let mut i: usize = 0;
    while i < len
        invariant
            i <= len,
            n == b@.len(),
            start + len <= n,
            r@ == b@.subrange(start as int, start as int + i as int),
        decreases len - i,
    {
        r.push(b[start + i]);
        proof {
            assert(b@.subrange(start as int, start as int + i + 1) =~= b@.subrange(
                start as int,
                start as int + i as int,
            ).push(b@[start as int + i as int]));
        }
        i += 1;
    }
    r
}

/// Encodes the entries as a canonical snapshot.
pub fn encode_snapshot(v: &Vec<Entry>) -> (r: Vec<u8>)
    ensures
        r@ == enc_snapshot(view_entries(v@)),
{
    let mut r: Vec<u8> = Vec::new();
    let mut i: usize = 0;
    proof {
        assert(view_entries(v@).take(0) =~= Seq::<PairV>::empty());
    }
    while i < v.len()
        invariant
            i <= v.len(),
            r@ == enc_snapshot(view_entries(v@).take(i as int)),
        decreases v.len() - i,
    {
        let ghost pre = view_entries(v@).take(i as int);
        push_be64(&mut r, v[i].key.len() as u64);
        push_bytes(&mut r, &v[i].key);
        push_be64(&mut r, v[i].value.len() as u64);
        push_bytes(&mut r, &v[i].value);
        proof {
            let p = view_entries(v@)[i as int];
            lemma_enc_push(pre, p);
            assert(view_entries(v@).take(i + 1) =~= pre.push(p));
            assert(r@ =~= enc_snapshot(pre) + enc_pair(p));
        }
        i += 1;
    }
    proof {
        assert(view_entries(v@).take(v@.len() as int) =~= view_entries(v@));
    }
    r
}

/// The frame around one chunk payload: its index and its length, each as
/// eight big-endian bytes, then the payload itself.
pub open spec fn chunk_frame(i: u64, payload: Seq<u8>) -> Seq<u8> {
    be64(i) + be64(payload.len() as u64) + payload
}

/// The key a decoder must sort after, if one was already read.
pub open spec fn opt_key_view(o: Option<Vec<u8>>) -> Option<Seq<u8>> {
    match o {
        Some(v) => Some(v@),
        None => None,
    }
}

/// Decodes a canonical snapshot into its entries. Fails exactly when the
/// bytes are not a canonical snapshot encoding.
#[verifier::rlimit(60)]
pub fn decode_snapshot(bytes: &Vec<u8>) -> (r: Option<Vec<Entry>>)
    ensures
        match r {
            Some(v) => dec_snapshot(bytes@, None) == Some(view_entries(v@)),
            None => dec_snapshot(bytes@, None) == None::<Seq<PairV>>,
        },
{
    let n = bytes.len();
    let mut out: Vec<Entry> = Vec::new();
    let mut lastkey: Option<Vec<u8>> = None;
    let mut pos: usize = 0;
    proof {
        assert(bytes@.skip(0) =~= bytes@);
        assert(view_entries(out@) =~= Seq::<PairV>::empty());
        if dec_snapshot(bytes@, None) is Some {
            assert(Seq::<PairV>::empty() + dec_snapshot(bytes@, None).unwrap() =~= dec_snapshot(
                bytes@,
                None,
            ).unwrap());
        }
    }
    while pos < n
        invariant
            pos <= n,
            n == bytes@.len(),
            dec_snapshot(bytes@, None) == (match dec_snapshot(
                bytes@.skip(pos as int),
                opt_key_view(lastkey),
            ) {
                Some(rest) => Some(view_entries(out@) + rest),
                None => None::<Seq<PairV>>,
            }),
        decreases n - pos,
    {
        let rem = n - pos;
        let ghost remseq = bytes@.skip(pos as int);
        let ghost lastv = opt_key_view(lastkey);
        proof {
            assert(remseq.len() == rem);
        }
        if rem < 16 {
            proof {
                if remseq.len() >= 8 {
                    let klen = from_be64(remseq.take(8)) as int;
                    assert(klen >= 0);
                    assert(8 + klen + 8 > remseq.len());
                }
                assert(dec_snapshot(remseq, lastv) == None::<Seq<PairV>>);
            }
            return None;
        }
        let klen64 = read_be64(bytes, pos);
        proof {
            assert(bytes@.subrange(pos as int, pos as int + 8) =~= remseq.take(8));
        }
        if klen64 > (rem - 16) as u64 {
            proof {
                assert(8 + (klen64 as int) + 8 > remseq.len());
                assert(dec_snapshot(remseq, lastv) == None::<Seq<PairV>>);
            }
            return None;
        }
        let klen = klen64 as usize;
        let key = copy_range(bytes, pos + 8, klen);
        proof {
            assert(key@ =~= remseq.subrange(8, 8 + klen as int));
        }
        let ordered = match &lastkey {
            None => true,
            Some(lk) => crate::bytes::bytes_lt(lk, &key),
        };
        if !ordered {
            proof {
                assert(dec_snapshot(remseq, lastv) == None::<Seq<PairV>>);
            }
            return None;
        }
        let vlen64 = read_be64(bytes, pos + 8 + klen);
        proof {
            assert(bytes@.subrange(pos as int + 8 + klen as int, pos as int + 16 + klen as int)
                =~= remseq.subrange(8 + klen as int, 16 + klen as int));
        }
        if vlen64 > (rem - 16 - klen) as u64 {
            proof {
                assert(16 + (klen as int) + (vlen64 as int) > remseq.len());
                assert(dec_snapshot(remseq, lastv) == None::<Seq<PairV>>);
            }
            return None;
        }
        let vlen = vlen64 as usize;
        let value = copy_range(bytes, pos + 16 + klen, vlen);
        proof {
            assert(value@ =~= remseq.subrange(16 + klen as int, 16 + klen as int + vlen as int));
        }
        let ghost kview = key@;
        let ghost vview = value@;
        let ghost oldout = out@;
        let newlast = crate::kv::copy_bytes(&key);
        out.push(Entry { key, value });
        lastkey = Some(newlast);
        proof {
            let step = 16 + klen as int + vlen as int;
            assert(remseq.skip(step) =~= bytes@.skip(pos as int + step));
            assert(view_entries(out@) =~= view_entries(oldout).push((kview, vview)));
            assert(dec_snapshot(remseq, lastv) == (match dec_snapshot(
                remseq.skip(step),
                Some(kview),
            ) {
                Some(rest) => Some(seq![(kview, vview)] + rest),
                None => None::<Seq<PairV>>,
            }));
            if dec_snapshot(remseq.skip(step), Some(kview)) is Some {
                let r2 = dec_snapshot(remseq.skip(step), Some(kview)).unwrap();
                assert(view_entries(oldout) + (seq![(kview, vview)] + r2) =~= view_entries(out@)
                    + r2);
            }
        }
        pos = pos + 16 + klen + vlen;
    }
    proof {
        assert(bytes@.skip(pos as int) =~= Seq::<u8>::empty());
        assert(dec_snapshot(bytes@.skip(pos as int), opt_key_view(lastkey)) == Some(
            Seq::<PairV>::empty(),
        ));
        assert(view_entries(out@) + Seq::<PairV>::empty() =~= view_entries(out@));
    }
    Some(out)
}

} // verus!
