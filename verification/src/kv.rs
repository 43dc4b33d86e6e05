//! Sorted key-value entry lists: the in-memory representation of a store's
//! committed contents, kept strictly sorted by key so that the snapshot
//! encoding is canonical.

use vstd::prelude::*;

use crate::bytes::{bytes_eq, bytes_lt, lemma_lex_asym, lemma_lex_total, lemma_lex_trans, lex_lt};

verus! {

/// One key-value pair held by a store.
pub struct Entry {
    pub key: Vec<u8>,
    pub value: Vec<u8>,
}

/// The entry list is strictly sorted by key; strictness makes keys unique.
pub open spec fn sorted_entries(s: Seq<Entry>) -> bool {
    forall|i: int, j: int|
        0 <= i < j < s.len() ==> lex_lt(#[trigger] s[i].key@, #[trigger] s[j].key@)
}

/// The value associated with `k`, scanning from the front.
pub open spec fn lookup(s: Seq<Entry>, k: Seq<u8>) -> Option<Seq<u8>>
    decreases s.len(),
{
    if s.len() == 0 {
        None
    } else if s[0].key@ == k {
        Some(s[0].value@)
    } else {
        lookup(s.skip(1), k)
    }
}

/// If `k` first occurs at index `i`, the scan finds that entry's value.
pub proof fn lemma_lookup_present(s: Seq<Entry>, i: int, k: Seq<u8>)
    requires
        0 <= i < s.len(),
        s[i].key@ == k,
        forall|j: int| 0 <= j < i ==> s[j].key@ != k,
    ensures
        lookup(s, k) == Some(s[i].value@),
    decreases s.len(),
{
    if i > 0 {
        lemma_lookup_present(s.skip(1), i - 1, k);
    }
}

/// If no entry has key `k`, the scan finds nothing.
pub proof fn lemma_lookup_absent(s: Seq<Entry>, k: Seq<u8>)
    requires
        forall|j: int| 0 <= j < s.len() ==> s[j].key@ != k,
    ensures
        lookup(s, k) == None::<Seq<u8>>,
    decreases s.len(),
{
    if s.len() > 0 {
        lemma_lookup_absent(s.skip(1), k);
    }
}

/// Two entries of a strictly sorted list never share a key.
pub proof fn lemma_sorted_unique(s: Seq<Entry>)
    requires
        sorted_entries(s),
    ensures
        forall|i: int, j: int|
            0 <= i < s.len() && 0 <= j < s.len() && i != j ==> #[trigger] s[i].key@
                != #[trigger] s[j].key@,
{
    assert forall|i: int, j: int|
        0 <= i < s.len() && 0 <= j < s.len() && i != j implies #[trigger] s[i].key@
        != #[trigger] s[j].key@ by {
        if i < j {
            lemma_lex_asym(s[i].key@, s[j].key@);
        } else {
            lemma_lex_asym(s[j].key@, s[i].key@);
        }
    }
}

/// Returns a fresh vector holding the same bytes as `v`.
pub fn copy_bytes(v: &Vec<u8>) -> (r: Vec<u8>)
    ensures
        r@ == v@,
{
    let mut r: Vec<u8> = Vec::new();
    let mut i: usize = 0;
    while i < v.len()
        invariant
            i <= v.len(),
            r@ == v@.take(i as int),
        decreases v.len() - i,
    {
        r.push(v[i]);
        proof {
            assert(v@.take(i + 1) =~= v@.take(i as int).push(v@[i as int]));
        }
        i += 1;
    }
    proof {
        assert(v@.take(v@.len() as int) =~= v@);
    }
    r
}

/// Finds the first entry whose key equals `key`, if any.
pub fn find_entry(v: &Vec<Entry>, key: &Vec<u8>) -> (r: Option<usize>)
    ensures
        match r {
            Some(i) => i < v@.len() && v@[i as int].key@ == key@ && forall|j: int|
                0 <= j < i ==> v@[j].key@ != key@,
            None => forall|j: int| 0 <= j < v@.len() ==> v@[j].key@ != key@,
        },
{
    let mut i: usize = 0;
    while i < v.len()
        invariant
            i <= v.len(),
            forall|j: int| 0 <= j < i ==> v@[j].key@ != key@,
        decreases v.len() - i,
    {
        if bytes_eq(&v[i].key, key) {
            return Some(i);
        }
        i += 1;
    }
    None
}

/// Looks up `key` and returns a copy of its value, if present.
pub fn get_value(v: &Vec<Entry>, key: &Vec<u8>) -> (r: Option<Vec<u8>>)
    ensures
        match r {
            Some(val) => lookup(v@, key@) == Some(val@),
            None => lookup(v@, key@) == None::<Seq<u8>>,
        },
{
    match find_entry(v, key) {
        Some(i) => {
            proof {
                lemma_lookup_present(v@, i as int, key@);
            }
            Some(copy_bytes(&v[i].value))
        },
        None => {
            proof {
                lemma_lookup_absent(v@, key@);
            }
            None
        },
    }
}

/// The position where `key` belongs: every earlier key sorts before it, and
/// it sorts before or equals the key at the position itself.
fn find_position(v: &Vec<Entry>, key: &Vec<u8>) -> (p: usize)
    ensures
        p <= v@.len(),
        forall|j: int| 0 <= j < p ==> lex_lt(#[trigger] v@[j].key@, key@),
        p < v@.len() ==> !lex_lt(v@[p as int].key@, key@),
{
    let mut p: usize = 0;
    while p < v.len()
        invariant
            p <= v.len(),
            forall|j: int| 0 <= j < p ==> lex_lt(#[trigger] v@[j].key@, key@),
        decreases v.len() - p,
    {
        if !bytes_lt(&v[p].key, key) {
            return p;
        }
        p += 1;
    }
    p
}

/// Inserts `key -> value`, replacing the value if the key is already bound.
/// The list stays sorted and every other binding is untouched.
pub fn insert_entry(v: &mut Vec<Entry>, key: Vec<u8>, value: Vec<u8>)
    requires
        sorted_entries(old(v)@),
    ensures
        sorted_entries(final(v)@),
        lookup(final(v)@, key@) == Some(value@),
        forall|k2: Seq<u8>| k2 != key@ ==> #[trigger] lookup(final(v)@, k2) == lookup(old(v)@, k2),
        final(v)@.len() <= old(v)@.len() + 1,
        forall|i: int|
            0 <= i < final(v)@.len() ==> (#[trigger] final(v)@[i].key@ == key@ && final(v)@[i].value@
                == value@) || (exists|j: int| 0 <= j < old(v)@.len() && final(v)@[i] == old(v)@[j]),
{
    let ghost s0 = v@;
    let p = find_position(v, &key);
    let replace = p < v.len() && bytes_eq(&v[p].key, &key);
    proof {
        if p < s0.len() && !replace {
            lemma_lex_total(s0[p as int].key@, key@);
        }
        // every key at or after `p` that differs from `key` sorts after it
        assert forall|j: int| p <= j < s0.len() && s0[j].key@ != key@ implies lex_lt(
            key@,
            #[trigger] s0[j].key@,
        ) by {
            if replace {
                if j > p {
                    assert(lex_lt(s0[p as int].key@, s0[j].key@));
                }
            } else {
                if p < s0.len() {
                    if j > p {
                        lemma_lex_trans(key@, s0[p as int].key@, s0[j].key@);
                    }
                }
            }
        }
        lemma_sorted_unique(s0);
    }
    if replace {
        v.remove(p);
        proof {
            assert(v@ =~= s0.remove(p as int));
        }
    }
    let ghost s1 = v@;
    v.insert(p, Entry { key, value });
    proof {
        let sv = v@;
        let kk = sv[p as int].key@;
        assert(kk == key@);
        // sortedness of the result
        assert forall|i: int, j: int| 0 <= i < j < sv.len() implies lex_lt(
            #[trigger] sv[i].key@,
            #[trigger] sv[j].key@,
        ) by {
            let oi = if i < p { s1[i] } else { s1[i - 1] };
            let oj = if j < p { s1[j] } else { s1[j - 1] };
            assert(i != p && j != p ==> sv[i] == oi && sv[j] == oj);
            if replace {
                assert(forall|x: int| 0 <= x < p ==> s1[x] == s0[x]);
                assert(forall|x: int| p <= x < s1.len() ==> s1[x] == s0[x + 1]);
            }
        }
        // the new key is bound to the new value
        assert forall|j: int| 0 <= j < p implies sv[j].key@ != key@ by {
            lemma_lex_asym(sv[j].key@, key@);
        }
        lemma_lookup_present(sv, p as int, key@);
        // other keys keep their old binding
        assert forall|k2: Seq<u8>| k2 != key@ implies #[trigger] lookup(sv, k2) == lookup(
            s0,
            k2,
        ) by {
            if exists|i: int| 0 <= i < s0.len() && s0[i].key@ == k2 {
                let i = choose|i: int| 0 <= i < s0.len() && s0[i].key@ == k2;
                lemma_sorted_unique(s0);
                lemma_lookup_present(s0, i, k2);
                // where the old entry for k2 now sits: unshifted in the
                // replace case, shifted right of `p` in the insert case
                let ni = if !replace && i >= p {
                    i + 1
                } else {
                    i
                };
                if replace {
                    assert(i != p);
                    assert(sv[i] == s0[i]);
                }
                assert(sv[ni].key@ == k2 && sv[ni].value@ == s0[i].value@);
                assert forall|j: int| 0 <= j < ni implies sv[j].key@ != k2 by {
                    if j != p {
                        let oj = if j < p { j } else { j - 1 };
                        let back = if replace && oj >= p { oj + 1 } else { oj };
                        assert(sv[j] == s0[back]);
                    }
                }
                lemma_lookup_present(sv, ni, k2);
            } else {
                assert(forall|i: int| 0 <= i < s0.len() ==> #[trigger] s0[i].key@ != k2);
                lemma_lookup_absent(s0, k2);
                assert forall|j: int| 0 <= j < sv.len() implies sv[j].key@ != k2 by {
                    if j != p {
                        let oj = if j < p { j } else { j - 1 };
                        let back = if replace && oj >= p { oj + 1 } else { oj };
                        assert(sv[j] == s0[back]);
                    }
                }
                lemma_lookup_absent(sv, k2);
            }
        }
        // provenance: each entry is the new pair or one of the old entries
        assert forall|i: int|
            0 <= i < sv.len() implies (#[trigger] sv[i].key@ == key@ && sv[i].value@ == value@) || (
            exists|j: int| 0 <= j < s0.len() && sv[i] == s0[j]) by {
            if i != p {
                let oi = if i < p {
                    i
                } else {
                    i - 1
                };
                let back = if replace && oi >= p {
                    oi + 1
                } else {
                    oi
                };
                assert(sv[i] == s0[back]);
            }
        }
    }
}

/// Removes the binding for `key` if present; every other binding is untouched.
pub fn remove_entry(v: &mut Vec<Entry>, key: &Vec<u8>) -> (found: bool)
    requires
        sorted_entries(old(v)@),
    ensures
        sorted_entries(final(v)@),
        lookup(final(v)@, key@) == None::<Seq<u8>>,
        forall|k2: Seq<u8>| k2 != key@ ==> #[trigger] lookup(final(v)@, k2) == lookup(old(v)@, k2),
        found <==> lookup(old(v)@, key@) is Some,
        final(v)@.len() <= old(v)@.len(),
        forall|i: int|
            0 <= i < final(v)@.len() ==> exists|j: int|
                0 <= j < old(v)@.len() && #[trigger] final(v)@[i] == old(v)@[j],
{
    let ghost s0 = v@;
    proof {
        lemma_sorted_unique(s0);
    }
    match find_entry(v, key) {
        Some(i) => {
            proof {
                lemma_lookup_present(s0, i as int, key@);
            }
            v.remove(i);
            proof {
                let sv = v@;
                assert(sv =~= s0.remove(i as int));
                assert forall|a: int, b: int| 0 <= a < b < sv.len() implies lex_lt(
                    #[trigger] sv[a].key@,
                    #[trigger] sv[b].key@,
                ) by {
                    let oa = if a < i { a } else { a + 1 };
                    let ob = if b < i { b } else { b + 1 };
                    assert(sv[a] == s0[oa] && sv[b] == s0[ob]);
                }
                assert forall|j: int| 0 <= j < sv.len() implies sv[j].key@ != key@ by {
                    let oj = if j < i { j } else { j + 1 };
                    assert(sv[j] == s0[oj]);
                }
                lemma_lookup_absent(sv, key@);
                assert forall|a: int| 0 <= a < sv.len() implies exists|j: int|
                    0 <= j < s0.len() && #[trigger] sv[a] == s0[j] by {
                    let oa = if a < i { a } else { a + 1 };
                    assert(sv[a] == s0[oa]);
                }
                assert forall|k2: Seq<u8>| k2 != key@ implies #[trigger] lookup(sv, k2) == lookup(
                    s0,
                    k2,
                ) by {
                    if exists|x: int| 0 <= x < s0.len() && s0[x].key@ == k2 {
                        let x = choose|x: int| 0 <= x < s0.len() && s0[x].key@ == k2;
                        lemma_lookup_present(s0, x, k2);
                        let nx = if x < i { x } else { x - 1 };
                        assert(sv[nx] == s0[x]);
                        assert forall|j: int| 0 <= j < nx implies sv[j].key@ != k2 by {
                            let oj = if j < i { j } else { j + 1 };
                            assert(sv[j] == s0[oj]);
                        }
                        lemma_lookup_present(sv, nx, k2);
                    } else {
                        assert(forall|x: int| 0 <= x < s0.len() ==> #[trigger] s0[x].key@ != k2);
                        lemma_lookup_absent(s0, k2);
                        assert forall|j: int| 0 <= j < sv.len() implies sv[j].key@ != k2 by {
                            let oj = if j < i { j } else { j + 1 };
                            assert(sv[j] == s0[oj]);
                        }
                        lemma_lookup_absent(sv, k2);
                    }
                }
            }
            true
        },
        None => {
            proof {
                lemma_lookup_absent(s0, key@);
            }
            false
        },
    }
}

} // verus!
