//! Staged write operations: the key-ordered, deduplicated contents of a
//! batch. Staging the same key twice keeps only the later operation, so a
//! batch is a mapping from key to operation, applied in key order.

use vstd::prelude::*;

use crate::bytes::{bytes_eq, bytes_lt, lemma_lex_asym, lemma_lex_total, lemma_lex_trans, lex_lt};

verus! {

/// The mathematical value of one staged operation.
pub enum OpModel {
    Put(Seq<u8>),
    Delete,
}

/// One staged operation: write `value` under `key`, or delete `key`.
pub struct StagedOp {
    pub key: Vec<u8>,
    pub delete: bool,
    pub value: Vec<u8>,
}

impl StagedOp {
    /// The operation as a mathematical value.
    pub open spec fn model(self) -> OpModel {
        if self.delete {
            OpModel::Delete
        } else {
            OpModel::Put(self.value@)
        }
    }
}

/// The staged list is strictly sorted by key; strictness makes keys unique.
pub open spec fn sorted_ops(s: Seq<StagedOp>) -> bool {
    forall|i: int, j: int|
        0 <= i < j < s.len() ==> lex_lt(#[trigger] s[i].key@, #[trigger] s[j].key@)
}

/// The operation staged for `k`, scanning from the front.
pub open spec fn lookup_op(s: Seq<StagedOp>, k: Seq<u8>) -> Option<OpModel>
    decreases s.len(),
{
    if s.len() == 0 {
        None
    } else if s[0].key@ == k {
        Some(s[0].model())
    } else {
        lookup_op(s.skip(1), k)
    }
}

/// If `k` first occurs at index `i`, the scan finds that operation.
pub proof fn lemma_lookup_op_present(s: Seq<StagedOp>, i: int, k: Seq<u8>)
    requires
        0 <= i < s.len(),
        s[i].key@ == k,
        forall|j: int| 0 <= j < i ==> s[j].key@ != k,
    ensures
        lookup_op(s, k) == Some(s[i].model()),
    decreases s.len(),
{
    if i > 0 {
        lemma_lookup_op_present(s.skip(1), i - 1, k);
    }
}

/// If no operation is staged for `k`, the scan finds nothing.
pub proof fn lemma_lookup_op_absent(s: Seq<StagedOp>, k: Seq<u8>)
    requires
        forall|j: int| 0 <= j < s.len() ==> s[j].key@ != k,
    ensures
        lookup_op(s, k) == None::<OpModel>,
    decreases s.len(),
{
    if s.len() > 0 {
        lemma_lookup_op_absent(s.skip(1), k);
    }
}

/// Two operations of a strictly sorted list never share a key.
pub proof fn lemma_sorted_ops_unique(s: Seq<StagedOp>)
    requires
        sorted_ops(s),
    ensures
        forall|i: int, j: int|
            0 <= i < s.len() && 0 <= j < s.len() && i != j ==> #[trigger] s[i].key@
                != #[trigger] s[j].key@,
{
    assert forall|i: int, j: int|
        0 <= i < s.len() && 0 <= j < s.len() && i != j implies #[trigger] s[i].key@
        != #[trigger] s[j].key@ by {
        if i < j {
            lemma_lex_asym(s[i].key@, s[j].key@);
        } else {
            lemma_lex_asym(s[j].key@, s[i].key@);
        }
    }
}

/// A found operation comes from some staged entry with that key.
pub proof fn lemma_lookup_op_some_exists(s: Seq<StagedOp>, k: Seq<u8>)
    requires
        lookup_op(s, k) is Some,
    ensures
        exists|j: int|
            0 <= j < s.len() && #[trigger] s[j].key@ == k && s[j].model() == lookup_op(
                s,
                k,
            ).unwrap(),
    decreases s.len(),
{
    if s.len() > 0 && s[0].key@ != k {
        lemma_lookup_op_some_exists(s.skip(1), k);
        let j = choose|j: int|
            0 <= j < s.skip(1).len() && #[trigger] s.skip(1)[j].key@ == k && s.skip(1)[j].model()
                == lookup_op(s.skip(1), k).unwrap();
        assert(s[j + 1] == s.skip(1)[j]);
    }
}

/// Scanning a list extended at the end finds the old operation if there was
/// one, and the new operation only for the new key.
pub proof fn lemma_lookup_op_push(s: Seq<StagedOp>, x: StagedOp, k: Seq<u8>)
    ensures
        lookup_op(s.push(x), k) == if lookup_op(s, k) is Some {
            lookup_op(s, k)
        } else if x.key@ == k {
            Some(x.model())
        } else {
            None
        },
    decreases s.len(),
{
    if s.len() == 0 {
        assert(s.push(x).len() == 1);
        assert(s.push(x)[0] == x);
        if x.key@ != k {
            assert(s.push(x).skip(1) =~= Seq::<StagedOp>::empty());
            assert(lookup_op(Seq::<StagedOp>::empty(), k) == None::<OpModel>);
            assert(lookup_op(s.push(x), k) == None::<OpModel>);
        } else {
            assert(lookup_op(s.push(x), k) == Some(x.model()));
        }
    } else {
        assert(s.push(x)[0] == s[0]);
        assert(s.push(x).skip(1) =~= s.skip(1).push(x));
        lemma_lookup_op_push(s.skip(1), x, k);
    }
}

/// The position where `key` belongs among the staged operations.
fn find_op_position(v: &Vec<StagedOp>, key: &Vec<u8>) -> (p: usize)
    ensures
        p <= v@.len(),
        forall|j: int| 0 <= j < p ==> lex_lt(#[trigger] v@[j].key@, key@),
        p < v@.len() ==> !lex_lt(v@[p as int].key@, key@),
{
    let mut p: usize = 0;
    while p < v.len()
        invariant
            p <= v.len(),
            forall|j: int| 0 <= j < p ==> lex_lt(#[trigger] v@[j].key@, key@),
        decreases v.len() - p,
    {
        if !bytes_lt(&v[p].key, key) {
            return p;
        }
        p += 1;
    }
    p
}

/// The operation staged for `k`, scanning from the back: the latest one.
pub open spec fn last_op(s: Seq<StagedOp>, k: Seq<u8>) -> Option<OpModel>
    decreases s.len(),
{
    if s.len() == 0 {
        None
    } else if s.last().key@ == k {
        Some(s.last().model())
    } else {
        last_op(s.drop_last(), k)
    }
}

/// Order independence of a deduplicated batch: when every staged key is
/// unique, the first staged operation for a key and the last are the same
/// one, so applying the set in key order and applying it in any other order
/// decide every key identically.
pub proof fn lemma_unique_first_last(s: Seq<StagedOp>, k: Seq<u8>)
    requires
        forall|i: int, j: int|
            0 <= i < s.len() && 0 <= j < s.len() && i != j ==> #[trigger] s[i].key@
                != #[trigger] s[j].key@,
    ensures
        last_op(s, k) == lookup_op(s, k),
    decreases s.len(),
{
    if s.len() > 0 {
        if s.last().key@ == k {
            lemma_lookup_op_present(s, s.len() - 1, k);
        } else {
            assert(forall|j: int| 0 <= j < s.drop_last().len() ==> s.drop_last()[j] == s[j]);
            lemma_unique_first_last(s.drop_last(), k);
            lemma_lookup_op_drop_last(s, k);
        }
    }
}

/// Dropping a non-matching final element leaves a front scan unchanged.
proof fn lemma_lookup_op_drop_last(s: Seq<StagedOp>, k: Seq<u8>)
    requires
        s.len() > 0,
        s.last().key@ != k,
    ensures
        lookup_op(s.drop_last(), k) == lookup_op(s, k),
    decreases s.len(),
{
    if s.len() == 1 {
        assert(s.drop_last() =~= Seq::<StagedOp>::empty());
        assert(lookup_op(Seq::<StagedOp>::empty(), k) == None::<OpModel>);
    } else {
        if s[0].key@ == k {
            assert(s.drop_last()[0] == s[0]);
        } else {
            assert(s.skip(1).last() == s.last());
            lemma_lookup_op_drop_last(s.skip(1), k);
            assert(s.drop_last()[0] == s[0]);
            assert(s.drop_last().skip(1) =~= s.skip(1).drop_last());
        }
    }
}

/// Stages `op` for its key, replacing any operation already staged there.
/// The list stays sorted and every other staged key is untouched.
pub fn insert_op(v: &mut Vec<StagedOp>, op: StagedOp)
    requires
        sorted_ops(old(v)@),
    ensures
        sorted_ops(final(v)@),
        lookup_op(final(v)@, op.key@) == Some(op.model()),
        forall|k2: Seq<u8>|
            k2 != op.key@ ==> #[trigger] lookup_op(final(v)@, k2) == lookup_op(old(v)@, k2),
        final(v)@.len() <= old(v)@.len() + 1,
{
    let ghost s0 = v@;
    let ghost newkey = op.key@;
    let p = find_op_position(v, &op.key);
    let replace = p < v.len() && bytes_eq(&v[p].key, &op.key);
    proof {
        if p < s0.len() && !replace {
            lemma_lex_total(s0[p as int].key@, newkey);
        }
        assert forall|j: int| p <= j < s0.len() && s0[j].key@ != newkey implies lex_lt(
            newkey,
            #[trigger] s0[j].key@,
        ) by {
            if replace {
                if j > p {
                    assert(lex_lt(s0[p as int].key@, s0[j].key@));
                }
            } else {
                if p < s0.len() && j > p {
                    lemma_lex_trans(newkey, s0[p as int].key@, s0[j].key@);
                }
            }
        }
        lemma_sorted_ops_unique(s0);
    }
    if replace {
        v.remove(p);
        proof {
            assert(v@ =~= s0.remove(p as int));
        }
    }
    let ghost s1 = v@;
    let ghost opg = op;
    v.insert(p, op);
    proof {
        let sv = v@;
        assert(sv[p as int] == opg);
        assert forall|i: int, j: int| 0 <= i < j < sv.len() implies lex_lt(
            #[trigger] sv[i].key@,
            #[trigger] sv[j].key@,
        ) by {
            assert(i != p && j != p ==> sv[i] == s1[if i < p {
                i
            } else {
                i - 1
            }] && sv[j] == s1[if j < p {
                j
            } else {
                j - 1
            }]);
            if replace {
                assert(forall|x: int| 0 <= x < p ==> s1[x] == s0[x]);
                assert(forall|x: int| p <= x < s1.len() ==> s1[x] == s0[x + 1]);
            }
        }
        assert forall|j: int| 0 <= j < p implies sv[j].key@ != newkey by {
            lemma_lex_asym(sv[j].key@, newkey);
        }
        lemma_lookup_op_present(sv, p as int, newkey);
        assert forall|k2: Seq<u8>| k2 != newkey implies #[trigger] lookup_op(sv, k2) == lookup_op(
            s0,
            k2,
        ) by {
            if exists|i: int| 0 <= i < s0.len() && s0[i].key@ == k2 {
                let i = choose|i: int| 0 <= i < s0.len() && s0[i].key@ == k2;
                lemma_sorted_ops_unique(s0);
                lemma_lookup_op_present(s0, i, k2);
                let ni = if !replace && i >= p {
                    i + 1
                } else {
                    i
                };
                assert(sv[ni] == s0[i]);
                assert forall|j: int| 0 <= j < ni implies sv[j].key@ != k2 by {
                    if j != p {
                        let oj = if j < p {
                            j
                        } else {
                            j - 1
                        };
                        let back = if replace && oj >= p {
                            oj + 1
                        } else {
                            oj
                        };
                        assert(sv[j] == s0[back]);
                    }
                }
                lemma_lookup_op_present(sv, ni, k2);
            } else {
                assert(forall|i: int| 0 <= i < s0.len() ==> #[trigger] s0[i].key@ != k2);
                lemma_lookup_op_absent(s0, k2);
                assert forall|j: int| 0 <= j < sv.len() implies sv[j].key@ != k2 by {
                    if j != p {
                        let oj = if j < p {
                            j
                        } else {
                            j - 1
                        };
                        let back = if replace && oj >= p {
                            oj + 1
                        } else {
                            oj
                        };
                        assert(sv[j] == s0[back]);
                    }
                }
                lemma_lookup_op_absent(sv, k2);
            }
        }
    }
}

} // verus!
