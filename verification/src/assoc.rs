//! Association sequences: the common specification backbone of the stores.
//!
//! Every store in this crate is, at the specification level, a sequence of
//! (key, payload) pairs with pairwise-distinct keys, looked up by first
//! match. `assoc_get` is that lookup; the lemmas here characterize how it
//! behaves under the sequence operations the stores use.

use vstd::prelude::*;

verus! {

/// First-match lookup of `k` in an association sequence.
pub open spec fn assoc_get<V>(s: Seq<(Seq<u8>, V)>, k: Seq<u8>) -> Option<V>
    decreases s.len(),
{
    if s.len() == 0 {
        None
    } else if s[0].0 == k {
        Some(s[0].1)
    } else {
        assoc_get(s.skip(1), k)
    }
}

/// All keys in the association sequence are pairwise distinct.
pub open spec fn unique_keys<V>(s: Seq<(Seq<u8>, V)>) -> bool {
    forall|i: int, j: int|
        #![trigger s[i].0, s[j].0]
        0 <= i < j < s.len() ==> s[i].0 != s[j].0
}

/// With distinct keys, the lookup of the key at position `i` yields the
/// payload at position `i`.
pub proof fn lemma_assoc_get_at<V>(s: Seq<(Seq<u8>, V)>, i: int)
    requires
        unique_keys(s),
        0 <= i < s.len(),
    ensures
        assoc_get(s, s[i].0) == Some(s[i].1),
    decreases s.len(),
{
    if i > 0 {
        assert(s[0].0 != s[i].0);
        assert(s.skip(1)[i - 1] == s[i]);
        assert(unique_keys(s.skip(1))) by {
            assert(forall|p: int, q: int|
                0 <= p < q < s.skip(1).len() ==> s.skip(1)[p] == s[p + 1] && s.skip(1)[q] == s[q
                    + 1]);
        }
        lemma_assoc_get_at(s.skip(1), i - 1);
    }
}

/// The lookup misses exactly when no position holds the key.
pub proof fn lemma_assoc_get_none<V>(s: Seq<(Seq<u8>, V)>, k: Seq<u8>)
    ensures
        assoc_get(s, k) is None <==> (forall|i: int| 0 <= i < s.len() ==> s[i].0 != k),
    decreases s.len(),
{
    if s.len() > 0 {
        lemma_assoc_get_none(s.skip(1), k);
        assert(forall|i: int| 1 <= i < s.len() ==> s.skip(1)[i - 1] == s[i]);
        if s[0].0 != k && (forall|i: int| 0 <= i < s.skip(1).len() ==> s.skip(1)[i].0 != k) {
            assert(forall|i: int| 0 <= i < s.len() ==> s[i].0 != k);
        }
    }
}

/// Distinct keys survive restriction to a subrange taken from the front.
pub proof fn lemma_unique_take<V>(s: Seq<(Seq<u8>, V)>, n: int)
    requires
        unique_keys(s),
        0 <= n <= s.len(),
    ensures
        unique_keys(s.take(n)),
{
    assert(forall|i: int, j: int|
        0 <= i < j < n ==> s.take(n)[i] == s[i] && s.take(n)[j] == s[j]);
}

/// How the lookup grows when one more pair of the source sequence is taken:
/// with distinct keys, the new pair answers exactly for its own key.
pub proof fn lemma_assoc_get_take_step<V>(s: Seq<(Seq<u8>, V)>, n: int, k: Seq<u8>)
    requires
        unique_keys(s),
        0 <= n < s.len(),
    ensures
        assoc_get(s.take(n + 1), k) == if s[n].0 == k {
            Some(s[n].1)
        } else {
            assoc_get(s.take(n), k)
        },
    decreases n,
{
    if n == 0 {
        assert(s.take(1) =~= seq![s[0]]);
        assert(s.take(0) =~= Seq::<(Seq<u8>, V)>::empty());
        assert(s.take(1)[0] == s[0]);
        if s[0].0 != k {
            assert(s.take(1).skip(1) =~= Seq::<(Seq<u8>, V)>::empty());
        }
    } else {
        assert(unique_keys(s.skip(1))) by {
            assert(forall|p: int, q: int|
                0 <= p < q < s.skip(1).len() ==> s.skip(1)[p] == s[p + 1] && s.skip(1)[q] == s[q
                    + 1]);
        }
        lemma_assoc_get_take_step(s.skip(1), n - 1, k);
        assert(s.skip(1).take(n) =~= s.take(n + 1).skip(1));
        assert(s.skip(1).take(n - 1) =~= s.take(n).skip(1));
        assert(s.take(n + 1)[0] == s[0]);
        assert(s.take(n)[0] == s[0]);
        assert(s.skip(1)[n - 1] == s[n]);
    }
}

/// A hit of the lookup points at an actual position of the sequence.
pub proof fn lemma_assoc_get_some_index<V>(s: Seq<(Seq<u8>, V)>, k: Seq<u8>)
    ensures
        assoc_get(s, k) is Some ==> exists|i: int|
            0 <= i < s.len() && s[i] == (k, assoc_get(s, k).unwrap()),
    decreases s.len(),
{
    if s.len() > 0 && assoc_get(s, k) is Some {
        if s[0].0 == k {
            assert(s[0] == (k, assoc_get(s, k).unwrap()));
        } else {
            lemma_assoc_get_some_index(s.skip(1), k);
            let i = choose|i: int|
                0 <= i < s.skip(1).len() && s.skip(1)[i] == (k, assoc_get(s.skip(1), k).unwrap());
            assert(s.skip(1)[i] == s[i + 1]);
            assert(s[i + 1] == (k, assoc_get(s, k).unwrap()));
        }
    }
}

/// Replacing the payload at position `i` changes the lookup for that key
/// alone.
pub proof fn lemma_assoc_get_update<V>(s: Seq<(Seq<u8>, V)>, i: int, v: V, k2: Seq<u8>)
    requires
        unique_keys(s),
        0 <= i < s.len(),
    ensures
        assoc_get(s.update(i, (s[i].0, v)), k2) == if k2 == s[i].0 {
            Some(v)
        } else {
            assoc_get(s, k2)
        },
        unique_keys(s.update(i, (s[i].0, v))),
    decreases s.len(),
{
    let t = s.update(i, (s[i].0, v));
    assert(unique_keys(t)) by {
        assert(forall|p: int| 0 <= p < t.len() ==> t[p].0 == s[p].0);
    }
    if i == 0 {
        assert(t[0] == (s[0].0, v));
        if k2 != s[0].0 {
            assert(t.skip(1) =~= s.skip(1));
        }
    } else {
        assert(unique_keys(s.skip(1))) by {
            assert(forall|p: int, q: int|
                0 <= p < q < s.skip(1).len() ==> s.skip(1)[p] == s[p + 1] && s.skip(1)[q] == s[q
                    + 1]);
        }
        lemma_assoc_get_update(s.skip(1), i - 1, v, k2);
        assert(t.skip(1) =~= s.skip(1).update(i - 1, (s.skip(1)[i - 1].0, v)));
        assert(t[0] == s[0]);
        assert(s[0].0 != s[i].0);
        assert(s.skip(1)[i - 1] == s[i]);
    }
}

/// Removing the pair at position `i` makes the lookup of its key miss and
/// leaves every other key's lookup unchanged.
pub proof fn lemma_assoc_get_remove<V>(s: Seq<(Seq<u8>, V)>, i: int, k2: Seq<u8>)
    requires
        unique_keys(s),
        0 <= i < s.len(),
    ensures
        assoc_get(s.remove(i), k2) == if k2 == s[i].0 {
            None::<V>
        } else {
            assoc_get(s, k2)
        },
        unique_keys(s.remove(i)),
    decreases s.len(),
{
    let t = s.remove(i);
    assert(unique_keys(t)) by {
        assert(forall|p: int|
            0 <= p < t.len() ==> t[p] == (if p < i {
                s[p]
            } else {
                s[p + 1]
            }));
    }
    if i == 0 {
        assert(t =~= s.skip(1));
        if k2 == s[0].0 {
            lemma_assoc_get_none(s.skip(1), k2);
            assert(forall|p: int| 0 <= p < s.skip(1).len() ==> s.skip(1)[p] == s[p + 1]);
        }
    } else {
        assert(unique_keys(s.skip(1))) by {
            assert(forall|p: int, q: int|
                0 <= p < q < s.skip(1).len() ==> s.skip(1)[p] == s[p + 1] && s.skip(1)[q] == s[q
                    + 1]);
        }
        lemma_assoc_get_remove(s.skip(1), i - 1, k2);
        assert(t.skip(1) =~= s.skip(1).remove(i - 1));
        assert(t[0] == s[0]);
        assert(s[0].0 != s[i].0);
        assert(s.skip(1)[i - 1] == s[i]);
    }
}

/// Inserting a pair with a fresh key at any position answers for that key
/// alone and keeps keys distinct.
pub proof fn lemma_assoc_get_insert<V>(s: Seq<(Seq<u8>, V)>, i: int, k: Seq<u8>, v: V, k2: Seq<u8>)
    requires
        unique_keys(s),
        0 <= i <= s.len(),
        forall|j: int| 0 <= j < s.len() ==> s[j].0 != k,
    ensures
        assoc_get(s.insert(i, (k, v)), k2) == if k2 == k {
            Some(v)
        } else {
            assoc_get(s, k2)
        },
        unique_keys(s.insert(i, (k, v))),
    decreases s.len(),
{
    let t = s.insert(i, (k, v));
    assert(unique_keys(t)) by {
        assert(forall|p: int|
            0 <= p < t.len() ==> t[p] == (if p < i {
                s[p]
            } else if p == i {
                (k, v)
            } else {
                s[p - 1]
            }));
    }
    if i == 0 {
        assert(t[0] == (k, v));
        if k2 != k {
            assert(t.skip(1) =~= s);
        }
    } else {
        assert(unique_keys(s.skip(1))) by {
            assert(forall|p: int, q: int|
                0 <= p < q < s.skip(1).len() ==> s.skip(1)[p] == s[p + 1] && s.skip(1)[q] == s[q
                    + 1]);
        }
        assert(forall|j: int| 0 <= j < s.skip(1).len() ==> s.skip(1)[j] == s[j + 1]);
        lemma_assoc_get_insert(s.skip(1), i - 1, k, v, k2);
        assert(t.skip(1) =~= s.skip(1).insert(i - 1, (k, v)));
        assert(t[0] == s[0]);
        assert(s[0].0 != k);
    }
}

} // verus!
