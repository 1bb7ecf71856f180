//! Lookup in lists of key-value pairs by the first occurrence of a key.

use vstd::prelude::*;

verus! {

/// The index of the first pair with key `k`.
pub open spec fn first_key_index<K, V>(s: Seq<(K, V)>, k: K) -> Option<int>
    decreases s.len(),
{
    if s.len() == 0 {
        None
    } else if s[0].0 == k {
        Some(0)
    } else {
        match first_key_index(s.drop_first(), k) {
            Some(i) => Some(i + 1),
            None => None,
        }
    }
}

/// Pairs whose keys are pairwise distinct.
pub open spec fn distinct_keys<K, V>(s: Seq<(K, V)>) -> bool {
    forall|i: int, j: int| 0 <= i < j < s.len() ==> #[trigger] s[i].0 != #[trigger] s[j].0
}

/// The index found is the first with the key; none is found when no pair has it.
pub proof fn lemma_first_key_index<K, V>(s: Seq<(K, V)>, k: K)
    ensures
        match first_key_index(s, k) {
            Some(i) => 0 <= i < s.len() && s[i].0 == k && forall|j: int|
                0 <= j < i ==> #[trigger] s[j].0 != k,
            None => forall|j: int| 0 <= j < s.len() ==> #[trigger] s[j].0 != k,
        },
    decreases s.len(),
{
    if s.len() > 0 && s[0].0 != k {
        lemma_first_key_index(s.drop_first(), k);
        match first_key_index(s.drop_first(), k) {
            Some(i) => {
                assert(s.drop_first()[i] == s[i + 1]);
                assert forall|j: int| 0 <= j < i + 1 implies #[trigger] s[j].0 != k by {
                    if j > 0 {
                        assert(s.drop_first()[j - 1] == s[j]);
                    }
                }
            },
            None => {
                assert forall|j: int| 0 <= j < s.len() implies #[trigger] s[j].0 != k by {
                    if j > 0 {
                        assert(s.drop_first()[j - 1] == s[j]);
                    }
                }
            },
        }
    }
}

/// An index with the key and none before it is the first index.
pub proof fn lemma_first_key_index_at<K, V>(s: Seq<(K, V)>, k: K, i: int)
    requires
        0 <= i < s.len(),
        s[i].0 == k,
        forall|j: int| 0 <= j < i ==> #[trigger] s[j].0 != k,
    ensures
        first_key_index(s, k) == Some(i),
{
    lemma_first_key_index(s, k);
    match first_key_index(s, k) {
        Some(f) => {
            if f < i {
                assert(s[f].0 != k);
            } else if f > i {
                assert(s[i].0 != k);
            }
        },
        None => {
            assert(s[i].0 != k);
        },
    }
}

/// No pair has the key.
pub proof fn lemma_first_key_index_none<K, V>(s: Seq<(K, V)>, k: K)
    requires
        forall|j: int| 0 <= j < s.len() ==> #[trigger] s[j].0 != k,
    ensures
        first_key_index(s, k) is None,
{
    lemma_first_key_index(s, k);
    if let Some(f) = first_key_index(s, k) {
        assert(s[f].0 != k);
    }
}

/// The value of the first pair with key `k`.
pub open spec fn value_of<K, V>(s: Seq<(K, V)>, k: K) -> Option<V> {
    match first_key_index(s, k) {
        Some(i) => Some(s[i].1),
        None => None,
    }
}

/// The pairs after setting key `k` to `v`: the first pair with the key is
/// replaced, or the pair is appended.
pub open spec fn set_value<K, V>(s: Seq<(K, V)>, k: K, v: V) -> Seq<(K, V)> {
    match first_key_index(s, k) {
        Some(i) => s.update(i, (k, v)),
        None => s.push((k, v)),
    }
}

/// Setting a value keeps keys distinct, gives the value back, and leaves
/// other keys unchanged.
pub proof fn lemma_set_value<K, V>(s: Seq<(K, V)>, k: K, v: V)
    ensures
        distinct_keys(s) ==> distinct_keys(set_value(s, k, v)),
        value_of(set_value(s, k, v), k) == Some(v),
        forall|k2: K| k2 != k ==> #[trigger] value_of(set_value(s, k, v), k2) == value_of(s, k2),
{
    lemma_first_key_index(s, k);
    let t = set_value(s, k, v);
    match first_key_index(s, k) {
        Some(i) => {
            lemma_first_key_index_at(t, k, i);
            assert forall|k2: K| k2 != k implies #[trigger] value_of(t, k2) == value_of(s, k2) by {
                lemma_first_key_index(s, k2);
                match first_key_index(s, k2) {
                    Some(j) => {
                        assert(t[j] == s[j]);
                        lemma_first_key_index_at(t, k2, j);
                    },
                    None => {
                        lemma_first_key_index_none(t, k2);
                    },
                }
            }
        },
        None => {
            lemma_first_key_index_at(t, k, s.len() as int);
            assert forall|k2: K| k2 != k implies #[trigger] value_of(t, k2) == value_of(s, k2) by {
                lemma_first_key_index(s, k2);
                match first_key_index(s, k2) {
                    Some(j) => {
                        assert(t[j] == s[j]);
                        lemma_first_key_index_at(t, k2, j);
                    },
                    None => {
                        lemma_first_key_index_none(t, k2);
                    },
                }
            }
        },
    }
}

/// Every element of a filtered sequence is an element of the sequence.
pub proof fn lemma_filter_member<A>(s: Seq<A>, pred: spec_fn(A) -> bool, j: int)
    requires
        0 <= j < s.filter(pred).len(),
    ensures
        s.contains(s.filter(pred)[j]),
    decreases s.len(),
{
    reveal_with_fuel(Seq::<_>::filter, 1);
    if s.len() > 0 {
        let t = s.drop_last().filter(pred);
        if j < t.len() {
            if pred(s.last()) {
                assert(s.filter(pred)[j] == t[j]);
            }
            lemma_filter_member(s.drop_last(), pred, j);
            let k = choose|k: int| 0 <= k < s.drop_last().len() && s.drop_last()[k] == t[j];
            assert(s[k] == t[j]);
        } else {
            assert(s.filter(pred)[j] == s.last());
            assert(s[s.len() - 1] == s.last());
        }
    }
}

} // verus!
