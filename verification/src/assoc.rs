use vstd::prelude::*;

verus! {

/// Index of the first pair in `m` whose key equals `k`; `-1` if there is
/// no such pair.
pub open spec fn assoc_key_index<K, V>(m: Seq<(K, V)>, k: K) -> int
    decreases m.len(),
{
    if m.len() == 0 {
        -1
    } else if m[0].0 == k {
        0
    } else if assoc_key_index(m.drop_first(), k) == -1 {
        -1
    } else {
        1 + assoc_key_index(m.drop_first(), k)
    }
}

/// Whether some pair in `m` has key `k`.
pub open spec fn assoc_has_key<K, V>(m: Seq<(K, V)>, k: K) -> bool {
    assoc_key_index(m, k) >= 0
}

/// Ordered-map insertion: replace the value of the first pair whose key
/// equals `k`, keeping its position; append a new pair if the key is
/// absent.
pub open spec fn assoc_put<K, V>(m: Seq<(K, V)>, k: K, v: V) -> Seq<(K, V)> {
    if assoc_has_key(m, k) {
        m.update(assoc_key_index(m, k), (k, v))
    } else {
        m.push((k, v))
    }
}

/// The value at the first pair of `m` whose key equals `k`, if any.
pub open spec fn assoc_lookup<K, V>(m: Seq<(K, V)>, k: K) -> Option<V> {
    if assoc_has_key(m, k) {
        Some(m[assoc_key_index(m, k)].1)
    } else {
        None
    }
}

/// Appending a pair leaves every key that was already present bound to
/// the same value, at the same first position.
pub proof fn lemma_assoc_push_preserves<K, V>(m: Seq<(K, V)>, p: (K, V), k: K)
    requires
        assoc_has_key(m, k),
    ensures
        assoc_has_key(m.push(p), k),
        assoc_key_index(m.push(p), k) == assoc_key_index(m, k),
        assoc_lookup(m.push(p), k) == assoc_lookup(m, k),
{
    lemma_assoc_key_index(m, k);
    lemma_assoc_key_index(m.push(p), k);
    let i = assoc_key_index(m, k);
    let j = assoc_key_index(m.push(p), k);
    assert(m.push(p)[i] == m[i]);
    if j < i {
        assert(m.push(p)[j] == m[j]);
    }
    assert(j == i);
}

/// After an insertion, the inserted key is bound to the inserted value.
pub proof fn lemma_assoc_put_lookup<K, V>(m: Seq<(K, V)>, k: K, v: V)
    ensures
        assoc_lookup(assoc_put(m, k, v), k) == Some(v),
{
    lemma_assoc_key_index(m, k);
    let r = assoc_put(m, k, v);
    lemma_assoc_key_index(r, k);
    let i = assoc_key_index(m, k);
    let j = assoc_key_index(r, k);
    if i >= 0 {
        assert(r[i] == (k, v));
        if j < i {
            assert(r[j] == m[j]);
        }
        assert(j == i);
    } else {
        assert(r[m.len() as int] == (k, v));
        if j < m.len() {
            assert(r[j] == m[j]);
        }
        assert(j == m.len());
    }
}

/// Dropping a first pair whose key is not `k` changes no binding of `k`.
pub proof fn lemma_assoc_lookup_drop_first<K, V>(m: Seq<(K, V)>, k: K)
    requires
        m.len() > 0,
        m[0].0 != k,
    ensures
        assoc_has_key(m.drop_first(), k) == assoc_has_key(m, k),
        assoc_lookup(m.drop_first(), k) == assoc_lookup(m, k),
{
    lemma_assoc_key_index(m, k);
    lemma_assoc_key_index(m.drop_first(), k);
    let sub = assoc_key_index(m.drop_first(), k);
    if sub >= 0 {
        assert(m.drop_first()[sub] == m[sub + 1]);
    }
}

/// `assoc_key_index` finds the first matching key: it is in range, it
/// matches, nothing before it matches, and it is `-1` only when nothing
/// matches at all.
pub proof fn lemma_assoc_key_index<K, V>(m: Seq<(K, V)>, k: K)
    ensures
        -1 <= assoc_key_index(m, k) < m.len(),
        assoc_key_index(m, k) >= 0 ==> m[assoc_key_index(m, k)].0 == k,
        forall|j: int| 0 <= j < assoc_key_index(m, k) ==> (#[trigger] m[j]).0 != k,
        assoc_key_index(m, k) == -1 ==> forall|j: int|
            0 <= j < m.len() ==> (#[trigger] m[j]).0 != k,
    decreases m.len(),
{
    if m.len() > 0 {
        lemma_assoc_key_index(m.drop_first(), k);
        let sub = assoc_key_index(m.drop_first(), k);
        assert(forall|j: int| 0 <= j < m.len() - 1 ==> #[trigger] m.drop_first()[j] == m[j + 1]);
        if m[0].0 == k {
        } else if sub == -1 {
            assert forall|j: int| 0 <= j < m.len() implies (#[trigger] m[j]).0 != k by {
                if j > 0 {
                    assert(m.drop_first()[j - 1] == m[j]);
                }
            }
        } else {
            assert(m.drop_first()[sub] == m[sub + 1]);
            assert forall|j: int| 0 <= j < sub + 1 implies (#[trigger] m[j]).0 != k by {
                if j > 0 {
                    assert(m.drop_first()[j - 1] == m[j]);
                }
            }
        }
    }
}

} // verus!
