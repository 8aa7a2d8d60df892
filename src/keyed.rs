//! Sequences of records with unique keys, read as finite maps.
//!
//! The stores of this crate keep their records in vectors; a record's key is
//! given by a spec function, and the map view lets the last record of a key win.
//! Under the uniqueness invariant every key has exactly one record.
use vstd::prelude::*;

verus! {

/// The map that a sequence of records denotes, a later record overriding an
/// earlier one with the same key.
pub open spec fn keyed<K, T>(s: Seq<T>, key: spec_fn(T) -> K) -> Map<K, T>
    decreases s.len(),
{
    if s.len() == 0 {
        Map::empty()
    } else {
        keyed(s.drop_last(), key).insert(key(s.last()), s.last())
    }
}

/// No two records of `s` share a key.
pub open spec fn keys_unique<K, T>(s: Seq<T>, key: spec_fn(T) -> K) -> bool {
    forall|i: int, j: int| 0 <= i < j < s.len() ==> key(s[i]) != key(s[j])
}

/// A key is in the map exactly when some record carries it.
pub proof fn lemma_keyed_dom<K, T>(s: Seq<T>, key: spec_fn(T) -> K, k: K)
    ensures
        keyed(s, key).contains_key(k) <==> exists|i: int| 0 <= i < s.len() && key(s[i]) == k,
    decreases s.len(),
{
    if s.len() > 0 {
        lemma_keyed_dom(s.drop_last(), key, k);
        if keyed(s, key).contains_key(k) && key(s.last()) != k {
            let i = choose|i: int| 0 <= i < s.len() - 1 && key(s.drop_last()[i]) == k;
            assert(key(s[i]) == k);
        }
        if exists|i: int| 0 <= i < s.len() && key(s[i]) == k {
            let i = choose|i: int| 0 <= i < s.len() && key(s[i]) == k;
            if i < s.len() - 1 {
                assert(key(s.drop_last()[i]) == k);
            }
        }
    }
}

/// Under unique keys, the map sends the key of record `i` to record `i`.
pub proof fn lemma_keyed_index<K, T>(s: Seq<T>, key: spec_fn(T) -> K, i: int)
    requires
        keys_unique(s, key),
        0 <= i < s.len(),
    ensures
        keyed(s, key).contains_key(key(s[i])),
        keyed(s, key)[key(s[i])] == s[i],
    decreases s.len(),
{
    if i < s.len() - 1 {
        let t = s.drop_last();
        assert(keys_unique(t, key));
        assert(t[i] == s[i]);
        lemma_keyed_index(t, key, i);
        assert(key(s[i]) != key(s[s.len() - 1]));
    }
}

/// Replacing a record by one with the same key updates that key alone.
pub proof fn lemma_keyed_update<K, T>(s: Seq<T>, key: spec_fn(T) -> K, i: int, e: T)
    requires
        keys_unique(s, key),
        0 <= i < s.len(),
        key(e) == key(s[i]),
    ensures
        keys_unique(s.update(i, e), key),
        keyed(s.update(i, e), key) == keyed(s, key).insert(key(e), e),
    decreases s.len(),
{
    let u = s.update(i, e);
    assert forall|a: int, b: int| 0 <= a < b < u.len() implies key(u[a]) != key(u[b]) by {
        assert(key(u[a]) == key(s[a]));
        assert(key(u[b]) == key(s[b]));
    }
    if i == s.len() - 1 {
        assert(u.drop_last() =~= s.drop_last());
        lemma_keyed_dom(s.drop_last(), key, key(e));
        assert(keyed(s, key).insert(key(e), e) =~= keyed(s.drop_last(), key).insert(key(e), e));
    } else {
        let t = s.drop_last();
        assert(keys_unique(t, key));
        assert(u.drop_last() =~= t.update(i, e));
        lemma_keyed_update(t, key, i, e);
        assert(key(s.last()) != key(e));
        assert(keyed(u, key) =~= keyed(s, key).insert(key(e), e));
    }
}

/// Appending a record with a new key keeps the keys unique.
pub proof fn lemma_keyed_push<K, T>(s: Seq<T>, key: spec_fn(T) -> K, e: T)
    requires
        keys_unique(s, key),
        !keyed(s, key).contains_key(key(e)),
    ensures
        keys_unique(s.push(e), key),
        keyed(s.push(e), key) == keyed(s, key).insert(key(e), e),
{
    lemma_keyed_dom(s, key, key(e));
    assert(s.push(e).drop_last() =~= s);
    let u = s.push(e);
    assert forall|a: int, b: int| 0 <= a < b < u.len() implies key(u[a]) != key(u[b]) by {
        if b == s.len() {
            assert(u[a] == s[a]);
        } else {
            assert(u[a] == s[a] && u[b] == s[b]);
        }
    }
}

/// The map of a prefix one longer.
pub proof fn lemma_keyed_take<K, T>(s: Seq<T>, key: spec_fn(T) -> K, i: int)
    requires
        0 <= i < s.len(),
    ensures
        keyed(s.take(i + 1), key) == keyed(s.take(i), key).insert(key(s[i]), s[i]),
{
    assert(s.take(i + 1).drop_last() =~= s.take(i));
}

/// Prefixes of a sequence with unique keys have unique keys.
pub proof fn lemma_unique_take<K, T>(s: Seq<T>, key: spec_fn(T) -> K, i: int)
    requires
        keys_unique(s, key),
        0 <= i <= s.len(),
    ensures
        keys_unique(s.take(i), key),
{
    assert forall|a: int, b: int| 0 <= a < b < s.take(i).len() implies key(s.take(i)[a]) != key(
        s.take(i)[b],
    ) by {
        assert(s.take(i)[a] == s[a] && s.take(i)[b] == s[b]);
    }
}

/// Removing the record of a key removes that key alone.
pub proof fn lemma_keyed_remove<K, T>(s: Seq<T>, key: spec_fn(T) -> K, i: int)
    requires
        keys_unique(s, key),
        0 <= i < s.len(),
    ensures
        keys_unique(s.remove(i), key),
        keyed(s.remove(i), key) == keyed(s, key).remove(key(s[i])),
    decreases s.len(),
{
    let u = s.remove(i);
    assert forall|a: int, b: int| 0 <= a < b < u.len() implies key(u[a]) != key(u[b]) by {
        let a0 = if a < i { a } else { a + 1 };
        let b0 = if b < i { b } else { b + 1 };
        assert(u[a] == s[a0] && u[b] == s[b0]);
    }
    if i == s.len() - 1 {
        assert(u =~= s.drop_last());
        lemma_keyed_dom(s.drop_last(), key, key(s[i]));
        assert(keyed(u, key) =~= keyed(s, key).remove(key(s[i])));
    } else {
        let t = s.drop_last();
        assert(keys_unique(t, key));
        assert(u.drop_last() =~= t.remove(i));
        assert(u.last() == s.last());
        lemma_keyed_remove(t, key, i);
        assert(key(s.last()) != key(s[i]));
        assert(keyed(u, key) =~= keyed(s, key).remove(key(s[i])));
    }
}

/// Under unique keys the map has one key per record.
pub proof fn lemma_keyed_len<K, T>(s: Seq<T>, key: spec_fn(T) -> K)
    requires
        keys_unique(s, key),
    ensures
        keyed(s, key).dom().finite(),
        keyed(s, key).dom().len() == s.len(),
    decreases s.len(),
{
    if s.len() > 0 {
        let t = s.drop_last();
        assert(keys_unique(t, key));
        lemma_keyed_len(t, key);
        lemma_keyed_dom(t, key, key(s.last()));
        if keyed(t, key).contains_key(key(s.last())) {
            let i = choose|i: int| 0 <= i < t.len() && key(t[i]) == key(s.last());
            assert(key(s[i]) == key(s[s.len() - 1]));
        }
    }
}

} // verus!
