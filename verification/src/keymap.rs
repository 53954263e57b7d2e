//! Association sequences: key-value pairs kept in insertion order with
//! unique keys, looked up by scanning from the front.
//!
//! Both layers of the record store are modelled this way: levels inside one
//! user's records, and users inside the store.

use vstd::prelude::*;

verus! {

/// The index of the first pair holding `key`, if any.
pub open spec fn find_key<K, V>(s: Seq<(K, V)>, key: K) -> Option<int>
    decreases s.len(),
{
    if s.len() == 0 {
        None
    } else if s[0].0 == key {
        Some(0)
    } else {
        match find_key(s.drop_first(), key) {
            None => None,
            Some(i) => Some(i + 1),
        }
    }
}

/// The value stored under `key`, if any.
pub open spec fn value_at<K, V>(s: Seq<(K, V)>, key: K) -> Option<V> {
    match find_key(s, key) {
        None => None,
        Some(i) => Some(s[i].1),
    }
}

/// No two pairs share a key.
pub open spec fn keys_unique<K, V>(s: Seq<(K, V)>) -> bool {
    forall|i: int, j: int| 0 <= i < j < s.len() ==> s[i].0 != s[j].0
}

/// Replace the value under `key` where the key is present, else append the
/// pair at the back.
pub open spec fn upsert<K, V>(s: Seq<(K, V)>, key: K, v: V) -> Seq<(K, V)> {
    match find_key(s, key) {
        Some(i) => s.update(i, (key, v)),
        None => s.push((key, v)),
    }
}

/// `find_key` lands on the first pair holding the key, or `None` exactly
/// when no pair holds it.
pub proof fn lemma_find_key<K, V>(s: Seq<(K, V)>, key: K)
    ensures
        match find_key(s, key) {
            Some(i) => 0 <= i < s.len() && s[i].0 == key && (forall|j: int|
                0 <= j < i ==> s[j].0 != key),
            None => forall|j: int| 0 <= j < s.len() ==> s[j].0 != key,
        },
    decreases s.len(),
{
    if s.len() > 0 && s[0].0 != key {
        lemma_find_key(s.drop_first(), key);
        match find_key(s.drop_first(), key) {
            Some(i) => {
                assert(s.drop_first()[i] == s[i + 1]);
                assert forall|j: int| 0 <= j < i + 1 implies s[j].0 != key by {
                    if j > 0 {
                        assert(s.drop_first()[j - 1] == s[j]);
                    }
                }
            },
            None => {
                assert forall|j: int| 0 <= j < s.len() implies s[j].0 != key by {
                    if j > 0 {
                        assert(s.drop_first()[j - 1] == s[j]);
                    }
                }
            },
        }
    }
}

/// When the first `i` pairs miss and pair `i` holds the key, the search
/// lands exactly on pair `i`.
pub proof fn lemma_find_key_at<K, V>(s: Seq<(K, V)>, key: K, i: int)
    requires
        0 <= i < s.len(),
        forall|j: int| 0 <= j < i ==> s[j].0 != key,
        s[i].0 == key,
    ensures
        find_key(s, key) == Some(i),
    decreases i,
{
    if i > 0 {
        assert forall|j: int| 0 <= j < i - 1 implies s.drop_first()[j].0 != key by {
            assert(s.drop_first()[j] == s[j + 1]);
        }
        assert(s.drop_first()[i - 1] == s[i]);
        lemma_find_key_at(s.drop_first(), key, i - 1);
    }
}

/// Two sequences with the same keys in the same places are searched alike.
pub proof fn lemma_find_key_same_keys<K, V>(s: Seq<(K, V)>, t: Seq<(K, V)>, key: K)
    requires
        s.len() == t.len(),
        forall|j: int| 0 <= j < s.len() ==> s[j].0 == t[j].0,
    ensures
        find_key(s, key) == find_key(t, key),
{
    lemma_find_key(s, key);
    lemma_find_key(t, key);
    match find_key(s, key) {
        Some(i) => {
            lemma_find_key_at(t, key, i);
        },
        None => {
            if find_key(t, key) is Some {
                let i = find_key(t, key)->Some_0;
            }
        },
    }
}

/// Writing `(key, v)` over the slot already holding `key` changes that
/// key's value and no other lookup.
pub proof fn lemma_update_key<K, V>(s: Seq<(K, V)>, i: int, key: K, v: V)
    requires
        keys_unique(s),
        0 <= i < s.len(),
        s[i].0 == key,
    ensures
        keys_unique(s.update(i, (key, v))),
        value_at(s.update(i, (key, v)), key) == Some(v),
        forall|k2: K| k2 != key ==> value_at(s.update(i, (key, v)), k2) == value_at(s, k2),
{
    let u = s.update(i, (key, v));
    assert(forall|j: int| 0 <= j < s.len() ==> u[j].0 == s[j].0);
    lemma_find_key_same_keys(s, u, key);
    lemma_find_key(s, key);
    match find_key(s, key) {
        Some(i0) => {
            assert(i0 == i);
        },
        None => {
            assert(false);
        },
    }
    assert forall|k2: K| k2 != key implies value_at(u, k2) == value_at(s, k2) by {
        lemma_find_key_same_keys(s, u, k2);
        lemma_find_key(s, k2);
        match find_key(s, k2) {
            Some(j) => {
                assert(u[j] == s[j]);
            },
            None => {},
        }
    }
}

/// Appending a fresh key adds exactly that lookup and disturbs no other.
pub proof fn lemma_push_key<K, V>(s: Seq<(K, V)>, key: K, v: V)
    requires
        keys_unique(s),
        find_key(s, key) is None,
    ensures
        keys_unique(s.push((key, v))),
        value_at(s.push((key, v)), key) == Some(v),
        forall|k2: K| k2 != key ==> value_at(s.push((key, v)), k2) == value_at(s, k2),
{
    let u = s.push((key, v));
    lemma_find_key(s, key);
    lemma_find_key_at(u, key, s.len() as int);
    assert forall|k2: K| k2 != key implies value_at(u, k2) == value_at(s, k2) by {
        lemma_find_key(s, k2);
        match find_key(s, k2) {
            Some(j) => {
                assert(u[j] == s[j]);
                lemma_find_key_at(u, k2, j);
            },
            None => {
                lemma_find_key(u, k2);
                if find_key(u, k2) is Some {
                    let j = find_key(u, k2)->Some_0;
                    assert(u[j].0 == k2);
                    assert(j == s.len() ==> u[j].0 == key);
                }
            },
        }
    }
    assert forall|i: int, j: int| 0 <= i < j < u.len() implies u[i].0 != u[j].0 by {
        if j < s.len() {
        } else {
            assert(u[j].0 == key);
            assert(s[i].0 != key);
        }
    }
}

/// What `upsert` does to every lookup: the upserted key now holds the new
/// value, every other key is untouched, and keys stay unique.
pub proof fn lemma_upsert<K, V>(s: Seq<(K, V)>, key: K, v: V)
    requires
        keys_unique(s),
    ensures
        keys_unique(upsert(s, key, v)),
        value_at(upsert(s, key, v), key) == Some(v),
        forall|k2: K| k2 != key ==> value_at(upsert(s, key, v), k2) == value_at(s, k2),
        upsert(s, key, v).len() == if find_key(s, key) is Some {
            s.len() as int
        } else {
            s.len() + 1 as int
        },
        forall|j: int| 0 <= j < s.len() ==> #[trigger] upsert(s, key, v)[j].0 == s[j].0,
{
    lemma_find_key(s, key);
    match find_key(s, key) {
        Some(i) => {
            lemma_update_key(s, i, key, v);
        },
        None => {
            lemma_push_key(s, key, v);
        },
    }
}

} // verus!
