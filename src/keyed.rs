//! Tables held as vectors of entries with unique keys, and the map that such
//! a vector stands for.

use vstd::prelude::*;

verus! {

/// The map that a sequence of entries stands for: each entry's value under
/// its key, a later entry overriding an earlier one with the same key.
pub open spec fn keyed<K, V, W>(s: Seq<V>, key: spec_fn(V) -> K, val: spec_fn(V) -> W) -> Map<K, W>
    decreases s.len(),
{
    if s.len() == 0 {
        Map::empty()
    } else {
        keyed(s.drop_last(), key, val).insert(key(s.last()), val(s.last()))
    }
}

/// No two entries share a key.
pub open spec fn unique_keys<K, V>(s: Seq<V>, key: spec_fn(V) -> K) -> bool {
    forall|i: int, j: int| 0 <= i < s.len() && 0 <= j < s.len() && i != j ==> key(s[i]) != key(s[j])
}

/// The keys of the map are the keys of the entries, and with unique keys each
/// entry's value stands under its key.
pub proof fn lemma_keyed<K, V, W>(s: Seq<V>, key: spec_fn(V) -> K, val: spec_fn(V) -> W)
    ensures
        forall|k: K|
            #[trigger] keyed(s, key, val).contains_key(k) <==> exists|i: int| 0 <= i < s.len() && key(s[i]) == k,
        unique_keys(s, key) ==> forall|i: int|
            0 <= i < s.len() ==> #[trigger] keyed(s, key, val)[key(s[i])] == val(s[i]),
    decreases s.len(),
{
    if s.len() > 0 {
        let t = s.drop_last();
        lemma_keyed(t, key, val);
        assert forall|k: K| #[trigger] keyed(s, key, val).contains_key(k) <==> exists|i: int|
            0 <= i < s.len() && key(s[i]) == k by {
            if keyed(s, key, val).contains_key(k) && k != key(s.last()) {
                assert(keyed(t, key, val).contains_key(k));
                let i = choose|i: int| 0 <= i < t.len() && key(t[i]) == k;
                assert(t[i] == s[i]);
            }
            if exists|i: int| 0 <= i < s.len() && key(s[i]) == k {
                let i = choose|i: int| 0 <= i < s.len() && key(s[i]) == k;
                if i < s.len() - 1 {
                    assert(t[i] == s[i]);
                    assert(keyed(t, key, val).contains_key(k));
                }
            }
        }
        if unique_keys(s, key) {
            assert(unique_keys(t, key)) by {
                assert forall|a: int, b: int|
                    0 <= a < t.len() && 0 <= b < t.len() && a != b implies key(t[a]) != key(t[b]) by {
                    assert(t[a] == s[a] && t[b] == s[b]);
                }
            }
            assert forall|i: int| 0 <= i < s.len() implies #[trigger] keyed(s, key, val)[key(s[i])] == val(
                s[i],
            ) by {
                if i < s.len() - 1 {
                    assert(t[i] == s[i]);
                    assert(key(s[i]) != key(s[s.len() - 1]));
                    assert(keyed(t, key, val)[key(t[i])] == val(t[i]));
                }
            }
        }
    }
}

/// Appending an entry with a fresh key inserts it into the map.
pub proof fn lemma_keyed_push<K, V, W>(s: Seq<V>, key: spec_fn(V) -> K, val: spec_fn(V) -> W, v: V)
    ensures
        keyed(s.push(v), key, val) == keyed(s, key, val).insert(key(v), val(v)),
{
    assert(s.push(v).drop_last() =~= s);
}

/// Replacing an entry by one with the same key updates the map at that key.
pub proof fn lemma_keyed_update<K, V, W>(
    s: Seq<V>,
    key: spec_fn(V) -> K,
    val: spec_fn(V) -> W,
    i: int,
    v: V,
)
    requires
        unique_keys(s, key),
        0 <= i < s.len(),
        key(v) == key(s[i]),
    ensures
        unique_keys(s.update(i, v), key),
        keyed(s.update(i, v), key, val) == keyed(s, key, val).insert(key(v), val(v)),
{
    let u = s.update(i, v);
    assert(unique_keys(u, key)) by {
        assert forall|a: int, b: int| 0 <= a < u.len() && 0 <= b < u.len() && a != b implies key(u[a])
            != key(u[b]) by {
            assert(key(u[a]) == key(s[a]) && key(u[b]) == key(s[b]));
        }
    }
    lemma_keyed(s, key, val);
    lemma_keyed(u, key, val);
    let m = keyed(s, key, val).insert(key(v), val(v));
    assert forall|k: K| #[trigger] keyed(u, key, val).contains_key(k) <==> m.contains_key(k) by {
        if exists|j: int| 0 <= j < u.len() && key(u[j]) == k {
            let j = choose|j: int| 0 <= j < u.len() && key(u[j]) == k;
            assert(key(s[j]) == k);
        }
        if exists|j: int| 0 <= j < s.len() && key(s[j]) == k {
            let j = choose|j: int| 0 <= j < s.len() && key(s[j]) == k;
            assert(key(u[j]) == k);
        }
    }
    assert forall|k: K| #[trigger] keyed(u, key, val).contains_key(k) implies keyed(u, key, val)[k]
        == m[k] by {
        let j = choose|j: int| 0 <= j < u.len() && key(u[j]) == k;
        if j != i {
            assert(u[j] == s[j]);
        }
    }
    assert(keyed(u, key, val) =~= m);
}

/// Taking out an entry removes its key from the map.
pub proof fn lemma_keyed_remove<K, V, W>(s: Seq<V>, key: spec_fn(V) -> K, val: spec_fn(V) -> W, i: int)
    requires
        unique_keys(s, key),
        0 <= i < s.len(),
    ensures
        unique_keys(s.remove(i), key),
        keyed(s.remove(i), key, val) == keyed(s, key, val).remove(key(s[i])),
{
    let u = s.remove(i);
    assert(forall|j: int| 0 <= j < i ==> u[j] == s[j]);
    assert(forall|j: int| i <= j < u.len() ==> u[j] == s[j + 1]);
    assert(unique_keys(u, key)) by {
        assert forall|a: int, b: int| 0 <= a < u.len() && 0 <= b < u.len() && a != b implies key(u[a])
            != key(u[b]) by {
            let a2 = if a < i { a } else { a + 1 };
            let b2 = if b < i { b } else { b + 1 };
            assert(u[a] == s[a2] && u[b] == s[b2]);
        }
    }
    lemma_keyed(s, key, val);
    lemma_keyed(u, key, val);
    let m = keyed(s, key, val).remove(key(s[i]));
    assert forall|k: K| #[trigger] keyed(u, key, val).contains_key(k) <==> m.contains_key(k) by {
        if exists|j: int| 0 <= j < u.len() && key(u[j]) == k {
            let j = choose|j: int| 0 <= j < u.len() && key(u[j]) == k;
            let j2 = if j < i { j } else { j + 1 };
            assert(u[j] == s[j2]);
        }
        if m.contains_key(k) {
            let j = choose|j: int| 0 <= j < s.len() && key(s[j]) == k;
            assert(j != i);
            let j2 = if j < i { j } else { j - 1 };
            assert(u[j2] == s[j]);
        }
    }
    assert forall|k: K| #[trigger] keyed(u, key, val).contains_key(k) implies keyed(u, key, val)[k]
        == m[k] by {
        let j = choose|j: int| 0 <= j < u.len() && key(u[j]) == k;
        let j2 = if j < i { j } else { j + 1 };
        assert(u[j] == s[j2]);
    }
    assert(keyed(u, key, val) =~= m);
}

} // verus!
