//! Entries filed under hashes and keys, seen as entries under keys alone.
use crate::hashing::{hashes_alike, hashes_to};
use crate::model::{
    lawful_key, lemma_lawful_pair, lemma_put, lemma_stored_key, lemma_without, lookup, put,
    stored_key, unique_keys, without,
};
use std::hash::{BuildHasher, Hash};
use vstd::prelude::*;
use vstd::std_specs::cmp::PartialEqSpec;

verus! {

/// The entries of `m` under their keys alone.
pub open spec fn by_key<K, V>(m: Map<(u64, K), V>) -> Map<K, V> {
    Map::new(
        |k: K| exists|h: u64| #[trigger] m.contains_key((h, k)),
        |k: K| m[(choose|h: u64| #[trigger] m.contains_key((h, k)), k)],
    )
}

/// Whether each key of `m` comes with a hash that `hasher` gives it.
pub open spec fn filed_by<K: Hash, V, S: BuildHasher>(hasher: S, m: Map<(u64, K), V>) -> bool {
    forall|p: (u64, K)| #[trigger] m.contains_key(p) ==> hashes_to(hasher, p.1, p.0)
}

/// Where equal keys have one hash, the hashes of the entries can be dropped: the
/// same entries stay, under keys that are not equal.
pub(crate) proof fn lemma_by_key<K: Hash + PartialEq, V, S: BuildHasher>(
    hasher: S,
    m: Map<(u64, K), V>,
)
    requires
        lawful_key::<K>(),
        hashes_alike::<K, S>(hasher),
        filed_by(hasher, m),
        unique_keys(m),
    ensures
        forall|p: (u64, K)| #[trigger]
            m.contains_key(p) ==> by_key(m).contains_key(p.1) && by_key(m)[p.1] == m[p],
        unique_keys(by_key(m)),
        m.dom().finite() ==> by_key(m).dom().finite() && by_key(m).len() == m.len(),
{
    assert forall|p: (u64, K)| #[trigger] m.contains_key(p) implies by_key(m).contains_key(p.1)
        && by_key(m)[p.1] == m[p] by {
        assert(m.contains_key((p.0, p.1)));
        let h = choose|h: u64| #[trigger] m.contains_key((h, p.1));
        assert(m.contains_key((h, p.1)));
        assert(p.1.eq_spec(&p.1));
        assert(hashes_to(hasher, p.1, h));
    }
    let b = by_key(m);
    assert forall|j: K, k: K| #[trigger]
        b.contains_key(j) && #[trigger] b.contains_key(k) && j.eq_spec(&k) implies j == k by {
        let g = choose|g: u64| #[trigger] m.contains_key((g, j));
        let h = choose|h: u64| #[trigger] m.contains_key((h, k));
        assert(m.contains_key((g, j)) && m.contains_key((h, k)));
        assert((g, j).eq_spec(&(h, k)));
    }
    if m.dom().finite() {
        let last = |p: (u64, K)| p.1;
        assert(b.dom() =~= m.dom().map(last)) by {
            assert forall|k: K| b.dom().contains(k) implies m.dom().map(last).contains(k) by {
                let h = choose|h: u64| #[trigger] m.contains_key((h, k));
                assert(m.dom().contains((h, k)) && last((h, k)) == k);
            }
        }
        m.dom().lemma_map_finite(last);
        assert forall|p: (u64, K), q: (u64, K)|
            m.dom().contains(p) && m.dom().contains(q) && #[trigger] last(p) == #[trigger] last(
                q,
            ) implies p == q by {
            assert(p.1.eq_spec(&p.1));
            assert(hashes_to(hasher, p.1, p.0) && hashes_to(hasher, q.1, q.0));
        }
        vstd::set_lib::lemma_map_size(m.dom(), b.dom(), last);
    }
}

/// Where equal keys have one hash, a key is looked up and taken out under its
/// hash as it is without.
pub(crate) proof fn lemma_by_key_without<K: Hash + PartialEq, V, S: BuildHasher>(
    hasher: S,
    m: Map<(u64, K), V>,
    hash: u64,
    key: K,
)
    requires
        lawful_key::<K>(),
        hashes_alike::<K, S>(hasher),
        filed_by(hasher, m),
        unique_keys(m),
        hashes_to(hasher, key, hash),
    ensures
        stored_key(by_key(m), key) == (match stored_key(m, (hash, key)) {
            Some(p) => Some(p.1),
            None => None,
        }),
        lookup(by_key(m), key) == lookup(m, (hash, key)),
        filed_by(hasher, without(m, (hash, key))),
        by_key(without(m, (hash, key))) == without(by_key(m), key),
{
    let q = (hash, key);
    lemma_lawful_pair::<K>();
    lemma_by_key(hasher, m);
    match stored_key(m, q) {
        Some(p) => {
            assert(m.contains_key(p) && p.eq_spec(&q));
            lemma_stored_key(by_key(m), p.1, key);
        },
        None => {
            assert forall|k: K| #[trigger] by_key(m).contains_key(k) implies !k.eq_spec(&key) by {
                let h = choose|h: u64| #[trigger] m.contains_key((h, k));
                assert(m.contains_key((h, k)));
                assert(hashes_to(hasher, k, h));
                if k.eq_spec(&key) {
                    assert((h, k).eq_spec(&q));
                }
            }
        },
    }
    let w = without(m, q);
    lemma_without(m, q);
    lemma_by_key(hasher, w);
    assert forall|k: K| by_key(w).contains_key(k) <==> without(by_key(m), key).contains_key(k) by {
        if by_key(w).contains_key(k) {
            let h = choose|h: u64| #[trigger] w.contains_key((h, k));
            assert(w.contains_key((h, k)));
            assert(m.contains_key((h, k)));
            assert(hashes_to(hasher, k, h));
        }
        if without(by_key(m), key).contains_key(k) {
            let h = choose|h: u64| #[trigger] m.contains_key((h, k));
            assert(m.contains_key((h, k)));
            assert(w.contains_key((h, k)));
        }
    }
    assert forall|k: K| #[trigger] by_key(w).contains_key(k) implies by_key(w)[k] == by_key(
        m,
    )[k] by {
        let h = choose|h: u64| #[trigger] w.contains_key((h, k));
        assert(w.contains_key((h, k)) && m.contains_key((h, k)));
    }
    assert(by_key(w) =~= without(by_key(m), key));
}

/// Where equal keys have one hash, an entry is put in under its hash as it is
/// without.
pub(crate) proof fn lemma_by_key_put<K: Hash + PartialEq, V, S: BuildHasher>(
    hasher: S,
    m: Map<(u64, K), V>,
    hash: u64,
    key: K,
    value: V,
)
    requires
        lawful_key::<K>(),
        hashes_alike::<K, S>(hasher),
        filed_by(hasher, m),
        unique_keys(m),
        hashes_to(hasher, key, hash),
    ensures
        filed_by(hasher, put(m, (hash, key), value)),
        by_key(put(m, (hash, key), value)) == put(by_key(m), key, value),
{
    let q = (hash, key);
    let w = without(m, q);
    let p = put(m, q, value);
    lemma_lawful_pair::<K>();
    lemma_by_key_without(hasher, m, hash, key);
    lemma_without(m, q);
    lemma_put(m, q, value);
    lemma_by_key(hasher, w);
    lemma_by_key(hasher, p);
    assert forall|k: K| by_key(p).contains_key(k) <==> put(by_key(m), key, value).contains_key(
        k,
    ) by {
        if by_key(p).contains_key(k) && k != key {
            let h = choose|h: u64| #[trigger] p.contains_key((h, k));
            assert(p.contains_key((h, k)));
            assert(w.contains_key((h, k)));
            assert(by_key(w).contains_key(k));
        }
        if by_key(w).contains_key(k) {
            let h = choose|h: u64| #[trigger] w.contains_key((h, k));
            assert(w.contains_key((h, k)) && p.contains_key((h, k)));
        }
        assert(p.contains_key(q));
    }
    assert forall|k: K| #[trigger] by_key(p).contains_key(k) implies by_key(p)[k] == put(
        by_key(m),
        key,
        value,
    )[k] by {
        let h = choose|h: u64| #[trigger] p.contains_key((h, k));
        assert(p.contains_key((h, k)));
        if k != key {
            assert(w.contains_key((h, k)) && by_key(w).contains_key(k));
        } else {
            assert(p.contains_key(q));
        }
    }
    assert(by_key(p) =~= put(by_key(m), key, value));
}

/// Where equal keys have one hash, the value of an entry changes under its hash
/// as it does without.
pub(crate) proof fn lemma_by_key_insert<K: Hash + PartialEq, V, S: BuildHasher>(
    hasher: S,
    m: Map<(u64, K), V>,
    stored: (u64, K),
    value: V,
)
    requires
        lawful_key::<K>(),
        hashes_alike::<K, S>(hasher),
        filed_by(hasher, m),
        unique_keys(m),
        m.contains_key(stored),
    ensures
        by_key(m.insert(stored, value)) == by_key(m).insert(stored.1, value),
{
    lemma_lawful_pair::<K>();
    assert(stored.eq_spec(&stored));
    assert(hashes_to(hasher, stored.1, stored.0));
    lemma_by_key(hasher, m);
    lemma_by_key_put(hasher, m, stored.0, stored.1, value);
    assert(put(m, stored, value) =~= m.insert(stored, value));
    assert(put(by_key(m), stored.1, value) =~= by_key(m).insert(stored.1, value));
}

} // verus!
