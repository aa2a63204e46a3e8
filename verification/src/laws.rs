//! What holds of maps, sets and shards as a whole.
//!
//! The contents of a map change by [`put`] and [`without`] and are read by
//! [`lookup`]; those of a set change by [`set_put`] and [`set_without`] and are
//! read by [`holds`]. The laws relate these to each other, and to the shards.
use crate::hashing::hashes_to;
use crate::keyed::lemma_by_key;
use crate::layout::{
    lemma_four_is_pow2, lemma_parts, lemma_pow2_gap, lemma_shard_index, lemma_trailing_zeros,
    shard_index, suits_parallelism,
};
use crate::model::{
    holds, lawful_key, lemma_dom, lemma_lawful_pair, lemma_put, lemma_stored_key,
    lemma_to_map_holds, lemma_without, lookup, put, set_put, set_without, stored_key, unique_keys,
    without,
};
use crate::shard::Shard;
use crate::shard_map::ShardMap;
use crate::shard_set::ShardSet;
use crate::sharding::{
    all_entries, filed_with, lemma_count, lemma_values_change, only_shard_changes,
    only_values_change, route, sum_of_lens, views,
};
use std::hash::{BuildHasher, Hash};
use vstd::arithmetic::div_mod::{
    lemma_div_multiples_vanish, lemma_fundamental_div_mod, lemma_mod_bound,
    lemma_mod_multiples_vanish, lemma_small_mod,
};
use vstd::arithmetic::mul::lemma_mul_is_commutative;
use vstd::arithmetic::power::pow;
use vstd::arithmetic::power2::{
    is_pow2, is_pow2_equiv, lemma2_to64, lemma_pow2, lemma_pow2_adds, lemma_pow2_pos,
    lemma_pow2_strictly_increases, lemma_pow2_unfold, pow2,
};
use vstd::layout::unsigned_int_max_values;
use vstd::prelude::*;
use vstd::std_specs::bits::u64_trailing_zeros;
use vstd::std_specs::cmp::PartialEqSpec;

verus! {

/// A lookup finds what was put in last under an equal key, and what was there
/// before under any other.
pub proof fn law_lookup_after_put<Q: PartialEq, V>(m: Map<Q, V>, key: Q, value: V, other: Q)
    requires
        lawful_key::<Q>(),
        unique_keys(m),
    ensures
        other.eq_spec(&key) ==> stored_key(put(m, key, value), other) == Some(key),
        other.eq_spec(&key) ==> lookup(put(m, key, value), other) == Some(value),
        !other.eq_spec(&key) ==> stored_key(put(m, key, value), other) == stored_key(m, other),
        !other.eq_spec(&key) ==> lookup(put(m, key, value), other) == lookup(m, other),
{
    let p = put(m, key, value);
    lemma_put(m, key, value);
    if other.eq_spec(&key) {
        assert(key.eq_spec(&other));
        lemma_stored_key(p, key, other);
    } else {
        match stored_key(m, other) {
            Some(k) => {
                assert(m.contains_key(k) && k.eq_spec(&other));
                assert(other.eq_spec(&k));
                assert(!k.eq_spec(&key));
                lemma_stored_key(p, k, other);
            },
            None => {
                assert forall|k: Q| #[trigger] p.contains_key(k) implies !k.eq_spec(&other) by {
                    if k == key {
                        assert(key.eq_spec(&other) ==> other.eq_spec(&key));
                    } else {
                        assert(m.contains_key(k));
                    }
                }
            },
        }
    }
}

/// A lookup finds nothing under the key of an entry that was taken out, and what
/// was there before under any other.
pub proof fn law_lookup_after_without<Q: PartialEq, V>(m: Map<Q, V>, key: Q, other: Q)
    requires
        lawful_key::<Q>(),
        unique_keys(m),
    ensures
        other.eq_spec(&key) ==> stored_key(without(m, key), other) is None,
        !other.eq_spec(&key) ==> stored_key(without(m, key), other) == stored_key(m, other),
        !other.eq_spec(&key) ==> lookup(without(m, key), other) == lookup(m, other),
{
    let w = without(m, key);
    lemma_without(m, key);
    if other.eq_spec(&key) {
        assert forall|k: Q| #[trigger] w.contains_key(k) implies !k.eq_spec(&other) by {
            assert(!k.eq_spec(&key));
        }
    } else {
        match stored_key(m, other) {
            Some(k) => {
                assert(m.contains_key(k) && k.eq_spec(&other));
                assert(other.eq_spec(&k));
                assert(!k.eq_spec(&key));
                lemma_stored_key(w, k, other);
            },
            None => {
                assert forall|k: Q| #[trigger] w.contains_key(k) implies !k.eq_spec(&other) by {
                    assert(m.contains_key(k));
                }
            },
        }
    }
}

/// A lookup finds the changed value under the key of an entry that was changed in
/// place, and what was there before under any other.
pub proof fn law_lookup_after_change<Q: PartialEq, V>(m: Map<Q, V>, key: Q, value: V, other: Q)
    requires
        lawful_key::<Q>(),
        unique_keys(m),
        stored_key(m, key) is Some,
    ensures
        ({
            let after = m.insert(stored_key(m, key)->0, value);
            &&& unique_keys(after)
            &&& stored_key(after, other) == stored_key(m, other)
            &&& other.eq_spec(&key) ==> lookup(after, other) == Some(value)
            &&& !other.eq_spec(&key) ==> lookup(after, other) == lookup(m, other)
        }),
{
    let k = stored_key(m, key)->0;
    let after = m.insert(k, value);
    assert(m.contains_key(k) && k.eq_spec(&key));
    assert(after.dom() =~= m.dom());
    assert forall|a: Q, b: Q| #[trigger]
        after.contains_key(a) && #[trigger] after.contains_key(b) && a.eq_spec(&b) implies a
        == b by {
        assert(m.contains_key(a) && m.contains_key(b));
    }
    match stored_key(m, other) {
        Some(j) => {
            assert(m.contains_key(j) && j.eq_spec(&other));
            assert(after.contains_key(j));
            lemma_stored_key(after, j, other);
            if other.eq_spec(&key) {
                assert(j.eq_spec(&key));
                assert(key.eq_spec(&k));
                assert(j.eq_spec(&k));
            } else if j == k {
                assert(other.eq_spec(&j));
            }
        },
        None => {
            assert forall|j: Q| #[trigger] after.contains_key(j) implies !j.eq_spec(&other) by {
                assert(m.contains_key(j));
            }
            if other.eq_spec(&key) {
                assert(key.eq_spec(&other));
                assert(k.eq_spec(&other));
            }
        },
    }
}

/// Putting in, taking out and changing entries keeps the keys of a map apart. Its
/// size grows by one for a new key, and shrinks by one for a key that it has.
pub proof fn law_sizes<Q: PartialEq, V>(m: Map<Q, V>, key: Q, value: V)
    requires
        lawful_key::<Q>(),
        unique_keys(m),
        m.dom().finite(),
    ensures
        unique_keys(put(m, key, value)),
        unique_keys(without(m, key)),
        put(m, key, value).dom().finite(),
        without(m, key).dom().finite(),
        put(m, key, value).len() == m.len() + (if stored_key(m, key) is Some {
            0int
        } else {
            1int
        }),
        without(m, key).len() == m.len() - (if stored_key(m, key) is Some {
            1int
        } else {
            0int
        }),
{
    lemma_put(m, key, value);
    lemma_without(m, key);
}

/// Of two entries put in under equal keys, the second alone stays.
pub proof fn law_put_overwrites<Q: PartialEq, V>(m: Map<Q, V>, a: Q, v: V, b: Q, w: V)
    requires
        lawful_key::<Q>(),
        a.eq_spec(&b),
    ensures
        put(put(m, a, v), b, w) == put(m, b, w),
{
    assert forall|k: Q| k.eq_spec(&a) == k.eq_spec(&b) by {
        if k.eq_spec(&b) {
            assert(b.eq_spec(&a));
        }
    }
    assert(put(put(m, a, v), b, w) =~= put(m, b, w));
}

/// Taking out an entry with a new key undoes putting it in.
pub proof fn law_without_undoes_put<Q: PartialEq, V>(m: Map<Q, V>, key: Q, value: V)
    requires
        lawful_key::<Q>(),
        stored_key(m, key) is None,
    ensures
        without(put(m, key, value), key) == m,
{
    assert(key.eq_spec(&key));
    assert(without(put(m, key, value), key) =~= m);
}

/// Putting an entry back in undoes taking it out.
pub proof fn law_put_undoes_without<Q: PartialEq, V>(m: Map<Q, V>, key: Q)
    requires
        lawful_key::<Q>(),
        unique_keys(m),
        stored_key(m, key) is Some,
    ensures
        put(without(m, key), stored_key(m, key)->0, lookup(m, key)->0) == m,
{
    let k = stored_key(m, key)->0;
    assert(m.contains_key(k) && k.eq_spec(&key));
    assert forall|j: Q| #[trigger] m.contains_key(j) && j != k implies !j.eq_spec(&k)
        && !j.eq_spec(&key) by {
        if j.eq_spec(&key) {
            lemma_stored_key(m, j, key);
        }
    }
    assert(put(without(m, key), k, m[k]) =~= m);
}

/// An entry that was put in under a new key can be taken out once: this gives back
/// its value and what was there before, and taking it out again changes nothing.
pub proof fn law_put_then_without<Q: PartialEq, V>(m: Map<Q, V>, key: Q, value: V)
    requires
        lawful_key::<Q>(),
        unique_keys(m),
        stored_key(m, key) is None,
    ensures
        lookup(put(m, key, value), key) == Some(value),
        without(put(m, key, value), key) == m,
        lookup(m, key) is None,
        without(m, key) == m,
{
    assert(key.eq_spec(&key));
    law_lookup_after_put(m, key, value, key);
    law_without_undoes_put(m, key, value);
    law_without_twice(put(m, key, value), key);
}

/// In an empty map nothing is found, and nothing can be taken out of it.
pub proof fn law_empty<Q: PartialEq, V>(key: Q)
    ensures
        stored_key(Map::<Q, V>::empty(), key) is None,
        lookup(Map::<Q, V>::empty(), key) is None,
        without(Map::<Q, V>::empty(), key) == Map::<Q, V>::empty(),
{
    assert(without(Map::<Q, V>::empty(), key) =~= Map::<Q, V>::empty());
}

/// Taking out an entry twice is taking it out once.
pub proof fn law_without_twice<Q: PartialEq, V>(m: Map<Q, V>, key: Q)
    ensures
        without(without(m, key), key) == without(m, key),
{
    assert(without(without(m, key), key) =~= without(m, key));
}

/// Entries whose keys are not equal go in and out in any order.
pub proof fn law_different_keys_commute<Q: PartialEq, V>(m: Map<Q, V>, a: Q, v: V, b: Q, w: V)
    requires
        lawful_key::<Q>(),
        !a.eq_spec(&b),
    ensures
        put(put(m, a, v), b, w) == put(put(m, b, w), a, v),
        without(put(m, a, v), b) == put(without(m, b), a, v),
        without(without(m, a), b) == without(without(m, b), a),
{
    assert(!b.eq_spec(&a));
    assert(put(put(m, a, v), b, w) =~= put(put(m, b, w), a, v));
    assert(without(put(m, a, v), b) =~= put(without(m, b), a, v));
    assert(without(without(m, a), b) =~= without(without(m, b), a));
}

/// Any type whose `==` is an equivalence that contracts can speak of has lawful
/// keys.
pub proof fn law_equivalence_is_lawful<Q: PartialEq>()
    requires
        Q::obeys_eq_spec(),
        forall|a: Q| #[trigger] a.eq_spec(&a),
        forall|a: Q, b: Q| #[trigger] a.eq_spec(&b) ==> b.eq_spec(&a),
        forall|a: Q, b: Q, c: Q| #[trigger]
            a.eq_spec(&b) && #[trigger] b.eq_spec(&c) ==> a.eq_spec(&c),
    ensures
        lawful_key::<Q>(),
{
}

/// After an entry was put in, its key is there with its value. Of the other keys
/// those that are not equal to it are there as before, and no more. After an entry
/// was taken out, the same holds but for its key.
pub proof fn law_other_entries_stay<Q: PartialEq, V>(m: Map<Q, V>, key: Q, value: V, other: Q)
    requires
        lawful_key::<Q>(),
    ensures
        put(m, key, value).contains_key(key),
        put(m, key, value)[key] == value,
        other != key ==> (put(m, key, value).contains_key(other) <==> m.contains_key(other)
            && !other.eq_spec(&key)),
        put(m, key, value).contains_key(other) && other != key ==> put(m, key, value)[other]
            == m[other],
        without(m, key).contains_key(other) <==> m.contains_key(other) && !other.eq_spec(&key),
        without(m, key).contains_key(other) ==> without(m, key)[other] == m[other],
{
}

/// A key is found if and only if a key of the map equals it. What is found is the
/// value of such a key.
pub proof fn law_lookup_finds<Q: PartialEq, V>(m: Map<Q, V>, stored: Q, key: Q)
    requires
        lawful_key::<Q>(),
        unique_keys(m),
    ensures
        m.contains_key(stored) && stored.eq_spec(&key) ==> stored_key(m, key) == Some(stored)
            && lookup(m, key) == Some(m[stored]),
        (forall|k: Q| #[trigger] m.contains_key(k) ==> !k.eq_spec(&key)) ==> stored_key(
            m,
            key,
        ) is None && lookup(m, key) is None,
{
    if m.contains_key(stored) && stored.eq_spec(&key) {
        lemma_stored_key(m, stored, key);
    }
}

/// Where `==` is identity, entries go in and out, and are read, as in a plain
/// map.
pub proof fn law_plain_keys<Q: PartialEq, V>(m: Map<Q, V>, key: Q, value: V)
    requires
        forall|a: Q, b: Q| #[trigger] a.eq_spec(&b) == (a == b),
    ensures
        put(m, key, value) == m.insert(key, value),
        without(m, key) == m.remove(key),
        stored_key(m, key) == (if m.contains_key(key) {
            Some(key)
        } else {
            None
        }),
        lookup(m, key) == (if m.contains_key(key) {
            Some(m[key])
        } else {
            None
        }),
{
    assert(key.eq_spec(&key));
    assert(put(m, key, value) =~= m.insert(key, value));
    assert(without(m, key) =~= m.remove(key));
}

/// Where `==` is identity, values go in and out, and are looked for, as in a plain
/// set.
pub proof fn law_plain_values<Q: PartialEq>(s: Set<Q>, value: Q)
    requires
        forall|a: Q, b: Q| #[trigger] a.eq_spec(&b) == (a == b),
    ensures
        set_put(s, value) == s.insert(value),
        set_without(s, value) == s.remove(value),
        holds(s, value) == s.contains(value),
{
    assert(value.eq_spec(&value));
    assert(set_put(s, value) =~= s.insert(value));
    assert(set_without(s, value) =~= s.remove(value));
}

/// A set has a value after it was put in and not after it was taken out, and any
/// other as before.
pub proof fn law_set_membership<Q: PartialEq>(s: Set<Q>, value: Q, other: Q)
    requires
        lawful_key::<Q>(),
    ensures
        holds(set_put(s, value), other) == (other.eq_spec(&value) || holds(s, other)),
        holds(set_without(s, value), other) == (!other.eq_spec(&value) && holds(s, other)),
{
    let p = set_put(s, value);
    let w = set_without(s, value);
    assert(p.contains(value));
    if holds(s, other) {
        let k = choose|k: Q| #[trigger] s.contains(k) && k.eq_spec(&other);
        assert(s.contains(k) && k.eq_spec(&other));
        assert(other.eq_spec(&k));
        if other.eq_spec(&value) {
            assert(value.eq_spec(&other));
        } else {
            assert(!k.eq_spec(&value));
            assert(w.contains(k) && p.contains(k));
        }
    } else if other.eq_spec(&value) {
        assert(value.eq_spec(&other));
    }
    if holds(p, other) {
        let k = choose|k: Q| #[trigger] p.contains(k) && k.eq_spec(&other);
        assert(p.contains(k) && k.eq_spec(&other));
        if k == value {
            assert(other.eq_spec(&value));
        } else {
            assert(s.contains(k));
        }
    }
    if holds(w, other) {
        let k = choose|k: Q| #[trigger] w.contains(k) && k.eq_spec(&other);
        assert(w.contains(k) && k.eq_spec(&other));
        assert(s.contains(k) && !k.eq_spec(&value));
    }
}

/// After a value was put in, it is there. Of the other values those that are not
/// equal to it are there as before, and no more. After a value was taken out, the
/// same holds but for the value.
pub proof fn law_other_values_stay<Q: PartialEq>(s: Set<Q>, value: Q, other: Q)
    requires
        lawful_key::<Q>(),
    ensures
        set_put(s, value).contains(value),
        other != value ==> (set_put(s, value).contains(other) <==> s.contains(other)
            && !other.eq_spec(&value)),
        set_without(s, value).contains(other) <==> s.contains(other) && !other.eq_spec(&value),
        s.contains(other) && other.eq_spec(&value) ==> holds(s, value),
        (forall|k: Q| #[trigger] s.contains(k) ==> !k.eq_spec(&value)) ==> !holds(s, value),
{
}

/// A set grows by one for a new value, and shrinks by one for a value that it has.
pub proof fn law_set_sizes<Q: PartialEq>(s: Set<Q>, value: Q)
    requires
        lawful_key::<Q>(),
        s.finite(),
        forall|a: Q, b: Q| #[trigger]
            s.contains(a) && #[trigger] s.contains(b) && a.eq_spec(&b) ==> a == b,
    ensures
        set_put(s, value).finite(),
        set_without(s, value).finite(),
        set_put(s, value).len() == s.len() + (if holds(s, value) {
            0int
        } else {
            1int
        }),
        set_without(s, value).len() == s.len() - (if holds(s, value) {
            1int
        } else {
            0int
        }),
{
    let m = Map::new(|k: Q| s.contains(k), |k: Q| ());
    assert(m.dom() =~= s);
    assert forall|a: Q, b: Q| #[trigger]
        m.contains_key(a) && #[trigger] m.contains_key(b) && a.eq_spec(&b) implies a == b by {
        assert(s.contains(a) && s.contains(b));
    }
    lemma_dom(m, value);
    law_sizes(m, value, ());
}

/// Taking out a new value undoes putting it in, and putting in a value twice is
/// putting it in once.
pub proof fn law_set_undo<Q: PartialEq>(s: Set<Q>, value: Q)
    requires
        lawful_key::<Q>(),
    ensures
        !holds(s, value) ==> set_without(set_put(s, value), value) == s,
        set_put(set_put(s, value), value) == set_put(s, value),
{
    assert(value.eq_spec(&value));
    assert(set_put(set_put(s, value), value) =~= set_put(s, value));
    if !holds(s, value) {
        assert(set_without(set_put(s, value), value) =~= s);
    }
}

/// A map is consistent where `==` is an equivalence on keys, the hasher gives equal
/// keys one hash, and each entry is filed under a hash of its key. Nothing more is
/// asked, of its size or of anything else.
pub proof fn law_consistent<K: Eq + Hash, V, S: BuildHasher>(map: ShardMap<K, V, S>)
    ensures
        map.consistent() <==> {
            &&& lawful_key::<K>()
            &&& forall|a: K, b: K, g: u64, h: u64| #[trigger]
                hashes_to(map.hasher(), a, g) && #[trigger] hashes_to(map.hasher(), b, h)
                    && a.eq_spec(&b) ==> g == h
            &&& forall|p: (u64, K)| #[trigger]
                map@.contains_key(p) ==> hashes_to(map.hasher(), p.1, p.0)
        },
{
}

/// A key is in the contents of a map if and only if an entry is filed under it and
/// some hash. An entry is filed if and only if the shard of its hash has it.
pub proof fn law_filing<K: Eq + Hash, V, S: BuildHasher>(map: ShardMap<K, V, S>, p: (u64, K))
    requires
        map.wf(),
        lawful_key::<K>(),
    ensures
        map@.contains_key(p) ==> map.contents().contains_key(p.1),
        map.contents().contains_key(p.1) ==> exists|h: u64| #[trigger] map@.contains_key((h, p.1)),
        map@.contains_key(p) <==> exists|j: int, i: int|
            0 <= j < map.shards().len() && 0 <= i < map.shards()[j].entries().len() && (
            #[trigger] map.shards()[j].entries()[i]).0 == p,
        forall|j: int, i: int|
            0 <= j < map.shards().len() && 0 <= i < map.shards()[j].entries().len() && (
            #[trigger] map.shards()[j].entries()[i]).0 == p ==> map@[p]
                == map.shards()[j].entries()[i].1,
{
    let shards = map.shards();
    map.lemma_routed();
    if map@.contains_key(p) {
        assert(map@.contains_key((p.0, p.1)));
        let j = route(p.0, shards.len() as int);
        let here = shards[j].entries();
        assert(shards[j]@.contains_key(p));
        let i = choose|i: int| 0 <= i < here.len() && (#[trigger] here[i]).0 == p;
        assert(shards[j].entries()[i].0 == p);
    }
    assert forall|j: int, i: int|
        0 <= j < shards.len() && 0 <= i < shards[j].entries().len() && (
        #[trigger] shards[j].entries()[i]).0 == p implies map@.contains_key(p) && map@[p]
        == shards[j].entries()[i].1 by {
        shards[j].lemma_entries();
        assert(shards[j]@.contains_key(p));
        assert(views(shards)[j].contains_key(p));
    }
}

/// What one entry more, or none, is filed with.
pub proof fn law_filed_with<K, V>(
    entries: Seq<((u64, K), V)>,
    e: ((u64, K), V),
    hash: u64,
    value: V,
)
    ensures
        !filed_with(Seq::<((u64, K), V)>::empty(), hash, value),
        filed_with(entries.push(e), hash, value) <==> filed_with(entries, hash, value) || (e.0.0
            == hash && e.1 == value),
{
    let more = entries.push(e);
    if filed_with(entries, hash, value) {
        let i = choose|i: int|
            0 <= i < entries.len() && (#[trigger] entries[i]).0.0 == hash && entries[i].1 == value;
        assert(more[i] == entries[i]);
    }
    assert(more[entries.len() as int] == e);
    if filed_with(more, hash, value) {
        let i = choose|i: int|
            0 <= i < more.len() && (#[trigger] more[i]).0.0 == hash && more[i].1 == value;
        if i < entries.len() {
            assert(entries[i] == more[i]);
        }
    }
}

/// Where only values change, a map keeps its keys, its size, its shards and what
/// they were made to hold.
pub proof fn law_values_change<K: Eq + Hash, V, S: BuildHasher>(
    before: ShardMap<K, V, S>,
    after: ShardMap<K, V, S>,
    j: int,
)
    requires
        before.wf(),
        before.consistent(),
        after.wf(),
        after.hasher() == before.hasher(),
        only_values_change(before.shards(), after.shards()),
        0 <= j < before.shards().len(),
    ensures
        after.consistent(),
        after.contents().dom() == before.contents().dom(),
        after.count() == before.count(),
        after.shards().len() == before.shards().len(),
        after.shards()[j].capacity() == before.shards()[j].capacity(),
        after.shards()[j]@.dom() == before.shards()[j]@.dom(),
{
    before.lemma_routed();
    lemma_values_change(before.shards(), after.shards());
    assert forall|p: (u64, K)| after@.contains_key(p) == before@.contains_key(p) by {
        assert(after@.dom().contains(p) == before@.dom().contains(p));
    }
    assert(after.contents().dom() =~= before.contents().dom());
    law_contents(before);
    law_contents(after);
    let a = after.shards()[j].entries();
    let b = before.shards()[j].entries();
    assert forall|p: (u64, K)|
        after.shards()[j]@.contains_key(p) == before.shards()[j]@.contains_key(p) by {
        if after.shards()[j]@.contains_key(p) {
            let i = choose|i: int| 0 <= i < a.len() && (#[trigger] a[i]).0 == p;
            assert(b[i].0 == p);
        }
        if before.shards()[j]@.contains_key(p) {
            let i = choose|i: int| 0 <= i < b.len() && (#[trigger] b[i]).0 == p;
            assert(a[i].0 == p);
        }
    }
    assert(after.shards()[j]@.dom() =~= before.shards()[j]@.dom());
}

/// The contents of a map are its entries: no two have equal keys, there are as
/// many as the map counts, and a walk over the shards meets each of them once.
pub proof fn law_contents<K: Eq + Hash, V, S: BuildHasher>(map: ShardMap<K, V, S>)
    requires
        map.wf(),
        map.consistent(),
    ensures
        map.contents().dom().finite(),
        map.contents().len() == map.count(),
        unique_keys(map.contents()),
        forall|i: int|
            0 <= i < map.count() ==> {
                let e = #[trigger] all_entries(map.shards())[i];
                map.contents().contains_key(e.0.1) && map.contents()[e.0.1] == e.1
            },
        forall|i: int, j: int|
            0 <= i < j < map.count() ==> !(#[trigger] all_entries(map.shards())[i]).0.1.eq_spec(
                &(#[trigger] all_entries(map.shards())[j]).0.1,
            ),
        forall|k: K| #[trigger]
            map.contents().contains_key(k) ==> exists|i: int|
                0 <= i < map.count() && (#[trigger] all_entries(map.shards())[i]).0.1 == k,
{
    let all = all_entries(map.shards());
    lemma_lawful_pair::<K>();
    map.lemma_entries();
    lemma_by_key(map.hasher(), map@);
    lemma_to_map_holds(all);
    assert forall|i: int, j: int| 0 <= i < j < all.len() implies !(#[trigger] all[i]).0.1.eq_spec(
        &(#[trigger] all[j]).0.1,
    ) by {
        assert(!all[i].0.eq_spec(&all[j].0));
        assert(map@.contains_key(all[i].0) && map@.contains_key(all[j].0));
        assert(hashes_to(map.hasher(), all[i].0.1, all[i].0.0));
        assert(hashes_to(map.hasher(), all[j].0.1, all[j].0.0));
    }
    assert forall|k: K| #[trigger] map.contents().contains_key(k) implies exists|i: int|
        0 <= i < map.count() && (#[trigger] all[i]).0.1 == k by {
        let h = choose|h: u64| #[trigger] map@.contains_key((h, k));
        assert(map@.contains_key((h, k)));
        let i = choose|i: int| 0 <= i < all.len() && (#[trigger] all[i]).0 == (h, k);
        assert(all[i].0.1 == k);
    }
}

/// An insertion makes a map one longer if it replaces nothing, and leaves its
/// length alone if it does: no two keys of the map are ever equal.
pub proof fn law_insert_len<K: Eq + Hash, V, S: BuildHasher>(
    before: ShardMap<K, V, S>,
    after: ShardMap<K, V, S>,
    key: K,
    value: V,
)
    requires
        before.wf(),
        before.consistent(),
        after.wf(),
        after.consistent(),
        after.contents() == put(before.contents(), key, value),
    ensures
        after.count() == before.count() + (if lookup(before.contents(), key) is Some {
            0int
        } else {
            1int
        }),
        unique_keys(after.contents()),
{
    law_contents(before);
    law_contents(after);
    law_sizes(before.contents(), key, value);
}

/// A removal makes a map one shorter if it has the key, and leaves its length alone
/// if it does not.
pub proof fn law_remove_len<K: Eq + Hash, V, S: BuildHasher>(
    before: ShardMap<K, V, S>,
    after: ShardMap<K, V, S>,
    key: K,
)
    requires
        before.wf(),
        before.consistent(),
        after.wf(),
        after.consistent(),
        after.contents() == without(before.contents(), key),
    ensures
        after.count() == before.count() - (if lookup(before.contents(), key) is Some {
            1int
        } else {
            0int
        }),
        unique_keys(after.contents()),
{
    law_contents(before);
    law_contents(after);
    lemma_without(before.contents(), key);
}

/// Inserting a value that a set has leaves its length alone, and inserting a value
/// twice is inserting it once.
pub proof fn law_set_insert<T: Eq + Hash, S: BuildHasher>(
    before: ShardSet<T, S>,
    once: ShardSet<T, S>,
    twice: ShardSet<T, S>,
    value: T,
)
    requires
        before.wf(),
        before.map().consistent(),
        once.wf(),
        once.map().consistent(),
        twice.wf(),
        twice.map().consistent(),
        once.contents() == set_put(before.contents(), value),
        twice.contents() == set_put(once.contents(), value),
    ensures
        once.map().count() == before.map().count() + (if holds(before.contents(), value) {
            0int
        } else {
            1int
        }),
        twice.contents() == once.contents(),
        twice.map().count() == once.map().count(),
{
    law_contents(before.map());
    law_contents(once.map());
    law_contents(twice.map());
    assert forall|a: T, b: T| #[trigger]
        before.contents().contains(a) && #[trigger] before.contents().contains(b) && a.eq_spec(
            &b,
        ) implies a == b by {
        assert(before.map().contents().contains_key(a) && before.map().contents().contains_key(b));
    }
    law_set_sizes(before.contents(), value);
    law_set_undo(before.contents(), value);
}

/// The entries of one shard are entries of the map whose hashes go to that shard.
/// No two of them have equal keys.
pub proof fn law_shard_contents<K: Eq + Hash, V, S: BuildHasher>(map: ShardMap<K, V, S>, j: int)
    requires
        map.wf(),
        map.consistent(),
        0 <= j < map.shards().len(),
    ensures
        forall|i: int|
            0 <= i < map.shards()[j].entries().len() ==> {
                let e = #[trigger] map.shards()[j].entries()[i];
                &&& route(e.0.0, map.shards().len() as int) == j
                &&& map.contents().contains_key(e.0.1)
                &&& map.contents()[e.0.1] == e.1
            },
        forall|i: int, k: int|
            0 <= i < k < map.shards()[j].entries().len() ==> !(
            #[trigger] map.shards()[j].entries()[i]).0.1.eq_spec(
                &(#[trigger] map.shards()[j].entries()[k]).0.1,
            ),
{
    let shard = map.shards()[j];
    let here = shard.entries();
    map.lemma_routed();
    map.lemma_entries();
    shard.lemma_entries();
    lemma_by_key(map.hasher(), map@);
    assert forall|i: int| 0 <= i < here.len() implies {
        let e = #[trigger] here[i];
        &&& route(e.0.0, map.shards().len() as int) == j
        &&& map@.contains_key(e.0)
        &&& map@[e.0] == e.1
    } by {
        assert(shard@.contains_key(here[i].0));
        assert(views(map.shards())[j].contains_key(here[i].0));
    }
    assert forall|i: int, k: int| 0 <= i < k < here.len() implies !(
    #[trigger] here[i]).0.1.eq_spec(&(#[trigger] here[k]).0.1) by {
        assert(!here[i].0.eq_spec(&here[k].0));
        assert(map@.contains_key(here[i].0) && map@.contains_key(here[k].0));
        assert(hashes_to(map.hasher(), here[i].0.1, here[i].0.0));
        assert(hashes_to(map.hasher(), here[k].0.1, here[k].0.0));
    }
}

/// A key of a map is met in one shard, and there once, with its value.
pub proof fn law_key_in_one_shard<K: Eq + Hash, V, S: BuildHasher>(map: ShardMap<K, V, S>, key: K)
    requires
        map.wf(),
        map.consistent(),
        map.contents().contains_key(key),
    ensures
        exists|j: int, i: int|
            0 <= j < map.shards().len() && 0 <= i < map.shards()[j].entries().len() && {
                let e = #[trigger] map.shards()[j].entries()[i];
                e.0.1 == key && e.1 == map.contents()[key]
            },
        forall|j: int, i: int, l: int, k: int|
            0 <= j < map.shards().len() && 0 <= i < map.shards()[j].entries().len() && 0 <= l
                < map.shards().len() && 0 <= k < map.shards()[l].entries().len() && (
            #[trigger] map.shards()[j].entries()[i]).0.1 == key && (
            #[trigger] map.shards()[l].entries()[k]).0.1 == key ==> j == l && i == k,
{
    let shards = map.shards();
    map.lemma_routed();
    map.lemma_entries();
    lemma_by_key(map.hasher(), map@);
    let h = choose|h: u64| #[trigger] map@.contains_key((h, key));
    assert(map@.contains_key((h, key)));
    let j = route(h, shards.len() as int);
    let here = shards[j].entries();
    assert(shards[j]@.contains_key((h, key)));
    let i = choose|i: int| 0 <= i < here.len() && (#[trigger] here[i]).0 == (h, key);
    law_shard_contents(map, j);
    assert(shards[j].entries()[i].0.1 == key);
    assert(key.eq_spec(&key));
    assert forall|j: int, i: int, l: int, k: int|
        0 <= j < shards.len() && 0 <= i < shards[j].entries().len() && 0 <= l < shards.len() && 0
            <= k < shards[l].entries().len() && (#[trigger] shards[j].entries()[i]).0.1 == key && (
        #[trigger] shards[l].entries()[k]).0.1 == key implies j == l && i == k by {
        let p = shards[j].entries()[i].0;
        let q = shards[l].entries()[k].0;
        law_shard_contents(map, j);
        shards[j].lemma_entries();
        shards[l].lemma_entries();
        if j != l {
            law_shards_hold_different_keys(map, j, p, l, q);
        } else if i < k {
            assert(!shards[j].entries()[i].0.1.eq_spec(&shards[j].entries()[k].0.1));
        } else if k < i {
            assert(!shards[j].entries()[k].0.1.eq_spec(&shards[j].entries()[i].0.1));
        }
    }
}

/// A map has as many entries as its shards have, added up, so none of them has
/// more.
pub proof fn law_len_is_the_sum<K, V, S>(map: ShardMap<K, V, S>)
    ensures
        map.count() == sum_of_lens(map.shards()),
        forall|i: int|
            0 <= i < map.shards().len() ==> (#[trigger] map.shards()[i]).entries().len()
                <= map.count(),
{
    let shards = map.shards();
    lemma_sum_of_lens(shards);
    assert forall|i: int| 0 <= i < shards.len() implies (#[trigger] shards[i]).entries().len()
        <= map.count() by {
        lemma_count(shards, i, shards[i]);
    }
}

/// A walk over shards is as long as the shards, added up.
proof fn lemma_sum_of_lens<K, V>(shards: Seq<Shard<K, V>>)
    ensures
        all_entries(shards).len() == sum_of_lens(shards),
    decreases shards.len(),
{
    if shards.len() > 0 {
        lemma_sum_of_lens(shards.drop_last());
    }
}

/// Entries of different shards have different keys.
pub proof fn law_shards_hold_different_keys<K: Eq + Hash, V, S: BuildHasher>(
    map: ShardMap<K, V, S>,
    i: int,
    p: (u64, K),
    j: int,
    q: (u64, K),
)
    requires
        map.wf(),
        map.consistent(),
        0 <= i < map.shards().len(),
        0 <= j < map.shards().len(),
        i != j,
        map.shards()[i]@.contains_key(p),
        map.shards()[j]@.contains_key(q),
    ensures
        !p.1.eq_spec(&q.1),
{
    map.lemma_routed();
    assert(views(map.shards())[i].contains_key(p));
    assert(views(map.shards())[j].contains_key(q));
    assert(map@.contains_key(p) && map@.contains_key(q));
    assert(hashes_to(map.hasher(), p.1, p.0));
    assert(hashes_to(map.hasher(), q.1, q.0));
}

/// What is read under a hash depends on the shard of that hash alone: a change to
/// another shard cannot be seen.
pub proof fn law_other_shards_are_not_seen<K: Eq + Hash, V, S: BuildHasher>(
    before: ShardMap<K, V, S>,
    after: ShardMap<K, V, S>,
    changed: int,
    key: (u64, K),
)
    requires
        before.wf(),
        after.wf(),
        lawful_key::<K>(),
        only_shard_changes(before.shards(), after.shards(), changed),
        route(key.0, before.shards().len() as int) != changed,
    ensures
        stored_key(after@, key) == stored_key(before@, key),
        lookup(after@, key) == lookup(before@, key),
{
    before.lemma_shard_of(key);
    after.lemma_shard_of(key);
}

/// A hash goes to one of the shards.
pub proof fn law_hash_goes_to_a_shard(hash: u64, shards: int)
    requires
        is_pow2(shards),
        1 < shards <= usize::MAX,
    ensures
        0 <= route(hash, shards) < shards,
{
    lemma_shard_index(hash as usize, shards);
}

/// The seven high bits of a hash have no part in the choice of its shard.
pub proof fn law_high_bits_are_left(hash: usize, shards: int)
    ensures
        shard_index(hash, shards) == shard_index(
            (hash as int % ((usize::MAX + 1) / 128)) as usize,
            shards,
        ),
{
    let all = usize::MAX + 1;
    unsigned_int_max_values();
    lemma_pow2_adds((usize::BITS - 7) as nat, 7);
    lemma2_to64();
    let low = pow2((usize::BITS - 7) as nat) as int;
    assert(all == 128 * low);
    assert(all / 128 == low);
    lemma_fundamental_div_mod(hash as int, low);
    let quot = hash as int / low;
    let rem = hash as int % low;
    assert(0 <= rem < low) by {
        lemma_mod_bound(hash as int, low);
    }
    assert(hash * 128 == all * quot + 128 * rem) by (nonlinear_arith)
        requires
            all == 128 * low,
            hash == low * quot + rem,
    ;
    lemma_mod_multiples_vanish(quot, 128 * rem, all);
}

/// Every shard is reached by some hash, as long as the hashes without their seven
/// high bits are enough for all shards.
pub proof fn law_every_shard_is_reached(shards: int, shard: int)
    requires
        is_pow2(shards),
        1 < shards,
        shards * 128 <= usize::MAX + 1,
        0 <= shard < shards,
    ensures
        exists|hash: usize| #[trigger] shard_index(hash, shards) == shard,
{
    let all = usize::MAX + 1;
    lemma_parts(shards);
    let part = all / shards;
    unsigned_int_max_values();
    lemma_trailing_zeros(shards as u64);
    let zeros = u64_trailing_zeros(shards as u64) as nat;
    lemma_pow2_adds(zeros, 7);
    lemma2_to64();
    if zeros + 7 > usize::BITS {
        lemma_pow2_strictly_increases(usize::BITS as nat, zeros + 7);
    }
    let rest = (usize::BITS - 7 - zeros) as nat;
    lemma_pow2_adds(rest, 7);
    lemma_pow2_adds(rest + 7, zeros);
    lemma_pow2_pos(zeros);
    lemma_div_multiples_vanish(pow2(rest + 7) as int, shards);
    lemma_mul_is_commutative(pow2(rest + 7) as int, shards);
    let step = pow2(rest) as int;
    assert(part == 128 * step);
    lemma_pow2_pos(rest);
    assert(0 <= shard * part < all && shard * step * 128 == shard * part && 0 <= shard * step
        <= shard * part) by (nonlinear_arith)
        requires
            0 <= shard < shards,
            part * shards == all,
            part == 128 * step,
            step > 0,
    ;
    let hash = (shard * step) as usize;
    assert((hash * 128) % all == shard * part) by {
        lemma_small_mod((shard * part) as nat, all as nat);
    }
    lemma_div_multiples_vanish(shard, part);
    lemma_mul_is_commutative(shard, part);
    assert(shard_index(hash, shards) == shard);
}

/// The number of threads fixes the number of shards, which is one that a map can
/// be made with.
pub proof fn law_one_shard_count(parallelism: Option<usize>, a: int, b: int)
    requires
        parallelism matches Some(p) ==> 1 <= p,
        suits_parallelism(a, parallelism),
        suits_parallelism(b, parallelism),
    ensures
        a == b,
        a > 1,
        is_pow2(a),
{
    if a < b {
        lemma_pow2_gap(a, b);
    } else if b < a {
        lemma_pow2_gap(b, a);
    }
}

/// A map on a machine that runs `p` threads at a time has at least four shards for
/// each thread, and fewer than eight: the least power of two that is enough.
pub proof fn law_shards_for_threads<K, V, S>(map: ShardMap<K, V, S>, p: usize, enough: int)
    requires
        1 <= p,
        suits_parallelism(map.shards().len() as int, Some(p)),
        is_pow2(enough),
        4 * p <= enough,
    ensures
        4 * p <= map.shards().len() < 8 * p,
        is_pow2(map.shards().len() as int),
        map.shards().len() <= enough,
{
    if enough < map.shards().len() {
        lemma_pow2_gap(enough, map.shards().len() as int);
    }
}

/// A map on a machine of which nothing is known has four shards.
pub proof fn law_four_shards_at_first<K, V, S>(map: ShardMap<K, V, S>)
    requires
        suits_parallelism(map.shards().len() as int, None),
    ensures
        map.shards().len() == 4,
{
    lemma_four_is_pow2();
    if map.shards().len() > 4 {
        lemma_pow2_gap(4, map.shards().len() as int);
    }
}

/// More threads never give fewer shards, and twice as many give twice as many.
pub proof fn law_more_threads_more_shards<K, V, S>(
    few: ShardMap<K, V, S>,
    p: usize,
    many: ShardMap<K, V, S>,
    q: usize,
)
    requires
        1 <= p <= q,
        suits_parallelism(few.shards().len() as int, Some(p)),
        suits_parallelism(many.shards().len() as int, Some(q)),
    ensures
        few.shards().len() <= many.shards().len(),
        q == 2 * p ==> many.shards().len() == 2 * few.shards().len(),
{
    let a = few.shards().len() as int;
    let b = many.shards().len() as int;
    if b < a {
        lemma_pow2_gap(b, a);
    }
    if q == 2 * p {
        lemma_pow2_gap(a, b);
        if 2 * a < b {
            lemma_double_is_pow2(a);
            lemma_pow2_gap(2 * a, b);
        }
    }
}

/// Twice a power of two is one.
proof fn lemma_double_is_pow2(a: int)
    requires
        is_pow2(a),
    ensures
        is_pow2(2 * a),
{
    is_pow2_equiv(a);
    let d = choose|d: nat| pow(2, d) == a;
    lemma_pow2(d);
    lemma_pow2(d + 1);
    lemma_pow2_unfold(d + 1);
    assert(pow(2, d + 1) == 2 * a);
    is_pow2_equiv(2 * a);
}

/// The shards cut the range of hashes, taken without their seven high bits, into
/// equal parts: a hash goes to the shard whose part it lies in.
pub proof fn law_shards_cut_the_hashes(hash: u64, shards: int)
    requires
        is_pow2(shards),
        1 < shards <= usize::MAX,
    ensures
        ({
            let all = usize::MAX + 1;
            let low = ((hash as usize) as int * 128) % all;
            route(hash, shards) * all <= low * shards < (route(hash, shards) + 1) * all
        }),
{
    let all = usize::MAX + 1;
    let low = ((hash as usize) as int * 128) % all;
    let part = all / shards;
    let index = route(hash, shards);
    lemma_parts(shards);
    lemma_fundamental_div_mod(low, part);
    lemma_mod_bound(low, part);
    assert(index * all <= low * shards < (index + 1) * all) by (nonlinear_arith)
        requires
            low == part * index + low % part,
            0 <= low % part < part,
            part * shards == all,
            shards > 1,
    ;
}

/// A map that is made to hold `cap` entries has shards of one capacity. Together
/// they hold `cap` entries, and with one less in each they would not.
pub proof fn law_made_to_hold<K, V, S>(map: ShardMap<K, V, S>, cap: int, i: int)
    requires
        0 <= cap,
        map.made_to_hold(cap),
        0 <= i < map.shards().len(),
    ensures
        cap <= map.shards().len() * map.shards()[i].capacity() < cap + map.shards().len(),
        map.shards()[i].capacity() == map.shards()[0].capacity(),
{
    law_capacity(cap, map.shards().len() as int);
}

/// What a map was made to hold stays, whichever shard is written.
pub proof fn law_capacity_stays<K, V, S>(
    before: ShardMap<K, V, S>,
    after: ShardMap<K, V, S>,
    changed: int,
    i: int,
)
    requires
        only_shard_changes(before.shards(), after.shards(), changed),
        0 <= i < before.shards().len(),
    ensures
        after.shards().len() == before.shards().len(),
        after.shards()[i].capacity() == before.shards()[i].capacity(),
        i != changed ==> after.shards()[i] == before.shards()[i],
{
}

/// Shards that are each made to hold their part of `cap` entries, rounded up, are
/// together made to hold `cap` entries, and fewer than one more for each shard.
pub proof fn law_capacity(cap: int, shards: int)
    requires
        0 <= cap,
        0 < shards,
    ensures
        cap <= shards * ((cap + shards - 1) / shards) < cap + shards,
{
    lemma_fundamental_div_mod(cap + shards - 1, shards);
    lemma_mod_bound(cap + shards - 1, shards);
}

} // verus!
