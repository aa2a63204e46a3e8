//! Finite maps whose keys are compared with `==`.
use vstd::prelude::*;
use vstd::seq_lib::seq_to_set_is_finite;
use vstd::set_lib::lemma_set_subset_finite;
use vstd::std_specs::cmp::PartialEqSpec;

verus! {

/// Whether `==` on `Q` is an equivalence relation that contracts can speak of.
pub open spec fn lawful_key<Q: PartialEq>() -> bool {
    &&& Q::obeys_eq_spec()
    &&& forall|a: Q| #[trigger] a.eq_spec(&a)
    &&& forall|a: Q, b: Q| #[trigger] a.eq_spec(&b) ==> b.eq_spec(&a)
    &&& forall|a: Q, b: Q, c: Q| #[trigger]
        a.eq_spec(&b) && #[trigger] b.eq_spec(&c) ==> a.eq_spec(&c)
}

/// If `==` is an equivalence on keys, it is one on keys with their hashes.
pub(crate) proof fn lemma_lawful_pair<K: PartialEq>()
    requires
        lawful_key::<K>(),
    ensures
        lawful_key::<(u64, K)>(),
{
}

/// The key of `m` that equals `key`: `key` itself, if `m` has it.
pub open spec fn stored_key<Q: PartialEq, V>(m: Map<Q, V>, key: Q) -> Option<Q> {
    if m.contains_key(key) && key.eq_spec(&key) {
        Some(key)
    } else if exists|k: Q| #[trigger] m.contains_key(k) && k.eq_spec(&key) {
        Some(choose|k: Q| #[trigger] m.contains_key(k) && k.eq_spec(&key))
    } else {
        None
    }
}

/// The value that `m` holds for `key`.
pub open spec fn lookup<Q: PartialEq, V>(m: Map<Q, V>, key: Q) -> Option<V> {
    match stored_key(m, key) {
        Some(k) => Some(m[k]),
        None => None,
    }
}

/// `m` without the entry for `key`.
pub open spec fn without<Q: PartialEq, V>(m: Map<Q, V>, key: Q) -> Map<Q, V> {
    Map::new(|k: Q| m.contains_key(k) && !k.eq_spec(&key), |k: Q| m[k])
}

/// `m` with `key` and `value` in place of its entry for `key`.
pub open spec fn put<Q: PartialEq, V>(m: Map<Q, V>, key: Q, value: V) -> Map<Q, V> {
    without(m, key).insert(key, value)
}

/// Whether `s` has a value that equals `value`: `value` itself, or another.
pub open spec fn holds<Q: PartialEq>(s: Set<Q>, value: Q) -> bool {
    ||| s.contains(value) && value.eq_spec(&value)
    ||| exists|k: Q| #[trigger] s.contains(k) && k.eq_spec(&value)
}

/// `s` without the value that equals `value`.
pub open spec fn set_without<Q: PartialEq>(s: Set<Q>, value: Q) -> Set<Q> {
    s.filter(|k: Q| !k.eq_spec(&value))
}

/// `s` with `value` in place of the value that equals it.
pub open spec fn set_put<Q: PartialEq>(s: Set<Q>, value: Q) -> Set<Q> {
    set_without(s, value).insert(value)
}

/// The keys of a map change as a set does.
pub(crate) proof fn lemma_dom<Q: PartialEq, V>(m: Map<Q, V>, key: Q)
    ensures
        holds(m.dom(), key) == stored_key(m, key) is Some,
        without(m, key).dom() == set_without(m.dom(), key),
        forall|v: V| (#[trigger] put(m, key, v)).dom() == set_put(m.dom(), key),
{
    if holds(m.dom(), key) {
        let k = choose|k: Q| #[trigger] m.dom().contains(k) && k.eq_spec(&key);
        assert(m.contains_key(k) && k.eq_spec(&key));
    }
    if stored_key(m, key) is Some {
        let k = choose|k: Q| #[trigger] m.contains_key(k) && k.eq_spec(&key);
        assert(m.dom().contains(k) && k.eq_spec(&key));
    }
    assert(without(m, key).dom() =~= set_without(m.dom(), key));
    assert forall|v: V| (#[trigger] put(m, key, v)).dom() == set_put(m.dom(), key) by {
        assert(put(m, key, v).dom() =~= set_put(m.dom(), key));
    }
}

/// Whether no two keys of `m` are equal.
pub open spec fn unique_keys<Q: PartialEq, V>(m: Map<Q, V>) -> bool {
    forall|a: Q, b: Q| #[trigger]
        m.contains_key(a) && #[trigger] m.contains_key(b) && a.eq_spec(&b) ==> a == b
}

/// In a map without equal keys, a key that equals the given one is the stored
/// one.
pub(crate) proof fn lemma_stored_key<Q: PartialEq, V>(m: Map<Q, V>, stored: Q, key: Q)
    requires
        lawful_key::<Q>(),
        unique_keys(m),
        m.contains_key(stored),
        stored.eq_spec(&key),
    ensures
        stored_key(m, key) == Some(stored),
        lookup(m, key) == Some(m[stored]),
{
    let k = choose|k: Q| #[trigger] m.contains_key(k) && k.eq_spec(&key);
    assert(m.contains_key(k) && k.eq_spec(&key));
    assert(key.eq_spec(&stored));
    assert(k.eq_spec(&stored));
}

/// Taking out an entry keeps the keys of a map apart, and makes it one smaller if
/// it has the key.
pub(crate) proof fn lemma_without<Q: PartialEq, V>(m: Map<Q, V>, key: Q)
    requires
        lawful_key::<Q>(),
        unique_keys(m),
    ensures
        unique_keys(without(m, key)),
        !without(m, key).contains_key(key),
        m.dom().finite() ==> without(m, key).dom().finite() && without(m, key).len() == m.len() - (
        if stored_key(m, key) is Some {
            1int
        } else {
            0int
        }),
{
    assert(key.eq_spec(&key));
    let w = without(m, key);
    match stored_key(m, key) {
        Some(k) => {
            assert(m.contains_key(k) && k.eq_spec(&key));
            assert forall|j: Q| #[trigger] m.contains_key(j) && j.eq_spec(&key) implies j == k by {
                lemma_stored_key(m, j, key);
            }
            assert(w =~= m.remove(k));
        },
        None => {
            assert(w =~= m);
        },
    }
}

/// Putting in an entry keeps the keys of a map apart, and makes it one larger
/// unless it has the key.
pub(crate) proof fn lemma_put<Q: PartialEq, V>(m: Map<Q, V>, key: Q, value: V)
    requires
        lawful_key::<Q>(),
        unique_keys(m),
    ensures
        unique_keys(put(m, key, value)),
        m.dom().finite() ==> put(m, key, value).dom().finite() && put(m, key, value).len()
            == m.len() + (if stored_key(m, key) is Some {
            0int
        } else {
            1int
        }),
{
    lemma_without(m, key);
    let w = without(m, key);
    let p = put(m, key, value);
    assert forall|a: Q, b: Q| #[trigger]
        p.contains_key(a) && #[trigger] p.contains_key(b) && a.eq_spec(&b) implies a == b by {
        if a != b {
            if a == key {
                assert(b.eq_spec(&a));
                assert(w.contains_key(b));
            } else if b == key {
                assert(w.contains_key(a));
            } else {
                assert(m.contains_key(a) && m.contains_key(b));
            }
        }
    }
}

/// Whether no two keys of `s` are equal.
pub open spec fn distinct<Q: PartialEq, V>(s: Seq<(Q, V)>) -> bool {
    forall|i: int, j: int|
        0 <= i < j < s.len() ==> !(#[trigger] s[i]).0.eq_spec(&(#[trigger] s[j]).0)
}

/// The map with the entries of `s`.
pub open spec fn to_map<Q, V>(s: Seq<(Q, V)>) -> Map<Q, V> {
    Map::new(
        |k: Q| exists|i: int| 0 <= i < s.len() && (#[trigger] s[i]).0 == k,
        |k: Q| s[choose|i: int| 0 <= i < s.len() && (#[trigger] s[i]).0 == k].1,
    )
}

/// Each entry of `s` is in its map.
pub(crate) proof fn lemma_to_map_holds<Q: PartialEq, V>(s: Seq<(Q, V)>)
    requires
        lawful_key::<Q>(),
        distinct(s),
    ensures
        forall|i: int|
            0 <= i < s.len() ==> to_map(s).contains_key((#[trigger] s[i]).0) && to_map(
                s,
            )[s[i].0] == s[i].1,
{
    assert forall|i: int| 0 <= i < s.len() implies to_map(s).contains_key((#[trigger] s[i]).0)
        && to_map(s)[s[i].0] == s[i].1 by {
        let j = choose|j: int| 0 <= j < s.len() && (#[trigger] s[j]).0 == s[i].0;
        if i < j {
            assert(!s[i].0.eq_spec(&s[j].0));
        } else if j < i {
            assert(!s[j].0.eq_spec(&s[i].0));
        }
    }
}

/// No two keys of the map of `s` are equal.
pub(crate) proof fn lemma_to_map_unique<Q: PartialEq, V>(s: Seq<(Q, V)>)
    requires
        lawful_key::<Q>(),
        distinct(s),
    ensures
        unique_keys(to_map(s)),
{
    let m = to_map(s);
    assert forall|a: Q, b: Q| #[trigger]
        m.contains_key(a) && #[trigger] m.contains_key(b) && a.eq_spec(&b) implies a == b by {
        let i = choose|i: int| 0 <= i < s.len() && (#[trigger] s[i]).0 == a;
        let j = choose|j: int| 0 <= j < s.len() && (#[trigger] s[j]).0 == b;
        assert(b.eq_spec(&a));
        if i < j {
            assert(!s[i].0.eq_spec(&s[j].0));
        } else if j < i {
            assert(!s[j].0.eq_spec(&s[i].0));
        }
    }
}

/// Looking up the key of an entry of `s` finds that entry.
pub(crate) proof fn lemma_to_map_lookup<Q: PartialEq, V>(s: Seq<(Q, V)>, i: int, key: Q)
    requires
        lawful_key::<Q>(),
        distinct(s),
        0 <= i < s.len(),
        s[i].0.eq_spec(&key),
    ensures
        stored_key(to_map(s), key) == Some(s[i].0),
        lookup(to_map(s), key) == Some(s[i].1),
{
    lemma_to_map_holds(s);
    let m = to_map(s);
    let k = choose|k: Q| #[trigger] m.contains_key(k) && k.eq_spec(&key);
    assert(m.contains_key(s[i].0));
    let j = choose|j: int| 0 <= j < s.len() && (#[trigger] s[j]).0 == k;
    assert(key.eq_spec(&s[i].0));
    assert(key.eq_spec(&s[j].0));
    assert(s[i].0.eq_spec(&s[j].0) && s[j].0.eq_spec(&s[i].0));
}

/// Appending an entry with a new key puts it in the map.
pub(crate) proof fn lemma_to_map_push<Q: PartialEq, V>(s: Seq<(Q, V)>, key: Q, value: V)
    requires
        lawful_key::<Q>(),
        distinct(s),
        forall|i: int| 0 <= i < s.len() ==> !(#[trigger] s[i]).0.eq_spec(&key),
    ensures
        distinct(s.push((key, value))),
        stored_key(to_map(s), key) == None::<Q>,
        to_map(s.push((key, value))) == put(to_map(s), key, value),
{
    let t = s.push((key, value));
    lemma_to_map_holds(s);
    lemma_to_map_holds(t);
    assert(forall|i: int| 0 <= i < s.len() ==> t[i] == s[i]);
    assert(t[s.len() as int] == (key, value));
    assert forall|k: Q| to_map(t).contains_key(k) <==> put(to_map(s), key, value).contains_key(
        k,
    ) by {
        if to_map(t).contains_key(k) {
            let i = choose|i: int| 0 <= i < t.len() && (#[trigger] t[i]).0 == k;
            if i < s.len() {
                assert(s[i].0 == k);
            }
        }
        if to_map(s).contains_key(k) {
            let i = choose|i: int| 0 <= i < s.len() && (#[trigger] s[i]).0 == k;
            assert(t[i].0 == k);
        }
    }
    assert(to_map(t) =~= put(to_map(s), key, value));
}

/// Replacing an entry by one with an equal key puts it in the map.
pub(crate) proof fn lemma_to_map_update<Q: PartialEq, V>(s: Seq<(Q, V)>, i: int, key: Q, value: V)
    requires
        lawful_key::<Q>(),
        distinct(s),
        0 <= i < s.len(),
        s[i].0.eq_spec(&key),
    ensures
        distinct(s.update(i, (key, value))),
        to_map(s.update(i, (key, value))) == put(to_map(s), key, value),
{
    let t = s.update(i, (key, value));
    lemma_to_map_holds(s);
    assert(forall|j: int| 0 <= j < s.len() && j != i ==> t[j] == s[j]);
    assert forall|j: int| 0 <= j < s.len() && j != i implies !(#[trigger] s[j]).0.eq_spec(
        &key,
    ) by {
        if s[j].0.eq_spec(&key) {
            assert(key.eq_spec(&s[i].0));
            assert(s[j].0.eq_spec(&s[i].0));
            assert(s[i].0.eq_spec(&s[j].0));
        }
    }
    assert forall|a: int, b: int| 0 <= a < b < t.len() implies !(#[trigger] t[a]).0.eq_spec(
        &(#[trigger] t[b]).0,
    ) by {
        if a == i {
            assert(!s[b].0.eq_spec(&key));
        } else if b == i {
            assert(!s[a].0.eq_spec(&key));
        } else {
            assert(!s[a].0.eq_spec(&s[b].0));
        }
    }
    lemma_to_map_holds(t);
    assert forall|k: Q| to_map(t).contains_key(k) <==> put(to_map(s), key, value).contains_key(
        k,
    ) by {
        if to_map(t).contains_key(k) {
            let j = choose|j: int| 0 <= j < t.len() && (#[trigger] t[j]).0 == k;
            if j != i {
                assert(s[j].0 == k);
            }
        }
        if put(to_map(s), key, value).contains_key(k) && k != key {
            let j = choose|j: int| 0 <= j < s.len() && (#[trigger] s[j]).0 == k;
            assert(t[j].0 == k);
        }
        assert(t[i].0 == key);
    }
    assert(to_map(t) =~= put(to_map(s), key, value));
}

/// Changing the value of an entry changes it in the map.
pub(crate) proof fn lemma_to_map_set<Q: PartialEq, V>(s: Seq<(Q, V)>, i: int, value: V)
    requires
        lawful_key::<Q>(),
        distinct(s),
        0 <= i < s.len(),
    ensures
        distinct(s.update(i, (s[i].0, value))),
        to_map(s.update(i, (s[i].0, value))) == to_map(s).insert(s[i].0, value),
{
    let key = s[i].0;
    assert(key.eq_spec(&key));
    lemma_to_map_update(s, i, key, value);
    lemma_to_map_lookup(s, i, key);
    assert forall|k: Q| #[trigger]
        to_map(s).contains_key(k) && k.eq_spec(&key) implies k == key by {
        let j = choose|j: int| 0 <= j < s.len() && (#[trigger] s[j]).0 == k;
        if j < i {
            assert(!s[j].0.eq_spec(&s[i].0));
        } else if i < j {
            assert(!s[i].0.eq_spec(&s[j].0));
        }
    }
    assert(put(to_map(s), key, value) =~= to_map(s).insert(key, value));
}

/// Moving the last entry over another takes that other one out of the map.
pub(crate) proof fn lemma_to_map_swap_remove<Q: PartialEq, V>(s: Seq<(Q, V)>, i: int, key: Q)
    requires
        lawful_key::<Q>(),
        distinct(s),
        0 <= i < s.len(),
        s[i].0.eq_spec(&key),
    ensures
        distinct(s.update(i, s.last()).drop_last()),
        to_map(s.update(i, s.last()).drop_last()) == without(to_map(s), key),
{
    let t = s.update(i, s.last()).drop_last();
    let last = s.len() - 1;
    lemma_to_map_holds(s);
    assert forall|j: int| 0 <= j < s.len() && j != i implies !(#[trigger] s[j]).0.eq_spec(
        &key,
    ) by {
        if s[j].0.eq_spec(&key) {
            assert(key.eq_spec(&s[i].0));
            assert(s[j].0.eq_spec(&s[i].0));
            assert(s[i].0.eq_spec(&s[j].0));
        }
    }
    assert forall|a: int, b: int| 0 <= a < b < t.len() implies !(#[trigger] t[a]).0.eq_spec(
        &(#[trigger] t[b]).0,
    ) by {
        let x = if a == i { last } else { a };
        let y = if b == i { last } else { b };
        assert(t[a] == s[x] && t[b] == s[y]);
        assert(!s[x].0.eq_spec(&s[y].0)) by {
            if y < x {
                assert(!s[y].0.eq_spec(&s[x].0));
            }
        }
    }
    lemma_to_map_holds(t);
    assert forall|k: Q| to_map(t).contains_key(k) <==> without(to_map(s), key).contains_key(k) by {
        if to_map(t).contains_key(k) {
            let j = choose|j: int| 0 <= j < t.len() && (#[trigger] t[j]).0 == k;
            let x = if j == i { last } else { j };
            assert(s[x].0 == k);
        }
        if without(to_map(s), key).contains_key(k) {
            let j = choose|j: int| 0 <= j < s.len() && (#[trigger] s[j]).0 == k;
            let x = if j == last { i } else { j };
            assert(t[x].0 == k);
        }
    }
    assert forall|k: Q| #[trigger] to_map(t).contains_key(k) implies to_map(t)[k] == without(
        to_map(s),
        key,
    )[k] by {
        let j = choose|j: int| 0 <= j < t.len() && (#[trigger] t[j]).0 == k;
        let x = if j == i { last } else { j };
        assert(s[x] == t[j]);
    }
    assert(to_map(t) =~= without(to_map(s), key));
}

/// The map of `s` is finite.
pub(crate) proof fn lemma_to_map_finite<Q, V>(s: Seq<(Q, V)>)
    ensures
        to_map(s).dom().finite(),
{
    let keys = s.map_values(|e: (Q, V)| e.0);
    assert forall|k: Q| #[trigger]
        to_map(s).dom().contains(k) implies keys.to_set().contains(k) by {
        let i = choose|i: int| 0 <= i < s.len() && (#[trigger] s[i]).0 == k;
        assert(keys[i] == k);
    }
    seq_to_set_is_finite(keys);
    lemma_set_subset_finite(keys.to_set(), to_map(s).dom());
}

/// The map of `s` has as many entries as `s`.
pub(crate) proof fn lemma_to_map_len<Q: PartialEq, V>(s: Seq<(Q, V)>)
    requires
        lawful_key::<Q>(),
        distinct(s),
    ensures
        to_map(s).dom().finite(),
        to_map(s).len() == s.len(),
    decreases s.len(),
{
    if s.len() == 0 {
        assert(to_map(s) =~= Map::<Q, V>::empty());
    } else {
        let r = s.drop_last();
        let e = s.last();
        lemma_to_map_len(r);
        assert forall|i: int| 0 <= i < r.len() implies !(#[trigger] r[i]).0.eq_spec(&e.0) by {
            assert(!s[i].0.eq_spec(&s[s.len() - 1].0));
        }
        lemma_to_map_push(r, e.0, e.1);
        assert(r.push((e.0, e.1)) =~= s);
        assert(without(to_map(r), e.0) =~= to_map(r)) by {
            assert forall|k: Q| to_map(r).contains_key(k) implies !k.eq_spec(&e.0) by {
                let i = choose|i: int| 0 <= i < r.len() && (#[trigger] r[i]).0 == k;
                assert(!r[i].0.eq_spec(&e.0));
            }
        }
        assert(!to_map(r).contains_key(e.0));
    }
}

} // verus!
