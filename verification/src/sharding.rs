//! Entries spread over shards.
use crate::layout::shard_index;
use crate::model::{
    distinct, lawful_key, lemma_lawful_pair, lemma_stored_key, lemma_to_map_holds, lookup, put,
    stored_key, to_map, unique_keys, without,
};
use crate::shard::Shard;
use vstd::prelude::*;
use vstd::std_specs::cmp::PartialEqSpec;

verus! {

/// The shard, out of `shards`, of the entries filed under `hash`.
pub open spec fn route(hash: u64, shards: int) -> int {
    shard_index(hash as usize, shards)
}

/// The entries of each of `shards`.
pub open spec fn views<K, V>(shards: Seq<Shard<K, V>>) -> Seq<Map<(u64, K), V>> {
    shards.map_values(|s: Shard<K, V>| s@)
}

/// The entries of `shards`, each looked for in the shard of its hash.
pub open spec fn joined<K, V>(shards: Seq<Map<(u64, K), V>>) -> Map<(u64, K), V> {
    Map::new(
        |p: (u64, K)|
            0 <= route(p.0, shards.len() as int) < shards.len() && shards[route(
                p.0,
                shards.len() as int,
            )].contains_key(p),
        |p: (u64, K)| shards[route(p.0, shards.len() as int)][p],
    )
}

/// Whether each entry of `shards` is in the shard of its hash.
pub open spec fn routed<K, V>(shards: Seq<Map<(u64, K), V>>) -> bool {
    forall|i: int, p: (u64, K)|
        0 <= i < shards.len() && #[trigger] shards[i].contains_key(p) ==> route(
            p.0,
            shards.len() as int,
        ) == i
}

/// The entries of `shards`, shard by shard.
pub open spec fn all_entries<K, V>(shards: Seq<Shard<K, V>>) -> Seq<((u64, K), V)>
    decreases shards.len(),
{
    if shards.len() == 0 {
        Seq::empty()
    } else {
        all_entries(shards.drop_last()) + shards.last().entries()
    }
}

/// Whether one of `entries` is filed under `hash` and holds `value`.
pub open spec fn filed_with<K, V>(entries: Seq<((u64, K), V)>, hash: u64, value: V) -> bool {
    exists|i: int|
        0 <= i < entries.len() && (#[trigger] entries[i]).0.0 == hash && entries[i].1 == value
}

/// The number of entries of `shards`, added up shard by shard.
pub open spec fn sum_of_lens<K, V>(shards: Seq<Shard<K, V>>) -> nat
    decreases shards.len(),
{
    if shards.len() == 0 {
        0
    } else {
        sum_of_lens(shards.drop_last()) + shards.last().entries().len()
    }
}

/// Whether `after` differs from `before` in shard `i` at most, and what that
/// shard was made to hold is the same.
pub open spec fn only_shard_changes<K, V>(
    before: Seq<Shard<K, V>>,
    after: Seq<Shard<K, V>>,
    i: int,
) -> bool {
    &&& after.len() == before.len()
    &&& after[i].capacity() == before[i].capacity()
    &&& forall|j: int| 0 <= j < before.len() && j != i ==> #[trigger] after[j] == before[j]
}

/// Whether the shards of `after` are those of `before`, but for the values of
/// their entries.
pub open spec fn only_values_change<K: PartialEq, V>(
    before: Seq<Shard<K, V>>,
    after: Seq<Shard<K, V>>,
) -> bool {
    &&& after.len() == before.len()
    &&& forall|j: int|
        0 <= j < after.len() ==> {
            &&& (#[trigger] after[j]).wf()
            &&& after[j].capacity() == before[j].capacity()
            &&& after[j].entries().len() == before[j].entries().len()
            &&& forall|i: int|
                0 <= i < after[j].entries().len() ==> (#[trigger] after[j].entries()[i]).0
                    == before[j].entries()[i].0
        }
}

/// A key is looked up in the shard of its hash.
pub(crate) proof fn lemma_joined_lookup<K: PartialEq, V>(
    shards: Seq<Map<(u64, K), V>>,
    key: (u64, K),
)
    requires
        lawful_key::<K>(),
        routed(shards),
        forall|i: int| 0 <= i < shards.len() ==> unique_keys(#[trigger] shards[i]),
        0 <= route(key.0, shards.len() as int) < shards.len(),
    ensures
        unique_keys(joined(shards)),
        stored_key(joined(shards), key) == stored_key(
            shards[route(key.0, shards.len() as int)],
            key,
        ),
        lookup(joined(shards), key) == lookup(shards[route(key.0, shards.len() as int)], key),
{
    lemma_lawful_pair::<K>();
    let m = joined(shards);
    let n = shards.len() as int;
    let i = route(key.0, n);
    assert forall|a: (u64, K), b: (u64, K)| #[trigger]
        m.contains_key(a) && #[trigger] m.contains_key(b) && a.eq_spec(&b) implies a == b by {
        assert(shards[route(a.0, n)].contains_key(a));
        assert(shards[route(b.0, n)].contains_key(b));
    }
    match stored_key(shards[i], key) {
        Some(k) => {
            assert(shards[i].contains_key(k) && k.eq_spec(&key));
            assert(m.contains_key(k));
            lemma_stored_key(m, k, key);
        },
        None => {
            assert forall|k: (u64, K)| #[trigger] m.contains_key(k) implies !k.eq_spec(&key) by {
                assert(shards[route(k.0, n)].contains_key(k));
            }
        },
    }
}

/// Taking out an entry of the shard of its hash takes it out of the map.
pub(crate) proof fn lemma_joined_without<K: PartialEq, V>(
    shards: Seq<Map<(u64, K), V>>,
    key: (u64, K),
)
    requires
        routed(shards),
        0 <= route(key.0, shards.len() as int) < shards.len(),
    ensures
        ({
            let i = route(key.0, shards.len() as int);
            let w = shards.update(i, without(shards[i], key));
            routed(w) && joined(w) == without(joined(shards), key)
        }),
{
    let n = shards.len() as int;
    let i = route(key.0, n);
    let w = shards.update(i, without(shards[i], key));
    assert forall|j: int, q: (u64, K)|
        0 <= j < n && #[trigger] w[j].contains_key(q) implies route(q.0, n) == j by {
        assert(shards[j].contains_key(q));
    }
    assert(joined(w) =~= without(joined(shards), key));
}

/// Putting an entry in the shard of its hash puts it in the map.
pub(crate) proof fn lemma_joined_put<K: PartialEq, V>(
    shards: Seq<Map<(u64, K), V>>,
    key: (u64, K),
    value: V,
)
    requires
        routed(shards),
        0 <= route(key.0, shards.len() as int) < shards.len(),
    ensures
        ({
            let i = route(key.0, shards.len() as int);
            let p = shards.update(i, put(shards[i], key, value));
            routed(p) && joined(p) == put(joined(shards), key, value)
        }),
{
    let n = shards.len() as int;
    let i = route(key.0, n);
    let p = shards.update(i, put(shards[i], key, value));
    assert forall|j: int, q: (u64, K)|
        0 <= j < n && #[trigger] p[j].contains_key(q) implies route(q.0, n) == j by {
        if !(j == i && q == key) {
            assert(shards[j].contains_key(q));
        }
    }
    assert(joined(p) =~= put(joined(shards), key, value));
}

/// Replacing a shard by one whose entries belong in it keeps entries in the shards
/// of their hashes, and changes the number of entries by the difference.
pub(crate) proof fn lemma_set_shard<K, V>(shards: Seq<Shard<K, V>>, i: int, shard: Shard<K, V>)
    requires
        routed(views(shards)),
        0 <= i < shards.len(),
        forall|p: (u64, K)| #[trigger]
            shard@.contains_key(p) ==> route(p.0, shards.len() as int) == i,
    ensures
        views(shards.update(i, shard)) == views(shards).update(i, shard@),
        routed(views(shards.update(i, shard))),
        all_entries(shards.update(i, shard)).len() == all_entries(shards).len()
            - shards[i].entries().len() + shard.entries().len(),
{
    let after = shards.update(i, shard);
    assert(views(after) =~= views(shards).update(i, shard@));
    assert forall|j: int, p: (u64, K)|
        0 <= j < after.len() && #[trigger] views(after)[j].contains_key(p) implies route(
        p.0,
        after.len() as int,
    ) == j by {
        if j != i {
            assert(views(shards)[j].contains_key(p));
        }
    }
    lemma_count(shards, i, shard);
}

/// Replacing a shard changes the number of entries by the difference.
pub(crate) proof fn lemma_count<K, V>(shards: Seq<Shard<K, V>>, i: int, shard: Shard<K, V>)
    requires
        0 <= i < shards.len(),
    ensures
        shards[i].entries().len() <= all_entries(shards).len(),
        all_entries(shards.update(i, shard)).len() == all_entries(shards).len()
            - shards[i].entries().len() + shard.entries().len(),
    decreases shards.len(),
{
    let after = shards.update(i, shard);
    if i < shards.len() - 1 {
        lemma_count(shards.drop_last(), i, shard);
        assert(after.drop_last() =~= shards.drop_last().update(i, shard));
    } else {
        assert(after.drop_last() =~= shards.drop_last());
    }
}

/// The first of `shards` have no more entries than all of them.
pub(crate) proof fn lemma_prefix<K, V>(shards: Seq<Shard<K, V>>, n: int)
    requires
        0 <= n <= shards.len(),
    ensures
        all_entries(shards.take(n)).len() <= all_entries(shards).len(),
    decreases shards.len() - n,
{
    if n < shards.len() {
        lemma_step(shards, n);
        lemma_prefix(shards, n + 1);
    } else {
        assert(shards.take(n) =~= shards);
    }
}

/// Walking over shards meets the entries of each.
pub(crate) proof fn lemma_part<K, V>(shards: Seq<Shard<K, V>>, j: int, e: ((u64, K), V))
    requires
        0 <= j < shards.len(),
        shards[j].entries().contains(e),
    ensures
        all_entries(shards).contains(e),
    decreases shards.len(),
{
    let all = all_entries(shards);
    let rest = all_entries(shards.drop_last());
    let last = shards.last().entries();
    if j < shards.len() - 1 {
        lemma_part(shards.drop_last(), j, e);
        let i = choose|i: int| 0 <= i < rest.len() && rest[i] == e;
        assert(all[i] == e);
    } else {
        let i = choose|i: int| 0 <= i < last.len() && last[i] == e;
        assert(all[rest.len() + i] == e);
    }
}

/// What one shard has under a hash is met on a walk over all shards.
pub(crate) proof fn lemma_filed<K, V>(shards: Seq<Shard<K, V>>, j: int, hash: u64)
    requires
        0 <= j < shards.len(),
    ensures
        forall|i: int|
            0 <= i < shards[j].entries().len() && (#[trigger] shards[j].entries()[i]).0.0 == hash
                ==> filed_with(all_entries(shards), hash, shards[j].entries()[i].1),
{
    let all = all_entries(shards);
    let here = shards[j].entries();
    assert forall|i: int|
        0 <= i < here.len() && (#[trigger] here[i]).0.0 == hash implies filed_with(
        all,
        hash,
        here[i].1,
    ) by {
        lemma_part(shards, j, here[i]);
        let k = choose|k: int| 0 <= k < all.len() && all[k] == here[i];
        assert(all[k].0.0 == hash && all[k].1 == here[i].1);
    }
}

/// The entries of one more shard come after those of the shards before it.
pub(crate) proof fn lemma_step<K, V>(shards: Seq<Shard<K, V>>, n: int)
    requires
        0 <= n < shards.len(),
    ensures
        all_entries(shards.take(n + 1)) == all_entries(shards.take(n)) + shards[n].entries(),
{
    assert(shards.take(n + 1).drop_last() =~= shards.take(n));
}

/// Walking over shards meets each of their entries, and no key twice.
pub(crate) proof fn lemma_all_entries<K: PartialEq, V>(shards: Seq<Shard<K, V>>, n: int)
    requires
        lawful_key::<K>(),
        routed(views(shards)),
        forall|j: int| 0 <= j < shards.len() ==> (#[trigger] shards[j]).wf(),
        0 <= n <= shards.len(),
    ensures
        distinct(all_entries(shards.take(n))),
        forall|i: int|
            0 <= i < all_entries(shards.take(n)).len() ==> ({
                let e = #[trigger] all_entries(shards.take(n))[i];
                let j = route(e.0.0, shards.len() as int);
                0 <= j < n && shards[j].entries().contains(e)
            }),
        forall|j: int, i: int|
            0 <= j < n && 0 <= i < shards[j].entries().len() ==> all_entries(
                shards.take(n),
            ).contains(#[trigger] shards[j].entries()[i]),
    decreases n,
{
    let all = all_entries(shards.take(n));
    lemma_lawful_pair::<K>();
    if n == 0 {
        assert(shards.take(0) =~= Seq::empty());
    } else {
        lemma_all_entries(shards, n - 1);
        lemma_step(shards, n - 1);
        let rest = all_entries(shards.take(n - 1));
        let last = shards[n - 1].entries();
        shards[n - 1].lemma_entries();
        assert(all == rest + last);
        assert forall|i: int| 0 <= i < last.len() implies route(
            (#[trigger] last[i]).0.0,
            shards.len() as int,
        ) == n - 1 by {
            assert(shards[n - 1]@.contains_key(last[i].0));
            assert(views(shards)[n - 1].contains_key(last[i].0));
        }
        assert forall|i: int, j: int| 0 <= i < j < all.len() implies !(#[trigger] all[i]).0.eq_spec(
            &(#[trigger] all[j]).0,
        ) by {
            if j < rest.len() {
                assert(all[i] == rest[i] && all[j] == rest[j]);
            } else if i >= rest.len() {
                assert(all[i] == last[i - rest.len()] && all[j] == last[j - rest.len()]);
            } else {
                assert(all[i] == rest[i] && all[j] == last[j - rest.len()]);
            }
        }
        assert forall|i: int| 0 <= i < all.len() implies ({
            let e = #[trigger] all[i];
            let j = route(e.0.0, shards.len() as int);
            0 <= j < n && shards[j].entries().contains(e)
        }) by {
            if i < rest.len() {
                assert(all[i] == rest[i]);
            } else {
                assert(all[i] == last[i - rest.len()]);
            }
        }
        assert forall|j: int, i: int|
            0 <= j < n && 0 <= i < shards[j].entries().len() implies all.contains(
            #[trigger] shards[j].entries()[i],
        ) by {
            let e = shards[j].entries()[i];
            if j < n - 1 {
                assert(rest.contains(e));
                let k = choose|k: int| 0 <= k < rest.len() && rest[k] == e;
                assert(all[k] == e);
            } else {
                assert(all[rest.len() + i] == e);
            }
        }
    }
}

/// Walking over shards, each of which holds the entries whose hashes go to it, meets
/// each of their entries once.
pub(crate) proof fn lemma_walk<K: PartialEq, V>(shards: Seq<Shard<K, V>>)
    requires
        lawful_key::<K>(),
        routed(views(shards)),
        forall|j: int| 0 <= j < shards.len() ==> (#[trigger] shards[j]).wf(),
    ensures
        distinct(all_entries(shards)),
        to_map(all_entries(shards)) == joined(views(shards)),
{
    let all = all_entries(shards);
    let m = joined(views(shards));
    lemma_lawful_pair::<K>();
    lemma_all_entries(shards, shards.len() as int);
    assert(shards.take(shards.len() as int) =~= shards);
    lemma_to_map_holds(all);
    assert forall|p: (u64, K)| #[trigger] to_map(all).contains_key(p) implies m.contains_key(p)
        && m[p] == to_map(all)[p] by {
        let i = choose|i: int| 0 <= i < all.len() && (#[trigger] all[i]).0 == p;
        let j = route(p.0, shards.len() as int);
        let here = shards[j].entries();
        let k = choose|k: int| 0 <= k < here.len() && here[k] == all[i];
        shards[j].lemma_entries();
        assert(here[k] == all[i]);
        assert(views(shards)[j].contains_key(p));
    }
    assert forall|p: (u64, K)| #[trigger] m.contains_key(p) implies to_map(all).contains_key(p) by {
        let j = route(p.0, shards.len() as int);
        let here = shards[j].entries();
        assert(shards[j]@.contains_key(p));
        let k = choose|k: int| 0 <= k < here.len() && (#[trigger] here[k]).0 == p;
        assert(all.contains(here[k]));
        let i = choose|i: int| 0 <= i < all.len() && all[i] == here[k];
        assert(all[i].0 == p);
    }
    assert(to_map(all) =~= m);
}

/// Shards that are the same but for values have the same keys.
pub(crate) proof fn lemma_values_change<K: PartialEq, V>(
    before: Seq<Shard<K, V>>,
    after: Seq<Shard<K, V>>,
)
    requires
        routed(views(before)),
        only_values_change(before, after),
    ensures
        routed(views(after)),
        joined(views(after)).dom() == joined(views(before)).dom(),
{
    assert forall|j: int, p: (u64, K)| 0 <= j < after.len() implies #[trigger] views(
        after,
    )[j].contains_key(p) == views(before)[j].contains_key(p) by {
        let a = after[j].entries();
        let b = before[j].entries();
        if after[j]@.contains_key(p) {
            let i = choose|i: int| 0 <= i < a.len() && (#[trigger] a[i]).0 == p;
            assert(b[i].0 == p);
        }
        if before[j]@.contains_key(p) {
            let i = choose|i: int| 0 <= i < b.len() && (#[trigger] b[i]).0 == p;
            assert(a[i].0 == p);
        }
    }
    assert(joined(views(after)).dom() =~= joined(views(before)).dom());
}

/// Returns the shard to read at step `idx` of a walk over `total` shards, and the
/// step that comes after; `None` when the walk is over.
pub fn next_shard(idx: usize, total: usize) -> (step: Option<(usize, usize)>)
    ensures
        step == (if idx < total {
            Some((idx, (idx + 1) as usize))
        } else {
            None
        }),
{
    if idx >= total {
        return None;
    }
    Some((idx, idx + 1))
}

/// Returns the keys of `shards`, and their values, to be changed.
pub(crate) fn shard_refs_mut<'a, K: Eq, V>(shards: &'a mut [Shard<K, V>]) -> (items: Vec<
    (&'a K, &'a mut V),
>)
    requires
        forall|j: int| 0 <= j < old(shards)@.len() ==> (#[trigger] old(shards)@[j]).wf(),
    ensures
        only_values_change(old(shards)@, final(shards)@),
        items@.len() == all_entries(old(shards)@).len(),
        all_entries(final(shards)@).len() == items@.len(),
        forall|i: int|
            #![trigger items@[i]]
            #![trigger all_entries(final(shards)@)[i]]
            0 <= i < items@.len() ==> {
                &&& *items@[i].0 == all_entries(old(shards)@)[i].0.1
                &&& *items@[i].1 == all_entries(old(shards)@)[i].1
                &&& all_entries(final(shards)@)[i] == (
                    all_entries(old(shards)@)[i].0,
                    *final(items@[i].1),
                )
            },
{
    let mut items: Vec<(&'a K, &'a mut V)> = Vec::new();
    let ghost all = shards@;
    let ghost end = final(shards)@;
    let len: usize = shards.len();
    let mut done: usize = 0;
    let mut rest = shards;
    while done < len
        invariant
            all.len() == len,
            done <= len,
            forall|j: int| 0 <= j < all.len() ==> (#[trigger] all[j]).wf(),
            rest@ == all.skip(done as int),
            end.len() == done + final(rest)@.len(),
            forall|j: int|
                0 <= j < final(rest)@.len() ==> #[trigger] final(rest)@[j] == end[done + j],
            only_values_change(all.take(done as int), end.take(done as int)),
            items@.len() == all_entries(all.take(done as int)).len(),
            all_entries(end.take(done as int)).len() == items@.len(),
            forall|i: int|
                #![trigger items@[i]]
                #![trigger all_entries(end.take(done as int))[i]]
                0 <= i < items@.len() ==> {
                    &&& *items@[i].0 == all_entries(all.take(done as int))[i].0.1
                    &&& *items@[i].1 == all_entries(all.take(done as int))[i].1
                    &&& all_entries(end.take(done as int))[i] == (
                        all_entries(all.take(done as int))[i].0,
                        *final(items@[i].1),
                    )
                },
        decreases len - done,
    {
        let ghost at = done as int;
        let ghost before = final(rest)@;
        let ghost old_items = items@;
        let (head, tail) = rest.split_at_mut(1);
        assert(before == final(head)@ + final(tail)@);
        match head.first_mut() {
            Some(shard) => {
                let mut part = shard.iter_mut();
                let ghost added = part@;
                items.append(&mut part);
                assert(items@ =~= old_items + added);
            },
            None => {},
        }
        rest = tail;
        done += 1;
        proof {
            assert(before[0] == end[at]);
            assert forall|j: int| 0 <= j < final(rest)@.len() implies #[trigger] final(rest)@[j]
                == end[done + j] by {
                assert(before[1 + j] == end[at + (1 + j)]);
            }
            lemma_step(all, at);
            lemma_step(end, at);
        }
    }
    proof {
        assert(all.take(len as int) =~= all);
        assert(end.take(len as int) =~= end);
    }
    items
}

} // verus!
