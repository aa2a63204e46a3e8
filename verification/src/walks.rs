//! What the results of walks over a map or a set hold, told by its contents.
//!
//! A walk gives each key of the contents a place in its result. The laws say that
//! no two keys share a place, that no place is left over, and what stands in it.
use crate::laws::law_contents;
use crate::shard_map::ShardMap;
use crate::shard_read::{clones_of, key_clones_of, value_clones_of};
use crate::shard_set::ShardSet;
use crate::sharding::all_entries;
use std::hash::{BuildHasher, Hash};
use vstd::prelude::*;
use vstd::std_specs::cmp::PartialEqSpec;

verus! {

/// Each key of a map has a place of its own in a walk over the shards. The entry
/// there is the entry of that key, and every place is the place of a key.
pub proof fn law_places<K: Eq + Hash, V, S: BuildHasher>(map: ShardMap<K, V, S>) -> (at: Map<
    K,
    int,
>)
    requires
        map.wf(),
        map.consistent(),
    ensures
        at.dom() == map.contents().dom(),
        at.is_injective(),
        map.contents().dom().finite(),
        map.contents().len() == all_entries(map.shards()).len(),
        forall|k: K| #[trigger]
            map.contents().contains_key(k) ==> {
                &&& 0 <= at[k] < all_entries(map.shards()).len()
                &&& all_entries(map.shards())[at[k]].0.1 == k
                &&& all_entries(map.shards())[at[k]].1 == map.contents()[k]
            },
        forall|i: int|
            0 <= i < all_entries(map.shards()).len() ==> {
                let k = (#[trigger] all_entries(map.shards())[i]).0.1;
                map.contents().contains_key(k) && at[k] == i
            },
{
    let all = all_entries(map.shards());
    let contents = map.contents();
    law_contents(map);
    let at = Map::new(
        |k: K| contents.contains_key(k),
        |k: K| choose|i: int| 0 <= i < all.len() && (#[trigger] all[i]).0.1 == k,
    );
    assert(at.dom() =~= contents.dom());
    assert forall|k: K| #[trigger] contents.contains_key(k) implies 0 <= at[k] < all.len()
        && all[at[k]].0.1 == k && all[at[k]].1 == contents[k] by {
        let i = choose|i: int| 0 <= i < all.len() && (#[trigger] all[i]).0.1 == k;
        assert(all[i].0.1 == k);
    }
    assert forall|i: int| 0 <= i < all.len() implies {
        let k = (#[trigger] all[i]).0.1;
        contents.contains_key(k) && at[k] == i
    } by {
        let k = all[i].0.1;
        assert(contents.contains_key(k));
        let j = at[k];
        assert(all[j].0.1 == k && k.eq_spec(&k));
        if i < j {
            assert(!all[i].0.1.eq_spec(&all[j].0.1));
        } else if j < i {
            assert(!all[j].0.1.eq_spec(&all[i].0.1));
        }
    }
    assert forall|x: K, y: K|
        x != y && at.dom().contains(x) && at.dom().contains(y) implies #[trigger] at[x]
        != #[trigger] at[y] by {
        assert(contents.contains_key(x) && contents.contains_key(y));
    }
    at
}

/// The pairs that a map hands out are its entries: each key has one place, no place
/// is left over, and the pair in it is a clone of the key with a clone of the value
/// of that same key. Where clones are identical, the pairs are the contents, and
/// none comes twice.
pub proof fn law_entries<K: Eq + Hash + Clone, V: Clone, S: BuildHasher>(
    map: ShardMap<K, V, S>,
    items: Seq<(K, V)>,
)
    requires
        map.wf(),
        map.consistent(),
        clones_of(all_entries(map.shards()), items),
    ensures
        items.len() == map.contents().len(),
        exists|at: Map<K, int>|
            {
                &&& at.dom() == map.contents().dom()
                &&& #[trigger] at.is_injective()
                &&& forall|k: K|
                    map.contents().contains_key(k) ==> {
                        &&& 0 <= #[trigger] at[k] < items.len()
                        &&& cloned(k, items[at[k]].0)
                        &&& cloned(map.contents()[k], items[at[k]].1)
                    }
                &&& forall|i: int| 0 <= i < items.len() ==> #[trigger] at.contains_value(i)
            },
        (forall|a: K, b: K| #[trigger] cloned(a, b) ==> a == b) && (forall|a: V, b: V| #[trigger]
            cloned(a, b) ==> a == b) ==> {
            &&& items.no_duplicates()
            &&& forall|k: K, v: V| #[trigger]
                items.contains((k, v)) <==> map.contents().contains_key(k) && map.contents()[k] == v
        },
{
    let all = all_entries(map.shards());
    let contents = map.contents();
    let at = law_places(map);
    assert forall|i: int| 0 <= i < items.len() implies at.contains_value(i) by {
        let k = all[i].0.1;
        assert(at.dom().contains(k) && at[k] == i);
    }
    assert forall|k: K| contents.contains_key(k) implies {
        &&& 0 <= #[trigger] at[k] < items.len()
        &&& cloned(k, items[at[k]].0)
        &&& cloned(contents[k], items[at[k]].1)
    } by {
        let c = items[at[k]];
        assert(cloned(all[at[k]].0.1, c.0));
    }
    if (forall|a: K, b: K| #[trigger] cloned(a, b) ==> a == b) && (forall|a: V, b: V| #[trigger]
        cloned(a, b) ==> a == b) {
        assert forall|i: int, j: int|
            0 <= i < items.len() && 0 <= j < items.len() && i != j implies items[i]
            != items[j] by {
            let a = items[i];
            let b = items[j];
            assert(cloned(all[i].0.1, a.0) && cloned(all[j].0.1, b.0));
            assert(at[all[i].0.1] == i && at[all[j].0.1] == j);
        }
        assert forall|k: K, v: V| #[trigger] items.contains((k, v)) <==> contents.contains_key(k)
            && contents[k] == v by {
            if items.contains((k, v)) {
                let i = choose|i: int| 0 <= i < items.len() && items[i] == (k, v);
                let c = items[i];
                assert(cloned(all[i].0.1, c.0) && cloned(all[i].1, c.1));
                assert(at[all[i].0.1] == i);
            }
            if contents.contains_key(k) && contents[k] == v {
                let c = items[at[k]];
                assert(cloned(k, c.0) && cloned(v, c.1));
                assert(items[at[k]] == (k, v));
            }
        }
    }
}

/// The keys that a map hands out are its keys: each has one place, which holds a
/// clone of it, and no place is left over. Where clones are identical, none is
/// missing and none comes twice.
pub proof fn law_keys<K: Eq + Hash + Clone, V, S: BuildHasher>(
    map: ShardMap<K, V, S>,
    keys: Seq<K>,
)
    requires
        map.wf(),
        map.consistent(),
        key_clones_of(all_entries(map.shards()), keys),
    ensures
        keys.len() == map.contents().len(),
        exists|at: Map<K, int>|
            {
                &&& at.dom() == map.contents().dom()
                &&& #[trigger] at.is_injective()
                &&& forall|k: K|
                    map.contents().contains_key(k) ==> 0 <= #[trigger] at[k] < keys.len() && cloned(
                        k,
                        keys[at[k]],
                    )
                &&& forall|i: int| 0 <= i < keys.len() ==> #[trigger] at.contains_value(i)
            },
        (forall|a: K, b: K| #[trigger] cloned(a, b) ==> a == b) ==> {
            &&& keys.no_duplicates()
            &&& forall|k: K| #[trigger] keys.contains(k) <==> map.contents().contains_key(k)
        },
{
    let all = all_entries(map.shards());
    let contents = map.contents();
    let at = law_places(map);
    assert forall|i: int| 0 <= i < keys.len() implies at.contains_value(i) by {
        let k = all[i].0.1;
        assert(at.dom().contains(k) && at[k] == i);
    }
    assert forall|k: K| contents.contains_key(k) implies 0 <= #[trigger] at[k] < keys.len()
        && cloned(k, keys[at[k]]) by {
        let c = keys[at[k]];
        assert(cloned(all[at[k]].0.1, c));
    }
    if forall|a: K, b: K| #[trigger] cloned(a, b) ==> a == b {
        assert forall|i: int, j: int|
            0 <= i < keys.len() && 0 <= j < keys.len() && i != j implies keys[i] != keys[j] by {
            assert(cloned(all[i].0.1, keys[i]) && cloned(all[j].0.1, keys[j]));
            assert(at[all[i].0.1] == i && at[all[j].0.1] == j);
        }
        assert forall|k: K| #[trigger] keys.contains(k) <==> contents.contains_key(k) by {
            if keys.contains(k) {
                let i = choose|i: int| 0 <= i < keys.len() && keys[i] == k;
                assert(cloned(all[i].0.1, keys[i]));
                assert(at[all[i].0.1] == i);
            }
            if contents.contains_key(k) {
                assert(cloned(k, keys[at[k]]));
            }
        }
    }
}

/// The values that a map hands out are those of its entries: each key has one
/// place, which holds a clone of the value of that key, and no place is left over.
pub proof fn law_values<K: Eq + Hash, V: Clone, S: BuildHasher>(
    map: ShardMap<K, V, S>,
    values: Seq<V>,
)
    requires
        map.wf(),
        map.consistent(),
        value_clones_of(all_entries(map.shards()), values),
    ensures
        values.len() == map.contents().len(),
        exists|at: Map<K, int>|
            {
                &&& at.dom() == map.contents().dom()
                &&& #[trigger] at.is_injective()
                &&& forall|k: K|
                    map.contents().contains_key(k) ==> 0 <= #[trigger] at[k] < values.len()
                        && cloned(map.contents()[k], values[at[k]])
                &&& forall|i: int| 0 <= i < values.len() ==> #[trigger] at.contains_value(i)
            },
{
    let all = all_entries(map.shards());
    let contents = map.contents();
    let at = law_places(map);
    assert forall|i: int| 0 <= i < values.len() implies at.contains_value(i) by {
        let k = all[i].0.1;
        assert(at.dom().contains(k) && at[k] == i);
    }
    assert forall|k: K| contents.contains_key(k) implies 0 <= #[trigger] at[k] < values.len()
        && cloned(contents[k], values[at[k]]) by {
        let c = values[at[k]];
        assert(cloned(all[at[k]].1, c));
    }
}

/// The values that a set hands out are its values: each has one place, which holds
/// a clone of it, and no place is left over. Where clones are identical, none is
/// missing and none comes twice.
pub proof fn law_set_values<T: Eq + Hash + Clone, S: BuildHasher>(
    set: ShardSet<T, S>,
    values: Seq<T>,
)
    requires
        set.wf(),
        set.map().consistent(),
        key_clones_of(all_entries(set.map().shards()), values),
    ensures
        values.len() == set.contents().len(),
        exists|at: Map<T, int>|
            {
                &&& at.dom() == set.contents()
                &&& #[trigger] at.is_injective()
                &&& forall|t: T|
                    set.contents().contains(t) ==> 0 <= #[trigger] at[t] < values.len() && cloned(
                        t,
                        values[at[t]],
                    )
                &&& forall|i: int| 0 <= i < values.len() ==> #[trigger] at.contains_value(i)
            },
        (forall|a: T, b: T| #[trigger] cloned(a, b) ==> a == b) ==> {
            &&& values.no_duplicates()
            &&& forall|t: T| #[trigger] values.contains(t) <==> set.contents().contains(t)
        },
{
    law_keys(set.map(), values);
    let at = choose|at: Map<T, int>|
        {
            &&& at.dom() == set.map().contents().dom()
            &&& #[trigger] at.is_injective()
            &&& forall|k: T|
                set.map().contents().contains_key(k) ==> 0 <= #[trigger] at[k] < values.len()
                    && cloned(k, values[at[k]])
            &&& forall|i: int| 0 <= i < values.len() ==> #[trigger] at.contains_value(i)
        };
    assert(at.is_injective());
    assert forall|t: T| set.contents().contains(t) implies 0 <= #[trigger] at[t] < values.len()
        && cloned(t, values[at[t]]) by {
        assert(set.map().contents().contains_key(t));
    }
}

} // verus!
