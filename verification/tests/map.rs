use std::hash::{Hash, Hasher};
use whirlwind::{ShardMap, ShardSet};

/// A name that equals any name with the same letters, large or small.
#[derive(Clone, Debug)]
struct Name(&'static str);

impl PartialEq for Name {
    fn eq(&self, other: &Self) -> bool {
        self.0.eq_ignore_ascii_case(other.0)
    }
}

impl Eq for Name {}

impl Hash for Name {
    fn hash<H: Hasher>(&self, state: &mut H) {
        self.0.to_ascii_lowercase().hash(state);
    }
}

#[test]
fn insert_returns_the_old_value() {
    let mut map = ShardMap::new(None);
    assert_eq!(map.insert("foo", "bar"), None);
    assert_eq!(map.insert("foo", "baz"), Some("bar"));
    assert_eq!(map.len(), 1);
    assert_eq!(map.get(&"foo").unwrap().value(), &"baz");
}

#[test]
fn insert_replaces_an_equal_key() {
    let mut map = ShardMap::new(None);
    map.insert(Name("foo"), 1);
    assert_eq!(map.insert(Name("FOO"), 2), Some(1));
    assert_eq!(map.keys()[0].0, "FOO");
    assert_eq!(map.get(&Name("fOo")).unwrap().key().0, "FOO");
    assert_eq!(map.remove(&Name("foo")), Some(2));
    assert!(map.is_empty());
}

#[test]
fn get_mut_changes_the_value() {
    let mut map = ShardMap::new(None);
    map.insert("foo", "bar");
    {
        let mut entry = map.get_mut(&"foo").unwrap();
        *entry.value_mut() = "baz";
        assert_eq!(entry.key(), &"foo");
        assert_eq!(entry.value(), &"baz");
    }
    assert_eq!(map.get(&"foo").unwrap().value(), &"baz");
    assert!(map.get_mut(&"bar").is_none());
}

#[test]
fn clear_takes_out_every_entry() {
    let mut map = ShardMap::new(None);
    map.insert("foo", "bar");
    map.insert("baz", "qux");
    assert_eq!(map.len(), 2);
    map.clear();
    assert_eq!(map.is_empty(), true);
    assert!(map.get(&"foo").is_none());
    assert_eq!(map.insert("foo", "bar"), None);
}

#[test]
fn stream_shards_meets_every_entry() {
    let mut map = ShardMap::new(None);
    map.insert(1, "a");
    map.insert(2, "b");
    let mut seen = 0;
    for shard in map.stream_shards() {
        for (_k, _v) in shard.iter() {
            seen += 1;
        }
    }
    assert_eq!(seen, 2);
}

#[test]
fn stream_owned_meets_every_entry() {
    let mut map = ShardMap::new(None);
    map.insert(1, "a".to_string());
    map.insert(2, "b".to_string());
    let mut items = map.stream_owned();
    items.sort_by_key(|(k, _)| *k);
    assert_eq!(items, vec![(1, "a".to_string()), (2, "b".to_string())]);
}

#[test]
fn entries_are_all_entries() {
    let mut map = ShardMap::new(None);
    map.insert(1, "a".to_string());
    map.insert(2, "b".to_string());
    let mut items = map.entries();
    items.sort_by_key(|(k, _)| *k);
    assert_eq!(items, vec![(1, "a".to_string()), (2, "b".to_string())]);
}

#[test]
fn keys_are_all_keys() {
    let mut map = ShardMap::new(None);
    map.insert(10, "x");
    map.insert(20, "y");
    let mut keys = map.keys();
    keys.sort();
    assert_eq!(keys, vec![10, 20]);
}

#[test]
fn values_are_all_values() {
    let mut map = ShardMap::new(None);
    map.insert(1, "a".to_string());
    map.insert(2, "b".to_string());
    let mut values = map.values();
    values.sort();
    assert_eq!(values, vec!["a".to_string(), "b".to_string()]);
}

#[test]
fn a_lookup_finds_the_last_value_of_its_key_alone() {
    let mut map = ShardMap::with_shards_and_capacity(8, 10);
    for round in 0..3u64 {
        for k in 0..500u64 {
            let old = map.insert(k, k + round);
            assert_eq!(old, if round == 0 { None } else { Some(k + round - 1) });
        }
    }
    assert_eq!(map.len(), 500);
    for k in 0..500u64 {
        assert_eq!(map.get(&k).unwrap().value(), &(k + 2));
    }
    for k in 500..600u64 {
        assert!(map.get(&k).is_none());
        assert!(!map.contains_key(&k));
        assert_eq!(map.remove(&k), None);
    }
}

#[test]
fn remove_undoes_insert() {
    let mut map = ShardMap::new(None);
    for k in 0..100u64 {
        map.insert(k, k);
    }
    let mut before = map.entries();
    map.insert(1000, 1);
    assert_eq!(map.remove(&1000), Some(1));
    let mut after = map.entries();
    before.sort();
    after.sort();
    assert_eq!(before, after);
    assert_eq!(map.remove(&50), Some(50));
    assert_eq!(map.len(), 99);
    assert_eq!(map.insert(50, 50), None);
    let mut again = map.entries();
    again.sort();
    assert_eq!(before, again);
}

#[test]
fn different_keys_go_in_and_out_in_any_order() {
    let mut one = ShardMap::new(None);
    one.insert(1u64, 'a');
    one.insert(2, 'b');
    one.remove(&3);
    let mut other = ShardMap::new(None);
    other.remove(&3);
    other.insert(2u64, 'b');
    other.insert(1, 'a');
    let mut left = one.entries();
    let mut right = other.entries();
    left.sort();
    right.sort();
    assert_eq!(left, right);
}

#[test]
fn a_walk_meets_each_key_once() {
    let mut map = ShardMap::with_shards(16);
    for k in 0..300u64 {
        map.insert(k, k * 2);
    }
    let mut keys = map.keys();
    keys.sort();
    assert_eq!(keys, (0..300u64).collect::<Vec<u64>>());
    let mut pairs: Vec<(u64, u64)> = map.iter().iter().map(|(k, v)| (**k, **v)).collect();
    pairs.sort();
    assert_eq!(pairs, (0..300u64).map(|k| (k, k * 2)).collect::<Vec<(u64, u64)>>());
    assert_eq!(map.values().iter().sum::<u64>(), 299 * 300);
}

#[test]
fn iter_mut_reaches_every_value() {
    let mut map = ShardMap::with_shards(4);
    for k in 0..100u64 {
        map.insert(k, 0u64);
    }
    for (key, value) in map.iter_mut() {
        *value = *key + 1;
    }
    for value in map.values_mut() {
        *value *= 2;
    }
    for k in 0..100u64 {
        assert_eq!(map.get(&k).unwrap().value(), &(2 * (k + 1)));
    }
}

#[test]
fn entries_are_filed_under_the_given_hash() {
    let mut map: ShardMap<u64, u64> = ShardMap::with_shards(4);
    assert_eq!(map.insert_hashed(9, 1, 10), None);
    assert_eq!(map.insert_hashed(9, 1, 11), Some(10));
    assert_eq!(map.get_hashed(9, &1).unwrap().value(), &11);
    assert!(map.get_hashed(8, &1).is_none());
    assert!(map.contains_key_hashed(9, &1));
    assert!(!map.contains_key_hashed(9, &2));
    *map.get_mut_hashed(9, &1).unwrap().value_mut() = 12;
    assert!(map.get_mut_hashed(7, &1).is_none());
    assert_eq!(map.remove_hashed(8, &1), None);
    assert_eq!(map.remove_hashed(9, &1), Some(12));
    assert_eq!(map.len(), 0);
}

#[test]
fn a_set_has_what_was_put_in_and_not_taken_out() {
    let mut set = ShardSet::new(None);
    for i in 0..10 {
        let k = i;
        if i % 2 == 0 {
            set.insert(k);
            assert!(set.contains(&k));
        } else {
            assert!(set.remove(&(k - 1)));
            assert!(!set.remove(&(k - 1)));
        }
    }
    assert!(set.is_empty());
    set.insert(3);
    set.insert(3);
    set.insert(4);
    assert_eq!(set.len(), 2);
    assert_eq!(set.is_empty(), false);
    let mut values = set.values();
    values.sort();
    assert_eq!(values, vec![3, 4]);
    set.clear();
    assert_eq!(set.len(), 0);
    assert!(!set.contains(&3));
}

#[test]
fn a_set_keeps_the_last_of_equal_values() {
    let mut set = ShardSet::new_with_shards(4);
    set.insert(Name("foo"));
    set.insert(Name("Foo"));
    assert_eq!(set.len(), 1);
    assert_eq!(set.values()[0].0, "Foo");
    assert_eq!(set.iter()[0].0, "Foo");
    assert!(set.contains(&Name("FOO")));
    assert!(set.remove(&Name("foo")));
    assert!(set.is_empty());
}

#[test]
fn empty_shards_are_streamed_too() {
    let map: ShardMap<i32, &str> = ShardMap::with_shards(4);
    let shards = map.stream_shards();
    assert_eq!(shards.len(), 4);
    for shard in &shards {
        assert!(shard.is_empty());
        assert_eq!(shard.len(), 0);
    }
}

#[test]
fn the_length_is_the_sum_of_the_shards() {
    let mut map = ShardMap::with_shards(8);
    for k in 0..50u64 {
        map.insert(k, k);
    }
    let sum: usize = map.stream_shards().iter().map(|s| s.len()).sum();
    assert_eq!(sum, 50);
    assert_eq!(map.len(), sum);
}

#[test]
fn each_key_is_in_one_shard_once() {
    let mut map = ShardMap::with_shards(8);
    for k in 0..50u64 {
        map.insert(k, k * 3);
    }
    for k in 0..50u64 {
        let mut seen = 0;
        for shard in map.stream_shards() {
            let keys = shard.keys();
            for (i, (key, value)) in shard.iter().iter().enumerate() {
                assert_eq!(*key, keys[i]);
                if **key == k {
                    assert_eq!(**value, k * 3);
                    seen += 1;
                }
            }
        }
        assert_eq!(seen, 1);
    }
}

#[test]
fn an_empty_map_finds_nothing() {
    let mut map: ShardMap<&str, u64> = ShardMap::with_shards_and_capacity(2, 7);
    for _ in 0..2 {
        assert!(!map.contains_key(&"foo"));
        assert!(map.get(&"foo").is_none());
        assert_eq!(map.remove(&"foo"), None);
        assert!(map.entries().is_empty());
        assert_eq!(map.insert("foo", 1), None);
        assert_eq!(map.remove(&"foo"), Some(1));
        assert_eq!(map.remove(&"foo"), None);
        map.insert("bar", 2);
        map.clear();
        map.clear();
        assert_eq!(map.stream_shards().len(), 2);
    }
}

#[test]
fn the_length_follows_what_was_replaced_or_removed() {
    let mut map = ShardMap::with_shards(4);
    let mut len = 0;
    for k in [3u64, 5, 3, 7, 5, 9] {
        let replaced = map.insert(k, k);
        if replaced.is_none() {
            len += 1;
        }
        assert_eq!(map.len(), len);
    }
    assert_eq!(len, 4);
    for k in [3u64, 4, 3, 9] {
        if map.remove(&k).is_some() {
            len -= 1;
        }
        assert_eq!(map.len(), len);
    }
    assert_eq!(len, 2);
}

#[test]
fn inserting_a_value_twice_is_inserting_it_once() {
    let mut set = ShardSet::new(None);
    set.insert(1u64);
    set.insert(2);
    let mut once = set.values();
    set.insert(2);
    let mut twice = set.values();
    once.sort();
    twice.sort();
    assert_eq!(once, vec![1, 2]);
    assert_eq!(twice, once);
    assert_eq!(set.len(), 2);
}
