use whirlwind::{ShardMap, ShardSet};

#[test]
fn test_shardmap() {
    let mut map = ShardMap::new(None);
    map.insert("foo", "bar");
    assert_eq!(map.len(), 1);
    assert_eq!(map.contains_key(&"foo"), true);
    assert_eq!(map.contains_key(&"bar"), false);
    assert_eq!(map.get(&"foo").unwrap().value(), &"bar");
    assert!(map.get(&"bar").is_none());
    assert_eq!(map.remove(&"foo"), Some("bar"));
    assert_eq!(map.len(), 0);
    assert_eq!(map.contains_key(&"foo"), false);
}

#[test]
fn test_shardmap_shards() {
    let mut map = ShardMap::with_shards(4);
    map.insert("foo", "bar");
    assert_eq!(map.len(), 1);
    assert_eq!(map.contains_key(&"foo"), true);
    assert_eq!(map.contains_key(&"bar"), false);
    assert_eq!(map.get(&"foo").unwrap().value(), &"bar");
    assert!(map.get(&"bar").is_none());
    assert_eq!(map.remove(&"foo"), Some("bar"));
    assert_eq!(map.len(), 0);
    assert_eq!(map.contains_key(&"foo"), false);
}

#[test]
fn test_shardmap_len() {
    let mut map = ShardMap::new(None);
    map.insert("foo", "bar");
    assert_eq!(map.len(), 1);
    map.insert("foo2", "bar2");
    assert_eq!(map.len(), 2);
    map.remove(&"foo");
    assert_eq!(map.len(), 1);
    map.remove(&"foo2");
    assert_eq!(map.len(), 0);
}

#[test]
fn test_shardmap_is_empty() {
    let mut map = ShardMap::new(None);
    assert_eq!(map.is_empty(), true);
    map.insert("foo", "bar");
    assert_eq!(map.is_empty(), false);
    map.remove(&"foo");
    assert_eq!(map.is_empty(), true);
}

#[test]
fn test_shardmap_iter() {
    let mut map = ShardMap::new(None);
    map.insert("foo", "bar");
    map.insert("baz", "qux");

    let mut pairs = Vec::new();
    for (key, value) in map.iter() {
        pairs.push((*key, *value));
    }

    assert_eq!(pairs.len(), 2);
    assert!(pairs.contains(&(&"foo", &"bar")));
    assert!(pairs.contains(&(&"baz", &"qux")));
    // The map is unchanged.
    assert_eq!(map.len(), 2);
    assert_eq!(map.get(&"foo").unwrap().value(), &"bar");
    assert_eq!(map.get(&"baz").unwrap().value(), &"qux");
}

#[test]
fn test_shardmap_iter_empty() {
    let map: ShardMap<&str, &str> = ShardMap::new(None);
    let pairs: Vec<(&&str, &&str)> = map.iter();
    assert_eq!(pairs.len(), 0);
    assert_eq!(map.len(), 0);
}

#[test]
fn test_shardmap_keys() {
    let mut map = ShardMap::new(None);
    map.insert("foo", "bar");
    map.insert("baz", "qux");

    let mut keys = Vec::new();
    for key in map.keys() {
        keys.push(key);
    }

    assert_eq!(keys.len(), 2);
    assert!(keys.contains(&"foo"));
    assert!(keys.contains(&"baz"));
    // The map is unchanged.
    assert_eq!(map.len(), 2);
    assert_eq!(map.get(&"foo").unwrap().value(), &"bar");
    assert_eq!(map.get(&"baz").unwrap().value(), &"qux");
}

#[test]
fn test_shardmap_values() {
    let mut map = ShardMap::new(None);
    map.insert("foo", "bar");
    map.insert("baz", "qux");

    let mut values = Vec::new();
    for value in map.values() {
        values.push(value);
    }

    assert_eq!(values.len(), 2);
    assert!(values.contains(&"bar"));
    assert!(values.contains(&"qux"));
    // The map is unchanged.
    assert_eq!(map.len(), 2);
    assert_eq!(map.get(&"foo").unwrap().value(), &"bar");
    assert_eq!(map.get(&"baz").unwrap().value(), &"qux");
}

#[test]
fn test_shardmap_iter_mut() {
    let mut map = ShardMap::new(None);
    map.insert("foo", "bar");
    map.insert("baz", "qux");

    for (key, value) in map.iter_mut() {
        if *key == "foo" {
            *value = "updated";
        }
    }

    assert_eq!(map.len(), 2);
    assert_eq!(map.get(&"foo").unwrap().value(), &"updated");
    assert_eq!(map.get(&"baz").unwrap().value(), &"qux");
}

#[test]
fn test_shardmap_values_mut() {
    let mut map = ShardMap::new(None);
    map.insert("foo", "bar");
    map.insert("baz", "qux");

    for value in map.values_mut() {
        if *value == "bar" {
            *value = "updated";
        }
    }

    assert_eq!(map.len(), 2);
    assert_eq!(map.get(&"foo").unwrap().value(), &"updated");
    assert_eq!(map.get(&"baz").unwrap().value(), &"qux");
}

#[test]
fn test_shardmap_iter_mut_empty() {
    let mut map: ShardMap<&str, &str> = ShardMap::new(None);
    let pairs: Vec<(&&str, &mut &str)> = map.iter_mut();
    assert_eq!(pairs.len(), 0);
    assert_eq!(map.len(), 0);
}

#[test]
fn test_shardset_iter() {
    let mut set = ShardSet::new(None);
    set.insert("foo");
    set.insert("bar");

    let mut items = Vec::new();
    for item in set.iter() {
        items.push(*item);
    }

    assert_eq!(items.len(), 2);
    assert!(items.contains(&"foo"));
    assert!(items.contains(&"bar"));
    // The set is unchanged.
    assert_eq!(set.len(), 2);
    assert!(set.contains(&"foo"));
    assert!(set.contains(&"bar"));
}
