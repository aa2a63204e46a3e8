use whirlwind::shard::Shard;
use whirlwind::ShardRead;

/// A name that equals any name with the same letters, large or small.
#[derive(Clone, Debug)]
struct Name(&'static str);

impl PartialEq for Name {
    fn eq(&self, other: &Self) -> bool {
        self.0.eq_ignore_ascii_case(other.0)
    }
}

impl Eq for Name {}

#[test]
fn an_empty_shard_holds_nothing() {
    let shard: Shard<u64, u64> = Shard::with_capacity(0);
    assert_eq!(shard.len(), 0);
    assert!(shard.is_empty());
    assert!(shard.find(1, &1).is_none());
    assert!(shard.get(1, &1).is_none());
    assert!(!shard.contains_key(1, &1));
    let read = ShardRead::new(&shard);
    assert!(read.is_empty());
    assert_eq!(read.len(), 0);
    assert!(read.iter().is_empty());
}

#[test]
fn an_entry_is_filed_under_its_hash_and_key() {
    let mut shard = Shard::with_capacity(4);
    assert_eq!(shard.insert(7, "a", 1), None);
    assert_eq!(shard.insert(7, "b", 2), None);
    assert_eq!(shard.insert(8, "a", 3), None);
    assert_eq!(shard.len(), 3);
    assert_eq!(shard.get(7, &"a").unwrap().value(), &1);
    assert_eq!(shard.get(7, &"b").unwrap().value(), &2);
    assert_eq!(shard.get(8, &"a").unwrap().value(), &3);
    assert!(shard.get(8, &"b").is_none());
    assert!(shard.get(9, &"a").is_none());
    assert_eq!(shard.get(7, &"b").unwrap().key(), &"b");
}

#[test]
fn an_equal_key_replaces_key_and_value() {
    let mut shard = Shard::with_capacity(4);
    assert_eq!(shard.insert(1, Name("foo"), 10), None);
    assert_eq!(shard.insert(1, Name("FOO"), 20), Some(10));
    assert_eq!(shard.len(), 1);
    let entry = shard.get(1, &Name("Foo")).unwrap();
    assert_eq!(entry.key().0, "FOO");
    assert_eq!(entry.value(), &20);
}

#[test]
fn a_removed_entry_is_gone_and_the_rest_is_found() {
    let mut shard = Shard::with_capacity(4);
    for k in 0..5u64 {
        shard.insert(100 + k, k, k * 10);
    }
    assert_eq!(shard.remove(101, &1), Some(10));
    assert_eq!(shard.remove(101, &1), None);
    assert_eq!(shard.remove(104, &4), Some(40));
    assert_eq!(shard.remove(100, &3), None);
    assert_eq!(shard.len(), 3);
    for k in [0u64, 2, 3] {
        assert_eq!(shard.get(100 + k, &k).unwrap().value(), &(k * 10));
    }
    assert!(!shard.contains_key(101, &1));
    assert!(!shard.contains_key(104, &4));
    assert_eq!(shard.entry_at(0), (&0, &0));
    assert_eq!(shard.entry_at(1), (&3, &30));
    assert_eq!(shard.entry_at(2), (&2, &20));
}

#[test]
fn a_shard_grows_and_shrinks() {
    let mut shard = Shard::with_capacity(1);
    for k in 0..2000u64 {
        assert_eq!(shard.insert(k % 100, k, k), None);
    }
    assert_eq!(shard.len(), 2000);
    for k in 0..2000u64 {
        assert_eq!(shard.get(k % 100, &k).unwrap().value(), &k);
    }
    for k in (0..2000u64).step_by(2) {
        assert_eq!(shard.remove(k % 100, &k), Some(k));
    }
    assert_eq!(shard.len(), 1000);
    for k in 0..2000u64 {
        assert_eq!(shard.contains_key(k % 100, &k), k % 2 == 1);
    }
    shard.clear();
    assert!(shard.is_empty());
    assert!(shard.get(1, &1).is_none());
    assert_eq!(shard.insert(1, 1, 5), None);
    assert_eq!(shard.len(), 1);
}

#[test]
fn values_change_in_place() {
    let mut shard = Shard::with_capacity(4);
    shard.insert(1, "a", 1);
    shard.insert(2, "b", 2);
    {
        let mut entry = shard.get_mut(2, &"b").unwrap();
        *entry.value_mut() += 40;
        assert_eq!(entry.value(), &42);
        assert_eq!(entry.key(), &"b");
    }
    assert!(shard.get_mut(2, &"a").is_none());
    let place = shard.find(1, &"a").unwrap();
    *shard.entry_at_mut(place).1 = 9;
    for (key, value) in shard.iter_mut() {
        if *key == "b" {
            *value += 1;
        }
    }
    assert_eq!(shard.get(1, &"a").unwrap().value(), &9);
    assert_eq!(shard.get(2, &"b").unwrap().value(), &43);
}

#[test]
fn a_read_hands_out_entries_and_clones() {
    let mut shard = Shard::with_capacity(4);
    shard.insert(1, "a", 1);
    shard.insert(2, "b", 2);
    let read = ShardRead::new(&shard);
    assert_eq!(read.len(), 2);
    assert!(!read.is_empty());
    assert_eq!(read.iter(), vec![(&"a", &1), (&"b", &2)]);
    assert_eq!(read.keys(), vec![&"a", &"b"]);
    assert_eq!(read.values(), vec![&1, &2]);
    assert_eq!(read.owned_entries(), vec![("a", 1), ("b", 2)]);
    assert_eq!(read.owned_keys(), vec!["a", "b"]);
    assert_eq!(read.owned_values(), vec![1, 2]);
}

#[test]
fn a_replaced_entry_among_others_leaves_them_alone() {
    let mut shard = Shard::with_capacity(4);
    for k in 0..4u64 {
        shard.insert(9, k, k);
    }
    assert_eq!(shard.insert(9, 1, 100), Some(1));
    assert_eq!(shard.len(), 4);
    assert_eq!(shard.get(9, &0).unwrap().value(), &0);
    assert_eq!(shard.get(9, &1).unwrap().value(), &100);
    assert_eq!(shard.get(9, &2).unwrap().value(), &2);
    assert_eq!(shard.get(9, &3).unwrap().value(), &3);
    assert_eq!(shard.remove(9, &1), Some(100));
    assert_eq!(shard.len(), 3);
}
