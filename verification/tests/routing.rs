use std::collections::hash_map::DefaultHasher;
use std::hash::{BuildHasher, BuildHasherDefault, Hasher};
use whirlwind::hashing::hash_key;
use whirlwind::layout::{calculate_shard_count, ptr_size_bits, ShardLayout};
use whirlwind::sharding::next_shard;
use whirlwind::{ShardMap, ShardSet};

/// Hashes an integer to itself.
#[derive(Default)]
struct Identity(u64);

impl Hasher for Identity {
    fn finish(&self) -> u64 {
        self.0
    }

    fn write(&mut self, bytes: &[u8]) {
        for b in bytes {
            self.0 = self.0 << 8 | *b as u64;
        }
    }

    fn write_u64(&mut self, n: u64) {
        self.0 = n;
    }
}

type ById = BuildHasherDefault<Identity>;

/// A hash that goes to `shard`, out of four.
fn hash_to(shard: usize) -> usize {
    shard << (usize::BITS - 9)
}

#[test]
fn a_pointer_has_as_many_bits_as_a_usize() {
    assert_eq!(ptr_size_bits(), usize::BITS as usize);
}

#[test]
fn four_shards_for_each_thread() {
    assert_eq!(calculate_shard_count(None), 4);
    assert_eq!(calculate_shard_count(Some(1)), 4);
    assert_eq!(calculate_shard_count(Some(2)), 8);
    assert_eq!(calculate_shard_count(Some(3)), 16);
    assert_eq!(calculate_shard_count(Some(4)), 16);
    assert_eq!(calculate_shard_count(Some(8)), 32);
    assert_eq!(calculate_shard_count(Some(12)), 64);
}

#[test]
fn hashes_are_scaled_to_shards() {
    let layout = ShardLayout::new(4);
    assert_eq!(layout.shard_for_hash(0), 0);
    assert_eq!(layout.shard_for_hash(1), 0);
    assert_eq!(layout.shard_for_hash(hash_to(1)), 1);
    assert_eq!(layout.shard_for_hash(hash_to(2)), 2);
    assert_eq!(layout.shard_for_hash(hash_to(3)), 3);
    assert_eq!(layout.shard_for_hash(hash_to(2) - 1), 1);
    assert_eq!(layout.shard_for_hash(usize::MAX), 3);
}

#[test]
fn seven_high_bits_are_left_out() {
    let layout = ShardLayout::new(4);
    for bit in 0..7 {
        let high = 1usize << (usize::BITS - 1 - bit);
        assert_eq!(layout.shard_for_hash(high), 0);
        assert_eq!(layout.shard_for_hash(high | hash_to(3)), 3);
    }
}

#[test]
fn two_shards_are_told_apart_by_one_bit() {
    let layout = ShardLayout::new(2);
    assert_eq!(layout.shard_for_hash(1usize << (usize::BITS - 8)), 1);
    assert_eq!(layout.shard_for_hash((1usize << (usize::BITS - 8)) - 1), 0);
}

#[test]
fn every_shard_is_reached() {
    let layout = ShardLayout::new(64);
    for shard in 0..64 {
        assert_eq!(layout.shard_for_hash(shard << (usize::BITS - 13)), shard);
    }
}

#[test]
fn capacity_is_split_and_rounded_up() {
    let layout = ShardLayout::new(4);
    assert_eq!(layout.shard_capacity(0), 0);
    assert_eq!(layout.shard_capacity(1), 1);
    assert_eq!(layout.shard_capacity(4), 1);
    assert_eq!(layout.shard_capacity(5), 2);
    assert_eq!(layout.shard_capacity(8), 2);
    assert_eq!(layout.shard_capacity(100), 25);
    assert_eq!(layout.shard_capacity(101), 26);
    for cap in 0..50 {
        let total = 4 * layout.shard_capacity(cap);
        assert!(cap <= total && total < cap + 4);
    }
}

#[test]
fn a_walk_visits_each_shard_once() {
    assert_eq!(next_shard(0, 2), Some((0, 1)));
    assert_eq!(next_shard(1, 2), Some((1, 2)));
    assert_eq!(next_shard(2, 2), None);
    assert_eq!(next_shard(5, 2), None);
    assert_eq!(next_shard(0, 0), None);
}

#[test]
fn hash_key_is_what_the_hasher_says() {
    let hasher: BuildHasherDefault<DefaultHasher> = Default::default();
    assert_eq!(hash_key(&hasher, &5u64), hasher.hash_one(5u64));
    assert_eq!(hash_key(&hasher, &"foo"), hasher.hash_one("foo"));
    let by_id: ById = Default::default();
    assert_eq!(hash_key(&by_id, &7u64), 7);
}

#[test]
fn the_number_of_shards_is_as_asked() {
    let map: ShardMap<u64, u64> = ShardMap::with_shards(8);
    assert_eq!(map.stream_shards().len(), 8);
    let map: ShardMap<u64, u64> = ShardMap::new(Some(3));
    assert_eq!(map.stream_shards().len(), 16);
    let map: ShardMap<u64, u64> = ShardMap::with_capacity(Some(2), 100);
    assert_eq!(map.stream_shards().len(), 8);
    let map: ShardMap<u64, u64> = ShardMap::with_shards_and_capacity(2, 100);
    assert_eq!(map.stream_shards().len(), 2);
    let map: ShardMap<u64, u64, ById> = ShardMap::with_hasher(None, Default::default());
    assert_eq!(map.stream_shards().len(), 4);
    let map: ShardMap<u64, u64, ById> =
        ShardMap::with_capacity_and_hasher(None, 0, Default::default());
    assert_eq!(map.stream_shards().len(), 4);
    let map: ShardMap<u64, u64, ById> = ShardMap::with_shards_and_hasher(4, Default::default());
    assert_eq!(map.stream_shards().len(), 4);
    let set: ShardSet<u64> = ShardSet::new_with_shards(4);
    assert_eq!(set.len(), 0);
    let set: ShardSet<u64, ById> = ShardSet::new_with_hasher(Some(1), Default::default());
    assert!(set.is_empty());
    let set: ShardSet<u64, ById> = ShardSet::new_with_shards_and_hasher(2, Default::default());
    assert!(set.values().is_empty());
}

#[test]
fn an_entry_is_in_the_shard_of_its_hash() {
    let mut map: ShardMap<u64, usize, ById> =
        ShardMap::with_shards_and_capacity_and_hasher(4, 16, Default::default());
    for shard in 0..4 {
        map.insert(hash_to(shard) as u64, shard);
        map.insert(hash_to(shard) as u64 + 1, shard);
    }
    let (shard, hash) = map.shard(&(hash_to(2) as u64));
    assert_eq!(hash, hash_to(2) as u64);
    assert_eq!(shard.len(), 2);
    assert!(shard.contains_key(hash, &(hash_to(2) as u64)));
    for (i, read) in map.stream_shards().iter().enumerate() {
        assert_eq!(read.len(), 2);
        assert_eq!(read.is_empty(), false);
        assert_eq!(read.values(), vec![&i, &i]);
        assert_eq!(read.keys(), vec![&(hash_to(i) as u64), &(hash_to(i) as u64 + 1)]);
        for (key, value) in read.iter() {
            assert_eq!(*value, i);
            assert_eq!(map.get(key).unwrap().value(), &i);
        }
    }
}

#[test]
fn a_write_to_one_shard_leaves_the_others_alone() {
    let mut map: ShardMap<u64, usize, ById> =
        ShardMap::with_shards_and_hasher(4, Default::default());
    for shard in 0..4 {
        map.insert(hash_to(shard) as u64, shard);
    }
    map.remove(&(hash_to(1) as u64));
    map.insert(hash_to(1) as u64 + 5, 50);
    let reads = map.stream_shards();
    assert_eq!(reads[0].values(), vec![&0]);
    assert_eq!(reads[1].values(), vec![&50]);
    assert_eq!(reads[2].values(), vec![&2]);
    assert_eq!(reads[3].values(), vec![&3]);
}
