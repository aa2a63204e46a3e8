//! A hash map split into shards, and a set on top of it.
#![allow(unused_imports)]

pub mod hashing;
pub mod keyed;
pub mod laws;
pub mod layout;
pub mod mapref;
pub mod model;
pub mod shard;
pub mod shard_map;
pub mod shard_read;
pub mod shard_set;
pub mod sharding;
pub mod table;
pub mod walks;

pub use shard_map::ShardMap;
pub use shard_read::ShardRead;
pub use shard_set::ShardSet;
