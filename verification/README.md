# whirlwind

A hash map split into shards, and a set on top of it. The hash of a key tells
which shard its entry is in, so that work on different shards does not interfere.

- `src/` is the library, written and proved in Verus. `ShardMap` and `ShardSet` own
  their shards and are used by one thread at a time; `Shard`, `ShardLayout` and
  `ShardRead` are the parts that a concurrent map is made of. `laws` states what
  holds of the operations together.
- `app/` puts each shard behind a lock of its own and gives the map an async
  interface.
- `tests/` runs the library.

The contents of a map are a mathematical map from keys to values. Keys are compared
with their own `==`, which has to be an equivalence, and the hasher has to give equal
keys one hash; the contracts say what holds under these conditions, and what holds
without them.
