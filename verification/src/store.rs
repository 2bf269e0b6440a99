//! A plain sharded hash-table store: the simpler alternative backing map,
//! kept at its original interface. Records are keyed by a primary hash and
//! carry a conflict hash and an expiration timestamp that this store does
//! not interpret.

use vstd::prelude::*;

use std::collections::HashMap;

verus! {

pub const NUM_SHARDS: usize = 256;

/// One stored record.
pub struct StoreItem<V> {
    pub key: u64,
    pub conflict: u64,
    pub value: V,
    pub expiration: i64,
}

/// The association an empty shard holds.
pub open spec fn empty_shard<V>() -> Map<u64, StoreItem<V>> {
    Map::empty()
}

/// One shard: a plain hash map from primary hash to record.
pub struct LockedMap<V> {
    data: HashMap<u64, StoreItem<V>>,
}

impl<V> View for LockedMap<V> {
    type V = Map<u64, StoreItem<V>>;

    closed spec fn view(&self) -> Map<u64, StoreItem<V>> {
        self.data@
    }
}

impl<V> LockedMap<V> {
    fn new() -> (m: Self)
        ensures
            m@ == empty_shard::<V>(),
    {
        LockedMap { data: HashMap::new() }
    }
}

/// The sharded store: a fixed number of shards, each created empty.
pub struct ShardedMap<V> {
    shards: Vec<LockedMap<V>>,
}

impl<V> ShardedMap<V> {
    pub closed spec fn shard_count(&self) -> nat {
        self.shards@.len()
    }

    /// What shard `i` holds.
    pub closed spec fn shard_at(&self, i: int) -> Map<u64, StoreItem<V>> {
        self.shards@[i]@
    }

    pub fn new() -> (m: Self)
        ensures
            m.shard_count() == NUM_SHARDS as nat,
            forall|i: int| 0 <= i < NUM_SHARDS ==> #[trigger] m.shard_at(i) == empty_shard::<V>(),
    {
        let mut shards: Vec<LockedMap<V>> = Vec::new();
        let mut i: usize = 0;
        while i < NUM_SHARDS
            invariant
                0 <= i <= NUM_SHARDS,
                shards@.len() == i,
                forall|j: int| 0 <= j < i ==> #[trigger] shards@[j]@ == empty_shard::<V>(),
            decreases NUM_SHARDS - i,
        {
            shards.push(LockedMap::new());
            i = i + 1;
        }
        ShardedMap { shards }
    }
}

} // verus!
