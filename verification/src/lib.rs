//! A bounded-capacity in-process cache that chooses eviction victims by an
//! approximate recency/frequency signal (TinyLFU-style admission) instead of
//! plain recency.
//!
//! The crate is organised leaf-first:
//! - [`linked_list`]: the eviction-order collaborator, an arena-backed list
//!   with stable handles, plus the region tag for the segmented policy;
//! - [`sketch`]: the frequency estimator, a count-min sketch with saturating
//!   counters and periodic halving;
//! - [`logs`]: the bounded read/write event buffers, backed by
//!   `crossbeam_channel` bounded queues;
//! - [`backing`]: the backing map, backed by the concurrent `cht` hash table;
//! - [`lfu`]: the cache engine that drains the buffers, updates the estimator,
//!   runs the admission policy and mutates the backing map;
//! - [`store`]: a plain sharded hash-table store, a simpler alternative
//!   backing map kept at its original interface.

use vstd::prelude::*;

use std::sync::Arc;

pub mod backing;
pub mod lfu;
pub mod linked_list;
pub mod logs;
pub mod policy;
pub mod sketch;
pub mod store;

verus! {

/// The thread-facing interface of a cache: every operation takes `&self`
/// (interior mutability), and values come back as shared, immutable handles.
/// The sequential engine in [`lfu`] works through `&mut self`, so this trait
/// is implemented by the concurrent wrappers built around it, not by the
/// engine itself.
pub trait ConcurrentCache<K, V> {
    fn get(&self, key: &K) -> Option<Arc<V>>;

    fn get_or_insert(&self, key: K, default: V) -> Arc<V>;

    fn get_or_insert_with<F: FnOnce() -> V>(&self, key: K, default: F) -> Arc<V>;

    fn insert(&self, key: K, value: V);

    fn remove(&self, key: &K) -> Option<Arc<V>>;
}

} // verus!
