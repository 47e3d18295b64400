//! A fixed-capacity least-recently-used cache from `i32` keys to `i32` values.
//!
//! The cache keeps its entries in a slot arena linked as a doubly linked chain
//! (least recent first) together with a hash index from key to slot. Its
//! abstract state is the chain read as a sequence of `(key, value)` pairs from
//! least to most recently used; `model` defines how `get` and `put` act on that
//! sequence, and `laws` proves the properties that follow.
mod cache;
mod laws;
mod model;

pub use cache::LRUCache;
pub use laws::{
    lemma_evicts_first, lemma_fill, lemma_get_keeps_size, lemma_put_all_within_capacity, lemma_get_refreshes, lemma_miss_changes_nothing,
    lemma_overwrite, lemma_put_within_capacity, put_all,
};
pub use model::{after_get, after_put, distinct_keys, has_key, lookup, position_of};
