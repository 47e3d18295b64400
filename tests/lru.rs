use lru_cache::LRUCache;

#[test]
fn main_case() {
    let mut cache = LRUCache::new(2);
    cache.put(1, 1);
    cache.put(2, 2);
    assert_eq!(cache.get(1), 1);
    cache.put(3, 3);
    assert_eq!(cache.get(2), -1);
    cache.put(4, 4);
    assert_eq!(cache.get(1), -1);
    assert_eq!(cache.get(3), 3);
    assert_eq!(cache.get(4), 4);
    cache.put(4, 5);
    assert_eq!(cache.get(4), 5);
}

#[test]
fn size_never_exceeds_capacity() {
    let mut cache = LRUCache::new(3);
    for k in 0..20 {
        cache.put(k, k * 10);
        assert!(cache.len() <= 3);
    }
    assert_eq!(cache.len(), 3);
    assert_eq!(cache.get(17), 170);
    assert_eq!(cache.get(18), 180);
    assert_eq!(cache.get(19), 190);
    assert_eq!(cache.get(16), -1);
}

#[test]
fn get_protects_from_eviction() {
    let mut cache = LRUCache::new(2);
    cache.put(10, 1);
    cache.put(20, 2);
    assert_eq!(cache.get(10), 1);
    cache.put(30, 3);
    assert_eq!(cache.get(20), -1);
    assert_eq!(cache.get(10), 1);
    assert_eq!(cache.get(30), 3);
}

#[test]
fn get_protects_in_larger_cache() {
    let mut cache = LRUCache::new(3);
    cache.put(1, 1);
    cache.put(2, 2);
    cache.put(3, 3);
    assert_eq!(cache.get(1), 1);
    cache.put(4, 4);
    assert_eq!(cache.get(2), -1);
    cache.put(5, 5);
    assert_eq!(cache.get(3), -1);
    assert_eq!(cache.get(1), 1);
    assert_eq!(cache.get(4), 4);
    assert_eq!(cache.get(5), 5);
}

#[test]
fn overwrite_keeps_size() {
    let mut cache = LRUCache::new(2);
    cache.put(7, 1);
    assert_eq!(cache.len(), 1);
    cache.put(7, 2);
    assert_eq!(cache.len(), 1);
    assert_eq!(cache.get(7), 2);
    cache.put(8, 3);
    cache.put(7, 4);
    assert_eq!(cache.len(), 2);
    cache.put(9, 5);
    assert_eq!(cache.get(8), -1);
    assert_eq!(cache.get(7), 4);
}

#[test]
fn overwrite_in_full_cache_evicts_nothing() {
    let mut cache = LRUCache::new(2);
    cache.put(1, 1);
    cache.put(2, 2);
    cache.put(1, 10);
    assert_eq!(cache.len(), 2);
    assert_eq!(cache.get(2), 2);
    assert_eq!(cache.get(1), 10);
}

#[test]
fn miss_changes_nothing() {
    let mut cache = LRUCache::new(2);
    assert_eq!(cache.get(5), -1);
    assert_eq!(cache.try_get(5), None);
    cache.put(1, 1);
    cache.put(2, 2);
    assert_eq!(cache.get(3), -1);
    assert_eq!(cache.get(3), -1);
    assert_eq!(cache.len(), 2);
    cache.put(4, 4);
    assert_eq!(cache.get(1), -1);
    assert_eq!(cache.get(1), -1);
    assert_eq!(cache.get(2), 2);
    assert_eq!(cache.get(4), 4);
}

#[test]
fn evicts_first_of_capacity_plus_one() {
    let mut cache = LRUCache::new(4);
    for k in 1..6 {
        cache.put(k, -k);
    }
    assert_eq!(cache.len(), 4);
    assert_eq!(cache.try_get(1), None);
    for k in 2..6 {
        assert_eq!(cache.try_get(k), Some(-k));
    }
}

#[test]
fn capacity_one() {
    let mut cache = LRUCache::new(1);
    cache.put(1, 1);
    cache.put(2, 2);
    assert_eq!(cache.get(1), -1);
    assert_eq!(cache.get(2), 2);
    assert_eq!(cache.len(), 1);
}

#[test]
fn stored_minus_one_is_found() {
    let mut cache = LRUCache::new(2);
    cache.put(3, -1);
    assert_eq!(cache.try_get(3), Some(-1));
    assert_eq!(cache.try_get(4), None);
    assert_eq!(cache.get(3), -1);
}

#[test]
fn non_positive_capacity_holds_nothing() {
    let mut zero = LRUCache::new(0);
    zero.put(1, 1);
    assert_eq!(zero.len(), 0);
    assert_eq!(zero.capacity(), 0);
    assert_eq!(zero.get(1), -1);
    let mut negative = LRUCache::new(-3);
    negative.put(1, 1);
    assert_eq!(negative.len(), 0);
    assert_eq!(negative.capacity(), 0);
    assert_eq!(negative.try_get(1), None);
}

#[test]
fn new_cache_is_empty() {
    let cache = LRUCache::new(5);
    assert_eq!(cache.len(), 0);
    assert_eq!(cache.capacity(), 5);
}

#[test]
fn extreme_keys_and_values() {
    let mut cache = LRUCache::new(2);
    cache.put(i32::MIN, i32::MAX);
    cache.put(i32::MAX, i32::MIN);
    assert_eq!(cache.get(i32::MIN), i32::MAX);
    assert_eq!(cache.get(i32::MAX), i32::MIN);
}
