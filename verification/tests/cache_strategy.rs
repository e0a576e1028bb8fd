use mqtt_typed_client::cache_strategy::{CacheCapacity, CacheStrategy};

#[test]
fn test_new_with_capacity() {
    let cache = CacheStrategy::new(100);
    assert!(matches!(cache, CacheStrategy::Lru(_)));
    assert_eq!(cache.capacity(), CacheCapacity::new(100));
}

#[test]
fn test_new_with_zero_capacity() {
    let cache = CacheStrategy::new(0);
    assert_eq!(cache, CacheStrategy::NoCache);
    assert_eq!(cache.capacity(), None);
}

#[test]
fn test_default() {
    let cache = CacheStrategy::default();
    assert_eq!(cache, CacheStrategy::NoCache);
}

#[test]
fn test_capacity() {
    let lru = CacheStrategy::Lru(CacheCapacity::new(50).unwrap());
    assert_eq!(lru.capacity(), CacheCapacity::new(50));

    let no_cache = CacheStrategy::NoCache;
    assert_eq!(no_cache.capacity(), None);
}

#[test]
fn test_clone_and_copy() {
    let cache = CacheStrategy::new(100);
    let cloned = cache;
    assert_eq!(cache, cloned);
}

#[test]
fn capacity_value_is_kept() {
    let c = CacheCapacity::new(7).unwrap();
    assert_eq!(c.get(), 7);
    assert!(CacheCapacity::new(0).is_none());
}
