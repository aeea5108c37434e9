use dom_builder::cache::{Cache, LRUCache, MonoCache};

#[test]
fn test_monocache() {
    let mut cache: MonoCache<usize, &'static str> = MonoCache::new(10);
    let one = "one";
    let two = "two";
    cache.insert(&1, one);

    assert!(cache.find(&1).is_some());
    assert!(cache.find(&2).is_none());
    cache.find_or_create(&2, |_v| two);
    assert!(cache.find(&2).is_some());
    assert!(cache.find(&1).is_none());
}

#[test]
fn monocache_keeps_only_latest_entry() {
    let mut cache: MonoCache<usize, u64> = MonoCache::new(10);
    cache.insert(&1, 10);
    cache.insert(&2, 20);
    assert_eq!(cache.find(&2), Some(20));
    assert!(cache.find(&1).is_none());
    cache.evict_all();
    assert!(cache.find(&2).is_none());
}

#[test]
fn lru_evicts_oldest_when_full() {
    let mut cache: LRUCache<usize, u64> = LRUCache::new(2);
    cache.insert(&1, 10);
    cache.insert(&2, 20);
    cache.insert(&3, 30);
    assert!(cache.find(&1).is_none());
    assert_eq!(cache.find(&2), Some(20));
    assert_eq!(cache.find(&3), Some(30));
}

#[test]
fn lru_find_refreshes_entry() {
    let mut cache: LRUCache<usize, u64> = LRUCache::new(2);
    cache.insert(&1, 10);
    cache.insert(&2, 20);
    // Touch 1 so that 2 becomes the oldest entry.
    assert_eq!(cache.find(&1), Some(10));
    cache.insert(&3, 30);
    assert!(cache.find(&2).is_none());
    assert_eq!(cache.find(&1), Some(10));
    assert_eq!(cache.find(&3), Some(30));
}

#[test]
fn lru_find_or_create_inserts_on_miss() {
    let mut cache: LRUCache<usize, u64> = LRUCache::new(4);
    let v = cache.find_or_create(&7, |k| (*k as u64) * 2);
    assert_eq!(v, 14);
    assert_eq!(cache.find(&7), Some(14));
    // A hit does not re-run the closure's effect.
    let w = cache.find_or_create(&7, |_k| 999);
    assert_eq!(w, 14);
    cache.evict_all();
    assert!(cache.find(&7).is_none());
}
