use dom_builder::font_context::{FontSubstitutions, LRUCache};

#[test]
fn lookup_and_insert_round_trip() {
    let mut cache: LRUCache<u64, u64> = LRUCache::new(5);
    assert!(cache.lookup(&1).is_none());
    assert_eq!(cache.insert(&1, 11), 11);
    assert_eq!(cache.lookup(&1), Some(11));
}

#[test]
fn insert_evicts_oldest_when_full() {
    let mut cache: LRUCache<u64, u64> = LRUCache::new(2);
    cache.insert(&1, 11);
    cache.insert(&2, 22);
    cache.insert(&3, 33);
    assert!(cache.lookup(&1).is_none());
    assert_eq!(cache.lookup(&2), Some(22));
    assert_eq!(cache.lookup(&3), Some(33));
}

#[test]
fn lookup_or_insert_uses_cached_value() {
    let mut cache: LRUCache<u64, u64> = LRUCache::new(3);
    let v = cache.lookup_or_insert(&4, |k| k + 1);
    assert_eq!(v, 5);
    let w = cache.lookup_or_insert(&4, |_k| 777);
    assert_eq!(w, 5);
}

#[test]
fn touch_moves_entry_to_newest_end() {
    let mut cache: LRUCache<u64, u64> = LRUCache::new(3);
    cache.insert(&1, 11);
    cache.insert(&2, 22);
    cache.insert(&3, 33);
    // Refresh key 1, then fill the cache: key 2 is now the oldest.
    assert_eq!(cache.lookup(&1), Some(11));
    cache.insert(&4, 44);
    assert!(cache.lookup(&2).is_none());
    assert_eq!(cache.lookup(&1), Some(11));
}

#[test]
fn generic_families_are_substituted() {
    let subs = FontSubstitutions::new();
    assert_eq!(subs.transform_family("serif"), "Times New Roman");
    assert_eq!(subs.transform_family("sans-serif"), "Arial");
    assert_eq!(subs.transform_family("monospace"), "Menlo");
    assert_eq!(subs.transform_family("Helvetica"), "Helvetica");
}

#[test]
fn family_lists_are_split_trimmed_and_substituted() {
    let subs = FontSubstitutions::new();
    assert_eq!(
        subs.resolve_families("serif, sans-serif"),
        vec!["Times New Roman".to_string(), "Arial".to_string()]
    );
    assert_eq!(
        subs.resolve_families("  Helvetica ,monospace"),
        vec!["Helvetica".to_string(), "Menlo".to_string()]
    );
    assert_eq!(subs.resolve_families("cursive"), vec!["Apple Chancery".to_string()]);
    assert_eq!(subs.resolve_families(""), vec!["".to_string()]);
}
