use rustitude::mem_cache::MemoryDrawableCache;
use rustitude::qtree::QTreeKey;

#[test]
fn get_hits_and_misses() {
    let mut cache: MemoryDrawableCache<String> = MemoryDrawableCache::new();
    let k = QTreeKey::new(4, 3, 2).unwrap();
    assert!(cache.get(k, 10).is_none());
    assert!(cache.put(k, String::from("tile"), 20).is_empty());
    assert_eq!(cache.get(k, 30).unwrap(), "tile");
    cache.remove(k);
    assert!(cache.get(k, 40).is_none());
}

#[test]
fn put_replaces_existing_entry() {
    let mut cache: MemoryDrawableCache<u32> = MemoryDrawableCache::new();
    let k = QTreeKey::new(6, 10, 11).unwrap();
    cache.put(k, 1, 0);
    cache.put(k, 2, 5);
    assert_eq!(*cache.get(k, 6).unwrap(), 2);
}

#[test]
fn eviction_reaps_stale_deep_entries() {
    let mut cache: MemoryDrawableCache<u64> = MemoryDrawableCache::new();
    // two base-layer tiles, inserted long ago, are never evicted
    let shallow_a = QTreeKey::new(2, 1, 1).unwrap();
    let shallow_b = QTreeKey::new(3, 5, 5).unwrap();
    cache.put(shallow_a, 0, 1000);
    cache.put(shallow_b, 0, 1000);
    // 501 deep tiles with access timestamps that will be stale
    let mut deep: Vec<QTreeKey> = Vec::new();
    for i in 0..501u32 {
        let k = QTreeKey::new(5, i % 32, i / 32).unwrap();
        deep.push(k);
        let evicted = cache.put(k, i as u64, 1000);
        assert!(evicted.is_empty(), "nothing is stale while all entries are fresh");
    }
    // one more put, 24 seconds later: every stale deep entry leaves at once
    let newcomer = QTreeKey::new(7, 100, 100).unwrap();
    let evicted = cache.put(newcomer, 9, 25000);
    assert_eq!(evicted.len(), 501);
    for k in &deep {
        assert!(evicted.contains(k));
        assert!(cache.get(*k, 25001).is_none());
    }
    // the base layers and the newcomer survive
    assert!(cache.get(shallow_a, 25001).is_some());
    assert!(cache.get(shallow_b, 25001).is_some());
    assert!(cache.get(newcomer, 25001).is_some());
}

#[test]
fn recent_deep_entries_survive_eviction() {
    let mut cache: MemoryDrawableCache<u64> = MemoryDrawableCache::new();
    for i in 0..501u32 {
        let k = QTreeKey::new(6, i % 64, i / 64).unwrap();
        // half old, half fresh relative to the final access time
        let at = if i % 2 == 0 { 1000 } else { 22000 };
        cache.put(k, 0, at);
    }
    let evicted = cache.put(QTreeKey::new(6, 60, 60).unwrap(), 0, 23000);
    // exactly the 251 entries from time 1000 have age above 20000
    assert_eq!(evicted.len(), 251);
    for k in &evicted {
        assert!(cache.get(*k, 23001).is_none());
    }
}
