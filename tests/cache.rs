use terrain_lod::base::{Box3, ChunkCacheKey, Point3};
use terrain_lod::cache::Cache;

fn key(i: i32) -> ChunkCacheKey {
    ChunkCacheKey {
        bounds: Box3 {
            min: Point3 { x: 32 * i, y: 0, z: -1 },
            max: Point3 { x: 32 * i + 32, y: 32, z: 1 },
        },
        level: 3,
    }
}

#[test]
fn oldest_key_is_evicted_and_get_does_not_refresh() {
    let (a, b, c, d) = (key(0), key(1), key(2), key(3));
    let mut cache: Cache<u32> = Cache::new(2);
    cache.insert(&a, 10);
    cache.insert(&b, 20);
    cache.insert(&c, 30);
    assert_eq!(cache.len(), 2);
    assert!(!cache.contains_key(&a));
    assert!(cache.contains_key(&b) && cache.contains_key(&c));
    assert_eq!(cache.get(&b), Some(&20));
    cache.insert(&d, 40);
    assert!(!cache.contains_key(&b));
    assert!(cache.contains_key(&c) && cache.contains_key(&d));
}

#[test]
fn update_last_accessed_refreshes_recency() {
    let (a, b, c, d) = (key(0), key(1), key(2), key(3));
    let mut cache: Cache<u32> = Cache::new(2);
    cache.insert(&a, 10);
    cache.insert(&b, 20);
    cache.insert(&c, 30);
    cache.update_last_accessed(&b);
    cache.insert(&d, 40);
    assert!(cache.contains_key(&b) && cache.contains_key(&d));
    assert!(!cache.contains_key(&c));
    assert_eq!(cache.len(), 2);
}

#[test]
fn length_never_exceeds_bound() {
    let mut cache: Cache<i32> = Cache::new(3);
    for i in 0..20 {
        cache.insert(&key(i % 7), i);
        assert!(cache.len() <= 3);
    }
    // the three most recently inserted keys stay
    assert!(cache.contains_key(&key(19 % 7)));
    assert!(cache.contains_key(&key(18 % 7)));
    assert!(cache.contains_key(&key(17 % 7)));
}

#[test]
fn overwrite_keeps_size_and_replaces_value() {
    let mut cache: Cache<&str> = Cache::new(2);
    cache.insert(&key(0), "a");
    cache.insert(&key(0), "b");
    assert_eq!(cache.len(), 1);
    assert_eq!(cache.get(&key(0)), Some(&"b"));
}

#[test]
fn explicit_older_stamp_is_evicted_first() {
    let mut cache: Cache<u8> = Cache::new(2);
    cache.insert_with_priority(&key(0), 0, 100);
    cache.insert_with_priority(&key(1), 1, 5);
    cache.insert_with_priority(&key(2), 2, 50);
    assert!(!cache.contains_key(&key(1)));
    assert!(cache.contains_key(&key(0)) && cache.contains_key(&key(2)));
}

#[test]
fn zero_capacity_keeps_nothing() {
    let mut cache: Cache<u8> = Cache::new(0);
    cache.insert(&key(0), 1);
    assert_eq!(cache.len(), 0);
    assert_eq!(cache.get(&key(0)), None);
}

#[test]
fn clear_and_get_mut() {
    let mut cache: Cache<u32> = Cache::new(4);
    cache.insert(&key(1), 1);
    if let Some(v) = cache.get_mut(&key(1)) {
        *v = 7;
    }
    assert_eq!(cache.get(&key(1)), Some(&7));
    assert!(cache.get_mut(&key(2)).is_none());
    assert_eq!(cache.keys(), vec![key(1)]);
    cache.clear();
    assert_eq!(cache.len(), 0);
    assert!(cache.keys().is_empty());
}
