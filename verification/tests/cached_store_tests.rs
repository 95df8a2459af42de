use zarrs_cache::CacheConfig;
use zarrs_cache::CachedStore;
use zarrs_cache::LruMemoryCache;

#[test]
fn test_cached_store_operations() {
    let cache = LruMemoryCache::new(1024);
    let config = CacheConfig::default();
    let store = CachedStore::new("dummy_store".to_string(), cache, config);

    assert_eq!(store.inner(), &"dummy_store".to_string());
    assert!(!store.has_ttl_support());
    assert!(!store.has_disk_cache());
    let stats = store.cache_stats();
    assert_eq!(stats.hits, 0);
    assert_eq!(stats.misses, 0);
}

#[test]
fn test_cached_store_with_custom_config() {
    let cache = LruMemoryCache::new(1024);
    let config = CacheConfig {
        max_memory_size: 256,
        disk_cache_dir: Some("/tmp/test".to_string()),
        ttl_ms: Some(1000),
        ..Default::default()
    };
    let store = CachedStore::new("test_store".to_string(), cache, config);

    assert!(store.has_ttl_support());
    assert!(store.has_disk_cache());
}

#[test]
fn test_cached_store_cache_operations() {
    let cache = LruMemoryCache::new(1024);
    let mut store = CachedStore::new("test_store".to_string(), cache, CacheConfig::default());

    let key = "test_key".to_string();
    let value = b"test_data".to_vec();

    assert!(store.get_cached(&key, 0).is_none());
    store.set_cached(&key, value.clone(), 0).unwrap();
    assert_eq!(store.get_cached(&key, 1), Some(value));
    store.remove_cached(&key).unwrap();
    assert!(store.get_cached(&key, 2).is_none());
}

#[test]
fn test_cached_store_clear_cache() {
    let cache = LruMemoryCache::new(1024);
    let mut store = CachedStore::new("test_store".to_string(), cache, CacheConfig::default());

    store.set_cached(&"key1".to_string(), b"data1".to_vec(), 0).unwrap();
    store.set_cached(&"key2".to_string(), b"data2".to_vec(), 0).unwrap();
    store.clear_cache().unwrap();
    assert!(store.get_cached(&"key1".to_string(), 1).is_none());
    assert!(store.get_cached(&"key2".to_string(), 1).is_none());
}

#[test]
fn test_cached_store_should_cache_key() {
    let cache = LruMemoryCache::new(1024);
    let store = CachedStore::new("test_store".to_string(), cache, CacheConfig::default());

    // Chunk data is cached; bare group metadata is not
    assert!(store.should_cache_key("regular_chunk_key"));
    assert!(!store.should_cache_key("metadata.zgroup"));
    // Keys naming array metadata or attributes stay cacheable
    assert!(store.should_cache_key("array/.zarray"));
    assert!(store.should_cache_key("array/.zattrs"));
}

#[test]
fn test_cached_store_cache_filtering() {
    let cache = LruMemoryCache::new(1024);
    let mut store = CachedStore::new("test_store".to_string(), cache, CacheConfig::default());

    // A group-metadata key passes through without being cached
    store
        .set_cached(&"array/.zgroup".to_string(), b"zgroup_data".to_vec(), 0)
        .unwrap();
    assert!(store.get_cached(&"array/.zgroup".to_string(), 1).is_none());

    // A chunk key is cached
    store
        .set_cached(&"array/0.0.0".to_string(), b"chunk_data".to_vec(), 0)
        .unwrap();
    assert_eq!(
        store.get_cached(&"array/0.0.0".to_string(), 1),
        Some(b"chunk_data".to_vec())
    );
}

#[test]
fn test_cached_store_basic_operations() {
    let cache = LruMemoryCache::new(1024);
    let mut store = CachedStore::new("test_store".to_string(), cache, CacheConfig::default());

    let key = "test_array/chunk_0_0_0".to_string();
    let value = b"test_chunk_data".to_vec();

    assert!(store.get_cached(&key, 0).is_none());
    store.set_cached(&key, value.clone(), 0).unwrap();
    assert_eq!(store.get_cached(&key, 1), Some(value));
}

#[test]
fn test_cached_store_clear_operations() {
    let cache = LruMemoryCache::new(1024);
    let mut store = CachedStore::new("test_store".to_string(), cache, CacheConfig::default());

    let key = "test_key".to_string();
    let value = b"test_data".to_vec();

    store.set_cached(&key, value.clone(), 0).unwrap();
    assert_eq!(store.get_cached(&key, 1), Some(value.clone()));
    let stats_before = store.cache_stats();
    assert!(stats_before.hits > 0);

    store.clear_cache().unwrap();
    assert!(store.get_cached(&key, 2).is_none());
    let stats_after = store.cache_stats();
    assert!(stats_after.misses > stats_before.misses);
}
