use zarrs_cache::CacheError;

#[test]
fn test_error_kind_names() {
    assert_eq!(CacheError::CacheFull.kind_name(), "cache full");
    assert_eq!(CacheError::Io("gone".to_string()).kind_name(), "io");
    assert_eq!(
        CacheError::Serialization("bad".to_string()).kind_name(),
        "serialization"
    );
    assert_eq!(
        CacheError::InvalidKey("empty".to_string()).kind_name(),
        "invalid key"
    );
    assert_eq!(
        CacheError::Compression("truncated".to_string()).kind_name(),
        "compression"
    );
}

#[test]
fn test_cache_full_is_the_bounded_store_refusal() {
    let mut cache = zarrs_cache::LruMemoryCache::new(4);
    let r = cache.set(&"k".to_string(), vec![0u8; 5], 0);
    assert_eq!(r, Err(CacheError::CacheFull));
}
