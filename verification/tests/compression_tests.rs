use zarrs_cache::CompressedCache;
use zarrs_cache::Compression;
use zarrs_cache::DeflateCompression;
use zarrs_cache::LruMemoryCache;
use zarrs_cache::NoCompression;

#[test]
fn test_no_compression() {
    let compression = NoCompression;
    let data = b"test data for compression".to_vec();

    let compressed = compression.compress(&data).unwrap();
    assert_eq!(compressed, data);

    let decompressed = compression.decompress(&compressed).unwrap();
    assert_eq!(decompressed, data);
}

#[test]
fn test_deflate_compression() {
    let compression = DeflateCompression::default();
    let original_data = b"This is some test data that should compress well because it has repetitive patterns. This is some test data that should compress well.".to_vec();

    // Compress data
    let compressed = compression.compress(&original_data).unwrap();

    // Compressed data should be smaller for repetitive content
    assert!(compressed.len() < original_data.len());

    // Decompress should restore original
    let decompressed = compression.decompress(&compressed).unwrap();
    assert_eq!(decompressed, original_data);
}

#[test]
fn test_deflate_compression_edge_cases() {
    let compression = DeflateCompression::default();

    // Test with empty data
    let empty_data: Vec<u8> = b"".to_vec();
    let compressed = compression.compress(&empty_data).unwrap();
    let decompressed = compression.decompress(&compressed).unwrap();
    assert_eq!(decompressed, empty_data);

    // Test with small data
    let small_data = b"x".to_vec();
    let compressed = compression.compress(&small_data).unwrap();
    let decompressed = compression.decompress(&compressed).unwrap();
    assert_eq!(decompressed, small_data);
}

#[test]
fn test_deflate_round_trip_at_every_level() {
    let data = b"the quick brown fox jumps over the lazy dog".to_vec();
    for level in 0..=9u32 {
        let compression = DeflateCompression::with_level(level);
        let compressed = compression.compress(&data).unwrap();
        assert_eq!(compression.decompress(&compressed).unwrap(), data);
    }
}

#[test]
fn test_compression_error_handling() {
    let compression = DeflateCompression::new();
    // Bytes that are no deflate stream fail to decode
    let garbage = vec![255u8, 254, 253, 252];
    assert!(matches!(
        compression.decompress(&garbage),
        Err(zarrs_cache::CacheError::Compression(_))
    ));
}

#[test]
fn test_with_level_clamps_to_nine() {
    let c = DeflateCompression::with_level(12);
    assert_eq!(c.level, 9);
    let c = DeflateCompression::with_level(0);
    assert_eq!(c.level, 0);
}

#[test]
fn test_compressed_cache_basic_operations() {
    let inner = LruMemoryCache::new(1024);
    let mut cache = CompressedCache::new(inner, DeflateCompression::new());

    let key = "test_key".to_string();
    let value = b"This is test data that will be compressed when stored in the cache.".to_vec();

    cache.set(&key, value.clone(), 0).unwrap();
    let retrieved = cache.get(&key, 0);
    assert_eq!(retrieved, Some(value));
    assert!(cache.stats().entry_count == 1);
}

#[test]
fn test_compressed_cache_with_no_compression() {
    let inner = LruMemoryCache::new(1024);
    let mut cache = CompressedCache::new(inner, NoCompression);

    let key = "test_key".to_string();
    let value = b"This data won't be compressed".to_vec();

    cache.set(&key, value.clone(), 0).unwrap();
    assert_eq!(cache.get(&key, 0), Some(value));
}

#[test]
fn test_compressed_cache_clear() {
    let inner = LruMemoryCache::new(1024);
    let mut cache = CompressedCache::new(inner, DeflateCompression::new());

    cache.set(&"key1".to_string(), b"data1".to_vec(), 0).unwrap();
    cache.set(&"key2".to_string(), b"data2".to_vec(), 0).unwrap();
    assert_eq!(cache.stats().entry_count, 2);
    cache.clear().unwrap();
    assert_eq!(cache.stats().entry_count, 0);
    assert_eq!(cache.size(), 0);
}

#[test]
fn test_compressed_cache_refuses_oversized_values() {
    let inner = LruMemoryCache::new(4);
    let mut cache = CompressedCache::new(inner, NoCompression);
    let r = cache.set(&"big".to_string(), vec![0u8; 5], 0);
    assert!(matches!(r, Err(zarrs_cache::CacheError::CacheFull)));
    // A value whose stored form fits is accepted
    assert!(cache.set(&"fits".to_string(), vec![0u8; 4], 0).is_ok());
}
