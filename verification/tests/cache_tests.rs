use zarrs_cache::disk::DiskGetStep;
use zarrs_cache::DiskIndex;
use zarrs_cache::LruMemoryCache;

// A tiny in-memory stand-in for the directory a disk tier owns: the
// caller of `DiskIndex` reads and writes files; the tests do the same
// against a vector of (path, bytes).
fn fs_write(files: &mut Vec<(String, Vec<u8>)>, path: String, data: Vec<u8>) {
    for e in files.iter_mut() {
        if e.0 == path {
            e.1 = data;
            return;
        }
    }
    files.push((path, data));
}

fn fs_read(files: &Vec<(String, Vec<u8>)>, path: &str) -> Option<Vec<u8>> {
    files
        .iter()
        .find(|e| e.0 == path)
        .map(|e| e.1.clone())
}

fn fs_remove(files: &mut Vec<(String, Vec<u8>)>, paths: &Vec<String>) {
    files.retain(|e| !paths.contains(&e.0));
}

fn disk_set(
    cache: &mut DiskIndex,
    files: &mut Vec<(String, Vec<u8>)>,
    key: &str,
    value: &[u8],
    now_ms: u64,
) -> Result<(), zarrs_cache::CacheError> {
    let key = key.to_string();
    let (evicted, outcome) = cache.set_begin(&key, value.len(), now_ms);
    fs_remove(files, &evicted);
    let path = outcome?;
    fs_write(files, path, value.to_vec());
    cache.set_commit(&key, value.len(), now_ms);
    Ok(())
}

fn disk_get(
    cache: &mut DiskIndex,
    files: &mut Vec<(String, Vec<u8>)>,
    key: &str,
    now_ms: u64,
) -> Option<Vec<u8>> {
    let key = key.to_string();
    let (expired, step) = cache.get_begin(&key, now_ms);
    fs_remove(files, &expired);
    match step {
        DiskGetStep::Miss => None,
        DiskGetStep::Read(path) => {
            let data = fs_read(files, &path);
            cache.get_finish(&key, data)
        }
    }
}

#[test]
fn test_lru_memory_cache_basic_operations() {
    let mut cache = LruMemoryCache::new(1024); // 1KB cache

    let key = "test_key".to_string();
    let value = b"test_value".to_vec();

    // Test initial state
    assert!(cache.get(&key, 0).is_none());
    assert_eq!(cache.size(), 0);

    // Test set and get
    cache.set(&key, value.clone(), 0).unwrap();
    assert_eq!(cache.get(&key, 0), Some(value.clone()));
    assert!(cache.size() > 0);

    // Test stats
    let stats = cache.stats();
    assert_eq!(stats.hits, 1);
    assert_eq!(stats.misses, 1);
    assert_eq!(stats.entry_count, 1);

    // Test remove
    cache.remove(&key).unwrap();
    assert!(cache.get(&key, 0).is_none());

    // Test clear
    cache.set(&key, value.clone(), 0).unwrap();
    cache.clear().unwrap();
    assert!(cache.get(&key, 0).is_none());
    assert_eq!(cache.size(), 0);
}

#[test]
fn test_lru_memory_cache_eviction() {
    let mut cache = LruMemoryCache::new(20); // Very small cache

    let key1 = "key1".to_string();
    let key2 = "key2".to_string();
    let value1 = b"value1_long_enough".to_vec(); // 18 bytes
    let value2 = b"value2_long_enough".to_vec(); // 18 bytes

    // Fill cache
    cache.set(&key1, value1.clone(), 0).unwrap();
    assert_eq!(cache.get(&key1, 0), Some(value1.clone()));

    // Add second value that should cause eviction of the first
    cache.set(&key2, value2.clone(), 0).unwrap();
    assert_eq!(cache.get(&key2, 0), Some(value2.clone()));

    // The first key was evicted to make room; only the second remains
    assert!(cache.get(&key1, 0).is_none());
    let stats = cache.stats();
    assert_eq!(stats.entry_count, 1);
    assert!(stats.entry_count <= 2);
}

#[test]
fn test_cache_stats() {
    let mut cache = LruMemoryCache::new(1024);

    let key = "test_key".to_string();
    let value = b"test_value".to_vec();

    // Initial stats
    let initial_stats = cache.stats();
    assert_eq!(initial_stats.hits, 0);
    assert_eq!(initial_stats.misses, 0);
    assert_eq!(initial_stats.entry_count, 0);

    // Cache miss
    cache.get(&key, 0);
    let miss_stats = cache.stats();
    assert_eq!(miss_stats.misses, 1);
    assert_eq!(miss_stats.hits, 0);

    // Cache set and hit
    cache.set(&key, value, 0).unwrap();
    cache.get(&key, 0);
    let hit_stats = cache.stats();
    assert_eq!(hit_stats.hits, 1);
    assert_eq!(hit_stats.misses, 1);
    assert_eq!(hit_stats.entry_count, 1);
}

#[test]
fn test_memory_size_tracks_sum_of_value_sizes() {
    let mut cache = LruMemoryCache::new(1024);
    cache.set(&"a".to_string(), vec![1u8; 10], 0).unwrap();
    cache.set(&"b".to_string(), vec![2u8; 20], 0).unwrap();
    cache.set(&"c".to_string(), vec![3u8; 30], 0).unwrap();
    assert_eq!(cache.size(), 60);
    // Replacing a value adjusts the total, never double-counts
    cache.set(&"b".to_string(), vec![9u8; 5], 0).unwrap();
    assert_eq!(cache.size(), 45);
    cache.remove(&"a".to_string()).unwrap();
    assert_eq!(cache.size(), 35);
    cache.clear().unwrap();
    assert_eq!(cache.size(), 0);
}

#[test]
fn test_memory_rejects_value_larger_than_bound() {
    let mut cache = LruMemoryCache::new(8);
    let r = cache.set(&"big".to_string(), vec![0u8; 9], 0);
    assert!(matches!(r, Err(zarrs_cache::CacheError::CacheFull)));
    // A value of exactly the bound is admissible when the cache is empty
    assert!(cache.set(&"fits".to_string(), vec![0u8; 8], 0).is_ok());
}

#[test]
fn test_memory_cache_with_ttl() {
    let ttl_ms = Some(100);
    let mut cache = LruMemoryCache::with_ttl(1024, ttl_ms);

    let key = "test_key".to_string();
    let value = b"test_value".to_vec();

    // Set value at instant zero
    cache.set(&key, value.clone(), 0).unwrap();
    assert_eq!(cache.get(&key, 0), Some(value.clone()));

    // 150 ms later the entry has outlived its 100 ms time-to-live
    assert!(cache.get(&key, 150).is_none());
    let stats = cache.stats();
    assert_eq!(stats.misses, 1);
}

#[test]
fn test_disk_cache_basic_operations() {
    let mut files: Vec<(String, Vec<u8>)> = Vec::new();
    let mut cache = DiskIndex::new("cache_dir".to_string(), Some(1024 * 1024), None);

    let key = "test_key";
    let value = b"test_value";

    // Test initial state
    assert!(disk_get(&mut cache, &mut files, key, 0).is_none());
    assert_eq!(cache.size(), 0);

    // Test set and get
    disk_set(&mut cache, &mut files, key, value, 0).unwrap();
    assert_eq!(disk_get(&mut cache, &mut files, key, 0), Some(value.to_vec()));
    assert!(cache.size() > 0);

    // Test stats
    let stats = cache.stats();
    assert_eq!(stats.hits, 1);
    assert_eq!(stats.misses, 1);
    assert_eq!(stats.entry_count, 1);
    assert_eq!(stats.size_bytes, 10);

    // Test remove
    let (path, r) = cache.remove(&key.to_string());
    assert!(r.is_ok());
    assert!(path.is_some());
    assert!(disk_get(&mut cache, &mut files, key, 0).is_none());

    // Test clear
    disk_set(&mut cache, &mut files, key, value, 0).unwrap();
    let (paths, r) = cache.clear();
    assert!(r.is_ok());
    assert_eq!(paths.len(), 1);
    assert!(disk_get(&mut cache, &mut files, key, 0).is_none());
    assert_eq!(cache.size(), 0);
}

#[test]
fn test_disk_cache_with_ttl() {
    let mut files: Vec<(String, Vec<u8>)> = Vec::new();
    let mut cache = DiskIndex::new("cache_dir".to_string(), Some(1024 * 1024), Some(100));

    let key = "test_key";
    let value = b"test_value";

    // Set value at instant zero
    disk_set(&mut cache, &mut files, key, value, 0).unwrap();
    assert_eq!(disk_get(&mut cache, &mut files, key, 0), Some(value.to_vec()));

    // 150 ms later the entry has outlived its 100 ms time-to-live
    assert!(disk_get(&mut cache, &mut files, key, 150).is_none());
}

#[test]
fn test_disk_eviction_prefers_least_recently_accessed() {
    let mut files: Vec<(String, Vec<u8>)> = Vec::new();
    // Capacity for exactly two 8-byte values
    let mut cache = DiskIndex::new("d".to_string(), Some(16), None);

    disk_set(&mut cache, &mut files, "old", b"aaaaaaaa", 0).unwrap();
    disk_set(&mut cache, &mut files, "new", b"bbbbbbbb", 10).unwrap();

    // Touch the older key: it becomes the most recently accessed
    assert!(disk_get(&mut cache, &mut files, "old", 20).is_some());

    // A third value forces one eviction: the untouched key leaves, the
    // touched one survives although it was inserted earlier
    disk_set(&mut cache, &mut files, "third", b"cccccccc", 30).unwrap();
    assert!(disk_get(&mut cache, &mut files, "old", 40).is_some());
    assert!(disk_get(&mut cache, &mut files, "new", 40).is_none());
}

#[test]
fn test_disk_missing_file_counts_as_miss_and_drops_entry() {
    let mut files: Vec<(String, Vec<u8>)> = Vec::new();
    let mut cache = DiskIndex::new("d".to_string(), None, None);

    disk_set(&mut cache, &mut files, "k", b"data", 0).unwrap();
    // The file vanishes behind the index's back
    files.clear();
    assert!(disk_get(&mut cache, &mut files, "k", 1).is_none());
    let stats = cache.stats();
    assert_eq!(stats.misses, 1);
    assert_eq!(stats.entry_count, 0);

    // The tier keeps serving afterwards
    disk_set(&mut cache, &mut files, "k", b"data", 2).unwrap();
    assert_eq!(disk_get(&mut cache, &mut files, "k", 3), Some(b"data".to_vec()));
}

#[test]
fn test_disk_key_to_path_sanitizes_separators() {
    let cache = DiskIndex::new("dir".to_string(), None, None);
    let p = cache.key_to_path(&"a/b\\c.d".to_string());
    assert_eq!(p, "dir/a_b_c.d.cache");
}
