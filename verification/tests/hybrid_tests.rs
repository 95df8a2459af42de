use zarrs_cache::hybrid::HybridGetStep;
use zarrs_cache::HybridCache;
use zarrs_cache::HybridCacheConfig;

// The caller of the hybrid engine performs its file work; these helpers
// play that caller against a vector of (path, bytes).
fn fs_write(files: &mut Vec<(String, Vec<u8>)>, path: String, data: Vec<u8>) {
    for e in files.iter_mut() {
        if e.0 == path {
            e.1 = data;
            return;
        }
    }
    files.push((path, data));
}

fn fs_read(files: &Vec<(String, Vec<u8>)>, path: &str) -> Option<Vec<u8>> {
    files
        .iter()
        .find(|e| e.0 == path)
        .map(|e| e.1.clone())
}

fn fs_remove(files: &mut Vec<(String, Vec<u8>)>, paths: &Vec<String>) {
    files.retain(|e| !paths.contains(&e.0));
}

fn hybrid_set(
    cache: &mut HybridCache,
    files: &mut Vec<(String, Vec<u8>)>,
    key: &str,
    value: &[u8],
    now_ms: u64,
) -> Result<(), zarrs_cache::CacheError> {
    let key = key.to_string();
    let (evicted, outcome) = cache.set_begin(&key, value.len(), now_ms);
    fs_remove(files, &evicted);
    let path = outcome?;
    fs_write(files, path, value.to_vec());
    cache.set_commit(&key, value.to_vec(), now_ms)
}

fn hybrid_get(
    cache: &mut HybridCache,
    files: &mut Vec<(String, Vec<u8>)>,
    key: &str,
    now_ms: u64,
) -> Option<Vec<u8>> {
    let key = key.to_string();
    match cache.get_step(&key, now_ms) {
        HybridGetStep::Hit(v) => Some(v),
        HybridGetStep::ReadDisk(path, expired) => {
            fs_remove(files, &expired);
            let data = fs_read(files, &path);
            cache.get_disk_result(&key, data, now_ms)
        }
        HybridGetStep::Miss(expired) => {
            fs_remove(files, &expired);
            // The read path runs maintenance opportunistically on a miss.
            if cache.maintenance_due(now_ms) {
                run_maintenance(cache, files, now_ms);
            }
            None
        }
    }
}

fn run_maintenance(cache: &mut HybridCache, files: &mut Vec<(String, Vec<u8>)>, now_ms: u64) {
    cache.maintenance_start(now_ms);
    let promotions = cache.promotion_candidates(now_ms);
    for (key, path) in promotions {
        let data = fs_read(files, &path);
        cache.apply_promotion(&key, data, now_ms);
    }
    let demotions = cache.demotion_candidates(now_ms);
    for key in demotions {
        let (evicted, outcome) = cache.demote_begin(&key, now_ms);
        fs_remove(files, &evicted);
        if let Some((value, path)) = outcome {
            let len = value.len();
            fs_write(files, path, value);
            cache.demote_commit(&key, len, now_ms);
        }
    }
    cache.maintenance_prune(now_ms);
}

fn config_for_test() -> HybridCacheConfig {
    HybridCacheConfig {
        memory_size: 1024,
        disk_size: Some(1024 * 1024),
        disk_dir: "hybrid_dir".to_string(),
        ttl_ms: None,
        promotion_threshold_millis: 500,
        demotion_threshold_ms: 10 * 1000,
        maintenance_interval_ms: 1000,
    }
}

#[test]
fn test_hybrid_cache_basic_operations() {
    let mut files: Vec<(String, Vec<u8>)> = Vec::new();
    let mut cache = HybridCache::new(config_for_test(), 0);

    let key = "test_key";
    let value = b"test_value";

    // Test initial state
    assert!(hybrid_get(&mut cache, &mut files, key, 0).is_none());
    assert_eq!(cache.size(), 0);

    // Test set and get
    hybrid_set(&mut cache, &mut files, key, value, 1).unwrap();
    assert_eq!(hybrid_get(&mut cache, &mut files, key, 2), Some(value.to_vec()));
    assert!(cache.size() > 0);

    // Test stats (combines memory + disk)
    let stats = cache.stats();
    assert!(stats.hits > 0);
    assert_eq!(stats.entry_count, 1);

    // Test remove
    let (_path, r) = cache.remove(&key.to_string());
    assert!(r.is_ok());
    assert!(hybrid_get(&mut cache, &mut files, key, 3).is_none());

    // Test clear
    hybrid_set(&mut cache, &mut files, key, value, 4).unwrap();
    let (_paths, r) = cache.clear();
    assert!(r.is_ok());
    assert!(hybrid_get(&mut cache, &mut files, key, 5).is_none());
    assert_eq!(cache.size(), 0);
}

#[test]
fn test_hybrid_cache_promotion() {
    let mut files: Vec<(String, Vec<u8>)> = Vec::new();
    let mut cache = HybridCache::new(
        HybridCacheConfig {
            memory_size: 1024,
            disk_size: Some(1024 * 1024),
            disk_dir: "hybrid_dir".to_string(),
            ttl_ms: None,
            promotion_threshold_millis: 100, // Very low threshold for easy testing
            demotion_threshold_ms: 60 * 1000,
            maintenance_interval_ms: 100,
        },
        0,
    );

    let key = "frequent_key";
    let value = b"frequent_value";

    // Set initial value
    hybrid_set(&mut cache, &mut files, key, value, 0).unwrap();

    // Access multiple times, 10 ms apart, to trigger promotion
    let mut now: u64 = 0;
    for _ in 0..5 {
        hybrid_get(&mut cache, &mut files, key, now);
        now += 10;
    }

    // Check access stats
    let access_stats = cache.access_stats();
    let entry = access_stats.iter().find(|e| e.0 == key);
    assert!(entry.is_some());

    let (count, frequency_millis) = entry.unwrap().1;
    assert!(count >= 5);
    assert!(frequency_millis > 0);
}

#[test]
fn test_hybrid_cache_with_ttl() {
    let mut files: Vec<(String, Vec<u8>)> = Vec::new();
    let mut cache = HybridCache::new(
        HybridCacheConfig {
            memory_size: 1024,
            disk_size: Some(1024 * 1024),
            disk_dir: "hybrid_dir".to_string(),
            ttl_ms: Some(100),
            promotion_threshold_millis: 500,
            demotion_threshold_ms: 10 * 1000,
            maintenance_interval_ms: 1000,
        },
        0,
    );

    let key = "ttl_key";
    let value = b"ttl_value";

    // Set value at instant zero
    hybrid_set(&mut cache, &mut files, key, value, 0).unwrap();
    assert_eq!(hybrid_get(&mut cache, &mut files, key, 1), Some(value.to_vec()));

    // 150 ms later the entry has outlived its 100 ms time-to-live in
    // both tiers
    assert!(hybrid_get(&mut cache, &mut files, key, 150).is_none());
}

#[test]
fn test_hybrid_cache_default_config() {
    let mut files: Vec<(String, Vec<u8>)> = Vec::new();
    let mut cache = HybridCache::with_default_config("hybrid_dir".to_string(), 0);

    let key = "default_key";
    let value = b"default_value";

    // Test basic operations with default config
    hybrid_set(&mut cache, &mut files, key, value, 1).unwrap();
    assert_eq!(hybrid_get(&mut cache, &mut files, key, 2), Some(value.to_vec()));

    // Check config values
    let config = cache.config();
    assert_eq!(config.memory_size, 64 * 1024 * 1024); // 64MB default
    assert_eq!(config.disk_size, Some(1024 * 1024 * 1024)); // 1GB default
}

#[test]
fn test_hybrid_cache_multi_tier_access() {
    let mut files: Vec<(String, Vec<u8>)> = Vec::new();
    let mut cache = HybridCache::new(
        HybridCacheConfig {
            memory_size: 100, // Very small memory cache
            disk_size: Some(1024 * 1024),
            disk_dir: "hybrid_dir".to_string(),
            ttl_ms: None,
            promotion_threshold_millis: 2000, // High threshold against promotion
            demotion_threshold_ms: 10 * 1000,
            maintenance_interval_ms: 1000,
        },
        0,
    );

    // Add data that overflows the memory tier
    let keys_values: Vec<(String, Vec<u8>)> = (0..5)
        .map(|i| {
            (
                format!("key_{}", i),
                format!("value_{}_with_some_extra_data", i).into_bytes(),
            )
        })
        .collect();

    // Set all values
    let mut now: u64 = 0;
    for (key, value) in &keys_values {
        hybrid_set(&mut cache, &mut files, key, value, now).unwrap();
        now += 1;
    }

    // All values should be retrievable (from memory or disk)
    for (key, expected_value) in &keys_values {
        let retrieved = hybrid_get(&mut cache, &mut files, key, now);
        assert_eq!(retrieved, Some(expected_value.clone()));
        now += 1;
    }

    // The disk tier is the authoritative entry count
    let stats = cache.stats();
    assert_eq!(stats.entry_count, 5);
    assert!(stats.size_bytes > 0);
}

#[test]
fn test_hybrid_stats_follow_disk_entry_count_and_summed_sizes() {
    let mut files: Vec<(String, Vec<u8>)> = Vec::new();
    let mut cache = HybridCache::new(config_for_test(), 0);

    hybrid_set(&mut cache, &mut files, "a", b"0123456789", 0).unwrap();
    hybrid_set(&mut cache, &mut files, "b", b"01234", 1).unwrap();

    let stats = cache.stats();
    let mem = cache.memory_cache.stats();
    let disk = cache.disk_cache.stats();
    assert_eq!(stats.entry_count, disk.entry_count);
    assert_eq!(stats.size_bytes, mem.size_bytes + disk.size_bytes);
    assert_eq!(stats.hits, mem.hits + disk.hits);
    assert_eq!(stats.misses, mem.misses + disk.misses);
    // Both values sit in both tiers by design: physical bytes
    assert_eq!(stats.size_bytes, 30);
}

#[test]
fn test_hybrid_maintenance_demotes_idle_keys() {
    let mut files: Vec<(String, Vec<u8>)> = Vec::new();
    let mut cache = HybridCache::new(
        HybridCacheConfig {
            memory_size: 1024,
            disk_size: Some(1024 * 1024),
            disk_dir: "hybrid_dir".to_string(),
            ttl_ms: None,
            promotion_threshold_millis: 2000, // Two accesses per second
            demotion_threshold_ms: 100,
            maintenance_interval_ms: 100,
        },
        0,
    );

    // A fresh key starts below the promotion frequency: disk only
    hybrid_set(&mut cache, &mut files, "idle", b"v", 0).unwrap();
    assert!(!cache.memory_cache.contains_live(&"idle".to_string(), 1));

    // A quick second access reaches the threshold: the disk hit
    // promotes the key into memory
    assert_eq!(hybrid_get(&mut cache, &mut files, "idle", 10), Some(b"v".to_vec()));
    assert!(cache.memory_cache.contains_live(&"idle".to_string(), 11));

    // Much later, one more access drops the measured frequency far
    // below the threshold (three accesses over a thousand seconds)
    assert_eq!(
        hybrid_get(&mut cache, &mut files, "idle", 1_000_000),
        Some(b"v".to_vec())
    );

    // After another long idle stretch, a miss triggers maintenance and
    // the cold key is demoted out of memory — but stays on disk
    assert!(hybrid_get(&mut cache, &mut files, "absent", 2_000_000).is_none());
    assert!(!cache.memory_cache.contains_live(&"idle".to_string(), 2_000_001));
    assert_eq!(
        hybrid_get(&mut cache, &mut files, "idle", 2_000_002),
        Some(b"v".to_vec())
    );
}

#[test]
fn test_frequency_age_is_clamped_at_one_second() {
    // Promoted half a second before the last access: the age clamps to
    // one second, so one access measures exactly 1.0 accesses/s
    let info = zarrs_cache::AccessInfo {
        count: 1,
        last_access_ms: 1500,
        promoted_at_ms: Some(1000),
    };
    assert_eq!(info.frequency_millis(), 1000);
    assert!(info.frequency_at_least(1000));
    assert!(!info.frequency_at_least(1001));

    // Beyond the clamp the raw span decides: two accesses over two
    // seconds measure 1.0 accesses/s
    let info = zarrs_cache::AccessInfo {
        count: 2,
        last_access_ms: 3000,
        promoted_at_ms: Some(1000),
    };
    assert_eq!(info.frequency_millis(), 1000);

    // A never-promoted record measures its count over one second
    let info = zarrs_cache::AccessInfo {
        count: 3,
        last_access_ms: 99,
        promoted_at_ms: None,
    };
    assert_eq!(info.frequency_millis(), 3000);
}
