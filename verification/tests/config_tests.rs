use zarrs_cache::CacheConfig;
use zarrs_cache::HybridCacheConfig;
use zarrs_cache::MetricsConfig;
use zarrs_cache::PrefetchConfig;

#[test]
fn test_cache_config_default() {
    let config = CacheConfig::default();

    assert_eq!(config.max_memory_size, 100 * 1024 * 1024); // 100MB
    assert_eq!(config.disk_cache_dir, None);
    assert_eq!(config.max_disk_size, None);
    assert_eq!(config.ttl_ms, None);
    assert!(!config.enable_compression);
    assert_eq!(config.prefetch_config, None);
}

#[test]
fn test_prefetch_config_default() {
    let config = PrefetchConfig::default();

    assert_eq!(config.neighbor_chunks, 2);
    assert_eq!(config.max_queue_size, 10);
}

#[test]
fn test_hybrid_cache_config_default() {
    let config = HybridCacheConfig::default();

    assert_eq!(config.memory_size, 64 * 1024 * 1024); // 64MB
    assert_eq!(config.disk_size, Some(1024 * 1024 * 1024)); // 1GB
    assert!(config.disk_dir.contains("zarrs_hybrid_cache"));
    assert_eq!(config.ttl_ms, None);
    assert_eq!(config.promotion_threshold_millis, 100); // 0.1 accesses/sec
    assert_eq!(config.demotion_threshold_ms, 300 * 1000); // 5 minutes
    assert_eq!(config.maintenance_interval_ms, 60 * 1000); // 1 minute
}

#[test]
fn test_metrics_config_default() {
    let config = MetricsConfig::default();

    assert_eq!(config.max_history_size, 1000);
    assert_eq!(config.snapshot_interval_ms, 60 * 1000);
    assert!(config.track_access_patterns);
    assert!(config.track_efficiency);
}

#[test]
fn test_cache_config_custom_values() {
    let config = CacheConfig {
        max_memory_size: 256 * 1024 * 1024, // 256MB
        disk_cache_dir: Some("/custom/cache".to_string()),
        max_disk_size: Some(2 * 1024 * 1024 * 1024), // 2GB
        ttl_ms: Some(3600 * 1000),                   // 1 hour
        enable_compression: true,
        prefetch_config: Some(PrefetchConfig {
            neighbor_chunks: 5,
            max_queue_size: 20,
        }),
    };

    assert_eq!(config.max_memory_size, 256 * 1024 * 1024);
    assert_eq!(config.disk_cache_dir, Some("/custom/cache".to_string()));
    assert_eq!(config.max_disk_size, Some(2 * 1024 * 1024 * 1024));
    assert_eq!(config.ttl_ms, Some(3600 * 1000));
    assert!(config.enable_compression);
    assert!(config.prefetch_config.is_some());

    let prefetch = config.prefetch_config.unwrap();
    assert_eq!(prefetch.neighbor_chunks, 5);
    assert_eq!(prefetch.max_queue_size, 20);
}

#[test]
fn test_hybrid_cache_config_custom_values() {
    let config = HybridCacheConfig {
        memory_size: 128 * 1024 * 1024,          // 128MB
        disk_size: Some(5 * 1024 * 1024 * 1024), // 5GB
        disk_dir: "/tmp/my_cache".to_string(),
        ttl_ms: Some(7200 * 1000), // 2 hours
        promotion_threshold_millis: 500,
        demotion_threshold_ms: 600 * 1000, // 10 minutes
        maintenance_interval_ms: 120 * 1000, // 2 minutes
    };

    assert_eq!(config.memory_size, 128 * 1024 * 1024);
    assert_eq!(config.disk_size, Some(5 * 1024 * 1024 * 1024));
    assert_eq!(config.disk_dir, "/tmp/my_cache".to_string());
    assert_eq!(config.ttl_ms, Some(7200 * 1000));
    assert_eq!(config.promotion_threshold_millis, 500);
    assert_eq!(config.demotion_threshold_ms, 600 * 1000);
    assert_eq!(config.maintenance_interval_ms, 120 * 1000);
}

#[test]
fn test_config_with_partial_defaults() {
    // Use the struct-update syntax over the defaults.
    let config = CacheConfig {
        max_memory_size: 512 * 1024 * 1024, // Override memory size
        enable_compression: true,           // Override compression
        ..Default::default()                // Use defaults for everything else
    };

    assert_eq!(config.max_memory_size, 512 * 1024 * 1024);
    assert!(config.enable_compression);
    // These should be defaults
    assert_eq!(config.disk_cache_dir, None);
    assert_eq!(config.max_disk_size, None);
    assert_eq!(config.ttl_ms, None);
    assert_eq!(config.prefetch_config, None);
}

#[test]
fn test_metrics_config_custom_values() {
    let config = MetricsConfig {
        max_history_size: 2000,
        snapshot_interval_ms: 30 * 1000,
        track_access_patterns: false,
        track_efficiency: false,
    };

    assert_eq!(config.max_history_size, 2000);
    assert_eq!(config.snapshot_interval_ms, 30 * 1000);
    assert!(!config.track_access_patterns);
    assert!(!config.track_efficiency);
}
