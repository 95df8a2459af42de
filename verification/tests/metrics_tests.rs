use zarrs_cache::MetricsCollector;
use zarrs_cache::MetricsConfig;
use zarrs_cache::PerformanceSnapshot;

fn snapshot(hits: u64, misses: u64, hit_rate_millis: u64, size: usize) -> PerformanceSnapshot {
    PerformanceSnapshot {
        timestamp: 1_700_000_000,
        hits,
        misses,
        hit_rate_millis,
        total_size_bytes: size,
        entry_count: 50,
        ops_per_sec_millis: 150_000,
        avg_response_time_micros: 2_500,
        memory_usage_bytes: 512,
        disk_usage_bytes: 512,
    }
}

#[test]
fn test_metrics_collector_basic_operations() {
    let config = MetricsConfig {
        max_history_size: 100,
        snapshot_interval_ms: 1000,
        track_access_patterns: true,
        track_efficiency: true,
    };

    let mut collector = MetricsCollector::new(config);

    // Record some operations (response times in microseconds)
    collector.record_operation(&"test_key_1".to_string(), true, 5_000, 0);
    collector.record_operation(&"test_key_2".to_string(), false, 15_000, 1);
    collector.record_operation(&"test_key_1".to_string(), true, 3_000, 2);

    // Check access statistics
    let stats = collector.access_statistics();
    let e1 = stats.iter().find(|e| e.0 == "test_key_1").unwrap();
    let e2 = stats.iter().find(|e| e.0 == "test_key_2").unwrap();

    let (count1, hit_rate1) = e1.1;
    assert_eq!(count1, 2);
    assert_eq!(hit_rate1, 1000); // 2 hits out of 2 accesses

    let (count2, hit_rate2) = e2.1;
    assert_eq!(count2, 1);
    assert_eq!(hit_rate2, 0); // 0 hits out of 1 access
}

#[test]
fn test_performance_snapshot_recording() {
    let mut collector = MetricsCollector::new(MetricsConfig::default());

    let snapshot1 = snapshot(100, 20, 833, 1024);
    let mut snapshot2 = snapshot(150, 25, 857, 1536);
    snapshot2.entry_count = 75;
    snapshot2.ops_per_sec_millis = 200_000;
    snapshot2.avg_response_time_micros = 2_000;
    snapshot2.memory_usage_bytes = 768;
    snapshot2.disk_usage_bytes = 768;

    collector.record_snapshot(snapshot1);
    collector.record_snapshot(snapshot2);

    let current = collector.current_metrics();
    assert!(current.is_some());
    let current = current.unwrap();
    assert_eq!(current.hits, 150);
    assert_eq!(current.entry_count, 75);
}

#[test]
fn test_promotion_tracking() {
    let mut collector = MetricsCollector::new(MetricsConfig::default());

    // Record some promotions
    collector.record_promotion(true); // Effective
    collector.record_promotion(false); // Not effective
    collector.record_promotion(true); // Effective

    // Generate report to check promotion stats
    let report = collector.generate_report(60 * 1000, 1_700_000_000);

    // 2 effective out of 3 executed, in thousandths, rounded down
    assert_eq!(report.efficiency_analysis.promotion_effectiveness_millis, 666);
}

#[test]
fn test_warming_tracking() {
    let mut collector = MetricsCollector::new(MetricsConfig::default());

    // Record warming operations
    collector.record_warming(5, 3); // Warmed 5 keys, 3 were subsequently hit
    collector.record_warming(3, 2); // Warmed 3 keys, 2 were subsequently hit

    let report = collector.generate_report(60 * 1000, 1_700_000_000);

    // Should have recorded warming operations
    assert!(report.efficiency_analysis.warming_effectiveness_millis > 0);
}

#[test]
fn test_analytics_report_generation() {
    let mut collector = MetricsCollector::new(MetricsConfig::default());

    // Add some performance history
    for i in 0..5u64 {
        let mut s = snapshot(100 + i * 10, 20 - i * 2, 850, (1024 + i * 100) as usize);
        s.entry_count = (50 + i * 5) as usize;
        collector.record_snapshot(s);
    }

    // Record some access patterns
    collector.record_operation(&"array1/chunk_0.0.0".to_string(), true, 2_000, 0);
    collector.record_operation(&"array1/chunk_0.0.1".to_string(), true, 3_000, 1);
    collector.record_operation(&"array1/chunk_0.1.0".to_string(), false, 15_000, 2);

    let report = collector.generate_report(300 * 1000, 1_700_000_123);

    // Verify report structure
    assert!(report.generated_at_ms > 0);
    assert_eq!(report.time_range_ms, 300 * 1000);
    assert!(report.performance_summary.average_hit_rate_millis > 0);
    assert!(!report.access_patterns.most_accessed_keys.is_empty());
    assert!(!report.recommendations.is_empty());
}

#[test]
fn test_spatial_locality_analysis() {
    let mut collector = MetricsCollector::new(MetricsConfig::default());

    // Simulate accessing neighboring chunks (good spatial locality)
    let neighboring_keys = vec![
        "temperature/chunk_0.0.0",
        "temperature/chunk_0.0.1", // Neighbor in z-dimension
        "temperature/chunk_0.1.0", // Neighbor in y-dimension
        "temperature/chunk_1.0.0", // Neighbor in x-dimension
    ];

    let mut now: u64 = 0;
    for key in &neighboring_keys {
        collector.record_operation(&key.to_string(), true, 2_000, now);
        now += 1;
    }

    let report = collector.generate_report(60 * 1000, 1_700_000_000);

    // The score is a fraction in thousandths
    assert!(report.access_patterns.spatial_locality_score_millis <= 1000);
}

#[test]
fn test_spatial_locality_of_strict_neighbor_sequence() {
    let mut collector = MetricsCollector::new(MetricsConfig::default());

    // Each consecutive pair differs in exactly one dimension by one
    let keys = vec![
        "a/chunk_0.0.0",
        "a/chunk_0.0.1",
        "a/chunk_0.1.1",
        "a/chunk_1.1.1",
    ];
    let mut now: u64 = 0;
    for key in &keys {
        collector.record_operation(&key.to_string(), true, 1_000, now);
        now += 1;
    }

    let report = collector.generate_report(60 * 1000, 1_700_000_000);
    assert_eq!(report.access_patterns.spatial_locality_score_millis, 1000);
}

#[test]
fn test_spatial_locality_zero_for_short_or_unrelated_sequences() {
    let mut collector = MetricsCollector::new(MetricsConfig::default());
    // A single access has no transitions at all
    collector.record_operation(&"a/chunk_0.0.0".to_string(), true, 1_000, 0);
    let report = collector.generate_report(60 * 1000, 1_700_000_000);
    assert_eq!(report.access_patterns.spatial_locality_score_millis, 0);

    // Far-apart accesses have transitions but no neighboring pairs
    let mut collector2 = MetricsCollector::new(MetricsConfig::default());
    collector2.record_operation(&"a/chunk_0.0.0".to_string(), true, 1_000, 0);
    collector2.record_operation(&"a/chunk_5.5.5".to_string(), true, 1_000, 1);
    let report2 = collector2.generate_report(60 * 1000, 1_700_000_000);
    assert_eq!(report2.access_patterns.spatial_locality_score_millis, 0);
}

#[test]
fn test_recommendations_generation() {
    let mut collector = MetricsCollector::new(MetricsConfig::default());

    // Create a scenario with poor performance to trigger recommendations
    let mut poor = snapshot(50, 150, 250, 1024); // Low hit rate (25%)
    poor.entry_count = 10;
    poor.ops_per_sec_millis = 50_000;
    poor.avg_response_time_micros = 25_000; // High response time
    collector.record_snapshot(poor);

    let report = collector.generate_report(60 * 1000, 1_700_000_000);

    // Should generate recommendations for poor performance
    assert!(!report.recommendations.is_empty());

    // Check for specific recommendation categories
    let has_performance_rec = report
        .recommendations
        .iter()
        .any(|r| r.category == "Performance");
    let has_latency_rec = report
        .recommendations
        .iter()
        .any(|r| r.category == "Latency");

    assert!(has_performance_rec || has_latency_rec);
    // This scenario triggers both: the hit rate is far below 80% and
    // the response time far above 10 ms
    assert!(has_performance_rec && has_latency_rec);
}

#[test]
fn test_metrics_config_customization() {
    let custom_config = MetricsConfig {
        max_history_size: 50,
        snapshot_interval_ms: 30 * 1000,
        track_access_patterns: false,
        track_efficiency: false,
    };

    let mut collector = MetricsCollector::new(custom_config);

    // Record operations - should not track patterns due to config
    collector.record_operation(&"test_key".to_string(), true, 5_000, 0);

    // Access statistics should be empty due to disabled tracking
    let stats = collector.access_statistics();
    assert!(stats.is_empty());
}

#[test]
fn test_history_size_limit() {
    let config = MetricsConfig {
        max_history_size: 3, // Very small limit
        ..MetricsConfig::default()
    };

    let mut collector = MetricsCollector::new(config);

    // Add more snapshots than the limit
    for i in 0..5u64 {
        collector.record_snapshot(snapshot(i, 0, 1000, 1024));
    }

    // Only the last three snapshots remain
    assert_eq!(collector.performance_history.len(), 3);
    assert_eq!(collector.current_metrics().unwrap().hits, 4);
}

#[test]
fn test_hit_rate_millis_of_stats() {
    let stats = zarrs_cache::CacheStats { hits: 3, misses: 1, size_bytes: 0, entry_count: 0 };
    assert_eq!(stats.hit_rate_millis(), 750);
    let empty = zarrs_cache::CacheStats { hits: 0, misses: 0, size_bytes: 0, entry_count: 0 };
    assert_eq!(empty.hit_rate_millis(), 0);
}

#[test]
fn test_record_warming_with_zero_keys_leaves_rate_unchanged() {
    let mut collector = MetricsCollector::new(MetricsConfig::default());
    collector.record_warming(4, 4); // rate becomes (0 + 1000)/2 = 500
    collector.record_warming(0, 0); // nothing warmed: rate stays
    let report = collector.generate_report(60 * 1000, 1_700_000_000);
    assert_eq!(report.efficiency_analysis.warming_effectiveness_millis, 500);
}
