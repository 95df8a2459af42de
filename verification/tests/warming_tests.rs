use zarrs_cache::CacheWarmer;
use zarrs_cache::LruMemoryCache;
use zarrs_cache::NeighborWarming;
use zarrs_cache::PredictiveWarming;
use zarrs_cache::TimeContext;
use zarrs_cache::WarmingContext;
use zarrs_cache::WarmingStrategy;

#[test]
fn test_neighbor_warming_exact_six_keys() {
    // One observed chunk in three dimensions, distance one: exactly its
    // six axis neighbors come back, sorted and without duplicates.
    let strategy = NeighborWarming::new(1, 8);
    let context = WarmingContext {
        recent_access: vec![("temperature/chunk_2.2.2".to_string(), 1)],
        hit_rate_millis: 0,
        available_capacity: 1024,
        time_context: TimeContext {
            hour_of_day: 0,
            day_of_week: 0,
            is_weekend: false,
        },
    };
    let keys = strategy.generate_warming_keys(&context);
    let expected = vec![
        "temperature/chunk_1.2.2".to_string(),
        "temperature/chunk_2.1.2".to_string(),
        "temperature/chunk_2.2.1".to_string(),
        "temperature/chunk_2.2.3".to_string(),
        "temperature/chunk_2.3.2".to_string(),
        "temperature/chunk_3.2.2".to_string(),
    ];
    assert_eq!(keys, expected);
}

#[test]
fn test_neighbor_warming_plain_chunk_keys() {
    let strategy = NeighborWarming::new(1, 10);
    let keys = strategy.generate_neighbors("a/1.1");
    assert_eq!(keys.len(), 4);
    assert!(keys.contains(&"a/2.1".to_string()));
    assert!(keys.contains(&"a/0.1".to_string()));
    assert!(keys.contains(&"a/1.2".to_string()));
    assert!(keys.contains(&"a/1.0".to_string()));
}

#[test]
fn test_neighbor_warming_ignores_unparseable_keys() {
    let strategy = NeighborWarming::new(1, 10);
    assert!(strategy.generate_neighbors("not a chunk key").is_empty());
    assert!(strategy.generate_neighbors("a/b/c").is_empty());
}

#[test]
fn test_neighbor_warming_respects_bound() {
    let strategy = NeighborWarming::new(2, 3);
    let keys = strategy.generate_neighbors("a/5.5.5");
    assert_eq!(keys.len(), 3);
}

#[test]
fn test_time_context_is_well_formed() {
    let t = TimeContext::current();
    assert!(t.hour_of_day < 24);
    assert!(t.day_of_week < 7);
    assert_eq!(t.is_weekend, t.day_of_week >= 5);
}

#[test]
fn test_predictive_warming_qualifies_frequent_keys() {
    let mut strategy = PredictiveWarming::new(10, 800); // 0.8 accesses/sec
    // Five accesses over four seconds: 1.25 accesses per second
    for now in 0..5u64 {
        strategy.record_access(&"hot".to_string(), now);
    }
    // Two accesses over a hundred seconds: far too rare
    strategy.record_access(&"cold".to_string(), 0);
    strategy.record_access(&"cold".to_string(), 100);

    let context = WarmingContext {
        recent_access: vec![("hot".to_string(), 9)],
        hit_rate_millis: 0,
        available_capacity: 1024,
        time_context: TimeContext {
            hour_of_day: 0,
            day_of_week: 0,
            is_weekend: false,
        },
    };
    let keys = strategy.generate_warming_keys(&context);
    assert_eq!(keys, vec!["hot".to_string()]);
}

#[test]
fn test_cache_warmer_warms_missing_keys_only() {
    let cache = LruMemoryCache::new(1024);
    let mut warmer = CacheWarmer::new(cache)
        .add_strategy(WarmingStrategy::Neighbor(NeighborWarming::new(1, 8)));
    warmer.record_access(&"temperature/chunk_2.2.2".to_string());

    // Pre-load one of the six neighbors: it is skipped during warming
    warmer
        .warm_store(&"temperature/chunk_1.2.2".to_string(), b"old".to_vec(), 0)
        .unwrap();

    let context = warmer.build_warming_context();
    assert_eq!(context.recent_access.len(), 1);

    let mut warmed = 0;
    for i in 0..warmer.strategies_len() {
        let keys = warmer.generate_for(i, &context);
        assert_eq!(keys.len(), 6);
        for key in keys {
            if warmer.warm_check(&key, 1) {
                // The loader of the test always produces bytes
                warmer.warm_store(&key, b"loaded".to_vec(), 1).unwrap();
                warmed += 1;
            }
        }
    }
    assert_eq!(warmed, 5);
}

#[test]
fn test_cache_warmer_clear_access_history() {
    let cache = LruMemoryCache::new(1024);
    let mut warmer = CacheWarmer::new(cache);
    warmer.record_access(&"k".to_string());
    warmer.record_access(&"k".to_string());
    let context = warmer.build_warming_context();
    assert_eq!(context.recent_access, vec![("k".to_string(), 2)]);
    warmer.clear_access_history();
    let context = warmer.build_warming_context();
    assert!(context.recent_access.is_empty());
}

#[test]
fn test_predictive_warming_orders_by_recent_access_count() {
    let mut strategy = PredictiveWarming::new(10, 500);
    for now in 0..5u64 {
        strategy.record_access(&"first".to_string(), now);
        strategy.record_access(&"second".to_string(), now);
    }
    let context = WarmingContext {
        recent_access: vec![("first".to_string(), 2), ("second".to_string(), 7)],
        hit_rate_millis: 0,
        available_capacity: 1024,
        time_context: TimeContext {
            hour_of_day: 0,
            day_of_week: 0,
            is_weekend: false,
        },
    };
    let keys = strategy.generate_warming_keys(&context);
    // Both qualify; the more recently counted key comes first
    assert_eq!(keys, vec!["second".to_string(), "first".to_string()]);
}
