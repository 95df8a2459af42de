use zarrs_cache::NeighborChunkPrefetch;
use zarrs_cache::NoPrefetch;
use zarrs_cache::PrefetchConfig;
use zarrs_cache::PrefetchStrategy;
use zarrs_cache::SequentialPrefetch;

#[test]
fn test_prefetch_config_creation() {
    let config = PrefetchConfig {
        neighbor_chunks: 10,
        max_queue_size: 20,
    };
    assert_eq!(config.neighbor_chunks, 10);
    assert_eq!(config.max_queue_size, 20);

    let default_config = PrefetchConfig::default();
    assert_eq!(default_config.neighbor_chunks, 2);
    assert_eq!(default_config.max_queue_size, 10);
}

#[test]
fn test_cache_config_with_prefetch() {
    let config = zarrs_cache::CacheConfig {
        prefetch_config: Some(PrefetchConfig {
            neighbor_chunks: 15,
            ..Default::default()
        }),
        ..Default::default()
    };
    assert!(config.prefetch_config.is_some());
    let p = config.prefetch_config.unwrap();
    assert_eq!(p.neighbor_chunks, 15);
    assert_eq!(p.max_queue_size, 10);
}

#[test]
fn test_neighbor_prefetch_generates_neighbor_keys() {
    let strategy = NeighborChunkPrefetch::new(&PrefetchConfig {
        neighbor_chunks: 1,
        max_queue_size: 10,
    });
    let keys = strategy.generate_prefetch_keys("array/1.1");
    assert_eq!(keys.len(), 4);
    assert!(keys.contains(&"array/2.1".to_string()));
    assert!(keys.contains(&"array/0.1".to_string()));
    assert!(keys.contains(&"array/1.2".to_string()));
    assert!(keys.contains(&"array/1.0".to_string()));

    // A key that is no chunk key derives nothing
    assert!(strategy.generate_prefetch_keys("metadata.zgroup").is_empty());
}

#[test]
fn test_neighbor_prefetch_queue_drops_oldest() {
    let mut strategy = NeighborChunkPrefetch::new(&PrefetchConfig {
        neighbor_chunks: 1,
        max_queue_size: 2,
    });
    strategy.enqueue("a/1".to_string(), false);
    strategy.enqueue("a/2".to_string(), false);
    // The queue is full: the oldest entry leaves first
    strategy.enqueue("a/3".to_string(), false);
    assert_eq!(strategy.prefetch_queue, vec!["a/2".to_string(), "a/3".to_string()]);
    // A full queue sheds its oldest entry even for a key that is
    // already cached — which itself is never queued
    strategy.enqueue("a/4".to_string(), true);
    let drained = strategy.drain();
    assert_eq!(drained, vec!["a/3".to_string()]);
    // Draining empties the queue
    assert!(strategy.drain().is_empty());
}

#[test]
fn test_sequential_prefetch_generates_successors() {
    let strategy = SequentialPrefetch::new(&PrefetchConfig {
        neighbor_chunks: 3,
        max_queue_size: 10,
    });
    let keys = strategy.generate_prefetch_keys("array/5.10.15");
    assert_eq!(
        keys,
        vec![
            "array/5.10.16".to_string(),
            "array/5.10.17".to_string(),
            "array/5.10.18".to_string(),
        ]
    );
    assert!(strategy.generate_prefetch_keys("no chunk").is_empty());
}

#[test]
fn test_no_prefetch_generates_nothing() {
    let strategy = NoPrefetch;
    assert!(strategy.generate_prefetch_keys("array/1.2.3").is_empty());
}
