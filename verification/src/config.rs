use vstd::prelude::*;

verus! {

/// Configuration for the prefetch strategies.
#[derive(Debug, Clone, PartialEq)]
pub struct PrefetchConfig {
    /// How far out neighboring chunks are generated.
    pub neighbor_chunks: usize,
    /// Bound on the internal prefetch queue.
    pub max_queue_size: usize,
}

impl Default for PrefetchConfig {
    fn default() -> (r: Self)
        ensures
            r.neighbor_chunks == 2,
            r.max_queue_size == 10,
    {
        PrefetchConfig { neighbor_chunks: 2, max_queue_size: 10 }
    }
}

/// General cache configuration. Durations are plain milliseconds and paths
/// plain strings, so that every field is a value the verifier can reason
/// about; the host application converts at its edge.
#[derive(Debug, Clone, PartialEq)]
pub struct CacheConfig {
    /// Maximum memory cache size in bytes.
    pub max_memory_size: usize,
    /// Optional disk cache directory.
    pub disk_cache_dir: Option<String>,
    /// Maximum disk cache size in bytes.
    pub max_disk_size: Option<u64>,
    /// Time-to-live for cached entries, in milliseconds.
    pub ttl_ms: Option<u64>,
    /// Whether values are compressed before they are stored.
    pub enable_compression: bool,
    /// Prefetch strategy configuration.
    pub prefetch_config: Option<PrefetchConfig>,
}

impl Default for CacheConfig {
    fn default() -> (r: Self)
        ensures
            r.max_memory_size == 100 * 1024 * 1024,
            r.disk_cache_dir is None,
            r.max_disk_size is None,
            r.ttl_ms is None,
            !r.enable_compression,
            r.prefetch_config is None,
    {
        CacheConfig {
            max_memory_size: 100 * 1024 * 1024,
            disk_cache_dir: None,
            max_disk_size: None,
            ttl_ms: None,
            enable_compression: false,
            prefetch_config: None,
        }
    }
}

} // verus!
