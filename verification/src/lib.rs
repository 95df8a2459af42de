//! A tiered caching layer for chunked scientific array data, written and
//! verified with Verus. Keys are strings, commonly of the chunk form
//! `array_name/i.j.k`; values are opaque byte blobs.
//!
//! The crate holds the caching engine proper: the bounded in-memory LRU
//! tier, the index logic of the bounded on-disk tier, the hybrid engine
//! composing the two, the chunk-key codec with neighbor and sequential key
//! derivation, warming and prefetch strategies, and the analytics
//! collector. Filesystem work and wall-clock reads stay outside; every
//! operation takes the current time as a plain millisecond count.

pub mod cached;
pub mod codec;
pub mod compression;
pub mod config;
pub mod disk;
pub mod error;
pub mod hybrid;
pub mod memory;
pub mod metrics;
pub mod prefetch;
pub mod stats;
pub mod warming;

pub use cached::CachedStore;
pub use codec::coordinates_to_zarr_key;
pub use codec::generate_neighbor_coordinates;
pub use codec::generate_sequential_keys;
pub use codec::parse_zarr_chunk_key;
pub use compression::CompressedCache;
pub use compression::Compression;
pub use compression::DeflateCompression;
pub use compression::NoCompression;
pub use config::CacheConfig;
pub use config::PrefetchConfig;
pub use disk::DiskIndex;
pub use error::CacheError;
pub use hybrid::AccessInfo;
pub use hybrid::HybridCache;
pub use hybrid::HybridCacheConfig;
pub use memory::LruMemoryCache;
pub use metrics::AccessPatternAnalyzer;
pub use metrics::CacheAnalyticsReport;
pub use metrics::MetricsCollector;
pub use metrics::MetricsConfig;
pub use metrics::PerformanceSnapshot;
pub use metrics::SpatialLocalityTracker;
pub use prefetch::NeighborChunkPrefetch;
pub use prefetch::NoPrefetch;
pub use prefetch::PrefetchStrategy;
pub use prefetch::SequentialPrefetch;
pub use stats::CacheStats;
pub use warming::CacheWarmer;
pub use warming::NeighborWarming;
pub use warming::PredictiveWarming;
pub use warming::TimeContext;
pub use warming::WarmingContext;
pub use warming::WarmingStrategy;
