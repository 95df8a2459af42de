use vstd::prelude::*;
use vstd::string::*;
use crate::config::CacheConfig;
use crate::error::CacheError;
use crate::memory::has_key;
use crate::memory::key_index;
use crate::memory::live_entries;
use crate::memory::remove_key;
use crate::memory::LruMemoryCache;
use crate::stats::CacheStats;

verus! {

// ---------------------------------------------------------------------------
// String predicates
// ---------------------------------------------------------------------------

pub open spec fn spec_ends_with(s: Seq<char>, t: Seq<char>) -> bool {
    t.len() <= s.len() && s.subrange(s.len() - t.len(), s.len() as int) == t
}

pub open spec fn spec_contains_sub(s: Seq<char>, t: Seq<char>) -> bool {
    exists|i: int| 0 <= i <= s.len() - t.len() && #[trigger] s.subrange(i, i + t.len()) == t
}

/// Whether `t` occurs at position `start` of `s`.
fn match_at(s: &str, t: &str, start: usize) -> (r: bool)
    requires
        start + t@.len() <= s@.len(),
        s@.len() <= usize::MAX,
    ensures
        r == (s@.subrange(start as int, start + t@.len()) == t@),
{
    let m = t.unicode_len();
    let mut i: usize = 0;
    while i < m
        invariant
            0 <= i <= m,
            m == t@.len(),
            start + m <= s@.len(),
            s@.len() <= usize::MAX,
            forall|j: int| 0 <= j < i ==> s@[start + j] == t@[j],
        decreases m - i,
    {
        if s.get_char(start + i) != t.get_char(i) {
            proof {
                if s@.subrange(start as int, start + t@.len()) == t@ {
                    assert(s@.subrange(start as int, start + t@.len())[i as int] == t@[i as int]);
                }
            }
            return false;
        }
        i = i + 1;
    }
    proof {
        assert(s@.subrange(start as int, start + t@.len()) =~= t@);
    }
    true
}

/// Whether `s` ends with `t`, as `str::ends_with` decides.
pub fn str_ends_with(s: &str, t: &str) -> (r: bool)
    ensures
        r == spec_ends_with(s@, t@),
{
    let n = s.unicode_len();
    let m = t.unicode_len();
    if m > n {
        return false;
    }
    match_at(s, t, n - m)
}

/// Whether `t` occurs anywhere in `s`, as `str::contains` decides.
pub fn str_contains(s: &str, t: &str) -> (r: bool)
    ensures
        r == spec_contains_sub(s@, t@),
{
    let n = s.unicode_len();
    let m = t.unicode_len();
    if m > n {
        proof {
            assert(!spec_contains_sub(s@, t@)) by {
                if spec_contains_sub(s@, t@) {
                    let i = choose|i: int|
                        0 <= i <= s@.len() - t@.len() && #[trigger] s@.subrange(i, i + t@.len())
                            == t@;
                    assert(i >= 0);
                }
            }
        }
        return false;
    }
    if m == 0 {
        proof {
            assert(spec_contains_sub(s@, t@)) by {
                assert(s@.subrange(0, 0 + t@.len() as int) =~= t@);
                assert(0 <= 0 <= s@.len() - t@.len());
            }
        }
        return true;
    }
    let limit = n - m;
    let mut start: usize = 0;
    while start <= limit
        invariant
            0 <= start <= limit + 1,
            limit == n - m,
            1 <= m <= n,
            n == s@.len(),
            m == t@.len(),
            forall|j: int| 0 <= j < start ==> #[trigger] s@.subrange(j, j + t@.len()) != t@,
        decreases limit + 1 - start,
    {
        if match_at(s, t, start) {
            proof {
                assert(0 <= start as int <= s@.len() - t@.len() && s@.subrange(
                    start as int,
                    start as int + t@.len(),
                ) == t@);
            }
            return true;
        }
        start = start + 1;
    }
    proof {
        assert(!spec_contains_sub(s@, t@)) by {
            if spec_contains_sub(s@, t@) {
                let i = choose|i: int|
                    0 <= i <= s@.len() - t@.len() && #[trigger] s@.subrange(i, i + t@.len())
                        == t@;
                assert(s@.subrange(i, i + t@.len()) != t@);
            }
        }
    }
    false
}

// ---------------------------------------------------------------------------
// The cached store façade
// ---------------------------------------------------------------------------

/// Which keys are worth caching: chunk data is, bare group metadata is
/// not — unless the key also names array metadata or attributes.
pub open spec fn spec_should_cache(k: Seq<char>) -> bool {
    ||| !spec_ends_with(k, ".zgroup"@)
    ||| spec_contains_sub(k, ".zarray"@)
    ||| spec_contains_sub(k, ".zattrs"@)
}

/// A caching façade over an arbitrary backing store: lookups and stores
/// go to the cache for keys worth caching; the backing store itself is
/// only held for the caller, which performs the slow path.
pub struct CachedStore<S> {
    pub inner: S,
    pub cache: LruMemoryCache,
    pub config: CacheConfig,
}

impl<S> CachedStore<S> {
    pub open spec fn wf(&self) -> bool {
        self.cache.wf()
    }

    pub fn new(store: S, cache: LruMemoryCache, config: CacheConfig) -> (r: Self)
        requires
            cache.wf(),
        ensures
            r.wf(),
            r.cache == cache,
            r.config == config,
    {
        CachedStore { inner: store, cache, config }
    }

    /// The cache's counters.
    pub fn cache_stats(&self) -> (r: CacheStats)
        requires
            self.wf(),
        ensures
            r.hits == self.cache.spec_hits(),
            r.misses == self.cache.spec_misses(),
    {
        self.cache.stats()
    }

    /// A reference to the backing store.
    pub fn inner(&self) -> (r: &S)
        ensures
            r == &self.inner,
    {
        &self.inner
    }

    /// Whether this key is cached at all.
    pub fn should_cache_key(&self, key: &str) -> (r: bool)
        ensures
            r == spec_should_cache(key@),
    {
        proof {
            reveal_strlit(".zgroup");
            reveal_strlit(".zarray");
            reveal_strlit(".zattrs");
        }
        !str_ends_with(key, ".zgroup") || str_contains(key, ".zarray") || str_contains(
            key,
            ".zattrs",
        )
    }

    /// Whether entries expire at all.
    pub fn has_ttl_support(&self) -> (r: bool)
        ensures
            r == (self.config.ttl_ms is Some),
    {
        self.config.ttl_ms.is_some()
    }

    /// Whether a disk tier is configured.
    pub fn has_disk_cache(&self) -> (r: bool)
        ensures
            r == (self.config.disk_cache_dir is Some),
    {
        self.config.disk_cache_dir.is_some()
    }

    /// The configuration.
    pub fn config(&self) -> (r: &CacheConfig)
        ensures
            r == &self.config,
    {
        &self.config
    }

    /// Looks a key up in the cache; a key not worth caching is reported
    /// absent without touching the cache.
    pub fn get_cached(&mut self, key: &String, now_ms: u64) -> (r: Option<Vec<u8>>)
        requires
            old(self).wf(),
        ensures
            final(self).wf(),
            final(self).config == old(self).config,
            !spec_should_cache(key@) ==> r is None && final(self).cache == old(self).cache,
            spec_should_cache(key@) ==> ({
                let live = live_entries(
                    old(self).cache.entries(),
                    old(self).cache.spec_ttl_ms(),
                    now_ms,
                );
                if has_key(live, key@) {
                    r matches Some(v) && v@ == live[key_index(live, key@)].1
                } else {
                    r is None
                }
            }),
    {
        if !self.should_cache_key(key.as_str()) {
            return None;
        }
        self.cache.get(key, now_ms)
    }

    /// Stores a value for a key worth caching; other keys pass through
    /// untouched.
    pub fn set_cached(&mut self, key: &String, value: Vec<u8>, now_ms: u64) -> (r: Result<
        (),
        CacheError,
    >)
        requires
            old(self).wf(),
        ensures
            final(self).wf(),
            final(self).config == old(self).config,
            !spec_should_cache(key@) ==> r is Ok && final(self).cache == old(self).cache,
            spec_should_cache(key@) ==> (r is Ok <==> value@.len() <= old(
                self,
            ).cache.spec_max_size()),
    {
        if self.should_cache_key(key.as_str()) {
            self.cache.set(key, value, now_ms)
        } else {
            Ok(())
        }
    }

    /// Removes a key from the cache.
    pub fn remove_cached(&mut self, key: &String) -> (r: Result<(), CacheError>)
        requires
            old(self).wf(),
        ensures
            final(self).wf(),
            r is Ok,
            final(self).cache.entries() == remove_key(old(self).cache.entries(), key@),
            final(self).config == old(self).config,
    {
        self.cache.remove(key)
    }

    /// Drops every cached entry.
    pub fn clear_cache(&mut self) -> (r: Result<(), CacheError>)
        requires
            old(self).wf(),
        ensures
            final(self).wf(),
            r is Ok,
            final(self).cache.entries() == Seq::<(Seq<char>, Seq<u8>, u64)>::empty(),
            final(self).config == old(self).config,
    {
        self.cache.clear()
    }
}

} // verus!
