use vstd::prelude::*;
use crate::disk::dk_has;
use crate::disk::dk_index;
use crate::disk::dk_live;
use crate::disk::dk_remove_key;
use crate::disk::dk_sum;
use crate::disk::DiskEntryMeta;
use crate::disk::DiskGetStep;
use crate::disk::DiskIndex;
use crate::disk::spec_key_path;
use crate::error::CacheError;
use crate::memory::evict_to_fit;
use crate::memory::has_key;
use crate::memory::inc64;
use crate::memory::is_expired_at;
use crate::memory::key_index;
use crate::memory::live_entries;
use crate::memory::remove_key;
use crate::memory::LruMemoryCache;
use crate::stats::CacheStats;

verus! {

// ---------------------------------------------------------------------------
// Per-key access statistics
// ---------------------------------------------------------------------------

/// Per-key access record for promotion and demotion decisions: how often
/// the key was touched, when last, and when it was last promoted into
/// memory.
#[derive(Clone, Copy, Debug)]
pub struct AccessInfo {
    pub count: u64,
    pub last_access_ms: u64,
    pub promoted_at_ms: Option<u64>,
}

impl AccessInfo {
    /// The age the access frequency is measured over: the span from the
    /// promotion instant to the last access, clamped below at one
    /// second — and exactly one second when the key was never promoted —
    /// so that every record yields a finite, positive frequency.
    pub open spec fn spec_age_ms(self) -> int {
        match self.promoted_at_ms {
            Some(p) => if self.last_access_ms >= p + 1000 {
                self.last_access_ms - p
            } else {
                1000
            },
            None => 1000,
        }
    }

    /// Whether the access frequency, in accesses per second, reaches
    /// `threshold_millis / 1000`: the exact rational comparison
    /// `count / (age/1000) >= threshold_millis / 1000`.
    pub open spec fn spec_freq_at_least(self, threshold_millis: u64) -> bool {
        self.count * 1000000 >= threshold_millis * self.spec_age_ms()
    }

    /// The access frequency in thousandths of an access per second,
    /// rounded down and capped at `u64::MAX`.
    pub open spec fn spec_frequency_millis(self) -> int {
        let f = (self.count * 1000000) / self.spec_age_ms();
        if f <= u64::MAX {
            f
        } else {
            u64::MAX as int
        }
    }

    pub fn new(now_ms: u64) -> (r: Self)
        ensures
            r.count == 1,
            r.last_access_ms == now_ms,
            r.promoted_at_ms is None,
    {
        AccessInfo { count: 1, last_access_ms: now_ms, promoted_at_ms: None }
    }

    pub fn update_access(&mut self, now_ms: u64)
        ensures
            final(self).count == inc64(old(self).count),
            final(self).last_access_ms == now_ms,
            final(self).promoted_at_ms == old(self).promoted_at_ms,
    {
        self.count = crate::memory::inc_u64(self.count);
        self.last_access_ms = now_ms;
    }

    pub fn mark_promoted(&mut self, now_ms: u64)
        ensures
            final(self).count == old(self).count,
            final(self).last_access_ms == old(self).last_access_ms,
            final(self).promoted_at_ms == Some(now_ms),
    {
        self.promoted_at_ms = Some(now_ms);
    }

    /// The clamped age in milliseconds, as `spec_age_ms` fixes it.
    fn age_ms(&self) -> (r: u64)
        ensures
            r == self.spec_age_ms(),
            r >= 1000,
    {
        match self.promoted_at_ms {
            Some(p) => if self.last_access_ms >= p && self.last_access_ms - p >= 1000 {
                self.last_access_ms - p
            } else {
                1000
            },
            None => 1000,
        }
    }

    /// Whether the record's frequency reaches the threshold, compared as
    /// exact rationals.
    pub fn frequency_at_least(&self, threshold_millis: u64) -> (r: bool)
        ensures
            r == self.spec_freq_at_least(threshold_millis),
    {
        let age = self.age_ms();
        proof {
            assert((threshold_millis as int) * (age as int) <= 0xffffffffffffffffu64
                * 0xffffffffffffffffu64) by (nonlinear_arith)
                requires
                    0 <= threshold_millis <= 0xffffffffffffffffu64,
                    0 <= age <= 0xffffffffffffffffu64,
            ;
        }
        (self.count as u128) * 1000000 >= (threshold_millis as u128) * (age as u128)
    }

    /// The frequency in thousandths of an access per second.
    pub fn frequency_millis(&self) -> (r: u64)
        ensures
            r == self.spec_frequency_millis(),
    {
        let age = self.age_ms();
        let f: u128 = (self.count as u128) * 1000000 / (age as u128);
        if f <= u64::MAX as u128 {
            f as u64
        } else {
            u64::MAX
        }
    }

    /// Whether the key has been idle strictly longer than the threshold.
    pub fn should_demote(&self, inactivity_threshold_ms: u64, now_ms: u64) -> (r: bool)
        ensures
            r == (now_ms > self.last_access_ms + inactivity_threshold_ms),
    {
        now_ms > inactivity_threshold_ms
            && self.last_access_ms < now_ms - inactivity_threshold_ms
    }
}

// ---------------------------------------------------------------------------
// Configuration
// ---------------------------------------------------------------------------

/// Configuration of the hybrid engine. Durations are milliseconds; the
/// promotion threshold is in thousandths of an access per second.
#[derive(Debug, Clone, PartialEq)]
pub struct HybridCacheConfig {
    /// Memory tier size in bytes.
    pub memory_size: usize,
    /// Disk tier size in bytes, or none for unbounded.
    pub disk_size: Option<u64>,
    /// Disk tier directory.
    pub disk_dir: String,
    /// Time-to-live for entries, in milliseconds.
    pub ttl_ms: Option<u64>,
    /// Minimum access frequency to promote into memory, in thousandths
    /// of an access per second.
    pub promotion_threshold_millis: u64,
    /// Idle time before a key is considered for demotion, milliseconds.
    pub demotion_threshold_ms: u64,
    /// How often maintenance may run, milliseconds.
    pub maintenance_interval_ms: u64,
}

impl Default for HybridCacheConfig {
    fn default() -> (r: Self)
        ensures
            r.memory_size == 64 * 1024 * 1024,
            r.disk_size matches Some(d) && d == 1024 * 1024 * 1024,
            r.disk_dir@ == "zarrs_hybrid_cache"@,
            r.ttl_ms is None,
            r.promotion_threshold_millis == 100,
            r.demotion_threshold_ms == 300 * 1000,
            r.maintenance_interval_ms == 60 * 1000,
    {
        HybridCacheConfig {
            memory_size: 64 * 1024 * 1024,
            disk_size: Some(1024 * 1024 * 1024),
            disk_dir: String::from_str("zarrs_hybrid_cache"),
            ttl_ms: None,
            promotion_threshold_millis: 100,
            demotion_threshold_ms: 300 * 1000,
            maintenance_interval_ms: 60 * 1000,
        }
    }
}

// ---------------------------------------------------------------------------
// Tracker sequences
// ---------------------------------------------------------------------------

pub open spec fn tr_has(s: Seq<(String, AccessInfo)>, k: Seq<char>) -> bool {
    exists|i: int| 0 <= i < s.len() && (#[trigger] s[i]).0@ == k
}

pub open spec fn tr_index(s: Seq<(String, AccessInfo)>, k: Seq<char>) -> int {
    choose|i: int| 0 <= i < s.len() && (#[trigger] s[i]).0@ == k
}

pub open spec fn tr_distinct(s: Seq<(String, AccessInfo)>) -> bool {
    forall|i: int, j: int|
        0 <= i < j < s.len() ==> (#[trigger] s[i]).0@ != (#[trigger] s[j]).0@
}

/// How one recorded access changes the tracker: an existing record is
/// counted up and touched, a missing one starts at count one.
pub open spec fn tracker_updated(
    s: Seq<(String, AccessInfo)>,
    fe: Seq<(String, AccessInfo)>,
    k: Seq<char>,
    now: u64,
) -> bool {
    if tr_has(s, k) {
        let i = tr_index(s, k);
        fe == s.update(
            i,
            (
                s[i].0,
                (AccessInfo {
                    count: inc64(s[i].1.count),
                    last_access_ms: now,
                    promoted_at_ms: s[i].1.promoted_at_ms,
                }),
            ),
        )
    } else {
        &&& fe.len() == s.len() + 1
        &&& fe.drop_last() == s
        &&& fe.last().0@ == k
        &&& fe.last().1 == (AccessInfo { count: 1, last_access_ms: now, promoted_at_ms: None })
    }
}

proof fn lemma_tr_index_unique(s: Seq<(String, AccessInfo)>, k: Seq<char>, i: int)
    requires
        tr_distinct(s),
        0 <= i < s.len(),
        s[i].0@ == k,
    ensures
        tr_has(s, k),
        tr_index(s, k) == i,
{
    assert(tr_has(s, k));
    let j = choose|j: int| 0 <= j < s.len() && (#[trigger] s[j]).0@ == k;
    if i < j {
        assert(s[i].0@ != s[j].0@);
    } else if j < i {
        assert(s[j].0@ != s[i].0@);
    }
}

proof fn lemma_tracker_updated_distinct(
    s: Seq<(String, AccessInfo)>,
    fe: Seq<(String, AccessInfo)>,
    k: Seq<char>,
    now: u64,
)
    requires
        tr_distinct(s),
        tracker_updated(s, fe, k, now),
    ensures
        tr_distinct(fe),
{
    if tr_has(s, k) {
        let i = tr_index(s, k);
        let j0 = choose|j: int| 0 <= j < s.len() && (#[trigger] s[j]).0@ == k;
        assert(s[j0].0@ == k);
        assert forall|a: int, b: int|
            0 <= a < b < fe.len() implies (#[trigger] fe[a]).0@ != (#[trigger] fe[b]).0@ by {
            assert(fe[a].0@ == s[a].0@);
            assert(fe[b].0@ == s[b].0@);
        }
    } else {
        assert forall|a: int, b: int|
            0 <= a < b < fe.len() implies (#[trigger] fe[a]).0@ != (#[trigger] fe[b]).0@ by {
            if b < s.len() {
                assert(fe[a] == s[a] && fe[b] == s[b]);
            } else {
                assert(fe[a] == s[a]);
                assert(fe[b] == fe.last());
                if s[a].0@ == k {
                    assert(tr_has(s, k));
                }
            }
        }
    }
}

// ---------------------------------------------------------------------------
// The hybrid engine
// ---------------------------------------------------------------------------

/// One step of a hybrid lookup: a memory hit with the bytes, a disk file
/// for the caller to read (with expired files to delete), or a full miss
/// (with expired files to delete).
pub enum HybridGetStep {
    Hit(Vec<u8>),
    ReadDisk(String, Vec<String>),
    Miss(Vec<String>),
}

/// The two-tier engine: a bounded memory LRU in front of the bounded
/// disk index, a per-key access tracker, and a self-rate-limited
/// maintenance pass that promotes hot keys and demotes idle ones. The
/// engine decides; the caller performs the file reads, writes and
/// deletes it asks for, and supplies every instant in milliseconds.
pub struct HybridCache {
    pub memory_cache: LruMemoryCache,
    pub disk_cache: DiskIndex,
    pub access_tracker: Vec<(String, AccessInfo)>,
    pub config: HybridCacheConfig,
    pub last_maintenance_ms: u64,
}

impl HybridCache {
    pub open spec fn wf(&self) -> bool {
        &&& self.memory_cache.wf()
        &&& self.disk_cache.wf()
        &&& tr_distinct(self.access_tracker@)
        &&& self.memory_cache.spec_ttl_ms() == self.config.ttl_ms
        &&& self.memory_cache.spec_max_size() == self.config.memory_size
        &&& self.disk_cache.ttl_ms == self.config.ttl_ms
        &&& self.disk_cache.max_size_bytes == self.config.disk_size
        &&& self.disk_cache.cache_dir@ == self.config.disk_dir@
    }

    /// Builds the engine from its configuration; the caller creates the
    /// disk directory itself.
    pub fn new(config: HybridCacheConfig, now_ms: u64) -> (r: Self)
        ensures
            r.wf(),
            r.memory_cache.entries() == Seq::<(Seq<char>, Seq<u8>, u64)>::empty(),
            r.disk_cache.entries@ == Seq::<(String, DiskEntryMeta)>::empty(),
            r.access_tracker@ == Seq::<(String, AccessInfo)>::empty(),
            r.config == config,
            r.last_maintenance_ms == now_ms,
    {
        let memory_cache = LruMemoryCache::with_ttl(config.memory_size, config.ttl_ms);
        let disk_cache = DiskIndex::new(config.disk_dir.clone(), config.disk_size, config.ttl_ms);
        HybridCache {
            memory_cache,
            disk_cache,
            access_tracker: Vec::new(),
            config,
            last_maintenance_ms: now_ms,
        }
    }

    /// Builds the engine with the default configuration over the given
    /// disk directory.
    pub fn with_default_config(disk_dir: String, now_ms: u64) -> (r: Self)
        ensures
            r.wf(),
            r.config.disk_dir == disk_dir,
            r.config.memory_size == 64 * 1024 * 1024,
            r.memory_cache.entries() == Seq::<(Seq<char>, Seq<u8>, u64)>::empty(),
            r.disk_cache.entries@ == Seq::<(String, DiskEntryMeta)>::empty(),
            r.access_tracker@ == Seq::<(String, AccessInfo)>::empty(),
    {
        let mut config = HybridCacheConfig::default();
        config.disk_dir = disk_dir;
        Self::new(config, now_ms)
    }

    /// The engine's configuration.
    pub fn config(&self) -> (r: &HybridCacheConfig)
        ensures
            r == self.config,
    {
        &self.config
    }

    /// Records one access to a key in the tracker.
    fn track_access(&mut self, key: &String, now_ms: u64)
        requires
            old(self).wf(),
        ensures
            final(self).wf(),
            tracker_updated(old(self).access_tracker@, final(self).access_tracker@, key@, now_ms),
            final(self).memory_cache == old(self).memory_cache,
            final(self).disk_cache == old(self).disk_cache,
            final(self).config == old(self).config,
            final(self).last_maintenance_ms == old(self).last_maintenance_ms,
    {
        let ghost s0 = self.access_tracker@;
        let n = self.access_tracker.len();
        let mut j: usize = 0;
        while j < n
            invariant
                0 <= j <= n,
                n == s0.len(),
                self.access_tracker@ == s0,
                s0 == old(self).access_tracker@,
                tr_distinct(s0),
                forall|t: int| 0 <= t < j ==> (#[trigger] s0[t]).0@ != key@,
                self.memory_cache == old(self).memory_cache,
                self.disk_cache == old(self).disk_cache,
                self.config == old(self).config,
                self.last_maintenance_ms == old(self).last_maintenance_ms,
                old(self).wf(),
            decreases n - j,
        {
            if self.access_tracker[j].0 == *key {
                proof {
                    lemma_tr_index_unique(s0, key@, j as int);
                }
                let k0 = self.access_tracker[j].0.clone();
                let mut info = self.access_tracker[j].1;
                info.update_access(now_ms);
                self.access_tracker[j] = (k0, info);
                proof {
                    assert(self.access_tracker@ =~= s0.update(j as int, self.access_tracker@[
                    j as int]));
                    assert(tracker_updated(s0, self.access_tracker@, key@, now_ms));
                    lemma_tracker_updated_distinct(s0, self.access_tracker@, key@, now_ms);
                }
                return ;
            }
            j = j + 1;
        }
        proof {
            assert(!tr_has(s0, key@)) by {
                if tr_has(s0, key@) {
                    let t = choose|t: int| 0 <= t < s0.len() && (#[trigger] s0[t]).0@ == key@;
                    assert(s0[t].0@ != key@);
                }
            }
        }
        self.access_tracker.push((key.clone(), AccessInfo::new(now_ms)));
        proof {
            assert(self.access_tracker@.drop_last() =~= s0);
            assert(tracker_updated(s0, self.access_tracker@, key@, now_ms));
            lemma_tracker_updated_distinct(s0, self.access_tracker@, key@, now_ms);
        }
    }

    /// The tracked per-key statistics: access count and frequency in
    /// thousandths of an access per second.
    pub fn access_stats(&self) -> (r: Vec<(String, (u64, u64))>)
        requires
            self.wf(),
        ensures
            r@.len() == self.access_tracker@.len(),
            forall|i: int|
                0 <= i < r@.len() ==> (#[trigger] r@[i]).0@ == self.access_tracker@[i].0@
                    && r@[i].1.0 == self.access_tracker@[i].1.count && r@[i].1.1
                    == self.access_tracker@[i].1.spec_frequency_millis(),
    {
        let mut r: Vec<(String, (u64, u64))> = Vec::new();
        let n = self.access_tracker.len();
        let mut i: usize = 0;
        while i < n
            invariant
                0 <= i <= n,
                n == self.access_tracker@.len(),
                r@.len() == i,
                forall|t: int|
                    0 <= t < i ==> (#[trigger] r@[t]).0@ == self.access_tracker@[t].0@
                        && r@[t].1.0 == self.access_tracker@[t].1.count && r@[t].1.1
                        == self.access_tracker@[t].1.spec_frequency_millis(),
            decreases n - i,
        {
            let k = self.access_tracker[i].0.clone();
            let info = self.access_tracker[i].1;
            let f = info.frequency_millis();
            r.push((k, (info.count, f)));
            i = i + 1;
        }
        r
    }

    /// The engine's byte total: memory plus disk, physical bytes (a
    /// value held in both tiers counts twice), saturating at the top.
    pub fn size(&self) -> (r: usize)
        requires
            self.wf(),
        ensures
            r == crate::stats::sat_add_usize(
                crate::memory::sum_sizes(self.memory_cache.entries()),
                dk_sum(self.disk_cache.entries@),
            ),
    {
        let m = self.memory_cache.size();
        let d = self.disk_cache.size();
        if m <= usize::MAX - d {
            m + d
        } else {
            usize::MAX
        }
    }

    /// A snapshot of the combined counters. Hits and misses sum both
    /// tiers; the entry count is the disk tier's, the authoritative one,
    /// since every key is persisted; the byte total is physical bytes
    /// over both tiers.
    pub fn stats(&self) -> (r: CacheStats)
        requires
            self.wf(),
        ensures
            r.hits == crate::stats::sat_add_u64(
                self.memory_cache.spec_hits(),
                self.disk_cache.hits,
            ),
            r.misses == crate::stats::sat_add_u64(
                self.memory_cache.spec_misses(),
                self.disk_cache.misses,
            ),
            r.size_bytes == crate::stats::sat_add_usize(
                crate::memory::sum_sizes(self.memory_cache.entries()),
                dk_sum(self.disk_cache.entries@),
            ),
            r.entry_count == self.disk_cache.entries@.len(),
    {
        let m = self.memory_cache.stats();
        let d = self.disk_cache.stats();
        let hits = if m.hits <= u64::MAX - d.hits {
            m.hits + d.hits
        } else {
            u64::MAX
        };
        let misses = if m.misses <= u64::MAX - d.misses {
            m.misses + d.misses
        } else {
            u64::MAX
        };
        let size_bytes = if m.size_bytes <= usize::MAX - d.size_bytes {
            m.size_bytes + d.size_bytes
        } else {
            usize::MAX
        };
        CacheStats { hits, misses, size_bytes, entry_count: d.entry_count }
    }
}

/// How marking a key promoted changes the tracker: the record, if any,
/// gets the promotion instant; nothing else moves.
pub open spec fn tracker_promoted(
    s: Seq<(String, AccessInfo)>,
    fe: Seq<(String, AccessInfo)>,
    k: Seq<char>,
    now: u64,
) -> bool {
    if tr_has(s, k) {
        let i = tr_index(s, k);
        fe == s.update(
            i,
            (
                s[i].0,
                (AccessInfo {
                    count: s[i].1.count,
                    last_access_ms: s[i].1.last_access_ms,
                    promoted_at_ms: Some(now),
                }),
            ),
        )
    } else {
        fe == s
    }
}

/// The tracker with any record under key `k` dropped.
pub open spec fn tr_remove_key(s: Seq<(String, AccessInfo)>, k: Seq<char>) -> Seq<
    (String, AccessInfo),
> {
    if tr_has(s, k) {
        s.remove(tr_index(s, k))
    } else {
        s
    }
}

/// The tracker records still young enough to keep: those not idle
/// longer than `thr2` milliseconds at `now`.
pub open spec fn tr_prune(s: Seq<(String, AccessInfo)>, thr2: int, now: u64) -> Seq<
    (String, AccessInfo),
>
    decreases s.len(),
{
    if s.len() == 0 {
        s
    } else {
        (if now > s[0].1.last_access_ms + thr2 {
            Seq::<(String, AccessInfo)>::empty()
        } else {
            seq![s[0]]
        }) + tr_prune(s.skip(1), thr2, now)
    }
}

proof fn lemma_tr_prune_has(s: Seq<(String, AccessInfo)>, thr2: int, now: u64, k: Seq<char>)
    ensures
        tr_has(tr_prune(s, thr2, now), k) ==> tr_has(s, k),
    decreases s.len(),
{
    let p = tr_prune(s, thr2, now);
    if s.len() > 0 && tr_has(p, k) {
        lemma_tr_prune_has(s.skip(1), thr2, now, k);
        let j = choose|j: int| 0 <= j < p.len() && (#[trigger] p[j]).0@ == k;
        let head = if now > s[0].1.last_access_ms + thr2 {
            Seq::<(String, AccessInfo)>::empty()
        } else {
            seq![s[0]]
        };
        if j < head.len() {
            assert(p[j] == s[0]);
            assert(s[0].0@ == k);
        } else {
            assert(p[j] == tr_prune(s.skip(1), thr2, now)[j - head.len()]);
            assert(tr_has(tr_prune(s.skip(1), thr2, now), k));
            let j2 = choose|j2: int|
                0 <= j2 < s.skip(1).len() && (#[trigger] s.skip(1)[j2]).0@ == k;
            assert(s[j2 + 1].0@ == k);
        }
    }
}

proof fn lemma_tr_prune_distinct(s: Seq<(String, AccessInfo)>, thr2: int, now: u64)
    requires
        tr_distinct(s),
    ensures
        tr_distinct(tr_prune(s, thr2, now)),
    decreases s.len(),
{
    if s.len() > 0 {
        assert forall|a: int, b: int|
            0 <= a < b < s.skip(1).len() implies (#[trigger] s.skip(1)[a]).0@ != (
        #[trigger] s.skip(1)[b]).0@ by {
            assert(s.skip(1)[a] == s[a + 1] && s.skip(1)[b] == s[b + 1]);
        }
        lemma_tr_prune_distinct(s.skip(1), thr2, now);
        let p = tr_prune(s, thr2, now);
        let tail = tr_prune(s.skip(1), thr2, now);
        if now > s[0].1.last_access_ms + thr2 {
            assert(p =~= tail);
        } else {
            assert forall|a: int, b: int|
                0 <= a < b < p.len() implies (#[trigger] p[a]).0@ != (#[trigger] p[b]).0@ by {
                if a == 0 {
                    assert(p[b] == tail[b - 1]);
                    if p[b].0@ == s[0].0@ {
                        assert(tr_has(tail, s[0].0@));
                        lemma_tr_prune_has(s.skip(1), thr2, now, s[0].0@);
                        let j = choose|j: int|
                            0 <= j < s.skip(1).len() && (#[trigger] s.skip(1)[j]).0@ == s[0].0@;
                        assert(s[j + 1].0@ == s[0].0@);
                    }
                } else {
                    assert(p[a] == tail[a - 1] && p[b] == tail[b - 1]);
                }
            }
        }
    }
}

/// A key ripe for promotion: tracked frequency at the threshold, not in
/// memory, present and unexpired on disk.
pub open spec fn promo_cond(
    e: (String, AccessInfo),
    live_m: Seq<(Seq<char>, Seq<u8>, u64)>,
    de: Seq<(String, DiskEntryMeta)>,
    ttl: Option<u64>,
    thr: u64,
    now: u64,
) -> bool {
    &&& e.1.spec_freq_at_least(thr)
    &&& !has_key(live_m, e.0@)
    &&& dk_has(de, e.0@)
    &&& !is_expired_at(ttl, de[dk_index(de, e.0@)].1.created_ms, now)
}

/// The tracker keys ripe for promotion, in tracker order.
pub open spec fn promo_keys(
    tr: Seq<(String, AccessInfo)>,
    live_m: Seq<(Seq<char>, Seq<u8>, u64)>,
    de: Seq<(String, DiskEntryMeta)>,
    ttl: Option<u64>,
    thr: u64,
    now: u64,
) -> Seq<Seq<char>>
    decreases tr.len(),
{
    if tr.len() == 0 {
        Seq::<Seq<char>>::empty()
    } else {
        (if promo_cond(tr[0], live_m, de, ttl, thr, now) {
            seq![tr[0].0@]
        } else {
            Seq::<Seq<char>>::empty()
        }) + promo_keys(tr.skip(1), live_m, de, ttl, thr, now)
    }
}

proof fn lemma_promo_keys_push(
    tr: Seq<(String, AccessInfo)>,
    e: (String, AccessInfo),
    live_m: Seq<(Seq<char>, Seq<u8>, u64)>,
    de: Seq<(String, DiskEntryMeta)>,
    ttl: Option<u64>,
    thr: u64,
    now: u64,
)
    ensures
        promo_keys(tr.push(e), live_m, de, ttl, thr, now) =~= promo_keys(
            tr,
            live_m,
            de,
            ttl,
            thr,
            now,
        ) + (if promo_cond(e, live_m, de, ttl, thr, now) {
            seq![e.0@]
        } else {
            Seq::<Seq<char>>::empty()
        }),
    decreases tr.len(),
{
    if tr.len() == 0 {
        assert(tr.push(e)[0] == e);
        assert(tr.push(e).skip(1) =~= Seq::<(String, AccessInfo)>::empty());
        assert(promo_keys(Seq::<(String, AccessInfo)>::empty(), live_m, de, ttl, thr, now)
            == Seq::<Seq<char>>::empty());
        assert(tr.push(e).len() == 1);
    } else {
        assert(tr.push(e).skip(1) =~= tr.skip(1).push(e));
        assert(tr.push(e)[0] == tr[0]);
        lemma_promo_keys_push(tr.skip(1), e, live_m, de, ttl, thr, now);
    }
}

/// A key ripe for demotion: below the promotion frequency, idle beyond
/// the demotion threshold, and still held in memory.
pub open spec fn demo_cond(
    e: (String, AccessInfo),
    live_m: Seq<(Seq<char>, Seq<u8>, u64)>,
    thr: u64,
    dth: u64,
    now: u64,
) -> bool {
    &&& !e.1.spec_freq_at_least(thr)
    &&& now > e.1.last_access_ms + dth
    &&& has_key(live_m, e.0@)
}

/// The tracker keys ripe for demotion, in tracker order.
pub open spec fn demo_keys(
    tr: Seq<(String, AccessInfo)>,
    live_m: Seq<(Seq<char>, Seq<u8>, u64)>,
    thr: u64,
    dth: u64,
    now: u64,
) -> Seq<Seq<char>>
    decreases tr.len(),
{
    if tr.len() == 0 {
        Seq::<Seq<char>>::empty()
    } else {
        (if demo_cond(tr[0], live_m, thr, dth, now) {
            seq![tr[0].0@]
        } else {
            Seq::<Seq<char>>::empty()
        }) + demo_keys(tr.skip(1), live_m, thr, dth, now)
    }
}

proof fn lemma_demo_keys_push(
    tr: Seq<(String, AccessInfo)>,
    e: (String, AccessInfo),
    live_m: Seq<(Seq<char>, Seq<u8>, u64)>,
    thr: u64,
    dth: u64,
    now: u64,
)
    ensures
        demo_keys(tr.push(e), live_m, thr, dth, now) =~= demo_keys(tr, live_m, thr, dth, now) + (
        if demo_cond(e, live_m, thr, dth, now) {
            seq![e.0@]
        } else {
            Seq::<Seq<char>>::empty()
        }),
    decreases tr.len(),
{
    if tr.len() == 0 {
        assert(tr.push(e)[0] == e);
        assert(tr.push(e).skip(1) =~= Seq::<(String, AccessInfo)>::empty());
        assert(demo_keys(Seq::<(String, AccessInfo)>::empty(), live_m, thr, dth, now)
            == Seq::<Seq<char>>::empty());
        assert(tr.push(e).len() == 1);
    } else {
        assert(tr.push(e).skip(1) =~= tr.skip(1).push(e));
        assert(tr.push(e)[0] == tr[0]);
        lemma_demo_keys_push(tr.skip(1), e, live_m, thr, dth, now);
    }
}

impl HybridCache {
    /// Looks the tracker up for a key's record.
    fn tracker_lookup(&self, key: &String) -> (r: Option<AccessInfo>)
        requires
            tr_distinct(self.access_tracker@),
        ensures
            ({
                let s = self.access_tracker@;
                if tr_has(s, key@) {
                    r == Some(s[tr_index(s, key@)].1)
                } else {
                    r is None
                }
            }),
    {
        let ghost s0 = self.access_tracker@;
        let n = self.access_tracker.len();
        let mut j: usize = 0;
        while j < n
            invariant
                0 <= j <= n,
                n == s0.len(),
                self.access_tracker@ == s0,
                tr_distinct(s0),
                forall|t: int| 0 <= t < j ==> (#[trigger] s0[t]).0@ != key@,
            decreases n - j,
        {
            if self.access_tracker[j].0 == *key {
                proof {
                    lemma_tr_index_unique(s0, key@, j as int);
                }
                return Some(self.access_tracker[j].1);
            }
            j = j + 1;
        }
        proof {
            assert(!tr_has(s0, key@)) by {
                if tr_has(s0, key@) {
                    let t = choose|t: int| 0 <= t < s0.len() && (#[trigger] s0[t]).0@ == key@;
                    assert(s0[t].0@ != key@);
                }
            }
        }
        None
    }

    /// Marks the key's tracker record as promoted now.
    fn tracker_mark_promoted(&mut self, key: &String, now_ms: u64)
        requires
            old(self).wf(),
        ensures
            final(self).wf(),
            tracker_promoted(old(self).access_tracker@, final(self).access_tracker@, key@, now_ms),
            final(self).memory_cache == old(self).memory_cache,
            final(self).disk_cache == old(self).disk_cache,
            final(self).config == old(self).config,
            final(self).last_maintenance_ms == old(self).last_maintenance_ms,
    {
        let ghost s0 = self.access_tracker@;
        let n = self.access_tracker.len();
        let mut j: usize = 0;
        while j < n
            invariant
                0 <= j <= n,
                n == s0.len(),
                self.access_tracker@ == s0,
                s0 == old(self).access_tracker@,
                tr_distinct(s0),
                forall|t: int| 0 <= t < j ==> (#[trigger] s0[t]).0@ != key@,
                self.memory_cache == old(self).memory_cache,
                self.disk_cache == old(self).disk_cache,
                self.config == old(self).config,
                self.last_maintenance_ms == old(self).last_maintenance_ms,
                old(self).wf(),
            decreases n - j,
        {
            if self.access_tracker[j].0 == *key {
                proof {
                    lemma_tr_index_unique(s0, key@, j as int);
                }
                let k0 = self.access_tracker[j].0.clone();
                let mut info = self.access_tracker[j].1;
                info.mark_promoted(now_ms);
                self.access_tracker[j] = (k0, info);
                proof {
                    assert(self.access_tracker@ =~= s0.update(j as int, self.access_tracker@[
                    j as int]));
                    assert(tracker_promoted(s0, self.access_tracker@, key@, now_ms));
                    assert forall|a: int, b: int|
                        0 <= a < b < self.access_tracker@.len() implies (
                    #[trigger] self.access_tracker@[a]).0@ != (
                    #[trigger] self.access_tracker@[b]).0@ by {
                        assert(self.access_tracker@[a].0@ == s0[a].0@);
                        assert(self.access_tracker@[b].0@ == s0[b].0@);
                    }
                }
                return ;
            }
            j = j + 1;
        }
        proof {
            assert(!tr_has(s0, key@)) by {
                if tr_has(s0, key@) {
                    let t = choose|t: int| 0 <= t < s0.len() && (#[trigger] s0[t]).0@ == key@;
                    assert(s0[t].0@ != key@);
                }
            }
        }
    }

    /// The read path, first step: records the access, serves a memory
    /// hit directly, or asks the caller to read the disk file (handing
    /// over any expired files to delete); a full miss is already counted
    /// in both tiers.
    pub fn get_step(&mut self, key: &String, now_ms: u64) -> (r: HybridGetStep)
        requires
            old(self).wf(),
        ensures
            final(self).wf(),
            tracker_updated(old(self).access_tracker@, final(self).access_tracker@, key@, now_ms),
            final(self).config == old(self).config,
            final(self).last_maintenance_ms == old(self).last_maintenance_ms,
            ({
                let live_m = live_entries(
                    old(self).memory_cache.entries(),
                    old(self).config.ttl_ms,
                    now_ms,
                );
                let live_d = dk_live(old(self).disk_cache.entries@, old(self).config.ttl_ms, now_ms);
                let fm = final(self).memory_cache;
                let fd = final(self).disk_cache;
                match r {
                    HybridGetStep::Hit(v) => {
                        let i = key_index(live_m, key@);
                        &&& has_key(live_m, key@)
                        &&& fd == old(self).disk_cache
                        &&& v@ == live_m[i].1
                        &&& fm.entries() == live_m.remove(i).push(live_m[i])
                        &&& fm.spec_hits() == inc64(old(self).memory_cache.spec_hits())
                        &&& fm.spec_misses() == old(self).memory_cache.spec_misses()
                    },
                    HybridGetStep::ReadDisk(p, ex) => {
                        let i = dk_index(live_d, key@);
                        &&& crate::codec::str_views(ex@) == crate::disk::dk_expired_paths(
                            old(self).disk_cache.entries@,
                            old(self).config.ttl_ms,
                            now_ms,
                        )
                        &&& !has_key(live_m, key@)
                        &&& fm.entries() == live_m
                        &&& fm.spec_misses() == inc64(old(self).memory_cache.spec_misses())
                        &&& fm.spec_hits() == old(self).memory_cache.spec_hits()
                        &&& dk_has(live_d, key@)
                        &&& p@ == live_d[i].1.path@
                        &&& fd.entries@.len() == live_d.len()
                        &&& forall|j: int| 0 <= j < live_d.len() && j != i ==> fd.entries@[j]
                            == live_d[j]
                        &&& fd.entries@[i].0 == live_d[i].0
                        &&& fd.entries@[i].1.path == live_d[i].1.path
                        &&& fd.entries@[i].1.size == live_d[i].1.size
                        &&& fd.entries@[i].1.created_ms == live_d[i].1.created_ms
                        &&& fd.entries@[i].1.last_accessed_ms == now_ms
                        &&& fd.hits == old(self).disk_cache.hits
                        &&& fd.misses == old(self).disk_cache.misses
                    },
                    HybridGetStep::Miss(ex) => {
                        &&& crate::codec::str_views(ex@) == crate::disk::dk_expired_paths(
                            old(self).disk_cache.entries@,
                            old(self).config.ttl_ms,
                            now_ms,
                        )
                        &&& !has_key(live_m, key@)
                        &&& fm.entries() == live_m
                        &&& fm.spec_misses() == inc64(old(self).memory_cache.spec_misses())
                        &&& fm.spec_hits() == old(self).memory_cache.spec_hits()
                        &&& !dk_has(live_d, key@)
                        &&& fd.entries@ == live_d
                        &&& fd.misses == inc64(old(self).disk_cache.misses)
                        &&& fd.hits == old(self).disk_cache.hits
                    },
                }
            }),
    {
        self.track_access(key, now_ms);
        if let Some(v) = self.memory_cache.get(key, now_ms) {
            return HybridGetStep::Hit(v);
        }
        let (expired, step) = self.disk_cache.get_begin(key, now_ms);
        match step {
            DiskGetStep::Read(p) => HybridGetStep::ReadDisk(p, expired),
            DiskGetStep::Miss => HybridGetStep::Miss(expired),
        }
    }

    /// The read path, second step, after the caller read the disk file
    /// (or failed to): a successful read counts the disk hit and, when
    /// the key's tracked frequency reaches the promotion threshold,
    /// copies the value into memory best-effort; a failed read drops the
    /// entry and counts a miss.
    pub fn get_disk_result(&mut self, key: &String, data: Option<Vec<u8>>, now_ms: u64) -> (r:
        Option<Vec<u8>>)
        requires
            old(self).wf(),
        ensures
            final(self).wf(),
            final(self).config == old(self).config,
            final(self).last_maintenance_ms == old(self).last_maintenance_ms,
            ({
                let fm = final(self).memory_cache;
                let fd = final(self).disk_cache;
                let tr = old(self).access_tracker@;
                match data {
                    Some(v) => {
                        let promote = tr_has(tr, key@) && tr[tr_index(tr, key@)].1.spec_freq_at_least(
                            old(self).config.promotion_threshold_millis,
                        );
                        &&& r matches Some(rv) && rv@ == v@
                        &&& fd.entries@ == old(self).disk_cache.entries@
                        &&& fd.hits == inc64(old(self).disk_cache.hits)
                        &&& fd.misses == old(self).disk_cache.misses
                        &&& if promote {
                            if v@.len() <= old(self).config.memory_size {
                                &&& fm.entries() == evict_to_fit(
                                    remove_key(old(self).memory_cache.entries(), key@),
                                    v@.len() as int,
                                    old(self).config.memory_size as int,
                                ).push((key@, v@, now_ms))
                                &&& tracker_promoted(
                                    tr,
                                    final(self).access_tracker@,
                                    key@,
                                    now_ms,
                                )
                            } else {
                                &&& fm.entries() == Seq::<(Seq<char>, Seq<u8>, u64)>::empty()
                                &&& final(self).access_tracker@ == tr
                            }
                        } else {
                            &&& fm == old(self).memory_cache
                            &&& final(self).access_tracker@ == tr
                        }
                    },
                    None => {
                        &&& r is None
                        &&& fd.entries@ == dk_remove_key(old(self).disk_cache.entries@, key@)
                        &&& fd.misses == inc64(old(self).disk_cache.misses)
                        &&& fd.hits == old(self).disk_cache.hits
                        &&& fm == old(self).memory_cache
                        &&& final(self).access_tracker@ == tr
                    },
                }
            }),
    {
        let ret = self.disk_cache.get_finish(key, data);
        if let Some(d) = &ret {
            let promote = match self.tracker_lookup(key) {
                Some(info) => info.frequency_at_least(self.config.promotion_threshold_millis),
                None => false,
            };
            if promote {
                let outcome = self.memory_cache.set(key, d.clone(), now_ms);
                if outcome.is_ok() {
                    self.tracker_mark_promoted(key, now_ms);
                }
            }
        }
        ret
    }

    /// The write path, first step: records the access and prepares the
    /// disk store — evictions and the path to write. `CacheFull` means
    /// the value exceeds the whole disk bound, which no eviction could
    /// ever cure.
    pub fn set_begin(&mut self, key: &String, value_len: usize, now_ms: u64) -> (r: (
        Vec<String>,
        Result<String, CacheError>,
    ))
        requires
            old(self).wf(),
        ensures
            final(self).wf(),
            tracker_updated(old(self).access_tracker@, final(self).access_tracker@, key@, now_ms),
            final(self).memory_cache == old(self).memory_cache,
            final(self).config == old(self).config,
            final(self).last_maintenance_ms == old(self).last_maintenance_ms,
            final(self).disk_cache.hits == old(self).disk_cache.hits,
            final(self).disk_cache.misses == old(self).disk_cache.misses,
            crate::codec::str_views(r.0@) == crate::disk::dk_evict_paths(
                old(self).disk_cache.entries@,
                value_len as int,
                old(self).config.disk_size,
            ),
            final(self).disk_cache.entries@ == crate::disk::dk_evict_to_fit(
                old(self).disk_cache.entries@,
                value_len as int,
                old(self).config.disk_size,
            ),
            ({
                let fd = final(self).disk_cache;
                match r.1 {
                    Ok(p) => {
                        &&& (old(self).config.disk_size matches Some(mx) ==> dk_sum(fd.entries@)
                            + value_len <= mx)
                        &&& p@ == spec_key_path(old(self).config.disk_dir@, key@)
                    },
                    Err(e) => {
                        &&& e == CacheError::CacheFull
                        &&& old(self).config.disk_size matches Some(mx) && value_len > mx
                        &&& fd.entries@.len() == 0
                    },
                }
            }),
    {
        self.track_access(key, now_ms);
        self.disk_cache.set_begin(key, value_len, now_ms)
    }

    /// The write path, second step, after the caller wrote the file: the
    /// disk index records the entry, and the value also lands in memory
    /// when the key's tracked frequency reaches the promotion threshold
    /// — which a freshly tracked key always does over its default
    /// one-second window — or when the key is not tracked at all.
    pub fn set_commit(&mut self, key: &String, value: Vec<u8>, now_ms: u64) -> (r: Result<
        (),
        CacheError,
    >)
        requires
            old(self).wf(),
            dk_sum(dk_remove_key(old(self).disk_cache.entries@, key@)) + value@.len()
                <= usize::MAX,
        ensures
            final(self).wf(),
            r is Ok,
            final(self).access_tracker@ == old(self).access_tracker@,
            final(self).config == old(self).config,
            final(self).last_maintenance_ms == old(self).last_maintenance_ms,
            ({
                let s1 = dk_remove_key(old(self).disk_cache.entries@, key@);
                let fe = final(self).disk_cache.entries@;
                &&& fe.len() == s1.len() + 1
                &&& fe.drop_last() == s1
                &&& fe.last().0@ == key@
                &&& fe.last().1.size == value@.len()
                &&& fe.last().1.created_ms == now_ms
                &&& fe.last().1.last_accessed_ms == now_ms
            }),
            ({
                let tr = old(self).access_tracker@;
                let in_memory = !tr_has(tr, key@) || tr[tr_index(tr, key@)].1.spec_freq_at_least(
                    old(self).config.promotion_threshold_millis,
                );
                let fm = final(self).memory_cache;
                if in_memory {
                    if value@.len() <= old(self).config.memory_size {
                        fm.entries() == evict_to_fit(
                            remove_key(old(self).memory_cache.entries(), key@),
                            value@.len() as int,
                            old(self).config.memory_size as int,
                        ).push((key@, value@, now_ms))
                    } else {
                        fm.entries() == Seq::<(Seq<char>, Seq<u8>, u64)>::empty()
                    }
                } else {
                    fm == old(self).memory_cache
                }
            }),
    {
        let vlen = value.len();
        self.disk_cache.set_commit(key, vlen, now_ms);
        let in_memory = match self.tracker_lookup(key) {
            Some(info) => info.frequency_at_least(self.config.promotion_threshold_millis),
            None => true,
        };
        if in_memory {
            let _ = self.memory_cache.set(key, value, now_ms);
        }
        Ok(())
    }

    /// Removes a key from both tiers and the tracker; the returned path,
    /// if any, is the disk file for the caller to delete.
    pub fn remove(&mut self, key: &String) -> (r: (Option<String>, Result<(), CacheError>))
        requires
            old(self).wf(),
        ensures
            final(self).wf(),
            r.1 is Ok,
            final(self).memory_cache.entries() == remove_key(
                old(self).memory_cache.entries(),
                key@,
            ),
            final(self).disk_cache.entries@ == dk_remove_key(old(self).disk_cache.entries@, key@),
            final(self).access_tracker@ == tr_remove_key(old(self).access_tracker@, key@),
            final(self).config == old(self).config,
            final(self).last_maintenance_ms == old(self).last_maintenance_ms,
    {
        let _ = self.memory_cache.remove(key);
        let (path, _) = self.disk_cache.remove(key);
        let ghost s0 = self.access_tracker@;
        let n = self.access_tracker.len();
        let mut j: usize = 0;
        while j < n
            invariant
                0 <= j <= n,
                n == s0.len(),
                self.access_tracker@ == s0,
                s0 == old(self).access_tracker@,
                tr_distinct(s0),
                forall|t: int| 0 <= t < j ==> (#[trigger] s0[t]).0@ != key@,
                self.memory_cache.entries() == remove_key(
                    old(self).memory_cache.entries(),
                    key@,
                ),
                self.disk_cache.entries@ == dk_remove_key(old(self).disk_cache.entries@, key@),
                self.wf(),
                self.config == old(self).config,
                self.last_maintenance_ms == old(self).last_maintenance_ms,
                old(self).wf(),
            decreases n - j,
        {
            if self.access_tracker[j].0 == *key {
                proof {
                    lemma_tr_index_unique(s0, key@, j as int);
                }
                self.access_tracker.remove(j);
                proof {
                    let t = self.access_tracker@;
                    assert forall|a: int, b: int|
                        0 <= a < b < t.len() implies (#[trigger] t[a]).0@ != (
                    #[trigger] t[b]).0@ by {
                        let a0 = if a < j as int {
                            a
                        } else {
                            a + 1
                        };
                        let b0 = if b < j as int {
                            b
                        } else {
                            b + 1
                        };
                        assert(t[a] == s0[a0] && t[b] == s0[b0]);
                    }
                }
                return (path, Ok(()));
            }
            j = j + 1;
        }
        proof {
            assert(!tr_has(s0, key@)) by {
                if tr_has(s0, key@) {
                    let t = choose|t: int| 0 <= t < s0.len() && (#[trigger] s0[t]).0@ == key@;
                    assert(s0[t].0@ != key@);
                }
            }
        }
        (path, Ok(()))
    }

    /// Drops both tiers and the tracker; the returned paths are the disk
    /// files for the caller to delete.
    pub fn clear(&mut self) -> (r: (Vec<String>, Result<(), CacheError>))
        requires
            old(self).wf(),
        ensures
            final(self).wf(),
            r.1 is Ok,
            final(self).memory_cache.entries() == Seq::<(Seq<char>, Seq<u8>, u64)>::empty(),
            final(self).disk_cache.entries@ == Seq::<(String, DiskEntryMeta)>::empty(),
            final(self).access_tracker@ == Seq::<(String, AccessInfo)>::empty(),
            final(self).config == old(self).config,
    {
        let _ = self.memory_cache.clear();
        let (paths, _) = self.disk_cache.clear();
        self.access_tracker = Vec::new();
        (paths, Ok(()))
    }

    /// Whether enough time has passed since the last maintenance pass.
    pub fn maintenance_due(&self, now_ms: u64) -> (r: bool)
        ensures
            r == (if now_ms >= self.last_maintenance_ms {
                now_ms - self.last_maintenance_ms >= self.config.maintenance_interval_ms
            } else {
                self.config.maintenance_interval_ms == 0
            }),
    {
        if now_ms >= self.last_maintenance_ms {
            now_ms - self.last_maintenance_ms >= self.config.maintenance_interval_ms
        } else {
            self.config.maintenance_interval_ms == 0
        }
    }

    /// Marks a maintenance pass as started now.
    pub fn maintenance_start(&mut self, now_ms: u64)
        requires
            old(self).wf(),
        ensures
            final(self).wf(),
            final(self).last_maintenance_ms == now_ms,
            final(self).memory_cache == old(self).memory_cache,
            final(self).disk_cache == old(self).disk_cache,
            final(self).access_tracker@ == old(self).access_tracker@,
            final(self).config == old(self).config,
    {
        self.last_maintenance_ms = now_ms;
    }

    /// Collects the promotion candidates of one maintenance pass: keys
    /// whose tracked frequency reaches the threshold, which are not in
    /// memory, and whose entry lives unexpired on disk — paired with the
    /// file to read. Nothing is touched or counted.
    pub fn promotion_candidates(&self, now_ms: u64) -> (r: Vec<(String, String)>)
        requires
            self.wf(),
        ensures
            r@.map_values(|p: (String, String)| p.0@) == promo_keys(
                self.access_tracker@,
                live_entries(self.memory_cache.entries(), self.config.ttl_ms, now_ms),
                self.disk_cache.entries@,
                self.config.ttl_ms,
                self.config.promotion_threshold_millis,
                now_ms,
            ),
            forall|i: int|
                0 <= i < r@.len() ==> dk_has(self.disk_cache.entries@, (#[trigger] r@[i]).0@)
                    && r@[i].1@ == self.disk_cache.entries@[dk_index(
                    self.disk_cache.entries@,
                    r@[i].0@,
                )].1.path@,
    {
        let ghost tr = self.access_tracker@;
        let ghost live_m = live_entries(self.memory_cache.entries(), self.config.ttl_ms, now_ms);
        let ghost de = self.disk_cache.entries@;
        let ghost ttl = self.config.ttl_ms;
        let ghost thr = self.config.promotion_threshold_millis;
        let mut r: Vec<(String, String)> = Vec::new();
        let n = self.access_tracker.len();
        let mut t: usize = 0;
        proof {
            assert(tr.take(0) =~= Seq::<(String, AccessInfo)>::empty());
            assert(r@.map_values(|p: (String, String)| p.0@) =~= promo_keys(
                tr.take(0),
                live_m,
                de,
                ttl,
                thr,
                now_ms,
            ));
        }
        while t < n
            invariant
                0 <= t <= n,
                n == tr.len(),
                self.access_tracker@ == tr,
                self.wf(),
                live_m == live_entries(self.memory_cache.entries(), self.config.ttl_ms, now_ms),
                de == self.disk_cache.entries@,
                ttl == self.config.ttl_ms,
                thr == self.config.promotion_threshold_millis,
                r@.map_values(|p: (String, String)| p.0@) == promo_keys(
                    tr.take(t as int),
                    live_m,
                    de,
                    ttl,
                    thr,
                    now_ms,
                ),
                forall|i: int|
                    0 <= i < r@.len() ==> dk_has(de, (#[trigger] r@[i]).0@) && r@[i].1@
                        == de[dk_index(de, r@[i].0@)].1.path@,
            decreases n - t,
        {
            proof {
                assert(tr.take(t + 1).drop_last() =~= tr.take(t as int));
                assert(tr.take(t + 1) =~= tr.take(t as int).push(tr[t as int]));
                lemma_promo_keys_push(tr.take(t as int), tr[t as int], live_m, de, ttl, thr, now_ms);
            }
            let key = self.access_tracker[t].0.clone();
            let info = self.access_tracker[t].1;
            let mut pushed = false;
            if info.frequency_at_least(self.config.promotion_threshold_millis) {
                if !self.memory_cache.contains_live(&key, now_ms) {
                    if let Some(path) = self.disk_cache.peek_path(&key, now_ms) {
                        let ghost r0 = r@;
                        proof {
                            crate::disk::lemma_dk_index_props(de, key@);
                        }
                        r.push((key, path));
                        pushed = true;
                        proof {
                            assert(r@.map_values(|p: (String, String)| p.0@)
                                =~= r0.map_values(|p: (String, String)| p.0@).push(
                                tr[t as int].0@,
                            ));
                        }
                    }
                }
            }
            proof {
                if !pushed {
                    assert(!promo_cond(tr[t as int], live_m, de, ttl, thr, now_ms));
                } else {
                    assert(promo_cond(tr[t as int], live_m, de, ttl, thr, now_ms));
                }
            }
            t = t + 1;
        }
        proof {
            assert(tr.take(n as int) =~= tr);
        }
        r
    }

    /// Collects the demotion candidates of one maintenance pass: keys
    /// below the promotion frequency that have been idle beyond the
    /// demotion threshold and still sit in memory. Nothing is touched.
    pub fn demotion_candidates(&self, now_ms: u64) -> (r: Vec<String>)
        requires
            self.wf(),
        ensures
            crate::codec::str_views(r@) == demo_keys(
                self.access_tracker@,
                live_entries(self.memory_cache.entries(), self.config.ttl_ms, now_ms),
                self.config.promotion_threshold_millis,
                self.config.demotion_threshold_ms,
                now_ms,
            ),
    {
        let ghost tr = self.access_tracker@;
        let ghost live_m = live_entries(self.memory_cache.entries(), self.config.ttl_ms, now_ms);
        let ghost thr = self.config.promotion_threshold_millis;
        let ghost dth = self.config.demotion_threshold_ms;
        let mut r: Vec<String> = Vec::new();
        let n = self.access_tracker.len();
        let mut t: usize = 0;
        proof {
            assert(tr.take(0) =~= Seq::<(String, AccessInfo)>::empty());
            assert(crate::codec::str_views(r@) =~= demo_keys(
                tr.take(0),
                live_m,
                thr,
                dth,
                now_ms,
            ));
        }
        while t < n
            invariant
                0 <= t <= n,
                n == tr.len(),
                self.access_tracker@ == tr,
                self.wf(),
                live_m == live_entries(self.memory_cache.entries(), self.config.ttl_ms, now_ms),
                thr == self.config.promotion_threshold_millis,
                dth == self.config.demotion_threshold_ms,
                crate::codec::str_views(r@) == demo_keys(tr.take(t as int), live_m, thr, dth, now_ms),
            decreases n - t,
        {
            proof {
                assert(tr.take(t + 1).drop_last() =~= tr.take(t as int));
                assert(tr.take(t + 1) =~= tr.take(t as int).push(tr[t as int]));
                lemma_demo_keys_push(tr.take(t as int), tr[t as int], live_m, thr, dth, now_ms);
            }
            let key = self.access_tracker[t].0.clone();
            let info = self.access_tracker[t].1;
            let mut pushed = false;
            if !info.frequency_at_least(self.config.promotion_threshold_millis) {
                if info.should_demote(self.config.demotion_threshold_ms, now_ms) {
                    if self.memory_cache.contains_live(&key, now_ms) {
                        let ghost r0 = r@;
                        r.push(key);
                        pushed = true;
                        proof {
                            assert(crate::codec::str_views(r@) =~= crate::codec::str_views(
                                r0,
                            ).push(tr[t as int].0@));
                        }
                    }
                }
            }
            proof {
                if !pushed {
                    assert(!demo_cond(tr[t as int], live_m, thr, dth, now_ms));
                } else {
                    assert(demo_cond(tr[t as int], live_m, thr, dth, now_ms));
                }
            }
            t = t + 1;
        }
        proof {
            assert(tr.take(n as int) =~= tr);
        }
        r
    }

    /// Applies one promotion after the caller read the candidate's file:
    /// a successful read lands in memory best-effort, and a successful
    /// store marks the record promoted. A failed read changes nothing —
    /// the pass skips the key.
    pub fn apply_promotion(&mut self, key: &String, data: Option<Vec<u8>>, now_ms: u64)
        requires
            old(self).wf(),
        ensures
            final(self).wf(),
            final(self).disk_cache == old(self).disk_cache,
            final(self).config == old(self).config,
            final(self).last_maintenance_ms == old(self).last_maintenance_ms,
            ({
                let fm = final(self).memory_cache;
                match data {
                    Some(v) => if v@.len() <= old(self).config.memory_size {
                        &&& fm.entries() == evict_to_fit(
                            remove_key(old(self).memory_cache.entries(), key@),
                            v@.len() as int,
                            old(self).config.memory_size as int,
                        ).push((key@, v@, now_ms))
                        &&& tracker_promoted(
                            old(self).access_tracker@,
                            final(self).access_tracker@,
                            key@,
                            now_ms,
                        )
                    } else {
                        &&& fm.entries() == Seq::<(Seq<char>, Seq<u8>, u64)>::empty()
                        &&& final(self).access_tracker@ == old(self).access_tracker@
                    },
                    None => {
                        &&& fm == old(self).memory_cache
                        &&& final(self).access_tracker@ == old(self).access_tracker@
                    },
                }
            }),
    {
        if let Some(v) = data {
            let outcome = self.memory_cache.set(key, v, now_ms);
            if outcome.is_ok() {
                self.tracker_mark_promoted(key, now_ms);
            }
        }
    }

    /// Begins one demotion: reads the key's value from memory without
    /// touching it and prepares the disk store. The first component
    /// names the evicted files to delete. Nothing else comes back when
    /// the key is not in memory, or when the disk bound refuses the
    /// value (the disk index is then drained, as its eviction pass
    /// leaves it); the pass skips such a key.
    pub fn demote_begin(&mut self, key: &String, now_ms: u64) -> (r: (
        Vec<String>,
        Option<(Vec<u8>, String)>,
    ))
        requires
            old(self).wf(),
        ensures
            final(self).wf(),
            final(self).memory_cache == old(self).memory_cache,
            final(self).access_tracker@ == old(self).access_tracker@,
            final(self).config == old(self).config,
            final(self).last_maintenance_ms == old(self).last_maintenance_ms,
            final(self).disk_cache.hits == old(self).disk_cache.hits,
            final(self).disk_cache.misses == old(self).disk_cache.misses,
            ({
                let live_m = live_entries(
                    old(self).memory_cache.entries(),
                    old(self).config.ttl_ms,
                    now_ms,
                );
                let fd = final(self).disk_cache;
                if !has_key(live_m, key@) {
                    &&& r.1 is None
                    &&& r.0@.len() == 0
                    &&& fd == old(self).disk_cache
                } else {
                    let v = live_m[key_index(live_m, key@)].1;
                    &&& crate::codec::str_views(r.0@) == crate::disk::dk_evict_paths(
                        old(self).disk_cache.entries@,
                        v.len() as int,
                        old(self).config.disk_size,
                    )
                    &&& fd.entries@ == crate::disk::dk_evict_to_fit(
                        old(self).disk_cache.entries@,
                        v.len() as int,
                        old(self).config.disk_size,
                    )
                    &&& if old(self).config.disk_size matches Some(mx) && v.len() > mx {
                        &&& r.1 is None
                        &&& fd.entries@.len() == 0
                    } else {
                        r.1 matches Some(t) && t.0@ == v && t.1@ == spec_key_path(
                            old(self).config.disk_dir@,
                            key@,
                        )
                    }
                }
            }),
    {
        match self.memory_cache.peek_live(key, now_ms) {
            None => (Vec::new(), None),
            Some(v) => {
                let (paths, outcome) = self.disk_cache.set_begin(key, v.len(), now_ms);
                match outcome {
                    Ok(wpath) => (paths, Some((v, wpath))),
                    Err(_) => (paths, None),
                }
            },
        }
    }

    /// Completes one demotion after the caller wrote the file: the disk
    /// index records the entry and the key leaves memory.
    pub fn demote_commit(&mut self, key: &String, value_len: usize, now_ms: u64)
        requires
            old(self).wf(),
            dk_sum(dk_remove_key(old(self).disk_cache.entries@, key@)) + value_len <= usize::MAX,
        ensures
            final(self).wf(),
            final(self).memory_cache.entries() == remove_key(
                old(self).memory_cache.entries(),
                key@,
            ),
            final(self).access_tracker@ == old(self).access_tracker@,
            final(self).config == old(self).config,
            final(self).last_maintenance_ms == old(self).last_maintenance_ms,
            ({
                let s1 = dk_remove_key(old(self).disk_cache.entries@, key@);
                let fe = final(self).disk_cache.entries@;
                &&& fe.len() == s1.len() + 1
                &&& fe.drop_last() == s1
                &&& fe.last().0@ == key@
                &&& fe.last().1.size == value_len
                &&& fe.last().1.created_ms == now_ms
                &&& fe.last().1.last_accessed_ms == now_ms
            }),
    {
        self.disk_cache.set_commit(key, value_len, now_ms);
        let _ = self.memory_cache.remove(key);
    }

    /// Drops tracker records idle for more than twice the demotion
    /// threshold.
    pub fn maintenance_prune(&mut self, now_ms: u64)
        requires
            old(self).wf(),
        ensures
            final(self).wf(),
            final(self).access_tracker@ == tr_prune(
                old(self).access_tracker@,
                2 * old(self).config.demotion_threshold_ms,
                now_ms,
            ),
            final(self).memory_cache == old(self).memory_cache,
            final(self).disk_cache == old(self).disk_cache,
            final(self).config == old(self).config,
            final(self).last_maintenance_ms == old(self).last_maintenance_ms,
    {
        let ghost s0 = self.access_tracker@;
        let ghost thr2: int = 2 * self.config.demotion_threshold_ms as int;
        let mut kept: Vec<(String, AccessInfo)> = Vec::new();
        let n = self.access_tracker.len();
        let mut i: usize = 0;
        proof {
            assert(s0.take(0) =~= Seq::<(String, AccessInfo)>::empty());
            assert(kept@ =~= tr_prune(s0.take(0), thr2, now_ms));
        }
        while i < n
            invariant
                0 <= i <= n,
                n == s0.len(),
                self.access_tracker@ == s0,
                s0 == old(self).access_tracker@,
                thr2 == 2 * old(self).config.demotion_threshold_ms as int,
                self.config == old(self).config,
                kept@ == tr_prune(s0.take(i as int), thr2, now_ms),
                self.memory_cache == old(self).memory_cache,
                self.disk_cache == old(self).disk_cache,
                self.last_maintenance_ms == old(self).last_maintenance_ms,
                old(self).wf(),
            decreases n - i,
        {
            proof {
                assert(s0.take(i + 1).drop_last() =~= s0.take(i as int));
                assert(s0.take(i + 1) =~= s0.take(i as int).push(s0[i as int]));
                lemma_tr_prune_push(s0.take(i as int), s0[i as int], thr2, now_ms);
            }
            let last = self.access_tracker[i].1.last_access_ms;
            let over = (now_ms as u128) > (last as u128) + 2 * (
            self.config.demotion_threshold_ms as u128);
            proof {
                assert(over == (now_ms > s0[i as int].1.last_access_ms + thr2));
            }
            if !over {
                let ghost kept0 = kept@;
                let k0 = self.access_tracker[i].0.clone();
                let info = self.access_tracker[i].1;
                kept.push((k0, info));
                proof {
                    assert(kept@.last() == s0[i as int]);
                    assert(kept@ =~= kept0.push(s0[i as int]));
                }
            }
            i = i + 1;
        }
        proof {
            assert(s0.take(n as int) =~= s0);
            lemma_tr_prune_distinct(s0, thr2, now_ms);
        }
        self.access_tracker = kept;
    }
}

proof fn lemma_tr_prune_push(
    s: Seq<(String, AccessInfo)>,
    e: (String, AccessInfo),
    thr2: int,
    now: u64,
)
    ensures
        tr_prune(s.push(e), thr2, now) =~= tr_prune(s, thr2, now) + (
        if now > e.1.last_access_ms + thr2 {
            Seq::<(String, AccessInfo)>::empty()
        } else {
            seq![e]
        }),
    decreases s.len(),
{
    if s.len() == 0 {
        assert(s.push(e)[0] == e);
        assert(s.push(e).skip(1) =~= Seq::<(String, AccessInfo)>::empty());
        assert(tr_prune(Seq::<(String, AccessInfo)>::empty(), thr2, now)
            == Seq::<(String, AccessInfo)>::empty());
        assert(s.push(e).len() == 1);
    } else {
        assert(s.push(e).skip(1) =~= s.skip(1).push(e));
        assert(s.push(e)[0] == s[0]);
        lemma_tr_prune_push(s.skip(1), e, thr2, now);
    }
}

} // verus!
