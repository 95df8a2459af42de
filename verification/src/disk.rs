use vstd::prelude::*;
use vstd::string::*;
use crate::error::CacheError;
use crate::memory::inc64;
use crate::memory::is_expired_at;
use crate::stats::CacheStats;

verus! {

// ---------------------------------------------------------------------------
// Index entries
// ---------------------------------------------------------------------------

/// What the disk tier remembers about one stored file.
pub struct DiskEntryMeta {
    pub path: String,
    pub size: usize,
    pub created_ms: u64,
    pub last_accessed_ms: u64,
}

pub open spec fn dk_has(s: Seq<(String, DiskEntryMeta)>, k: Seq<char>) -> bool {
    exists|i: int| 0 <= i < s.len() && (#[trigger] s[i]).0@ == k
}

pub open spec fn dk_index(s: Seq<(String, DiskEntryMeta)>, k: Seq<char>) -> int {
    choose|i: int| 0 <= i < s.len() && (#[trigger] s[i]).0@ == k
}

pub open spec fn dk_distinct(s: Seq<(String, DiskEntryMeta)>) -> bool {
    forall|i: int, j: int|
        0 <= i < j < s.len() ==> (#[trigger] s[i]).0@ != (#[trigger] s[j]).0@
}

pub open spec fn dk_sum(s: Seq<(String, DiskEntryMeta)>) -> int
    decreases s.len(),
{
    if s.len() == 0 {
        0
    } else {
        s[0].1.size + dk_sum(s.skip(1))
    }
}

/// The index entries whose time-to-live has not run out, in unchanged
/// order; expiry is anchored at the creation instant.
pub open spec fn dk_live(
    s: Seq<(String, DiskEntryMeta)>,
    ttl: Option<u64>,
    now: u64,
) -> Seq<(String, DiskEntryMeta)>
    decreases s.len(),
{
    if s.len() == 0 {
        s
    } else {
        (if is_expired_at(ttl, s[0].1.created_ms, now) {
            Seq::<(String, DiskEntryMeta)>::empty()
        } else {
            seq![s[0]]
        }) + dk_live(s.skip(1), ttl, now)
    }
}

/// The file paths of the entries that expiry removes, in index order.
pub open spec fn dk_expired_paths(
    s: Seq<(String, DiskEntryMeta)>,
    ttl: Option<u64>,
    now: u64,
) -> Seq<Seq<char>>
    decreases s.len(),
{
    if s.len() == 0 {
        Seq::<Seq<char>>::empty()
    } else {
        (if is_expired_at(ttl, s[0].1.created_ms, now) {
            seq![s[0].1.path@]
        } else {
            Seq::<Seq<char>>::empty()
        }) + dk_expired_paths(s.skip(1), ttl, now)
    }
}

pub open spec fn dk_remove_key(s: Seq<(String, DiskEntryMeta)>, k: Seq<char>) -> Seq<
    (String, DiskEntryMeta),
> {
    if dk_has(s, k) {
        s.remove(dk_index(s, k))
    } else {
        s
    }
}

/// The index of the entry an eviction pass removes next: the first entry
/// with the least `last_accessed_ms`, scanned front to back with `best`
/// as the best candidate so far.
pub open spec fn victim_from(s: Seq<(String, DiskEntryMeta)>, i: int, best: int) -> int
    decreases s.len() - i,
{
    if i < 0 || i >= s.len() {
        best
    } else if 0 <= best < s.len() && s[i].1.last_accessed_ms < s[best].1.last_accessed_ms {
        victim_from(s, i + 1, i)
    } else {
        victim_from(s, i + 1, best)
    }
}

pub open spec fn victim_index(s: Seq<(String, DiskEntryMeta)>) -> int {
    victim_from(s, 1, 0)
}

proof fn lemma_victim_from_props(s: Seq<(String, DiskEntryMeta)>, i: int, best: int)
    requires
        s.len() >= 1,
        0 <= best < i <= s.len(),
        forall|j: int| 0 <= j < i ==> s[best].1.last_accessed_ms <= (#[trigger] s[j]).1.last_accessed_ms,
        forall|j: int| 0 <= j < best ==> (#[trigger] s[j]).1.last_accessed_ms > s[best].1.last_accessed_ms,
    ensures
        ({
            let v = victim_from(s, i, best);
            &&& 0 <= v < s.len()
            &&& forall|j: int|
                0 <= j < s.len() ==> s[v].1.last_accessed_ms <= (#[trigger] s[j]).1.last_accessed_ms
            &&& forall|j: int| 0 <= j < v ==> (#[trigger] s[j]).1.last_accessed_ms > s[v].1.last_accessed_ms
        }),
    decreases s.len() - i,
{
    if i < s.len() {
        if s[i].1.last_accessed_ms < s[best].1.last_accessed_ms {
            lemma_victim_from_props(s, i + 1, i);
        } else {
            lemma_victim_from_props(s, i + 1, best);
        }
    }
}

/// The first entry with the least last-accessed instant: no entry beats
/// it, and everything before it is strictly more recent.
pub proof fn lemma_victim_props(s: Seq<(String, DiskEntryMeta)>)
    requires
        s.len() >= 1,
    ensures
        0 <= victim_index(s) < s.len(),
        forall|j: int|
            0 <= j < s.len() ==> s[victim_index(s)].1.last_accessed_ms <= (#[trigger] s[j]).1.last_accessed_ms,
        forall|j: int|
            0 <= j < victim_index(s) ==> (#[trigger] s[j]).1.last_accessed_ms
                > s[victim_index(s)].1.last_accessed_ms,
{
    lemma_victim_from_props(s, 1, 0);
}

/// Evicts least-recently-accessed entries until `need` more bytes fit
/// under the bound, or nothing is left; an unbounded tier keeps all.
pub open spec fn dk_evict_to_fit(s: Seq<(String, DiskEntryMeta)>, need: int, max: Option<u64>) -> Seq<
    (String, DiskEntryMeta),
>
    decreases s.len(),
{
    match max {
        None => s,
        Some(mx) => {
            if dk_sum(s) + need <= mx {
                s
            } else if s.len() == 0 {
                s
            } else {
                let v = victim_index(s);
                let vi = if 0 <= v < s.len() {
                    v
                } else {
                    0
                };
                dk_evict_to_fit(s.remove(vi), need, max)
            }
        },
    }
}

/// The file paths of the entries that eviction removes, in eviction
/// order.
pub open spec fn dk_evict_paths(s: Seq<(String, DiskEntryMeta)>, need: int, max: Option<u64>) -> Seq<
    Seq<char>,
>
    decreases s.len(),
{
    match max {
        None => Seq::<Seq<char>>::empty(),
        Some(mx) => {
            if dk_sum(s) + need <= mx {
                Seq::<Seq<char>>::empty()
            } else if s.len() == 0 {
                Seq::<Seq<char>>::empty()
            } else {
                let v = victim_index(s);
                let vi = if 0 <= v < s.len() {
                    v
                } else {
                    0
                };
                seq![s[vi].1.path@] + dk_evict_paths(s.remove(vi), need, max)
            }
        },
    }
}

// ---------------------------------------------------------------------------
// Shared sequence lemmas
// ---------------------------------------------------------------------------

proof fn lemma_dk_sum_nonneg(s: Seq<(String, DiskEntryMeta)>)
    ensures
        dk_sum(s) >= 0,
    decreases s.len(),
{
    if s.len() > 0 {
        lemma_dk_sum_nonneg(s.skip(1));
    }
}

proof fn lemma_dk_sum_push(s: Seq<(String, DiskEntryMeta)>, e: (String, DiskEntryMeta))
    ensures
        dk_sum(s.push(e)) == dk_sum(s) + e.1.size,
    decreases s.len(),
{
    if s.len() == 0 {
        assert(s.push(e) =~= seq![e]);
        assert(seq![e].skip(1) =~= Seq::<(String, DiskEntryMeta)>::empty());
        assert(dk_sum(Seq::<(String, DiskEntryMeta)>::empty()) == 0);
        assert(seq![e][0] == e);
    } else {
        assert(s.push(e).skip(1) =~= s.skip(1).push(e));
        assert(s.push(e)[0] == s[0]);
        lemma_dk_sum_push(s.skip(1), e);
    }
}

proof fn lemma_dk_sum_remove(s: Seq<(String, DiskEntryMeta)>, i: int)
    requires
        0 <= i < s.len(),
    ensures
        dk_sum(s.remove(i)) == dk_sum(s) - s[i].1.size,
    decreases i,
{
    if i == 0 {
        assert(s.remove(0) =~= s.skip(1));
    } else {
        assert(s.remove(i).skip(1) =~= s.skip(1).remove(i - 1));
        assert(s.remove(i)[0] == s[0]);
        lemma_dk_sum_remove(s.skip(1), i - 1);
    }
}

pub proof fn lemma_dk_index_props(s: Seq<(String, DiskEntryMeta)>, k: Seq<char>)
    requires
        dk_has(s, k),
    ensures
        0 <= dk_index(s, k) < s.len(),
        s[dk_index(s, k)].0@ == k,
{
    let i = choose|i: int| 0 <= i < s.len() && (#[trigger] s[i]).0@ == k;
    assert(s[i].0@ == k);
}

proof fn lemma_dk_index_unique(s: Seq<(String, DiskEntryMeta)>, k: Seq<char>, i: int)
    requires
        dk_distinct(s),
        0 <= i < s.len(),
        s[i].0@ == k,
    ensures
        dk_has(s, k),
        dk_index(s, k) == i,
{
    assert(dk_has(s, k));
    lemma_dk_index_props(s, k);
    let j = dk_index(s, k);
    if i < j {
        assert(s[i].0@ != s[j].0@);
    } else if j < i {
        assert(s[j].0@ != s[i].0@);
    }
}

proof fn lemma_dk_distinct_remove(s: Seq<(String, DiskEntryMeta)>, i: int)
    requires
        dk_distinct(s),
        0 <= i < s.len(),
    ensures
        dk_distinct(s.remove(i)),
        forall|k: Seq<char>| dk_has(s.remove(i), k) ==> dk_has(s, k),
{
    let t = s.remove(i);
    assert forall|a: int, b: int|
        0 <= a < b < t.len() implies (#[trigger] t[a]).0@ != (#[trigger] t[b]).0@ by {
        let a0 = if a < i {
            a
        } else {
            a + 1
        };
        let b0 = if b < i {
            b
        } else {
            b + 1
        };
        assert(t[a] == s[a0] && t[b] == s[b0]);
    }
    assert forall|k: Seq<char>| dk_has(t, k) implies dk_has(s, k) by {
        let j = choose|j: int| 0 <= j < t.len() && (#[trigger] t[j]).0@ == k;
        let j0 = if j < i {
            j
        } else {
            j + 1
        };
        assert(s[j0].0@ == k);
    }
}

proof fn lemma_dk_distinct_push(s: Seq<(String, DiskEntryMeta)>, e: (String, DiskEntryMeta))
    requires
        dk_distinct(s),
        !dk_has(s, e.0@),
    ensures
        dk_distinct(s.push(e)),
{
    let t = s.push(e);
    assert forall|a: int, b: int|
        0 <= a < b < t.len() implies (#[trigger] t[a]).0@ != (#[trigger] t[b]).0@ by {
        if b < s.len() {
            assert(t[a] == s[a] && t[b] == s[b]);
        } else {
            assert(t[b] == e);
            assert(t[a] == s[a]);
            if s[a].0@ == e.0@ {
                assert(dk_has(s, e.0@));
            }
        }
    }
}

proof fn lemma_dk_live_push(
    s: Seq<(String, DiskEntryMeta)>,
    e: (String, DiskEntryMeta),
    ttl: Option<u64>,
    now: u64,
)
    ensures
        dk_live(s.push(e), ttl, now) =~= dk_live(s, ttl, now) + (
        if is_expired_at(ttl, e.1.created_ms, now) {
            Seq::<(String, DiskEntryMeta)>::empty()
        } else {
            seq![e]
        }),
    decreases s.len(),
{
    if s.len() == 0 {
        assert(s.push(e)[0] == e);
        assert(s.push(e).skip(1) =~= Seq::<(String, DiskEntryMeta)>::empty());
        assert(dk_live(Seq::<(String, DiskEntryMeta)>::empty(), ttl, now)
            == Seq::<(String, DiskEntryMeta)>::empty());
        assert(s.push(e).len() == 1);
    } else {
        assert(s.push(e).skip(1) =~= s.skip(1).push(e));
        assert(s.push(e)[0] == s[0]);
        lemma_dk_live_push(s.skip(1), e, ttl, now);
    }
}

proof fn lemma_dk_expired_none(s: Seq<(String, DiskEntryMeta)>, now: u64)
    ensures
        dk_expired_paths(s, None, now) =~= Seq::<Seq<char>>::empty(),
    decreases s.len(),
{
    if s.len() > 0 {
        lemma_dk_expired_none(s.skip(1), now);
    }
}

proof fn lemma_dk_expired_push(
    s: Seq<(String, DiskEntryMeta)>,
    e: (String, DiskEntryMeta),
    ttl: Option<u64>,
    now: u64,
)
    ensures
        dk_expired_paths(s.push(e), ttl, now) =~= dk_expired_paths(s, ttl, now) + (
        if is_expired_at(ttl, e.1.created_ms, now) {
            seq![e.1.path@]
        } else {
            Seq::<Seq<char>>::empty()
        }),
    decreases s.len(),
{
    if s.len() == 0 {
        assert(s.push(e)[0] == e);
        assert(s.push(e).skip(1) =~= Seq::<(String, DiskEntryMeta)>::empty());
        assert(dk_expired_paths(Seq::<(String, DiskEntryMeta)>::empty(), ttl, now)
            == Seq::<Seq<char>>::empty());
        assert(s.push(e).len() == 1);
    } else {
        assert(s.push(e).skip(1) =~= s.skip(1).push(e));
        assert(s.push(e)[0] == s[0]);
        lemma_dk_expired_push(s.skip(1), e, ttl, now);
    }
}

proof fn lemma_dk_live_none(s: Seq<(String, DiskEntryMeta)>, now: u64)
    ensures
        dk_live(s, None, now) =~= s,
    decreases s.len(),
{
    if s.len() > 0 {
        lemma_dk_live_none(s.skip(1), now);
        assert(dk_live(s, None, now) == seq![s[0]] + dk_live(s.skip(1), None, now));
    }
}

proof fn lemma_dk_live_has(s: Seq<(String, DiskEntryMeta)>, ttl: Option<u64>, now: u64, k: Seq<char>)
    ensures
        dk_has(dk_live(s, ttl, now), k) ==> dk_has(s, k),
    decreases s.len(),
{
    let live = dk_live(s, ttl, now);
    if s.len() > 0 && dk_has(live, k) {
        lemma_dk_live_has(s.skip(1), ttl, now, k);
        let j = choose|j: int| 0 <= j < live.len() && (#[trigger] live[j]).0@ == k;
        let head = if is_expired_at(ttl, s[0].1.created_ms, now) {
            Seq::<(String, DiskEntryMeta)>::empty()
        } else {
            seq![s[0]]
        };
        if j < head.len() {
            assert(live[j] == s[0]);
            assert(s[0].0@ == k);
        } else {
            assert(live[j] == dk_live(s.skip(1), ttl, now)[j - head.len()]);
            assert(dk_has(dk_live(s.skip(1), ttl, now), k));
            let j2 = choose|j2: int|
                0 <= j2 < s.skip(1).len() && (#[trigger] s.skip(1)[j2]).0@ == k;
            assert(s[j2 + 1].0@ == k);
        }
    }
}

proof fn lemma_dk_live_distinct(s: Seq<(String, DiskEntryMeta)>, ttl: Option<u64>, now: u64)
    requires
        dk_distinct(s),
    ensures
        dk_distinct(dk_live(s, ttl, now)),
    decreases s.len(),
{
    if s.len() > 0 {
        assert forall|a: int, b: int|
            0 <= a < b < s.skip(1).len() implies (#[trigger] s.skip(1)[a]).0@ != (
        #[trigger] s.skip(1)[b]).0@ by {
            assert(s.skip(1)[a] == s[a + 1] && s.skip(1)[b] == s[b + 1]);
        }
        lemma_dk_live_distinct(s.skip(1), ttl, now);
        let live = dk_live(s, ttl, now);
        let tail = dk_live(s.skip(1), ttl, now);
        if is_expired_at(ttl, s[0].1.created_ms, now) {
            assert(live =~= tail);
        } else {
            assert forall|a: int, b: int|
                0 <= a < b < live.len() implies (#[trigger] live[a]).0@ != (
            #[trigger] live[b]).0@ by {
                if a == 0 {
                    assert(live[b] == tail[b - 1]);
                    if live[b].0@ == s[0].0@ {
                        assert(dk_has(tail, s[0].0@));
                        lemma_dk_live_has(s.skip(1), ttl, now, s[0].0@);
                        let j = choose|j: int|
                            0 <= j < s.skip(1).len() && (#[trigger] s.skip(1)[j]).0@ == s[0].0@;
                        assert(s[j + 1].0@ == s[0].0@);
                    }
                } else {
                    assert(live[a] == tail[a - 1] && live[b] == tail[b - 1]);
                }
            }
        }
    }
}

// ---------------------------------------------------------------------------
// Key-to-path mapping
// ---------------------------------------------------------------------------

/// A key with every `/` and `\` replaced by `_`: an injective enough,
/// filesystem-safe name within one flat directory.
pub open spec fn spec_sanitize(s: Seq<char>) -> Seq<char> {
    Seq::new(s.len(), |i: int| if s[i] == '/' || s[i] == '\\' {
        '_'
    } else {
        s[i]
    })
}

/// The file path used for a key: `<dir>/<sanitized key>.cache`.
pub open spec fn spec_key_path(dir: Seq<char>, key: Seq<char>) -> Seq<char> {
    dir + seq!['/'] + spec_sanitize(key) + ".cache"@
}

// ---------------------------------------------------------------------------
// The disk tier's index
// ---------------------------------------------------------------------------

/// One step of a disk lookup: either a definite miss, or a file for the
/// caller to read before finishing with `get_finish`.
pub enum DiskGetStep {
    Miss,
    Read(String),
}

/// The in-memory index of the bounded on-disk tier: which keys live in
/// which files, their sizes and instants. The index decides everything —
/// expiry, eviction by least-recently-accessed, size accounting — while
/// the caller performs the actual file reads, writes and deletes it asks
/// for. Instants are plain milliseconds supplied by the caller.
pub struct DiskIndex {
    pub cache_dir: String,
    pub max_size_bytes: Option<u64>,
    pub current_size: usize,
    pub ttl_ms: Option<u64>,
    pub entries: Vec<(String, DiskEntryMeta)>,
    pub hits: u64,
    pub misses: u64,
}

impl DiskIndex {
    /// Well-formedness: keys unique, the tracked byte total exactly the
    /// sum of the indexed sizes.
    pub open spec fn wf(&self) -> bool {
        &&& dk_distinct(self.entries@)
        &&& self.current_size == dk_sum(self.entries@)
    }

    pub fn new(cache_dir: String, max_size_bytes: Option<u64>, ttl_ms: Option<u64>) -> (r: Self)
        ensures
            r.wf(),
            r.entries@ == Seq::<(String, DiskEntryMeta)>::empty(),
            r.cache_dir == cache_dir,
            r.max_size_bytes == max_size_bytes,
            r.ttl_ms == ttl_ms,
            r.hits == 0 && r.misses == 0,
    {
        let r = DiskIndex {
            cache_dir,
            max_size_bytes,
            current_size: 0,
            ttl_ms,
            entries: Vec::new(),
            hits: 0,
            misses: 0,
        };
        proof {
            assert(dk_sum(r.entries@) == 0);
        }
        r
    }

    /// The file path that stores a key's bytes.
    pub fn key_to_path(&self, key: &String) -> (r: String)
        ensures
            r@ == spec_key_path(self.cache_dir@, key@),
    {
        let mut out = self.cache_dir.clone();
        proof {
            reveal_strlit("/");
        }
        out.append("/");
        let s = key.as_str();
        let n = s.unicode_len();
        let ghost sanitized = spec_sanitize(key@);
        proof {
            assert(out@ =~= self.cache_dir@ + seq!['/'] + sanitized.take(0));
        }
        let mut start: usize = 0;
        let mut i: usize = 0;
        while i < n
            invariant
                0 <= start <= i <= n,
                n == key@.len(),
                s@ == key@,
                sanitized == spec_sanitize(key@),
                forall|j: int| start <= j < i ==> key@[j] != '/' && key@[j] != '\\',
                out@ == self.cache_dir@ + seq!['/'] + sanitized.take(start as int),
            decreases n - i,
        {
            let c = s.get_char(i);
            if c == '/' || c == '\\' {
                let seg = s.substring_char(start, i);
                out.append(seg);
                proof {
                    reveal_strlit("_");
                }
                out.append("_");
                proof {
                    assert(out@ =~= self.cache_dir@ + seq!['/'] + sanitized.take(i + 1)) by {
                        assert(forall|j: int|
                            start <= j < i ==> sanitized[j] == key@[j]);
                        assert(sanitized[i as int] == '_');
                    }
                }
                start = i + 1;
            }
            i = i + 1;
        }
        let seg = s.substring_char(start, n);
        out.append(seg);
        proof {
            assert(out@ =~= self.cache_dir@ + seq!['/'] + sanitized) by {
                assert(forall|j: int| start <= j < n ==> sanitized[j] == key@[j]);
            }
        }
        proof {
            reveal_strlit(".cache");
        }
        out.append(".cache");
        proof {
            assert(out@ =~= spec_key_path(self.cache_dir@, key@));
        }
        out
    }

    /// Drops every expired index entry and returns the paths of their
    /// files, for the caller to delete best-effort.
    fn cleanup_expired(&mut self, now_ms: u64) -> (r: Vec<String>)
        requires
            old(self).wf(),
        ensures
            final(self).wf(),
            final(self).entries@ == dk_live(old(self).entries@, old(self).ttl_ms, now_ms),
            crate::codec::str_views(r@) == dk_expired_paths(
                old(self).entries@,
                old(self).ttl_ms,
                now_ms,
            ),
            final(self).cache_dir == old(self).cache_dir,
            final(self).max_size_bytes == old(self).max_size_bytes,
            final(self).ttl_ms == old(self).ttl_ms,
            final(self).hits == old(self).hits,
            final(self).misses == old(self).misses,
    {
        let ghost s0 = self.entries@;
        let ghost ttl = self.ttl_ms;
        let mut paths: Vec<String> = Vec::new();
        if self.ttl_ms.is_none() {
            proof {
                lemma_dk_live_none(s0, now_ms);
                lemma_dk_expired_none(s0, now_ms);
                assert(crate::codec::str_views(paths@) =~= dk_expired_paths(s0, None, now_ms));
            }
            return paths;
        }
        let mut kept: Vec<(String, DiskEntryMeta)> = Vec::new();
        let n = self.entries.len();
        let mut i: usize = 0;
        proof {
            assert(s0.take(0) =~= Seq::<(String, DiskEntryMeta)>::empty());
            assert(kept@ =~= dk_live(s0.take(0), ttl, now_ms));
            assert(crate::codec::str_views(paths@) =~= dk_expired_paths(
                s0.take(0),
                ttl,
                now_ms,
            ));
            assert(s0.skip(0) =~= s0);
        }
        while i < n
            invariant
                0 <= i <= n,
                n == s0.len(),
                self.entries@ == s0,
                self.ttl_ms == ttl,
                ttl is Some,
                kept@ == dk_live(s0.take(i as int), ttl, now_ms),
                crate::codec::str_views(paths@) == dk_expired_paths(s0.take(i as int), ttl, now_ms),
                self.current_size == dk_sum(kept@) + dk_sum(s0.skip(i as int)),
                dk_distinct(s0),
                self.cache_dir == old(self).cache_dir,
                self.max_size_bytes == old(self).max_size_bytes,
                self.hits == old(self).hits,
                self.misses == old(self).misses,
            decreases n - i,
        {
            proof {
                assert(s0.take(i + 1).drop_last() =~= s0.take(i as int));
                assert(s0.take(i + 1) =~= s0.take(i as int).push(s0[i as int]));
                lemma_dk_live_push(s0.take(i as int), s0[i as int], ttl, now_ms);
                lemma_dk_expired_push(s0.take(i as int), s0[i as int], ttl, now_ms);
                assert(s0.skip(i as int)[0] == s0[i as int]);
                assert(s0.skip(i as int).skip(1) =~= s0.skip(i + 1));
                assert(dk_sum(s0.skip(i as int)) == s0[i as int].1.size + dk_sum(s0.skip(i + 1)));
            }
            let created = self.entries[i].1.created_ms;
            let expired = match self.ttl_ms {
                Some(t) => now_ms > t && created < now_ms - t,
                None => false,
            };
            proof {
                assert(expired == is_expired_at(ttl, s0[i as int].1.created_ms, now_ms));
            }
            if expired {
                proof {
                    lemma_dk_sum_nonneg(kept@);
                    lemma_dk_sum_nonneg(s0.skip(i + 1));
                }
                let ghost p0 = paths@;
                paths.push(self.entries[i].1.path.clone());
                proof {
                    assert(paths@.last()@ == s0[i as int].1.path@);
                    assert(crate::codec::str_views(paths@) =~= crate::codec::str_views(p0).push(
                        s0[i as int].1.path@,
                    ));
                }
                let sz = self.entries[i].1.size;
                self.current_size = self.current_size - sz;
            } else {
                let ghost kept0 = kept@;
                let key_c = self.entries[i].0.clone();
                let meta_c = DiskEntryMeta {
                    path: self.entries[i].1.path.clone(),
                    size: self.entries[i].1.size,
                    created_ms: self.entries[i].1.created_ms,
                    last_accessed_ms: self.entries[i].1.last_accessed_ms,
                };
                kept.push((key_c, meta_c));
                proof {
                    assert(kept@.last() == s0[i as int]);
                    assert(kept@ =~= kept0.push(s0[i as int]));
                    lemma_dk_sum_push(kept0, s0[i as int]);
                }
            }
            i = i + 1;
        }
        proof {
            assert(s0.take(n as int) =~= s0);
            assert(s0.skip(n as int) =~= Seq::<(String, DiskEntryMeta)>::empty());
            assert(dk_sum(s0.skip(n as int)) == 0);
            lemma_dk_live_distinct(s0, ttl, now_ms);
        }
        self.entries = kept;
        paths
    }


    /// Begins a lookup: prunes expired entries (returning their files
    /// for deletion), and either reports a definite miss — already
    /// counted — or names the file to read, marking the entry as touched
    /// now. The caller completes the lookup with `get_finish`.
    pub fn get_begin(&mut self, key: &String, now_ms: u64) -> (r: (Vec<String>, DiskGetStep))
        requires
            old(self).wf(),
        ensures
            final(self).wf(),
            crate::codec::str_views(r.0@) == dk_expired_paths(
                old(self).entries@,
                old(self).ttl_ms,
                now_ms,
            ),
            ({
                let live = dk_live(old(self).entries@, old(self).ttl_ms, now_ms);
                let fe = final(self).entries@;
                match r.1 {
                    DiskGetStep::Read(p) => {
                        let i = dk_index(live, key@);
                        &&& dk_has(live, key@)
                        &&& p@ == live[i].1.path@
                        &&& fe.len() == live.len()
                        &&& forall|j: int| 0 <= j < live.len() && j != i ==> fe[j] == live[j]
                        &&& fe[i].0 == live[i].0
                        &&& fe[i].1.path == live[i].1.path
                        &&& fe[i].1.size == live[i].1.size
                        &&& fe[i].1.created_ms == live[i].1.created_ms
                        &&& fe[i].1.last_accessed_ms == now_ms
                        &&& final(self).hits == old(self).hits
                        &&& final(self).misses == old(self).misses
                    },
                    DiskGetStep::Miss => {
                        &&& !dk_has(live, key@)
                        &&& fe == live
                        &&& final(self).hits == old(self).hits
                        &&& final(self).misses == inc64(old(self).misses)
                    },
                }
            }),
            final(self).cache_dir == old(self).cache_dir,
            final(self).max_size_bytes == old(self).max_size_bytes,
            final(self).ttl_ms == old(self).ttl_ms,
    {
        let paths = self.cleanup_expired(now_ms);
        let ghost live = self.entries@;
        let n = self.entries.len();
        let mut j: usize = 0;
        while j < n
            invariant
                0 <= j <= n,
                n == live.len(),
                self.entries@ == live,
                dk_distinct(live),
                self.current_size == dk_sum(live),
                live == dk_live(old(self).entries@, old(self).ttl_ms, now_ms),
                crate::codec::str_views(paths@) == dk_expired_paths(
                    old(self).entries@,
                    old(self).ttl_ms,
                    now_ms,
                ),
                self.cache_dir == old(self).cache_dir,
                self.max_size_bytes == old(self).max_size_bytes,
                self.ttl_ms == old(self).ttl_ms,
                self.hits == old(self).hits,
                self.misses == old(self).misses,
                forall|t: int| 0 <= t < j ==> (#[trigger] live[t]).0@ != key@,
            decreases n - j,
        {
            if self.entries[j].0 == *key {
                proof {
                    lemma_dk_index_unique(live, key@, j as int);
                }
                let path = self.entries[j].1.path.clone();
                let key_c = self.entries[j].0.clone();
                let updated = DiskEntryMeta {
                    path: self.entries[j].1.path.clone(),
                    size: self.entries[j].1.size,
                    created_ms: self.entries[j].1.created_ms,
                    last_accessed_ms: now_ms,
                };
                let ghost before = self.entries@;
                self.entries[j] = (key_c, updated);
                proof {
                    assert(self.entries@ =~= before.update(j as int, self.entries@[j as int]));
                    assert forall|a: int, b: int|
                        0 <= a < b < self.entries@.len() implies (#[trigger] self.entries@[a]).0@
                        != (#[trigger] self.entries@[b]).0@ by {
                        assert(self.entries@[a].0@ == live[a].0@);
                        assert(self.entries@[b].0@ == live[b].0@);
                    }
                    lemma_dk_sum_update_same_size(before, j as int, self.entries@[j as int]);
                }
                return (paths, DiskGetStep::Read(path));
            }
            j = j + 1;
        }
        proof {
            assert(!dk_has(live, key@)) by {
                if dk_has(live, key@) {
                    let t = choose|t: int| 0 <= t < live.len() && (#[trigger] live[t]).0@ == key@;
                    assert(live[t].0@ != key@);
                }
            }
        }
        self.misses = crate::memory::inc_u64(self.misses);
        (paths, DiskGetStep::Miss)
    }

    /// Completes a lookup after the caller read (or failed to read) the
    /// named file: a successful read counts the hit and hands the bytes
    /// back; a failed one drops the entry and counts a miss, so a broken
    /// file is simply treated as absent.
    pub fn get_finish(&mut self, key: &String, data: Option<Vec<u8>>) -> (r: Option<Vec<u8>>)
        requires
            old(self).wf(),
        ensures
            final(self).wf(),
            match data {
                Some(v) => {
                    &&& r == Some(v)
                    &&& final(self).entries@ == old(self).entries@
                    &&& final(self).hits == inc64(old(self).hits)
                    &&& final(self).misses == old(self).misses
                },
                None => {
                    &&& r is None
                    &&& final(self).entries@ == dk_remove_key(old(self).entries@, key@)
                    &&& final(self).hits == old(self).hits
                    &&& final(self).misses == inc64(old(self).misses)
                },
            },
            final(self).cache_dir == old(self).cache_dir,
            final(self).max_size_bytes == old(self).max_size_bytes,
            final(self).ttl_ms == old(self).ttl_ms,
    {
        match data {
            Some(v) => {
                self.hits = crate::memory::inc_u64(self.hits);
                Some(v)
            },
            None => {
                self.remove_entry(key);
                self.misses = crate::memory::inc_u64(self.misses);
                None
            },
        }
    }

    /// Removes the key's index entry, handing back its file's path for
    /// deletion.
    fn remove_entry(&mut self, key: &String) -> (r: Option<String>)
        requires
            old(self).wf(),
        ensures
            final(self).wf(),
            final(self).entries@ == dk_remove_key(old(self).entries@, key@),
            r is Some <==> dk_has(old(self).entries@, key@),
            r matches Some(p) ==> p@ == old(self).entries@[dk_index(
                old(self).entries@,
                key@,
            )].1.path@,
            final(self).cache_dir == old(self).cache_dir,
            final(self).max_size_bytes == old(self).max_size_bytes,
            final(self).ttl_ms == old(self).ttl_ms,
            final(self).hits == old(self).hits,
            final(self).misses == old(self).misses,
    {
        let ghost s0 = self.entries@;
        let n = self.entries.len();
        let mut j: usize = 0;
        while j < n
            invariant
                0 <= j <= n,
                n == s0.len(),
                self.entries@ == s0,
                dk_distinct(s0),
                self.current_size == dk_sum(s0),
                s0 == old(self).entries@,
                self.cache_dir == old(self).cache_dir,
                self.max_size_bytes == old(self).max_size_bytes,
                self.ttl_ms == old(self).ttl_ms,
                self.hits == old(self).hits,
                self.misses == old(self).misses,
                forall|t: int| 0 <= t < j ==> (#[trigger] s0[t]).0@ != key@,
            decreases n - j,
        {
            if self.entries[j].0 == *key {
                proof {
                    lemma_dk_index_unique(s0, key@, j as int);
                    lemma_dk_sum_remove(s0, j as int);
                    lemma_dk_sum_nonneg(s0.remove(j as int));
                    lemma_dk_distinct_remove(s0, j as int);
                }
                let e = self.entries.remove(j);
                self.current_size = self.current_size - e.1.size;
                return Some(e.1.path);
            }
            j = j + 1;
        }
        proof {
            assert(!dk_has(s0, key@)) by {
                if dk_has(s0, key@) {
                    let t = choose|t: int| 0 <= t < s0.len() && (#[trigger] s0[t]).0@ == key@;
                    assert(s0[t].0@ != key@);
                }
            }
        }
        None
    }

    /// Begins a store: evicts least-recently-accessed entries until the
    /// value fits under the bound. The first component names exactly the
    /// evicted files, for the caller to delete; `CacheFull` in the
    /// second means the value is larger than the whole bound — the index
    /// is then empty. Otherwise it names the file to write.
    pub fn set_begin(&mut self, key: &String, value_len: usize, now_ms: u64) -> (r: (
        Vec<String>,
        Result<String, CacheError>,
    ))
        requires
            old(self).wf(),
        ensures
            final(self).wf(),
            crate::codec::str_views(r.0@) == dk_evict_paths(
                old(self).entries@,
                value_len as int,
                old(self).max_size_bytes,
            ),
            final(self).entries@ == dk_evict_to_fit(
                old(self).entries@,
                value_len as int,
                old(self).max_size_bytes,
            ),
            ({
                match r.1 {
                    Ok(p) => {
                        &&& (old(self).max_size_bytes matches Some(mx) ==> dk_sum(
                            final(self).entries@,
                        ) + value_len <= mx)
                        &&& p@ == spec_key_path(old(self).cache_dir@, key@)
                    },
                    Err(e) => {
                        &&& e == CacheError::CacheFull
                        &&& old(self).max_size_bytes matches Some(mx) && value_len > mx
                        &&& final(self).entries@.len() == 0
                    },
                }
            }),
            final(self).cache_dir == old(self).cache_dir,
            final(self).max_size_bytes == old(self).max_size_bytes,
            final(self).ttl_ms == old(self).ttl_ms,
            final(self).hits == old(self).hits,
            final(self).misses == old(self).misses,
    {
        let mut paths: Vec<String> = Vec::new();
        let ghost target = dk_evict_to_fit(
            self.entries@,
            value_len as int,
            self.max_size_bytes,
        );
        let ghost target_paths = dk_evict_paths(
            self.entries@,
            value_len as int,
            self.max_size_bytes,
        );
        if let Some(mx) = self.max_size_bytes {
            proof {
                assert(crate::codec::str_views(paths@) =~= Seq::<Seq<char>>::empty());
            }
            while (self.current_size as u128) + (value_len as u128) > mx as u128
                invariant
                    self.max_size_bytes == Some(mx),
                    old(self).max_size_bytes == Some(mx),
                    dk_evict_to_fit(self.entries@, value_len as int, Some(mx)) == target,
                    target == dk_evict_to_fit(
                        old(self).entries@,
                        value_len as int,
                        old(self).max_size_bytes,
                    ),
                    crate::codec::str_views(paths@) + dk_evict_paths(
                        self.entries@,
                        value_len as int,
                        Some(mx),
                    ) =~~= target_paths,
                    target_paths == dk_evict_paths(
                        old(self).entries@,
                        value_len as int,
                        old(self).max_size_bytes,
                    ),
                    self.current_size == dk_sum(self.entries@),
                    dk_distinct(self.entries@),
                    self.cache_dir == old(self).cache_dir,
                    self.ttl_ms == old(self).ttl_ms,
                    self.hits == old(self).hits,
                    self.misses == old(self).misses,
                decreases self.entries@.len(),
            {
                let ghost cur = self.entries@;
                if self.entries.len() == 0 {
                    proof {
                        assert(dk_sum(cur) == 0);
                        assert(dk_evict_to_fit(cur, value_len as int, Some(mx)) == cur);
                        assert(dk_evict_paths(cur, value_len as int, Some(mx))
                            == Seq::<Seq<char>>::empty());
                        assert(crate::codec::str_views(paths@) =~~= target_paths);
                        assert(cur =~= Seq::<(String, DiskEntryMeta)>::empty());
                    }
                    return (paths, Err(CacheError::CacheFull));
                }
                // Find the first entry with the least last-accessed
                // instant: the eviction victim.
                let n = self.entries.len();
                let mut best: usize = 0;
                let mut i: usize = 1;
                while i < n
                    invariant
                        n == cur.len(),
                        self.entries@ == cur,
                        0 <= best < i <= n,
                        1 <= i,
                        victim_from(cur, i as int, best as int) == victim_index(cur),
                    decreases n - i,
                {
                    if self.entries[i].1.last_accessed_ms
                        < self.entries[best].1.last_accessed_ms {
                        best = i;
                    }
                    i = i + 1;
                }
                proof {
                    assert(victim_from(cur, n as int, best as int) == best);
                    assert(best as int == victim_index(cur));
                    lemma_dk_sum_remove(cur, best as int);
                    lemma_dk_sum_nonneg(cur.remove(best as int));
                    lemma_dk_distinct_remove(cur, best as int);
                }
                let ghost p0 = paths@;
                let e = self.entries.remove(best);
                self.current_size = self.current_size - e.1.size;
                paths.push(e.1.path);
                proof {
                    assert(paths@.last()@ == cur[best as int].1.path@);
                    assert(crate::codec::str_views(paths@) =~= crate::codec::str_views(p0).push(
                        cur[best as int].1.path@,
                    ));
                }
            }
            proof {
                assert(dk_evict_to_fit(self.entries@, value_len as int, Some(mx))
                    == self.entries@);
                assert(dk_evict_paths(self.entries@, value_len as int, Some(mx))
                    == Seq::<Seq<char>>::empty());
                assert(crate::codec::str_views(paths@) =~~= target_paths);
            }
        } else {
            proof {
                assert(dk_evict_to_fit(self.entries@, value_len as int, None::<u64>)
                    == self.entries@);
                assert(crate::codec::str_views(paths@) =~= dk_evict_paths(
                    self.entries@,
                    value_len as int,
                    None::<u64>,
                ));
            }
        }
        let path = self.key_to_path(key);
        (paths, Ok(path))
    }

    /// Records a completed store after the caller wrote the file: any
    /// older entry under the key goes away, the new one arrives freshly
    /// created and freshly touched.
    pub fn set_commit(&mut self, key: &String, value_len: usize, now_ms: u64)
        requires
            old(self).wf(),
            dk_sum(dk_remove_key(old(self).entries@, key@)) + value_len <= usize::MAX,
        ensures
            final(self).wf(),
            ({
                let s1 = dk_remove_key(old(self).entries@, key@);
                let fe = final(self).entries@;
                &&& fe.len() == s1.len() + 1
                &&& fe.drop_last() == s1
                &&& fe.last().0@ == key@
                &&& fe.last().1.path@ == spec_key_path(old(self).cache_dir@, key@)
                &&& fe.last().1.size == value_len
                &&& fe.last().1.created_ms == now_ms
                &&& fe.last().1.last_accessed_ms == now_ms
            }),
            final(self).cache_dir == old(self).cache_dir,
            final(self).max_size_bytes == old(self).max_size_bytes,
            final(self).ttl_ms == old(self).ttl_ms,
            final(self).hits == old(self).hits,
            final(self).misses == old(self).misses,
    {
        let _ = self.remove_entry(key);
        let path = self.key_to_path(key);
        let meta = DiskEntryMeta {
            path,
            size: value_len,
            created_ms: now_ms,
            last_accessed_ms: now_ms,
        };
        let ghost s1 = self.entries@;
        proof {
            lemma_dk_sum_nonneg(s1);
        }
        self.entries.push((key.clone(), meta));
        proof {
            assert(self.entries@.drop_last() =~= s1);
            lemma_dk_sum_push(s1, self.entries@.last());
            assert(!dk_has(s1, key@)) by {
                if dk_has(s1, key@) {
                    let s0 = old(self).entries@;
                    if dk_has(s0, key@) {
                        lemma_dk_index_props(s0, key@);
                        let i = dk_index(s0, key@);
                        let j = choose|j: int|
                            0 <= j < s1.len() && (#[trigger] s1[j]).0@ == key@;
                        let j0 = if j < i {
                            j
                        } else {
                            j + 1
                        };
                        assert(s0[j0].0@ == key@);
                        lemma_dk_index_unique(s0, key@, i);
                        lemma_dk_index_unique(s0, key@, j0);
                    }
                }
            }
            lemma_dk_distinct_push(s1, self.entries@.last());
        }
        self.current_size = self.current_size + value_len;
    }

    /// Removes the key's entry if present; the returned path, if any, is
    /// the file for the caller to delete best-effort.
    pub fn remove(&mut self, key: &String) -> (r: (Option<String>, Result<(), CacheError>))
        requires
            old(self).wf(),
        ensures
            final(self).wf(),
            r.1 is Ok,
            final(self).entries@ == dk_remove_key(old(self).entries@, key@),
            r.0 is Some <==> dk_has(old(self).entries@, key@),
            final(self).cache_dir == old(self).cache_dir,
            final(self).max_size_bytes == old(self).max_size_bytes,
            final(self).ttl_ms == old(self).ttl_ms,
            final(self).hits == old(self).hits,
            final(self).misses == old(self).misses,
    {
        let p = self.remove_entry(key);
        (p, Ok(()))
    }

    /// Drops the whole index, handing back every file path for deletion,
    /// and resets the byte total to zero.
    pub fn clear(&mut self) -> (r: (Vec<String>, Result<(), CacheError>))
        requires
            old(self).wf(),
        ensures
            final(self).wf(),
            r.1 is Ok,
            final(self).entries@ == Seq::<(String, DiskEntryMeta)>::empty(),
            final(self).current_size == 0,
            r.0@.len() == old(self).entries@.len(),
            final(self).cache_dir == old(self).cache_dir,
            final(self).max_size_bytes == old(self).max_size_bytes,
            final(self).ttl_ms == old(self).ttl_ms,
            final(self).hits == old(self).hits,
            final(self).misses == old(self).misses,
    {
        let ghost s0 = self.entries@;
        let mut paths: Vec<String> = Vec::new();
        let n = self.entries.len();
        let mut i: usize = 0;
        while i < n
            invariant
                0 <= i <= n,
                n == s0.len(),
                self.entries@ == s0,
                paths@.len() == i,
            decreases n - i,
        {
            paths.push(self.entries[i].1.path.clone());
            i = i + 1;
        }
        self.entries = Vec::new();
        self.current_size = 0;
        proof {
            assert(dk_sum(self.entries@) == 0);
        }
        (paths, Ok(()))
    }

    /// The file path of the key's entry, when it is present and its
    /// time-to-live has not run out; nothing is touched or counted.
    pub fn peek_path(&self, key: &String, now_ms: u64) -> (r: Option<String>)
        requires
            self.wf(),
        ensures
            r is Some <==> (dk_has(self.entries@, key@) && !is_expired_at(
                self.ttl_ms,
                self.entries@[dk_index(self.entries@, key@)].1.created_ms,
                now_ms,
            )),
            r matches Some(p) ==> p@ == self.entries@[dk_index(self.entries@, key@)].1.path@,
    {
        let ghost s0 = self.entries@;
        let n = self.entries.len();
        let mut j: usize = 0;
        while j < n
            invariant
                0 <= j <= n,
                n == s0.len(),
                self.entries@ == s0,
                dk_distinct(s0),
                forall|t: int| 0 <= t < j ==> (#[trigger] s0[t]).0@ != key@,
            decreases n - j,
        {
            if self.entries[j].0 == *key {
                proof {
                    lemma_dk_index_unique(s0, key@, j as int);
                }
                let created = self.entries[j].1.created_ms;
                let expired = match self.ttl_ms {
                    Some(t) => now_ms > t && created < now_ms - t,
                    None => false,
                };
                proof {
                    assert(expired == is_expired_at(self.ttl_ms, s0[j as int].1.created_ms, now_ms));
                }
                if expired {
                    return None;
                }
                return Some(self.entries[j].1.path.clone());
            }
            j = j + 1;
        }
        proof {
            assert(!dk_has(s0, key@)) by {
                if dk_has(s0, key@) {
                    let t = choose|t: int| 0 <= t < s0.len() && (#[trigger] s0[t]).0@ == key@;
                    assert(s0[t].0@ != key@);
                }
            }
        }
        None
    }

    /// The tracked byte total: the sum of the indexed sizes.
    pub fn size(&self) -> (r: usize)
        requires
            self.wf(),
        ensures
            r == dk_sum(self.entries@),
    {
        self.current_size
    }

    /// A snapshot of the counters, byte total and entry count.
    pub fn stats(&self) -> (r: CacheStats)
        requires
            self.wf(),
        ensures
            r.hits == self.hits,
            r.misses == self.misses,
            r.size_bytes == dk_sum(self.entries@),
            r.entry_count == self.entries@.len(),
    {
        CacheStats {
            hits: self.hits,
            misses: self.misses,
            size_bytes: self.current_size,
            entry_count: self.entries.len(),
        }
    }
}

proof fn lemma_dk_sum_update_same_size(
    s: Seq<(String, DiskEntryMeta)>,
    i: int,
    e: (String, DiskEntryMeta),
)
    requires
        0 <= i < s.len(),
        e.1.size == s[i].1.size,
    ensures
        dk_sum(s.update(i, e)) == dk_sum(s),
    decreases i,
{
    if i == 0 {
        assert(s.update(0, e).skip(1) =~= s.skip(1));
        assert(s.update(0, e)[0] == e);
    } else {
        assert(s.update(i, e).skip(1) =~= s.skip(1).update(i - 1, e));
        assert(s.update(i, e)[0] == s[0]);
        lemma_dk_sum_update_same_size(s.skip(1), i - 1, e);
    }
}

// ---------------------------------------------------------------------------
// Law of the disk tier's eviction order
// ---------------------------------------------------------------------------

/// Disk eviction selects entries by ascending last-accessed instant, not
/// by insertion order: when one eviction makes room and every entry has
/// the same size, an entry touched more recently than some other entry
/// always survives, and what is evicted is at least as stale as that
/// other entry.
pub proof fn lemma_eviction_prefers_stale(
    s: Seq<(String, DiskEntryMeta)>,
    need: int,
    mx: u64,
    i: int,
    j: int,
    sz: int,
)
    requires
        dk_distinct(s),
        0 <= i < s.len(),
        0 <= j < s.len(),
        i != j,
        s[i].1.last_accessed_ms > s[j].1.last_accessed_ms,
        forall|t: int| 0 <= t < s.len() ==> (#[trigger] s[t]).1.size == sz,
        dk_sum(s) + need > mx,
        dk_sum(s) - sz + need <= mx,
    ensures
        dk_has(dk_evict_to_fit(s, need, Some(mx)), s[i].0@),
        ({
            let v = victim_index(s);
            &&& dk_evict_to_fit(s, need, Some(mx)) == s.remove(v)
            &&& s[v].1.last_accessed_ms <= s[j].1.last_accessed_ms
            &&& v != i
        }),
{
    lemma_victim_props(s);
    let v = victim_index(s);
    assert(s[v].1.last_accessed_ms <= s[j].1.last_accessed_ms);
    assert(v != i);
    lemma_dk_sum_remove(s, v);
    assert(dk_sum(s.remove(v)) + need <= mx);
    assert(dk_evict_to_fit(s.remove(v), need, Some(mx)) == s.remove(v));
    assert(dk_evict_to_fit(s, need, Some(mx)) == s.remove(v));
    let t = s.remove(v);
    let i2 = if i < v {
        i
    } else {
        i - 1
    };
    assert(t[i2] == s[i]);
    assert(dk_has(t, s[i].0@));
}

} // verus!
