use vstd::prelude::*;
use crate::error::CacheError;
use crate::stats::CacheStats;

verus! {

// ---------------------------------------------------------------------------
// The lru crate's cache, declared for the verifier
// ---------------------------------------------------------------------------

#[verifier::external_type_specification]
#[verifier::external_body]
#[verifier::reject_recursive_types(K)]
#[verifier::reject_recursive_types(V)]
#[verifier::reject_recursive_types(S)]
pub struct ExLruCache<K, V, S>(lru::LruCache<K, V, S>);

#[verifier::external_type_specification]
#[verifier::external_body]
pub struct ExLruDefaultHasher(lru::DefaultHasher);

/// What an `lru::LruCache` holds, in recency order: index `0` is the
/// least recently used entry and the last index the most recently used.
/// Each entry is the key, the stored bytes and their timestamp.
pub uninterp spec fn lru_entries(c: lru::LruCache<String, (Vec<u8>, u64)>) -> Seq<
    (Seq<char>, Seq<u8>, u64),
>;

pub open spec fn has_key(s: Seq<(Seq<char>, Seq<u8>, u64)>, k: Seq<char>) -> bool {
    exists|i: int| 0 <= i < s.len() && #[trigger] s[i].0 == k
}

pub open spec fn key_index(s: Seq<(Seq<char>, Seq<u8>, u64)>, k: Seq<char>) -> int {
    choose|i: int| 0 <= i < s.len() && #[trigger] s[i].0 == k
}

/// Relies on `lru::LruCache::unbounded`: a fresh cache holds nothing.
#[verifier::external_body]
fn lru_new() -> (c: lru::LruCache<String, (Vec<u8>, u64)>)
    ensures
        lru_entries(c) == Seq::<(Seq<char>, Seq<u8>, u64)>::empty(),
{
    lru::LruCache::unbounded()
}

/// Relies on `lru::LruCache::len`: the number of entries held.
#[verifier::external_body]
fn lru_len(c: &lru::LruCache<String, (Vec<u8>, u64)>) -> (r: usize)
    ensures
        r == lru_entries(*c).len(),
{
    c.len()
}

/// Relies on `lru::LruCache::get`: returns the key's value and marks the
/// entry most recently used; a missing key changes nothing.
#[verifier::external_body]
fn lru_get(c: &mut lru::LruCache<String, (Vec<u8>, u64)>, k: &String) -> (r: Option<
    (Vec<u8>, u64),
>)
    ensures
        ({
            let s = lru_entries(*old(c));
            if has_key(s, k@) {
                let i = key_index(s, k@);
                &&& r matches Some(v) && v.0@ == s[i].1 && v.1 == s[i].2
                &&& lru_entries(*final(c)) == s.remove(i).push(s[i])
            } else {
                &&& r is None
                &&& lru_entries(*final(c)) == s
            }
        }),
{
    c.get(k).cloned()
}

/// Relies on `lru::LruCache::put`: inserts the pair as most recently
/// used, displacing any entry under the same key.
#[verifier::external_body]
fn lru_put(c: &mut lru::LruCache<String, (Vec<u8>, u64)>, k: String, v: (Vec<u8>, u64))
    ensures
        ({
            let s = lru_entries(*old(c));
            let e = (k@, v.0@, v.1);
            lru_entries(*final(c)) == if has_key(s, k@) {
                s.remove(key_index(s, k@)).push(e)
            } else {
                s.push(e)
            }
        }),
{
    c.put(k, v);
}

/// Relies on `lru::LruCache::pop`: removes the key's entry if present.
#[verifier::external_body]
fn lru_pop(c: &mut lru::LruCache<String, (Vec<u8>, u64)>, k: &String) -> (r: Option<
    (Vec<u8>, u64),
>)
    ensures
        ({
            let s = lru_entries(*old(c));
            if has_key(s, k@) {
                let i = key_index(s, k@);
                &&& r matches Some(v) && v.0@ == s[i].1 && v.1 == s[i].2
                &&& lru_entries(*final(c)) == s.remove(i)
            } else {
                &&& r is None
                &&& lru_entries(*final(c)) == s
            }
        }),
{
    c.pop(k)
}

/// Relies on `lru::LruCache::pop_lru`: removes and returns the least
/// recently used entry.
#[verifier::external_body]
fn lru_pop_lru(c: &mut lru::LruCache<String, (Vec<u8>, u64)>) -> (r: Option<
    (String, (Vec<u8>, u64)),
>)
    ensures
        ({
            let s = lru_entries(*old(c));
            if s.len() == 0 {
                &&& r is None
                &&& lru_entries(*final(c)) == s
            } else {
                &&& r matches Some(e) && e.0@ == s[0].0 && e.1.0@ == s[0].1 && e.1.1 == s[0].2
                &&& lru_entries(*final(c)) == s.skip(1)
            }
        }),
{
    c.pop_lru()
}

/// Relies on `lru::LruCache::peek`: returns the key's value without
/// touching the recency order.
#[verifier::external_body]
fn lru_peek(c: &lru::LruCache<String, (Vec<u8>, u64)>, k: &String) -> (r: Option<(Vec<u8>, u64)>)
    ensures
        ({
            let s = lru_entries(*c);
            if has_key(s, k@) {
                let i = key_index(s, k@);
                r matches Some(v) && v.0@ == s[i].1 && v.1 == s[i].2
            } else {
                r is None
            }
        }),
{
    c.peek(k).cloned()
}

/// Relies on `lru::LruCache::clear`: drops every entry.
#[verifier::external_body]
fn lru_clear(c: &mut lru::LruCache<String, (Vec<u8>, u64)>)
    ensures
        lru_entries(*final(c)) == Seq::<(Seq<char>, Seq<u8>, u64)>::empty(),
{
    c.clear();
}

// ---------------------------------------------------------------------------
// The model: sequences of (key, bytes, timestamp) in recency order
// ---------------------------------------------------------------------------

pub open spec fn sum_sizes(s: Seq<(Seq<char>, Seq<u8>, u64)>) -> int
    decreases s.len(),
{
    if s.len() == 0 {
        0
    } else {
        s[0].1.len() + sum_sizes(s.skip(1))
    }
}

pub open spec fn distinct_keys(s: Seq<(Seq<char>, Seq<u8>, u64)>) -> bool {
    forall|i: int, j: int|
        0 <= i < j < s.len() ==> (#[trigger] s[i]).0 != (#[trigger] s[j]).0
}

/// Whether an entry stamped `ts` has outlived a time-to-live of `ttl`
/// milliseconds at instant `now`.
pub open spec fn is_expired_at(ttl: Option<u64>, ts: u64, now: u64) -> bool {
    match ttl {
        Some(t) => now > ts + t,
        None => false,
    }
}

/// The entries that remain after every expired entry is dropped, in
/// unchanged order.
pub open spec fn live_entries(
    s: Seq<(Seq<char>, Seq<u8>, u64)>,
    ttl: Option<u64>,
    now: u64,
) -> Seq<(Seq<char>, Seq<u8>, u64)>
    decreases s.len(),
{
    if s.len() == 0 {
        s
    } else {
        (if is_expired_at(ttl, s[0].2, now) {
            Seq::<(Seq<char>, Seq<u8>, u64)>::empty()
        } else {
            seq![s[0]]
        }) + live_entries(s.skip(1), ttl, now)
    }
}

/// The entries with any entry under key `k` removed.
pub open spec fn remove_key(s: Seq<(Seq<char>, Seq<u8>, u64)>, k: Seq<char>) -> Seq<
    (Seq<char>, Seq<u8>, u64),
> {
    if has_key(s, k) {
        s.remove(key_index(s, k))
    } else {
        s
    }
}

/// Evicts least-recently-used entries from the front until `need` more
/// bytes fit under `max`, or nothing is left.
pub open spec fn evict_to_fit(s: Seq<(Seq<char>, Seq<u8>, u64)>, need: int, max: int) -> Seq<
    (Seq<char>, Seq<u8>, u64),
>
    decreases s.len(),
{
    if sum_sizes(s) + need <= max {
        s
    } else if s.len() == 0 {
        s
    } else {
        evict_to_fit(s.skip(1), need, max)
    }
}

/// A counter increment that stops at the top instead of wrapping.
pub open spec fn inc64(x: u64) -> u64 {
    if x < u64::MAX {
        (x + 1) as u64
    } else {
        x
    }
}

pub fn inc_u64(x: u64) -> (r: u64)
    ensures
        r == inc64(x),
{
    if x < u64::MAX {
        x + 1
    } else {
        x
    }
}

// ---------------------------------------------------------------------------
// Lemmas about the model
// ---------------------------------------------------------------------------

proof fn lemma_sum_nonneg(s: Seq<(Seq<char>, Seq<u8>, u64)>)
    ensures
        sum_sizes(s) >= 0,
    decreases s.len(),
{
    if s.len() > 0 {
        lemma_sum_nonneg(s.skip(1));
    }
}

proof fn lemma_sum_push(s: Seq<(Seq<char>, Seq<u8>, u64)>, e: (Seq<char>, Seq<u8>, u64))
    ensures
        sum_sizes(s.push(e)) == sum_sizes(s) + e.1.len(),
    decreases s.len(),
{
    if s.len() == 0 {
        assert(s.push(e) =~= seq![e]);
        assert(seq![e].skip(1) =~= Seq::<(Seq<char>, Seq<u8>, u64)>::empty());
        assert(sum_sizes(Seq::<(Seq<char>, Seq<u8>, u64)>::empty()) == 0);
        assert(seq![e][0] == e);
    } else {
        assert(s.push(e).skip(1) =~= s.skip(1).push(e));
        assert(s.push(e)[0] == s[0]);
        lemma_sum_push(s.skip(1), e);
    }
}

proof fn lemma_sum_remove(s: Seq<(Seq<char>, Seq<u8>, u64)>, i: int)
    requires
        0 <= i < s.len(),
    ensures
        sum_sizes(s.remove(i)) == sum_sizes(s) - s[i].1.len(),
    decreases i,
{
    if i == 0 {
        assert(s.remove(0) =~= s.skip(1));
    } else {
        assert(s.remove(i).skip(1) =~= s.skip(1).remove(i - 1));
        assert(s.remove(i)[0] == s[0]);
        lemma_sum_remove(s.skip(1), i - 1);
    }
}

proof fn lemma_key_index_props(s: Seq<(Seq<char>, Seq<u8>, u64)>, k: Seq<char>)
    requires
        has_key(s, k),
    ensures
        0 <= key_index(s, k) < s.len(),
        s[key_index(s, k)].0 == k,
{
    let i = choose|i: int| 0 <= i < s.len() && #[trigger] s[i].0 == k;
    assert(s[i].0 == k);
}

proof fn lemma_key_index_unique(s: Seq<(Seq<char>, Seq<u8>, u64)>, k: Seq<char>, i: int)
    requires
        distinct_keys(s),
        0 <= i < s.len(),
        s[i].0 == k,
    ensures
        has_key(s, k),
        key_index(s, k) == i,
{
    assert(has_key(s, k));
    lemma_key_index_props(s, k);
    let j = key_index(s, k);
    if i < j {
        assert(s[i].0 != s[j].0);
    } else if j < i {
        assert(s[j].0 != s[i].0);
    }
}

proof fn lemma_distinct_remove(s: Seq<(Seq<char>, Seq<u8>, u64)>, i: int)
    requires
        distinct_keys(s),
        0 <= i < s.len(),
    ensures
        distinct_keys(s.remove(i)),
        forall|k: Seq<char>| has_key(s.remove(i), k) ==> has_key(s, k),
{
    let t = s.remove(i);
    assert forall|a: int, b: int| 0 <= a < b < t.len() implies (#[trigger] t[a]).0 != (#[trigger] t[b]).0 by {
        let a0 = if a < i {
            a
        } else {
            a + 1
        };
        let b0 = if b < i {
            b
        } else {
            b + 1
        };
        assert(t[a] == s[a0] && t[b] == s[b0]);
    }
    assert forall|k: Seq<char>| has_key(t, k) implies has_key(s, k) by {
        let j = choose|j: int| 0 <= j < t.len() && #[trigger] t[j].0 == k;
        let j0 = if j < i {
            j
        } else {
            j + 1
        };
        assert(s[j0].0 == k);
    }
}

proof fn lemma_distinct_skip(s: Seq<(Seq<char>, Seq<u8>, u64)>, n: int)
    requires
        distinct_keys(s),
        0 <= n <= s.len(),
    ensures
        distinct_keys(s.skip(n)),
        forall|k: Seq<char>| has_key(s.skip(n), k) ==> has_key(s, k),
{
    let t = s.skip(n);
    assert forall|a: int, b: int| 0 <= a < b < t.len() implies (#[trigger] t[a]).0 != (#[trigger] t[b]).0 by {
        assert(t[a] == s[a + n] && t[b] == s[b + n]);
    }
    assert forall|k: Seq<char>| has_key(t, k) implies has_key(s, k) by {
        let j = choose|j: int| 0 <= j < t.len() && #[trigger] t[j].0 == k;
        assert(s[j + n].0 == k);
    }
}

proof fn lemma_distinct_push(s: Seq<(Seq<char>, Seq<u8>, u64)>, e: (Seq<char>, Seq<u8>, u64))
    requires
        distinct_keys(s),
        !has_key(s, e.0),
    ensures
        distinct_keys(s.push(e)),
{
    let t = s.push(e);
    assert forall|a: int, b: int| 0 <= a < b < t.len() implies (#[trigger] t[a]).0 != (#[trigger] t[b]).0 by {
        if b < s.len() {
            assert(t[a] == s[a] && t[b] == s[b]);
        } else {
            assert(t[b] == e);
            assert(t[a] == s[a]);
            if s[a].0 == e.0 {
                assert(has_key(s, e.0));
            }
        }
    }
}

proof fn lemma_live_none(s: Seq<(Seq<char>, Seq<u8>, u64)>, now: u64)
    ensures
        live_entries(s, None, now) =~= s,
    decreases s.len(),
{
    if s.len() > 0 {
        lemma_live_none(s.skip(1), now);
        assert(live_entries(s, None, now) == seq![s[0]] + live_entries(s.skip(1), None, now));
    }
}

/// Appending one entry to the input appends it (or nothing, when it is
/// expired) to the live entries.
proof fn lemma_live_push(
    s: Seq<(Seq<char>, Seq<u8>, u64)>,
    e: (Seq<char>, Seq<u8>, u64),
    ttl: Option<u64>,
    now: u64,
)
    ensures
        live_entries(s.push(e), ttl, now) =~= live_entries(s, ttl, now) + (
        if is_expired_at(ttl, e.2, now) {
            Seq::<(Seq<char>, Seq<u8>, u64)>::empty()
        } else {
            seq![e]
        }),
    decreases s.len(),
{
    if s.len() == 0 {
        assert(s.push(e)[0] == e);
        assert(s.push(e).skip(1) =~= Seq::<(Seq<char>, Seq<u8>, u64)>::empty());
        assert(live_entries(Seq::<(Seq<char>, Seq<u8>, u64)>::empty(), ttl, now)
            == Seq::<(Seq<char>, Seq<u8>, u64)>::empty());
        assert(s.push(e).len() == 1);
    } else {
        assert(s.push(e).skip(1) =~= s.skip(1).push(e));
        assert(s.push(e)[0] == s[0]);
        lemma_live_push(s.skip(1), e, ttl, now);
    }
}

proof fn lemma_live_has_key(
    s: Seq<(Seq<char>, Seq<u8>, u64)>,
    ttl: Option<u64>,
    now: u64,
    k: Seq<char>,
)
    ensures
        has_key(live_entries(s, ttl, now), k) ==> has_key(s, k),
    decreases s.len(),
{
    let live = live_entries(s, ttl, now);
    if s.len() > 0 && has_key(live, k) {
        lemma_live_has_key(s.skip(1), ttl, now, k);
        let j = choose|j: int| 0 <= j < live.len() && #[trigger] live[j].0 == k;
        let head = if is_expired_at(ttl, s[0].2, now) {
            Seq::<(Seq<char>, Seq<u8>, u64)>::empty()
        } else {
            seq![s[0]]
        };
        if j < head.len() {
            assert(live[j] == s[0]);
            assert(s[0].0 == k);
        } else {
            assert(live[j] == live_entries(s.skip(1), ttl, now)[j - head.len()]);
            assert(has_key(live_entries(s.skip(1), ttl, now), k));
            lemma_distinct_has_key_skip(s, k);
        }
    }
}

proof fn lemma_distinct_has_key_skip(s: Seq<(Seq<char>, Seq<u8>, u64)>, k: Seq<char>)
    requires
        s.len() > 0,
        has_key(s.skip(1), k),
    ensures
        has_key(s, k),
{
    let j = choose|j: int| 0 <= j < s.skip(1).len() && #[trigger] s.skip(1)[j].0 == k;
    assert(s[j + 1].0 == k);
}

proof fn lemma_live_distinct(s: Seq<(Seq<char>, Seq<u8>, u64)>, ttl: Option<u64>, now: u64)
    requires
        distinct_keys(s),
    ensures
        distinct_keys(live_entries(s, ttl, now)),
    decreases s.len(),
{
    if s.len() > 0 {
        lemma_distinct_skip(s, 1);
        lemma_live_distinct(s.skip(1), ttl, now);
        let live = live_entries(s, ttl, now);
        let tail = live_entries(s.skip(1), ttl, now);
        if is_expired_at(ttl, s[0].2, now) {
            assert(live =~= tail);
        } else {
            assert forall|a: int, b: int|
                0 <= a < b < live.len() implies (#[trigger] live[a]).0 != (#[trigger] live[b]).0 by {
                if a == 0 {
                    assert(live[b] == tail[b - 1]);
                    if live[b].0 == s[0].0 {
                        assert(has_key(tail, s[0].0));
                        lemma_live_has_key(s.skip(1), ttl, now, s[0].0);
                        let j = choose|j: int|
                            0 <= j < s.skip(1).len() && #[trigger] s.skip(1)[j].0 == s[0].0;
                        assert(s[j + 1].0 == s[0].0);
                    }
                } else {
                    assert(live[a] == tail[a - 1] && live[b] == tail[b - 1]);
                }
            }
        }
    }
}

/// Looking a key up among the live entries: the key is live exactly when
/// it is present and its entry has not expired, and the live entry is the
/// stored one.
proof fn lemma_live_key_lookup(
    s: Seq<(Seq<char>, Seq<u8>, u64)>,
    ttl: Option<u64>,
    now: u64,
    k: Seq<char>,
)
    requires
        distinct_keys(s),
    ensures
        has_key(live_entries(s, ttl, now), k) <==> (has_key(s, k) && !is_expired_at(
            ttl,
            s[key_index(s, k)].2,
            now,
        )),
        has_key(live_entries(s, ttl, now), k) ==> live_entries(s, ttl, now)[key_index(
            live_entries(s, ttl, now),
            k,
        )] == s[key_index(s, k)],
    decreases s.len(),
{
    let live = live_entries(s, ttl, now);
    if s.len() == 0 {
    } else {
        lemma_distinct_skip(s, 1);
        lemma_live_key_lookup(s.skip(1), ttl, now, k);
        lemma_live_distinct(s, ttl, now);
        let tail = live_entries(s.skip(1), ttl, now);
        let head_expired = is_expired_at(ttl, s[0].2, now);
        if s[0].0 == k {
            lemma_key_index_unique(s, k, 0);
            assert(!has_key(s.skip(1), k)) by {
                if has_key(s.skip(1), k) {
                    let j = choose|j: int|
                        0 <= j < s.skip(1).len() && #[trigger] s.skip(1)[j].0 == k;
                    assert(s[j + 1].0 == k);
                    assert(s[0].0 != s[j + 1].0);
                }
            }
            if head_expired {
                assert(live =~= tail);
                if has_key(live, k) {
                    lemma_live_has_key(s.skip(1), ttl, now, k);
                }
            } else {
                assert(live[0] == s[0]);
                lemma_key_index_unique(live, k, 0);
            }
        } else {
            if has_key(s, k) {
                lemma_key_index_props(s, k);
                let i = key_index(s, k);
                assert(i != 0);
                lemma_key_index_unique(s.skip(1), k, i - 1);
                assert(s.skip(1)[i - 1] == s[i]);
            } else {
                assert(!has_key(s.skip(1), k)) by {
                    if has_key(s.skip(1), k) {
                        lemma_distinct_has_key_skip(s, k);
                    }
                }
            }
            if head_expired {
                assert(live =~= tail);
            } else {
                assert(live[0] == s[0]);
                if has_key(tail, k) {
                    lemma_key_index_props(tail, k);
                    let j = key_index(tail, k);
                    assert(live[j + 1] == tail[j]);
                    lemma_key_index_unique(live, k, j + 1);
                    lemma_live_has_key(s.skip(1), ttl, now, k);
                } else {
                    assert(!has_key(live, k)) by {
                        if has_key(live, k) {
                            lemma_key_index_props(live, k);
                            let j = key_index(live, k);
                            assert(j != 0);
                            assert(live[j] == tail[j - 1]);
                            assert(has_key(tail, k));
                        }
                    }
                }
            }
        }
    }
}

// ---------------------------------------------------------------------------
// The bounded in-memory LRU tier
// ---------------------------------------------------------------------------

/// The views of the rebuilt entry list used while pruning expired
/// entries.
pub open spec fn kept_views(v: Seq<(String, (Vec<u8>, u64))>) -> Seq<(Seq<char>, Seq<u8>, u64)> {
    v.map_values(|e: (String, (Vec<u8>, u64))| (e.0@, e.1.0@, e.1.1))
}

/// A bounded in-memory byte cache with least-recently-used eviction and
/// an optional time-to-live. Entries are held in an `lru::LruCache`; the
/// tier tracks the byte total itself and evicts until an incoming value
/// fits. Instants are plain milliseconds supplied by the caller. The
/// container stays private: only this module's wrappers, whose contracts
/// assume the unbounded construction below, ever touch it.
pub struct LruMemoryCache {
    lru: lru::LruCache<String, (Vec<u8>, u64)>,
    max_size_bytes: usize,
    current_size: usize,
    ttl_ms: Option<u64>,
    hits: u64,
    misses: u64,
}

impl LruMemoryCache {
    /// The entries held, least recently used first.
    pub closed spec fn entries(&self) -> Seq<(Seq<char>, Seq<u8>, u64)> {
        lru_entries(self.lru)
    }

    pub closed spec fn spec_max_size(&self) -> usize {
        self.max_size_bytes
    }

    pub closed spec fn spec_ttl_ms(&self) -> Option<u64> {
        self.ttl_ms
    }

    pub closed spec fn spec_hits(&self) -> u64 {
        self.hits
    }

    pub closed spec fn spec_misses(&self) -> u64 {
        self.misses
    }

    /// Well-formedness: keys are unique, and the tracked byte total is
    /// exactly the sum of the held values' sizes, within the bound.
    pub closed spec fn wf(&self) -> bool {
        &&& distinct_keys(self.entries())
        &&& self.current_size == sum_sizes(self.entries())
        &&& sum_sizes(self.entries()) <= self.max_size_bytes
    }

    pub fn new(max_size_bytes: usize) -> (r: Self)
        ensures
            r.wf(),
            r.entries() == Seq::<(Seq<char>, Seq<u8>, u64)>::empty(),
            r.spec_max_size() == max_size_bytes,
            r.spec_ttl_ms() is None,
            r.spec_hits() == 0 && r.spec_misses() == 0,
    {
        Self::with_ttl(max_size_bytes, None)
    }

    pub fn with_ttl(max_size_bytes: usize, ttl_ms: Option<u64>) -> (r: Self)
        ensures
            r.wf(),
            r.entries() == Seq::<(Seq<char>, Seq<u8>, u64)>::empty(),
            r.spec_max_size() == max_size_bytes,
            r.spec_ttl_ms() == ttl_ms,
            r.spec_hits() == 0 && r.spec_misses() == 0,
    {
        let r = LruMemoryCache {
            lru: lru_new(),
            max_size_bytes,
            current_size: 0,
            ttl_ms,
            hits: 0,
            misses: 0,
        };
        proof {
            assert(sum_sizes(r.entries()) == 0);
        }
        r
    }

    /// Drops every expired entry, keeping the rest in their order. The
    /// byte total follows; counters do not move.
    fn cleanup_expired(&mut self, now_ms: u64)
        requires
            old(self).wf(),
        ensures
            final(self).wf(),
            final(self).entries() == live_entries(
                old(self).entries(),
                old(self).spec_ttl_ms(),
                now_ms,
            ),
            final(self).spec_max_size() == old(self).spec_max_size(),
            final(self).spec_ttl_ms() == old(self).spec_ttl_ms(),
            final(self).spec_hits() == old(self).spec_hits(),
            final(self).spec_misses() == old(self).spec_misses(),
    {
        let ghost s0 = self.entries();
        let ghost ttl = self.ttl_ms;
        if self.ttl_ms.is_none() {
            proof {
                lemma_live_none(s0, now_ms);
            }
            return ;
        }
        let mut kept: Vec<(String, (Vec<u8>, u64))> = Vec::new();
        let ghost processed: int = 0;
        proof {
            assert(s0.skip(0) =~= s0);
            assert(s0.take(0) =~= Seq::<(Seq<char>, Seq<u8>, u64)>::empty());
            assert(kept_views(kept@) =~= live_entries(s0.take(0), ttl, now_ms));
        }
        while lru_len(&self.lru) != 0
            invariant
                self.ttl_ms == ttl,
                ttl is Some,
                0 <= processed <= s0.len(),
                self.entries() == s0.skip(processed),
                kept_views(kept@) == live_entries(s0.take(processed), ttl, now_ms),
                self.current_size == sum_sizes(s0.skip(processed)) + sum_sizes(
                    kept_views(kept@),
                ),
                self.current_size <= self.max_size_bytes,
                self.max_size_bytes == old(self).max_size_bytes,
                self.hits == old(self).hits,
                self.misses == old(self).misses,
                distinct_keys(s0),
                sum_sizes(s0) <= self.max_size_bytes,
                s0 == lru_entries(old(self).lru),
            decreases s0.len() - processed,
        {
            let ghost cur = s0.skip(processed);
            match lru_pop_lru(&mut self.lru) {
                None => {
                    proof {
                        assert(false);
                    }
                },
                Some(e) => {
                    proof {
                        assert(cur[0] == s0[processed]);
                        assert(cur.skip(1) =~= s0.skip(processed + 1));
                        assert(sum_sizes(cur) == cur[0].1.len() + sum_sizes(cur.skip(1)));
                        assert(s0.take(processed + 1).drop_last() =~= s0.take(processed));
                        assert(s0.take(processed + 1) =~= s0.take(processed).push(s0[processed]));
                        lemma_live_push(s0.take(processed), s0[processed], ttl, now_ms);
                    }
                    let expired = match self.ttl_ms {
                        Some(t) => now_ms > t && e.1.1 < now_ms - t,
                        None => false,
                    };
                    proof {
                        assert(expired == is_expired_at(ttl, s0[processed].2, now_ms));
                    }
                    if expired {
                        proof {
                            lemma_sum_nonneg(cur.skip(1));
                            lemma_sum_nonneg(kept_views(kept@));
                        }
                        self.current_size = self.current_size - e.1.0.len();
                    } else {
                        let ghost old_kept = kept@;
                        kept.push(e);
                        proof {
                            assert(kept_views(kept@) =~= kept_views(old_kept).push(
                                (s0[processed].0, s0[processed].1, s0[processed].2),
                            ));
                            lemma_sum_push(
                                kept_views(old_kept),
                                (s0[processed].0, s0[processed].1, s0[processed].2),
                            );
                            assert((s0[processed].0, s0[processed].1, s0[processed].2)
                                == s0[processed]);
                        }
                    }
                    proof {
                        processed = processed + 1;
                    }
                },
            }
        }
        proof {
            assert(self.entries().len() == 0);
            assert(s0.skip(processed).len() == s0.len() - processed);
            assert(processed == s0.len());
            assert(s0.take(s0.len() as int) =~= s0);
            assert(kept_views(kept@) == live_entries(s0, ttl, now_ms));
            assert(s0.skip(processed) =~= Seq::<(Seq<char>, Seq<u8>, u64)>::empty());
            assert(sum_sizes(s0.skip(processed)) == 0);
            lemma_live_distinct(s0, ttl, now_ms);
        }
        let ghost live = live_entries(s0, ttl, now_ms);
        let n = kept.len();
        let mut j: usize = 0;
        proof {
            assert(kept@.skip(0) =~= kept@);
            assert(kept_views(kept@.skip(0)) =~= live.skip(0));
            assert(live.take(0) =~= Seq::<(Seq<char>, Seq<u8>, u64)>::empty());
        }
        while j < n
            invariant
                0 <= j <= n,
                n == live.len(),
                j + kept@.len() == n,
                kept_views(kept@) == live.skip(j as int),
                distinct_keys(live),
                self.entries() == live.take(j as int),
                self.current_size == sum_sizes(live),
                sum_sizes(live) <= self.max_size_bytes,
                self.max_size_bytes == old(self).max_size_bytes,
                self.ttl_ms == ttl,
                self.hits == old(self).hits,
                self.misses == old(self).misses,
            decreases n - j,
        {
            let ghost kept0 = kept@;
            let e = kept.remove(0);
            proof {
                assert(kept_views(kept0)[0] == (kept0[0].0@, kept0[0].1.0@, kept0[0].1.1));
                assert(kept_views(kept0)[0] == live[j as int]);
                assert(kept@ =~= kept0.skip(1));
                assert(kept_views(kept@) =~= live.skip(j as int).skip(1));
                assert(live.skip(j as int).skip(1) =~= live.skip(j as int + 1));
                assert(!has_key(live.take(j as int), live[j as int].0)) by {
                    if has_key(live.take(j as int), live[j as int].0) {
                        let i = choose|i: int|
                            0 <= i < live.take(j as int).len() && #[trigger] live.take(
                                j as int,
                            )[i].0 == live[j as int].0;
                        assert(live[i].0 == live[j as int].0);
                    }
                }
            }
            let ghost before = self.entries();
            lru_put(&mut self.lru, e.0, e.1);
            proof {
                assert((kept0[0].0@, kept0[0].1.0@, kept0[0].1.1) == live[j as int]);
                assert(self.entries() == before.push(live[j as int]));
                assert(before.push(live[j as int]) =~= live.take(j as int + 1));
            }
            j = j + 1;
        }
        proof {
            assert(live.take(n as int) =~= live);
        }
    }

    /// Looks a key up at instant `now_ms`. Expired entries are pruned
    /// first and a live hit moves to most-recently-used and counts a hit;
    /// anything else counts a miss.
    pub fn get(&mut self, key: &String, now_ms: u64) -> (r: Option<Vec<u8>>)
        requires
            old(self).wf(),
        ensures
            final(self).wf(),
            ({
                let live = live_entries(old(self).entries(), old(self).spec_ttl_ms(), now_ms);
                if has_key(live, key@) {
                    &&& r matches Some(v) && v@ == live[key_index(live, key@)].1
                    &&& final(self).entries() == live.remove(key_index(live, key@)).push(
                        live[key_index(live, key@)],
                    )
                    &&& final(self).spec_hits() == inc64(old(self).spec_hits())
                    &&& final(self).spec_misses() == old(self).spec_misses()
                } else {
                    &&& r is None
                    &&& final(self).entries() == live
                    &&& final(self).spec_misses() == inc64(old(self).spec_misses())
                    &&& final(self).spec_hits() == old(self).spec_hits()
                }
            }),
            final(self).spec_max_size() == old(self).spec_max_size(),
            final(self).spec_ttl_ms() == old(self).spec_ttl_ms(),
    {
        self.cleanup_expired(now_ms);
        let ghost live = self.entries();
        match lru_get(&mut self.lru, key) {
            Some(v) => {
                proof {
                    let i = key_index(live, key@);
                    lemma_key_index_props(live, key@);
                    lemma_distinct_remove(live, i);
                    lemma_sum_remove(live, i);
                    lemma_sum_push(live.remove(i), live[i]);
                    assert(!has_key(live.remove(i), live[i].0)) by {
                        if has_key(live.remove(i), live[i].0) {
                            let j = choose|j: int|
                                0 <= j < live.remove(i).len() && #[trigger] live.remove(
                                    i,
                                )[j].0 == live[i].0;
                            let j0 = if j < i {
                                j
                            } else {
                                j + 1
                            };
                            assert(live[j0].0 == live[i].0);
                            lemma_key_index_unique(live, key@, i);
                            lemma_key_index_unique(live, key@, j0);
                        }
                    }
                    lemma_distinct_push(live.remove(i), live[i]);
                }
                self.hits = inc_u64(self.hits);
                Some(v.0)
            },
            None => {
                self.misses = inc_u64(self.misses);
                None
            },
        }
    }

    /// Whether the key is held and unexpired, without touching the
    /// recency order or the counters.
    pub fn contains_live(&self, key: &String, now_ms: u64) -> (r: bool)
        requires
            self.wf(),
        ensures
            r == has_key(live_entries(self.entries(), self.spec_ttl_ms(), now_ms), key@),
    {
        proof {
            lemma_live_key_lookup(self.entries(), self.ttl_ms, now_ms, key@);
        }
        match lru_peek(&self.lru, key) {
            Some(v) => {
                let expired = match self.ttl_ms {
                    Some(t) => now_ms > t && v.1 < now_ms - t,
                    None => false,
                };
                proof {
                    assert(has_key(self.entries(), key@));
                    lemma_key_index_props(self.entries(), key@);
                    assert(expired == is_expired_at(
                        self.ttl_ms,
                        self.entries()[key_index(self.entries(), key@)].2,
                        now_ms,
                    ));
                }
                !expired
            },
            None => {
                proof {
                    assert(!has_key(self.entries(), key@));
                }
                false
            },
        }
    }

    /// The key's unexpired value, if any, without touching the recency
    /// order or the counters.
    pub fn peek_live(&self, key: &String, now_ms: u64) -> (r: Option<Vec<u8>>)
        requires
            self.wf(),
        ensures
            ({
                let live = live_entries(self.entries(), self.spec_ttl_ms(), now_ms);
                if has_key(live, key@) {
                    r matches Some(v) && v@ == live[key_index(live, key@)].1
                } else {
                    r is None
                }
            }),
    {
        proof {
            lemma_live_key_lookup(self.entries(), self.ttl_ms, now_ms, key@);
        }
        match lru_peek(&self.lru, key) {
            Some(v) => {
                let expired = match self.ttl_ms {
                    Some(t) => now_ms > t && v.1 < now_ms - t,
                    None => false,
                };
                proof {
                    assert(has_key(self.entries(), key@));
                    lemma_key_index_props(self.entries(), key@);
                    assert(expired == is_expired_at(
                        self.ttl_ms,
                        self.entries()[key_index(self.entries(), key@)].2,
                        now_ms,
                    ));
                }
                if expired {
                    None
                } else {
                    Some(v.0)
                }
            },
            None => {
                proof {
                    assert(!has_key(self.entries(), key@));
                }
                None
            },
        }
    }

    /// Stores a value, evicting least-recently-used entries until it
    /// fits. A value larger than the whole bound cannot be admitted: the
    /// tier is drained and `CacheFull` returned, as eviction alone could
    /// never make room.
    pub fn set(&mut self, key: &String, value: Vec<u8>, now_ms: u64) -> (r: Result<
        (),
        CacheError,
    >)
        requires
            old(self).wf(),
        ensures
            final(self).wf(),
            ({
                let base = evict_to_fit(
                    remove_key(old(self).entries(), key@),
                    value@.len() as int,
                    old(self).spec_max_size() as int,
                );
                match r {
                    Ok(()) => {
                        &&& value@.len() <= old(self).spec_max_size()
                        &&& final(self).entries() == base.push((key@, value@, now_ms))
                    },
                    Err(e) => {
                        &&& e == CacheError::CacheFull
                        &&& value@.len() > old(self).spec_max_size()
                        &&& final(self).entries() == Seq::<(Seq<char>, Seq<u8>, u64)>::empty()
                    },
                }
            }),
            final(self).spec_max_size() == old(self).spec_max_size(),
            final(self).spec_ttl_ms() == old(self).spec_ttl_ms(),
            final(self).spec_hits() == old(self).spec_hits(),
            final(self).spec_misses() == old(self).spec_misses(),
    {
        let ghost s0 = self.entries();
        let ghost k = key@;
        let need = value.len();
        // Displace any entry already stored under this key.
        if let Some(v) = lru_pop(&mut self.lru, key) {
            proof {
                lemma_key_index_props(s0, k);
                lemma_sum_remove(s0, key_index(s0, k));
                lemma_sum_nonneg(s0.remove(key_index(s0, k)));
                lemma_distinct_remove(s0, key_index(s0, k));
            }
            self.current_size = self.current_size - v.0.len();
        }
        let ghost s1 = remove_key(s0, k);
        proof {
            assert(self.entries() == s1);
            assert(self.current_size == sum_sizes(s1));
            assert(!has_key(s1, k)) by {
                if has_key(s1, k) {
                    if has_key(s0, k) {
                        let i = key_index(s0, k);
                        lemma_key_index_props(s0, k);
                        let j = choose|j: int|
                            0 <= j < s1.len() && #[trigger] s1[j].0 == k;
                        let j0 = if j < i {
                            j
                        } else {
                            j + 1
                        };
                        assert(s0[j0].0 == k);
                        lemma_key_index_unique(s0, k, i);
                        lemma_key_index_unique(s0, k, j0);
                    }
                }
            }
            assert(sum_sizes(s1) <= sum_sizes(s0)) by {
                if has_key(s0, k) {
                    lemma_key_index_props(s0, k);
                    lemma_sum_remove(s0, key_index(s0, k));
                }
            }
        }
        if need > self.max_size_bytes {
            // Even an empty tier could not hold it: drain and refuse.
            let ghost target = evict_to_fit(s1, need as int, self.max_size_bytes as int);
            proof {
                lemma_evict_all(s1, need as int, self.max_size_bytes as int);
            }
            while lru_len(&self.lru) != 0
                invariant
                    evict_to_fit(
                        self.entries(),
                        need as int,
                        self.max_size_bytes as int,
                    ) == target,
                    self.current_size == sum_sizes(self.entries()),
                    distinct_keys(self.entries()),
                    need > self.max_size_bytes,
                    target == Seq::<(Seq<char>, Seq<u8>, u64)>::empty(),
                    self.max_size_bytes == old(self).max_size_bytes,
                    self.ttl_ms == old(self).ttl_ms,
                    self.hits == old(self).hits,
                    self.misses == old(self).misses,
                decreases self.entries().len(),
            {
                let ghost cur = self.entries();
                match lru_pop_lru(&mut self.lru) {
                    None => {
                        proof {
                            assert(false);
                        }
                    },
                    Some(e) => {
                        proof {
                            lemma_sum_nonneg(cur.skip(1));
                            assert(sum_sizes(cur) == cur[0].1.len() + sum_sizes(cur.skip(1)));
                            lemma_distinct_skip(cur, 1);
                            lemma_sum_nonneg(cur);
                        }
                        self.current_size = self.current_size - e.1.0.len();
                    },
                }
            }
            proof {
                assert(self.entries().len() == 0);
                assert(self.entries() =~= Seq::<(Seq<char>, Seq<u8>, u64)>::empty());
            }
            return Err(CacheError::CacheFull);
        }
        // Evict from the least-recently-used end until the value fits.
        let ghost target = evict_to_fit(s1, need as int, self.max_size_bytes as int);
        while self.current_size > self.max_size_bytes - need
            invariant
                need <= self.max_size_bytes,
                evict_to_fit(self.entries(), need as int, self.max_size_bytes as int) == target,
                self.current_size == sum_sizes(self.entries()),
                distinct_keys(self.entries()),
                !has_key(self.entries(), k),
                self.max_size_bytes == old(self).max_size_bytes,
                self.ttl_ms == old(self).ttl_ms,
                self.hits == old(self).hits,
                self.misses == old(self).misses,
            decreases self.entries().len(),
        {
            let ghost cur = self.entries();
            proof {
                assert(sum_sizes(cur) + need > self.max_size_bytes);
                if cur.len() == 0 {
                    assert(sum_sizes(cur) == 0);
                    assert(false);
                }
                assert(sum_sizes(cur) == cur[0].1.len() + sum_sizes(cur.skip(1)));
                lemma_sum_nonneg(cur.skip(1));
                lemma_distinct_skip(cur, 1);
            }
            match lru_pop_lru(&mut self.lru) {
                None => {
                    proof {
                        assert(false);
                    }
                },
                Some(e) => {
                    self.current_size = self.current_size - e.1.0.len();
                },
            }
        }
        proof {
            assert(evict_to_fit(self.entries(), need as int, self.max_size_bytes as int)
                == self.entries());
            assert(target == self.entries());
        }
        let ghost before = self.entries();
        let ghost vbytes = value@;
        lru_put(&mut self.lru, key.clone(), (value, now_ms));
        proof {
            assert(self.entries() == before.push((k, vbytes, now_ms)));
            lemma_sum_push(before, (k, vbytes, now_ms));
            lemma_distinct_push(before, (k, vbytes, now_ms));
        }
        self.current_size = self.current_size + need;
        Ok(())
    }

    /// Removes the key's entry if present; absence is not an error.
    pub fn remove(&mut self, key: &String) -> (r: Result<(), CacheError>)
        requires
            old(self).wf(),
        ensures
            final(self).wf(),
            r is Ok,
            final(self).entries() == remove_key(old(self).entries(), key@),
            final(self).spec_max_size() == old(self).spec_max_size(),
            final(self).spec_ttl_ms() == old(self).spec_ttl_ms(),
            final(self).spec_hits() == old(self).spec_hits(),
            final(self).spec_misses() == old(self).spec_misses(),
    {
        let ghost s0 = self.entries();
        if let Some(v) = lru_pop(&mut self.lru, key) {
            proof {
                lemma_key_index_props(s0, key@);
                lemma_sum_remove(s0, key_index(s0, key@));
                lemma_sum_nonneg(s0.remove(key_index(s0, key@)));
                lemma_distinct_remove(s0, key_index(s0, key@));
            }
            self.current_size = self.current_size - v.0.len();
        }
        Ok(())
    }

    /// Drops every entry and resets the byte total to zero.
    pub fn clear(&mut self) -> (r: Result<(), CacheError>)
        requires
            old(self).wf(),
        ensures
            final(self).wf(),
            r is Ok,
            final(self).entries() == Seq::<(Seq<char>, Seq<u8>, u64)>::empty(),
            sum_sizes(final(self).entries()) == 0,
            final(self).spec_max_size() == old(self).spec_max_size(),
            final(self).spec_ttl_ms() == old(self).spec_ttl_ms(),
            final(self).spec_hits() == old(self).spec_hits(),
            final(self).spec_misses() == old(self).spec_misses(),
    {
        lru_clear(&mut self.lru);
        self.current_size = 0;
        proof {
            assert(sum_sizes(self.entries()) == 0);
        }
        Ok(())
    }

    /// The tracked byte total: always the sum of the held values' sizes.
    pub fn size(&self) -> (r: usize)
        requires
            self.wf(),
        ensures
            r == sum_sizes(self.entries()),
    {
        self.current_size
    }

    /// A snapshot of the counters, byte total and entry count.
    pub fn stats(&self) -> (r: CacheStats)
        requires
            self.wf(),
        ensures
            r.hits == self.spec_hits(),
            r.misses == self.spec_misses(),
            r.size_bytes == sum_sizes(self.entries()),
            r.entry_count == self.entries().len(),
    {
        CacheStats {
            hits: self.hits,
            misses: self.misses,
            size_bytes: self.current_size,
            entry_count: lru_len(&self.lru),
        }
    }
}

// ---------------------------------------------------------------------------
// Laws of the memory tier
// ---------------------------------------------------------------------------

/// Storing a value in an empty tier whose bound admits it, then looking
/// the key up at any instant not past its time-to-live, yields exactly
/// that value. The two state changes below are the ones `set` and `get`
/// promise in their contracts.
pub proof fn lemma_set_then_get(k: Seq<char>, v: Seq<u8>, max: int, ttl: Option<u64>, t: u64, now: u64)
    requires
        v.len() <= max,
        !is_expired_at(ttl, t, now),
    ensures
        ({
            let empty = Seq::<(Seq<char>, Seq<u8>, u64)>::empty();
            let after = evict_to_fit(remove_key(empty, k), v.len() as int, max).push((k, v, t));
            let live = live_entries(after, ttl, now);
            &&& has_key(live, k)
            &&& live[key_index(live, k)].1 == v
        }),
{
    let empty = Seq::<(Seq<char>, Seq<u8>, u64)>::empty();
    assert(!has_key(empty, k));
    assert(sum_sizes(empty) == 0);
    let after = evict_to_fit(remove_key(empty, k), v.len() as int, max).push((k, v, t));
    assert(after =~= seq![(k, v, t)]);
    let live = live_entries(after, ttl, now);
    assert(after.skip(1) =~= empty);
    assert(live_entries(empty, ttl, now) == empty);
    assert(live =~= seq![(k, v, t)]);
    assert(live[0].0 == k);
    assert(distinct_keys(live));
    lemma_key_index_unique(live, k, 0);
}

/// An entry created at `t` under a time-to-live `tau` never satisfies a
/// lookup strictly after `t + tau`: it is no longer among the live
/// entries that `get` consults.
pub proof fn lemma_ttl_expiry(s: Seq<(Seq<char>, Seq<u8>, u64)>, tau: u64, now: u64, k: Seq<char>)
    requires
        distinct_keys(s),
        has_key(s, k),
        now > s[key_index(s, k)].2 + tau,
    ensures
        !has_key(live_entries(s, Some(tau), now), k),
{
    lemma_key_index_props(s, k);
    lemma_live_key_lookup(s, Some(tau), now, k);
}

/// One `set` transition after another, over a stream of keys that all
/// carry the same value.
pub open spec fn insert_all(
    s: Seq<(Seq<char>, Seq<u8>, u64)>,
    keys: Seq<Seq<char>>,
    v: Seq<u8>,
    t: u64,
    max: int,
) -> Seq<(Seq<char>, Seq<u8>, u64)>
    decreases keys.len(),
{
    if keys.len() == 0 {
        s
    } else {
        insert_all(
            evict_to_fit(remove_key(s, keys[0]), v.len() as int, max).push((keys[0], v, t)),
            keys.skip(1),
            v,
            t,
            max,
        )
    }
}

/// The tier state after the keys of `ks` were inserted in order with the
/// same value: the last `min(|ks|, m)` keys, oldest first.
pub open spec fn suffix_state(ks: Seq<Seq<char>>, v: Seq<u8>, t: u64, m: int) -> Seq<
    (Seq<char>, Seq<u8>, u64),
> {
    let kept = if ks.len() <= m {
        ks.len() as int
    } else {
        m
    };
    Seq::new(kept as nat, |i: int| (ks[ks.len() - kept + i], v, t))
}

proof fn lemma_sum_const(s: Seq<(Seq<char>, Seq<u8>, u64)>, sz: int)
    requires
        forall|i: int| 0 <= i < s.len() ==> (#[trigger] s[i]).1.len() == sz,
    ensures
        sum_sizes(s) == s.len() * sz,
    decreases s.len(),
{
    if s.len() == 0 {
    } else {
        assert(forall|i: int| 0 <= i < s.skip(1).len() ==> (#[trigger] s.skip(1)[i]).1.len() == sz)
            by {
            assert(forall|i: int|
                0 <= i < s.skip(1).len() ==> #[trigger] s.skip(1)[i] == s[i + 1]);
        }
        lemma_sum_const(s.skip(1), sz);
        assert(sum_sizes(s) == sz + (s.len() - 1) * sz);
        assert(sz + (s.len() - 1) * sz == s.len() * sz) by (nonlinear_arith);
    }
}

proof fn lemma_stream_step(
    pre: Seq<Seq<char>>,
    keys: Seq<Seq<char>>,
    v: Seq<u8>,
    t: u64,
    sz: int,
    m: int,
)
    requires
        v.len() == sz,
        sz >= 1,
        m >= 1,
        forall|i: int, j: int|
            0 <= i < j < pre.len() + keys.len() ==> (pre + keys)[i] != (pre + keys)[j],
    ensures
        insert_all(suffix_state(pre, v, t, m), keys, v, t, m * sz) == suffix_state(
            pre + keys,
            v,
            t,
            m,
        ),
    decreases keys.len(),
{
    let max = m * sz;
    let s0 = suffix_state(pre, v, t, m);
    if keys.len() == 0 {
        assert(pre + keys =~= pre);
    } else {
        let k0 = keys[0];
        let j = if pre.len() <= m {
            pre.len() as int
        } else {
            m
        };
        assert(s0.len() == j);
        // k0 is not among the held keys: they all come from `pre`.
        assert(!has_key(s0, k0)) by {
            if has_key(s0, k0) {
                let i = choose|i: int| 0 <= i < s0.len() && #[trigger] s0[i].0 == k0;
                let pi = pre.len() - j + i;
                assert(s0[i].0 == pre[pi]);
                assert((pre + keys)[pi] == pre[pi]);
                assert((pre + keys)[pre.len() as int] == k0);
                assert(pi < pre.len());
            }
        }
        assert(remove_key(s0, k0) == s0);
        assert(forall|i: int| 0 <= i < s0.len() ==> (#[trigger] s0[i]).1.len() == sz);
        lemma_sum_const(s0, sz);
        let after = if j < m {
            s0
        } else {
            s0.skip(1)
        };
        if j < m {
            assert((j + 1) * sz <= m * sz) by (nonlinear_arith)
                requires
                    j + 1 <= m,
                    sz >= 1,
            ;
            assert(j * sz + sz == (j + 1) * sz) by (nonlinear_arith);
            assert(sum_sizes(s0) + sz <= max);
            assert(evict_to_fit(s0, sz, max) == s0);
        } else {
            assert(j == m);
            assert(sum_sizes(s0) == m * sz);
            assert(sum_sizes(s0) + sz > max);
            assert(s0.len() == m >= 1);
            assert(forall|i: int| 0 <= i < s0.skip(1).len() ==> (#[trigger] s0.skip(1)[i]).1.len()
                == sz) by {
                assert(forall|i: int|
                    0 <= i < s0.skip(1).len() ==> #[trigger] s0.skip(1)[i] == s0[i + 1]);
            }
            lemma_sum_const(s0.skip(1), sz);
            assert((m - 1) * sz + sz <= m * sz) by (nonlinear_arith);
            assert(evict_to_fit(s0.skip(1), sz, max) == s0.skip(1));
            assert(evict_to_fit(s0, sz, max) == s0.skip(1));
        }
        let s1 = after.push((k0, v, t));
        assert(s1 =~= suffix_state(pre.push(k0), v, t, m)) by {
            let pre1 = pre.push(k0);
            let j1 = if pre1.len() <= m {
                pre1.len() as int
            } else {
                m
            };
            assert(s1.len() == j1);
            assert(forall|i: int|
                0 <= i < j1 ==> #[trigger] s1[i] == (pre1[pre1.len() - j1 + i], v, t));
        }
        assert(pre.push(k0) + keys.skip(1) =~= pre + keys);
        lemma_stream_step(pre.push(k0), keys.skip(1), v, t, sz, m);
        assert(insert_all(s0, keys, v, t, max) == insert_all(s1, keys.skip(1), v, t, max));
    }
}

/// Feeding `n` distinct keys of one fixed size `sz` into an empty tier
/// of capacity `m * sz` keeps exactly the last `min(n, m)` keys, oldest
/// first, under the `set` transition; the other `n - min(n, m)` were
/// evicted in arrival order. With `n = m + k` inserted keys, exactly `k`
/// keys have been evicted and the most recently inserted ones survive.
pub proof fn lemma_lru_eviction_stream(
    keys: Seq<Seq<char>>,
    v: Seq<u8>,
    t: u64,
    sz: int,
    m: int,
)
    requires
        v.len() == sz,
        sz >= 1,
        m >= 1,
        forall|i: int, j: int| 0 <= i < j < keys.len() ==> keys[i] != keys[j],
    ensures
        insert_all(Seq::<(Seq<char>, Seq<u8>, u64)>::empty(), keys, v, t, m * sz)
            == suffix_state(keys, v, t, m),
        suffix_state(keys, v, t, m).len() == if keys.len() <= m {
            keys.len() as int
        } else {
            m
        },
        forall|i: int|
            0 <= i < suffix_state(keys, v, t, m).len() ==> (#[trigger] suffix_state(
                keys,
                v,
                t,
                m,
            )[i]).0 == keys[keys.len() - suffix_state(keys, v, t, m).len() + i],
{
    let pre = Seq::<Seq<char>>::empty();
    assert(suffix_state(pre, v, t, m) =~= Seq::<(Seq<char>, Seq<u8>, u64)>::empty());
    assert(pre + keys =~= keys);
    assert(forall|i: int, j: int|
        0 <= i < j < pre.len() + keys.len() ==> (pre + keys)[i] != (pre + keys)[j]);
    lemma_stream_step(pre, keys, v, t, sz, m);
}

/// When the needed room exceeds the whole bound, eviction drains the
/// tier.
proof fn lemma_evict_all(s: Seq<(Seq<char>, Seq<u8>, u64)>, need: int, max: int)
    requires
        need > max,
    ensures
        evict_to_fit(s, need, max) == Seq::<(Seq<char>, Seq<u8>, u64)>::empty(),
    decreases s.len(),
{
    if s.len() == 0 {
        lemma_sum_nonneg(s);
        assert(s =~= Seq::<(Seq<char>, Seq<u8>, u64)>::empty());
    } else {
        lemma_sum_nonneg(s);
        lemma_evict_all(s.skip(1), need, max);
    }
}

} // verus!
