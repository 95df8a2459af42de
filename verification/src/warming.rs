use vstd::prelude::*;
use vstd::string::*;
use crate::codec::format_coordinates;
use crate::codec::int_coords;
use crate::codec::spec_chunk_key;
use crate::codec::spec_dec;
use crate::codec::spec_join;
use crate::codec::spec_neighbors;
use crate::codec::spec_parse_chunk_key;
use crate::codec::str_views;
use crate::error::CacheError;
use crate::memory::LruMemoryCache;
use crate::metrics::spec_parse_chunk_coordinate;
use crate::metrics::SpatialLocalityTracker;
use crate::stats::spec_hit_rate_millis;

verus! {

// ---------------------------------------------------------------------------
// Time context
// ---------------------------------------------------------------------------

/// Relies on chrono's `Utc::now`: whatever the instant, the hour lies
/// below twenty-four and the from-Monday weekday index below seven.
/// chrono expects a system clock at or after the Unix epoch — an
/// environment condition, not an input, so no `requires` can name it.
#[verifier::external_body]
fn utc_now_hour_dow() -> (r: (u8, u8))
    ensures
        r.0 < 24,
        r.1 < 7,
{
    let now = chrono::Utc::now();
    (
        chrono::Timelike::hour(&now) as u8,
        chrono::Datelike::weekday(&now).num_days_from_monday() as u8,
    )
}

/// The wall-clock context a warming decision may consult.
#[derive(Debug, Clone, Copy, PartialEq, Eq, Structural)]
pub struct TimeContext {
    pub hour_of_day: u8,
    pub day_of_week: u8,
    pub is_weekend: bool,
}

impl TimeContext {
    /// The current UTC hour and weekday; Saturday and Sunday count as
    /// the weekend.
    pub fn current() -> (r: Self)
        ensures
            r.hour_of_day < 24,
            r.day_of_week < 7,
            r.is_weekend == (r.day_of_week >= 5),
    {
        let (hour_of_day, day_of_week) = utc_now_hour_dow();
        TimeContext { hour_of_day, day_of_week, is_weekend: day_of_week >= 5 }
    }
}

/// What a warming strategy may consult: recently accessed keys with
/// their counts, the cache's hit rate in thousandths, the remaining
/// capacity estimate, and the time of day.
pub struct WarmingContext {
    pub recent_access: Vec<(String, u64)>,
    pub hit_rate_millis: u64,
    pub available_capacity: usize,
    pub time_context: TimeContext,
}

// ---------------------------------------------------------------------------
// Predictive warming
// ---------------------------------------------------------------------------

/// A key qualifies for predictive warming when its history spans at
/// least two accesses over a positive span and its rate, in thousandths
/// of an access per second, reaches the threshold.
pub open spec fn predictive_candidate(h: (String, Vec<u64>), min_frequency_millis: u64) -> bool {
    &&& h.1@.len() >= 2
    &&& h.1@.last() > h.1@[0]
    &&& h.1@.len() * 1000 >= min_frequency_millis * (h.1@.last() - h.1@[0])
}

/// The key is a qualifying key of the history.
pub open spec fn predicted_key(
    k: Seq<char>,
    history: Seq<(String, Vec<u64>)>,
    min_frequency_millis: u64,
) -> bool {
    exists|t: int|
        0 <= t < history.len() && k == (#[trigger] history[t]).0@ && predictive_candidate(
            history[t],
            min_frequency_millis,
        )
}

/// The pair names a qualifying key of the history.
pub open spec fn predicted_from(
    p: (String, u64),
    history: Seq<(String, Vec<u64>)>,
    min_frequency_millis: u64,
) -> bool {
    predicted_key(p.0@, history, min_frequency_millis)
}

/// Some listed pair carries the key.
pub open spec fn appears(k: Seq<char>, s: Seq<(String, u64)>) -> bool {
    exists|j: int| 0 <= j < s.len() && (#[trigger] s[j]).0@ == k
}

/// Some listed key equals `k`.
pub open spec fn listed(k: Seq<char>, s: Seq<String>) -> bool {
    exists|j: int| 0 <= j < s.len() && (#[trigger] s[j])@ == k
}

pub open spec fn ph_has(s: Seq<(String, Vec<u64>)>, k: Seq<char>) -> bool {
    exists|i: int| 0 <= i < s.len() && (#[trigger] s[i]).0@ == k
}

pub open spec fn ph_index(s: Seq<(String, Vec<u64>)>, k: Seq<char>) -> int {
    choose|i: int| 0 <= i < s.len() && (#[trigger] s[i]).0@ == k
}

pub open spec fn ph_distinct(s: Seq<(String, Vec<u64>)>) -> bool {
    forall|i: int, j: int|
        0 <= i < j < s.len() ==> (#[trigger] s[i]).0@ != (#[trigger] s[j]).0@
}

proof fn lemma_ph_index_unique(s: Seq<(String, Vec<u64>)>, k: Seq<char>, i: int)
    requires
        ph_distinct(s),
        0 <= i < s.len(),
        s[i].0@ == k,
    ensures
        ph_has(s, k),
        ph_index(s, k) == i,
{
    assert(ph_has(s, k));
    let j = choose|j: int| 0 <= j < s.len() && (#[trigger] s[j]).0@ == k;
    if i < j {
        assert(s[i].0@ != s[j].0@);
    } else if j < i {
        assert(s[j].0@ != s[i].0@);
    }
}

pub open spec fn ra_distinct(s: Seq<(String, u64)>) -> bool {
    forall|i: int, j: int|
        0 <= i < j < s.len() ==> (#[trigger] s[i]).0@ != (#[trigger] s[j]).0@
}

pub open spec fn ra_index(s: Seq<(String, u64)>, k: Seq<char>) -> int {
    choose|i: int| 0 <= i < s.len() && (#[trigger] s[i]).0@ == k
}

proof fn lemma_ra_index_unique(s: Seq<(String, u64)>, k: Seq<char>, i: int)
    requires
        ra_distinct(s),
        0 <= i < s.len(),
        s[i].0@ == k,
    ensures
        appears(k, s),
        ra_index(s, k) == i,
{
    assert(appears(k, s));
    let j = choose|j: int| 0 <= j < s.len() && (#[trigger] s[j]).0@ == k;
    if i < j {
        assert(s[i].0@ != s[j].0@);
    } else if j < i {
        assert(s[j].0@ != s[i].0@);
    }
}

/// The recent-access count recorded for a key, or zero: the first
/// matching entry decides.
pub open spec fn spec_recent_count(recent: Seq<(String, u64)>, k: Seq<char>) -> int
    decreases recent.len(),
{
    if recent.len() == 0 {
        0
    } else if recent[0].0@ == k {
        recent[0].1 as int
    } else {
        spec_recent_count(recent.skip(1), k)
    }
}

/// How many history entries qualify for warming.
pub open spec fn count_qualifying(s: Seq<(String, Vec<u64>)>, min_frequency_millis: u64) -> int
    decreases s.len(),
{
    if s.len() == 0 {
        0
    } else {
        (if predictive_candidate(s[0], min_frequency_millis) {
            1int
        } else {
            0int
        }) + count_qualifying(s.skip(1), min_frequency_millis)
    }
}

proof fn lemma_count_qualifying_push(
    s: Seq<(String, Vec<u64>)>,
    e: (String, Vec<u64>),
    min_frequency_millis: u64,
)
    ensures
        count_qualifying(s.push(e), min_frequency_millis) == count_qualifying(
            s,
            min_frequency_millis,
        ) + if predictive_candidate(e, min_frequency_millis) {
            1int
        } else {
            0int
        },
    decreases s.len(),
{
    if s.len() == 0 {
        assert(s.push(e)[0] == e);
        assert(s.push(e).skip(1) =~= Seq::<(String, Vec<u64>)>::empty());
        assert(count_qualifying(Seq::<(String, Vec<u64>)>::empty(), min_frequency_millis) == 0);
        assert(s.push(e).len() == 1);
    } else {
        assert(s.push(e).skip(1) =~= s.skip(1).push(e));
        assert(s.push(e)[0] == s[0]);
        lemma_count_qualifying_push(s.skip(1), e, min_frequency_millis);
    }
}

/// Predicts keys to warm from each key's own access history: keys whose
/// observed frequency reaches the threshold, ordered by how often they
/// were recently accessed.
pub struct PredictiveWarming {
    pub access_history: Vec<(String, Vec<u64>)>,
    pub max_warm_keys: usize,
    pub min_frequency_millis: u64,
}

impl PredictiveWarming {
    /// Well-formedness: each key has one history.
    pub open spec fn wf(&self) -> bool {
        ph_distinct(self.access_history@)
    }

    /// `min_frequency_millis` is the qualifying access rate in
    /// thousandths of an access per second.
    pub fn new(max_warm_keys: usize, min_frequency_millis: u64) -> (r: Self)
        ensures
            r.wf(),
            r.max_warm_keys == max_warm_keys,
            r.min_frequency_millis == min_frequency_millis,
            r.access_history@ == Seq::<(String, Vec<u64>)>::empty(),
    {
        PredictiveWarming { access_history: Vec::new(), max_warm_keys, min_frequency_millis }
    }

    /// Records one access at `now_secs` (wall-clock seconds): the key's
    /// history gains the instant, keeping at most the last thousand and
    /// dropping the oldest beyond that; other keys' histories do not
    /// move.
    pub fn record_access(&mut self, key: &String, now_secs: u64)
        requires
            old(self).wf(),
        ensures
            final(self).wf(),
            final(self).max_warm_keys == old(self).max_warm_keys,
            final(self).min_frequency_millis == old(self).min_frequency_millis,
            ({
                let s = old(self).access_history@;
                let fe = final(self).access_history@;
                if ph_has(s, key@) {
                    let i = ph_index(s, key@);
                    let base = s[i].1@.push(now_secs);
                    &&& fe.len() == s.len()
                    &&& forall|j: int| 0 <= j < s.len() && j != i ==> fe[j] == s[j]
                    &&& fe[i].0 == s[i].0
                    &&& fe[i].1@ == if base.len() > 1000 {
                        base.skip(1)
                    } else {
                        base
                    }
                } else {
                    &&& fe.len() == s.len() + 1
                    &&& fe.drop_last() == s
                    &&& fe.last().0@ == key@
                    &&& fe.last().1@ == seq![now_secs]
                }
            }),
    {
        let ghost s0 = self.access_history@;
        let n = self.access_history.len();
        let mut j: usize = 0;
        while j < n
            invariant
                0 <= j <= n,
                n == s0.len(),
                self.access_history@ == s0,
                s0 == old(self).access_history@,
                ph_distinct(s0),
                self.max_warm_keys == old(self).max_warm_keys,
                self.min_frequency_millis == old(self).min_frequency_millis,
                forall|t: int| 0 <= t < j ==> (#[trigger] s0[t]).0@ != key@,
            decreases n - j,
        {
            if self.access_history[j].0 == *key {
                proof {
                    lemma_ph_index_unique(s0, key@, j as int);
                }
                let k0 = self.access_history[j].0.clone();
                let mut times = self.access_history[j].1.clone();
                proof {
                    assert(times@ =~= s0[j as int].1@);
                }
                times.push(now_secs);
                if times.len() > 1000 {
                    let ghost t0 = times@;
                    times.remove(0);
                    proof {
                        assert(times@ =~= t0.skip(1));
                    }
                }
                self.access_history[j] = (k0, times);
                proof {
                    let fe = self.access_history@;
                    assert forall|a: int, b: int|
                        0 <= a < b < fe.len() implies (#[trigger] fe[a]).0@ != (
                    #[trigger] fe[b]).0@ by {
                        assert(fe[a].0@ == s0[a].0@);
                        assert(fe[b].0@ == s0[b].0@);
                    }
                }
                return ;
            }
            j = j + 1;
        }
        proof {
            assert(!ph_has(s0, key@)) by {
                if ph_has(s0, key@) {
                    let t = choose|t: int| 0 <= t < s0.len() && (#[trigger] s0[t]).0@ == key@;
                    assert(s0[t].0@ != key@);
                }
            }
        }
        let mut times: Vec<u64> = Vec::new();
        times.push(now_secs);
        proof {
            assert(times@ =~= seq![now_secs]);
        }
        self.access_history.push((key.clone(), times));
        proof {
            assert(self.access_history@.drop_last() =~= s0);
            let fe = self.access_history@;
            assert forall|a: int, b: int|
                0 <= a < b < fe.len() implies (#[trigger] fe[a]).0@ != (
            #[trigger] fe[b]).0@ by {
                if b < s0.len() {
                    assert(fe[a] == s0[a] && fe[b] == s0[b]);
                } else {
                    assert(fe[a] == s0[a]);
                    if s0[a].0@ == key@ {
                        assert(ph_has(s0, key@));
                    }
                }
            }
        }
    }

    /// The keys predicted worth warming: every qualifying key of the
    /// history, ordered by descending recent-access count and cut to the
    /// warm bound.
    pub fn generate_warming_keys(&self, context: &WarmingContext) -> (r: Vec<String>)
        ensures
            r@.len() <= self.max_warm_keys,
            forall|i: int|
                0 <= i < r@.len() ==> predicted_key(
                    (#[trigger] r@[i])@,
                    self.access_history@,
                    self.min_frequency_millis,
                ),
            r@.len() < self.max_warm_keys ==> forall|t: int|
                0 <= t < self.access_history@.len() && predictive_candidate(
                    #[trigger] self.access_history@[t],
                    self.min_frequency_millis,
                ) ==> listed(self.access_history@[t].0@, r@),
            forall|a: int, b: int|
                0 <= a < b < r@.len() ==> spec_recent_count(
                    context.recent_access@,
                    (#[trigger] r@[a])@,
                ) >= spec_recent_count(context.recent_access@, (#[trigger] r@[b])@),
            r@.len() == if count_qualifying(self.access_history@, self.min_frequency_millis)
                <= self.max_warm_keys {
                count_qualifying(self.access_history@, self.min_frequency_millis)
            } else {
                self.max_warm_keys as int
            },
    {
        let ghost hist = self.access_history@;
        let mut candidates: Vec<(String, u64)> = Vec::new();
        proof {
            assert(hist.take(0) =~= Seq::<(String, Vec<u64>)>::empty());
        }
        let n = self.access_history.len();
        let mut t: usize = 0;
        while t < n
            invariant
                0 <= t <= n,
                n == hist.len(),
                self.access_history@ == hist,
                forall|i: int|
                    0 <= i < candidates@.len() ==> predicted_from(
                        #[trigger] candidates@[i],
                        hist,
                        self.min_frequency_millis,
                    ),
                forall|u: int|
                    0 <= u < t && predictive_candidate(
                        #[trigger] hist[u],
                        self.min_frequency_millis,
                    ) ==> appears(hist[u].0@, candidates@),
                forall|i: int|
                    0 <= i < candidates@.len() ==> (#[trigger] candidates@[i]).1
                        == spec_recent_count(context.recent_access@, candidates@[i].0@),
                candidates@.len() == count_qualifying(
                    hist.take(t as int),
                    self.min_frequency_millis,
                ),
            decreases n - t,
        {
            proof {
                assert(hist.take(t + 1).drop_last() =~= hist.take(t as int));
                assert(hist.take(t + 1) =~= hist.take(t as int).push(hist[t as int]));
                lemma_count_qualifying_push(
                    hist.take(t as int),
                    hist[t as int],
                    self.min_frequency_millis,
                );
            }
            let times = &self.access_history[t].1;
            if times.len() >= 2 {
                let first = times[0];
                let last = times[times.len() - 1];
                if last > first {
                    let span = last - first;
                    let minf = self.min_frequency_millis;
                    proof {
                        assert((minf as int) * (span as int) <= 0xffffffffffffffffu64
                            * 0xffffffffffffffffu64) by (nonlinear_arith)
                            requires
                                0 <= minf <= 0xffffffffffffffffu64,
                                0 <= span <= 0xffffffffffffffffu64,
                        ;
                    }
                    let qualifies = (times.len() as u128) * 1000 >= (minf as u128) * (
                    span as u128);
                    if qualifies {
                        let key = self.access_history[t].0.clone();
                        let count = recent_count(&context.recent_access, &key);
                        let ghost c0 = candidates@;
                        candidates.push((key, count));
                        proof {
                            assert(predictive_candidate(
                                hist[t as int],
                                self.min_frequency_millis,
                            ));
                            assert(candidates@[c0.len() as int].0@ == hist[t as int].0@);
                            assert(appears(hist[t as int].0@, candidates@));
                            assert(forall|i: int|
                                0 <= i < c0.len() ==> candidates@[i] == #[trigger] c0[i]);
                            assert forall|u: int|
                                0 <= u < t + 1 && predictive_candidate(
                                #[trigger] hist[u],
                                self.min_frequency_millis,
                            ) implies appears(hist[u].0@, candidates@) by {
                                if u < t as int {
                                    let j = choose|j: int|
                                        0 <= j < c0.len() && (#[trigger] c0[j]).0@ == hist[u].0@;
                                    assert(candidates@[j].0@ == hist[u].0@);
                                }
                            }
                        }
                    } else {
                        proof {
                            assert(!predictive_candidate(
                                hist[t as int],
                                self.min_frequency_millis,
                            ));
                        }
                    }
                } else {
                    proof {
                        assert(!predictive_candidate(
                            hist[t as int],
                            self.min_frequency_millis,
                        ));
                    }
                }
            } else {
                proof {
                    assert(!predictive_candidate(hist[t as int], self.min_frequency_millis));
                }
            }
            t = t + 1;
        }
        proof {
            assert(hist.take(n as int) =~= hist);
        }
        // Order by descending recent-access count, stably, and cut to
        // the warm bound.
        let mut sorted: Vec<(String, u64)> = Vec::new();
        let cn = candidates.len();
        let mut i: usize = 0;
        while i < cn
            invariant
                0 <= i <= cn,
                cn == candidates@.len(),
                forall|a: int|
                    0 <= a < candidates@.len() ==> predicted_from(
                        #[trigger] candidates@[a],
                        hist,
                        self.min_frequency_millis,
                    ),
                forall|u: int|
                    0 <= u < hist.len() && predictive_candidate(
                        #[trigger] hist[u],
                        self.min_frequency_millis,
                    ) ==> appears(hist[u].0@, candidates@),
                self.access_history@ == hist,
                forall|a: int|
                    0 <= a < candidates@.len() ==> (#[trigger] candidates@[a]).1
                        == spec_recent_count(context.recent_access@, candidates@[a].0@),
                candidates@.len() == count_qualifying(hist, self.min_frequency_millis),
                sorted@.len() == i,
                forall|a: int|
                    0 <= a < sorted@.len() ==> predicted_from(
                        #[trigger] sorted@[a],
                        hist,
                        self.min_frequency_millis,
                    ),
                forall|a: int|
                    0 <= a < i ==> appears((#[trigger] candidates@[a]).0@, sorted@),
                crate::metrics::sorted_desc(sorted@),
                forall|a: int|
                    0 <= a < sorted@.len() ==> (#[trigger] sorted@[a]).1 == spec_recent_count(
                        context.recent_access@,
                        sorted@[a].0@,
                    ),
            decreases cn - i,
        {
            let k = candidates[i].0.clone();
            let c = candidates[i].1;
            let m = sorted.len();
            let mut p: usize = 0;
            while p < m && sorted[p].1 >= c
                invariant
                    0 <= p <= m,
                    m == sorted@.len(),
                    forall|t2: int| 0 <= t2 < p ==> (#[trigger] sorted@[t2]).1 >= c,
                decreases m - p,
            {
                p = p + 1;
            }
            let ghost before = sorted@;
            sorted.insert(p, (k, c));
            proof {
                assert(candidates@[i as int].0@ == sorted@[p as int].0@);
                assert(predicted_from(
                    candidates@[i as int],
                    hist,
                    self.min_frequency_millis,
                ));
                assert(sorted@[p as int].0@ == candidates@[i as int].0@ && sorted@[p as int].1
                    == candidates@[i as int].1);
                assert(crate::metrics::sorted_desc(before));
                assert forall|a: int, b: int|
                    0 <= a < b < sorted@.len() implies (#[trigger] sorted@[a]).1 >= (
                #[trigger] sorted@[b]).1 by {
                    let a0 = if a < p as int {
                        a
                    } else {
                        a - 1
                    };
                    let b0 = if b < p as int {
                        b
                    } else {
                        b - 1
                    };
                    if a == p as int {
                        assert(sorted@[b] == before[b - 1]);
                        if b - 1 >= p as int {
                            if (p as int) < m {
                                assert(before[p as int].1 < c);
                            }
                            if b - 1 > p as int {
                                assert(before[p as int].1 >= before[b - 1].1);
                            }
                        }
                    } else if b == p as int {
                        assert(sorted@[a] == before[a]);
                        assert(before[a].1 >= c);
                    } else {
                        assert(sorted@[a] == before[a0] && sorted@[b] == before[b0]);
                    }
                }
                assert forall|a: int|
                    0 <= a < sorted@.len() implies (#[trigger] sorted@[a]).1
                    == spec_recent_count(context.recent_access@, sorted@[a].0@) by {
                    if a != p as int {
                        let a0 = if a < p as int {
                            a
                        } else {
                            a - 1
                        };
                        assert(sorted@[a] == before[a0]);
                    } else {
                        assert(sorted@[a] == candidates@[i as int]);
                    }
                }
                assert forall|a: int|
                    0 <= a < sorted@.len() implies predicted_from(
                    #[trigger] sorted@[a],
                    hist,
                    self.min_frequency_millis,
                ) by {
                    if a != p as int {
                        let a0 = if a < p as int {
                            a
                        } else {
                            a - 1
                        };
                        assert(sorted@[a] == before[a0]);
                    } else {
                        assert(sorted@[a] == candidates@[i as int]);
                    }
                }
                assert forall|a: int|
                    0 <= a < i + 1 implies appears(
                    (#[trigger] candidates@[a]).0@,
                    sorted@,
                ) by {
                    if a < i as int {
                        let j = choose|j: int|
                            0 <= j < before.len() && (#[trigger] before[j]).0@
                                == candidates@[a].0@;
                        let j2 = if j < p as int {
                            j
                        } else {
                            j + 1
                        };
                        assert(sorted@[j2] == before[j]);
                        assert(sorted@[j2].0@ == candidates@[a].0@);
                    } else {
                        assert(sorted@[p as int].0@ == candidates@[a].0@);
                    }
                }
            }
            i = i + 1;
        }
        let mut r: Vec<String> = Vec::new();
        let mut q: usize = 0;
        while q < sorted.len() && r.len() < self.max_warm_keys
            invariant
                0 <= q <= sorted@.len(),
                r@.len() <= self.max_warm_keys,
                r@.len() == q,
                forall|a: int|
                    0 <= a < sorted@.len() ==> predicted_from(
                        #[trigger] sorted@[a],
                        hist,
                        self.min_frequency_millis,
                    ),
                self.access_history@ == hist,
                forall|a: int| 0 <= a < q ==> (#[trigger] r@[a])@ == sorted@[a].0@,
                forall|a: int|
                    0 <= a < r@.len() ==> predicted_key(
                        (#[trigger] r@[a])@,
                        hist,
                        self.min_frequency_millis,
                    ),
            decreases sorted@.len() - q,
        {
            let ghost r0 = r@;
            r.push(sorted[q].0.clone());
            proof {
                assert(r@[r0.len() as int]@ == sorted@[q as int].0@);
                assert(forall|a: int| 0 <= a < r0.len() ==> r@[a] == #[trigger] r0[a]);
            }
            q = q + 1;
        }
        proof {
            assert(r@.len() == if sorted@.len() <= self.max_warm_keys {
                sorted@.len() as int
            } else {
                self.max_warm_keys as int
            });
            assert forall|a: int, b: int|
                0 <= a < b < r@.len() implies spec_recent_count(
                context.recent_access@,
                (#[trigger] r@[a])@,
            ) >= spec_recent_count(context.recent_access@, (#[trigger] r@[b])@) by {
                assert(r@[a]@ == sorted@[a].0@);
                assert(r@[b]@ == sorted@[b].0@);
                assert(sorted@[a].1 >= sorted@[b].1);
            }
            if r@.len() < self.max_warm_keys {
                // Nothing was cut: every qualifying key made it through
                // the candidate collection, the ordering pass, and the
                // final prefix.
                assert(r@.len() == sorted@.len());
                assert forall|u: int|
                    0 <= u < hist.len() && predictive_candidate(
                    #[trigger] hist[u],
                    self.min_frequency_millis,
                ) implies listed(hist[u].0@, r@) by {
                    assert(appears(hist[u].0@, candidates@));
                    let a = choose|a: int|
                        0 <= a < candidates@.len() && (#[trigger] candidates@[a]).0@
                            == hist[u].0@;
                    assert(appears(candidates@[a].0@, sorted@));
                    let j = choose|j: int|
                        0 <= j < sorted@.len() && (#[trigger] sorted@[j]).0@
                            == candidates@[a].0@;
                    assert(r@[j]@ == sorted@[j].0@);
                }
            }
        }
        r
    }

    /// Whether a key matches the current time pattern; the base strategy
    /// accepts every key.
    pub fn matches_time_pattern(&self, _key: &String, _time_context: &TimeContext) -> (r: bool)
        ensures
            r,
    {
        true
    }
}

// ---------------------------------------------------------------------------
// Neighbor warming
// ---------------------------------------------------------------------------

/// A chunk key in the analytics form, `array/chunk_c0.c1...cN-1`.
pub open spec fn spec_prefixed_chunk_key(array: Seq<char>, coords: Seq<int>) -> Seq<char> {
    array + seq!['/'] + "chunk_"@ + spec_join(coords.map_values(|n_: int| spec_dec(n_)), '.')
}

/// The neighbor keys derived from one accessed key, before the warm
/// bound is applied: axis neighbors of the parsed coordinates, formatted
/// back in the key's own form (with or without the `chunk_` prefix); an
/// unparseable key yields nothing.
pub open spec fn spec_neighbor_warm_keys(key: Seq<char>, d: int) -> Seq<Seq<char>> {
    match spec_parse_chunk_key(key) {
        Some(p) => spec_neighbors(p.1, d).map_values(|c: Seq<int>| spec_chunk_key(p.0, c)),
        None => match spec_parse_chunk_coordinate(key) {
            Some(p) => spec_neighbors(p.1, d).map_values(
                |c: Seq<int>| spec_prefixed_chunk_key(p.0, c),
            ),
            None => Seq::<Seq<char>>::empty(),
        },
    }
}

/// The key is a neighbor key of some recently accessed key.
pub open spec fn neighbor_warmed_key(k: Seq<char>, recent: Seq<(String, u64)>, d: int) -> bool {
    exists|t: int|
        0 <= t < recent.len() && spec_neighbor_warm_keys((#[trigger] recent[t]).0@, d).contains(k)
}

/// Every recent key's neighbor list fits within `max` on its own.
pub open spec fn neighbor_lists_within(recent: Seq<(String, u64)>, d: int, max: int) -> bool {
    forall|t: int|
        0 <= t < recent.len() ==> spec_neighbor_warm_keys((#[trigger] recent[t]).0@, d).len()
            <= max
}

/// Every neighbor key of every recent key is listed.
pub open spec fn all_neighbors_listed(recent: Seq<(String, u64)>, d: int, r: Seq<String>) -> bool {
    forall|t: int, j: int|
        0 <= t < recent.len() && 0 <= j < spec_neighbor_warm_keys(recent[t].0@, d).len()
            ==> listed(#[trigger] spec_neighbor_warm_keys(recent[t].0@, d)[j], r)
}

proof fn lemma_listed_push(k: Seq<char>, s: Seq<String>, x: String)
    requires
        listed(k, s),
    ensures
        listed(k, s.push(x)),
{
    let j = choose|j: int| 0 <= j < s.len() && (#[trigger] s[j])@ == k;
    assert(s.push(x)[j]@ == k);
}

/// Warms the axis neighbors of recently accessed chunks.
pub struct NeighborWarming {
    pub neighbor_distance: usize,
    pub max_warm_keys: usize,
}

impl NeighborWarming {
    pub fn new(neighbor_distance: usize, max_warm_keys: usize) -> (r: Self)
        ensures
            r.neighbor_distance == neighbor_distance,
            r.max_warm_keys == max_warm_keys,
    {
        NeighborWarming { neighbor_distance, max_warm_keys }
    }

    /// The neighbor keys of one accessed key, in the key's own form, cut
    /// to the warm bound.
    pub fn generate_neighbors(&self, key: &str) -> (r: Vec<String>)
        ensures
            ({
                let all = spec_neighbor_warm_keys(
                    key@,
                    if self.neighbor_distance > i32::MAX as usize {
                        i32::MAX as int
                    } else {
                        self.neighbor_distance as int
                    },
                );
                str_views(r@) == if all.len() <= self.max_warm_keys {
                    all
                } else {
                    all.take(self.max_warm_keys as int)
                }
            }),
    {
        let ghost d: int = if self.neighbor_distance > i32::MAX as usize {
            i32::MAX as int
        } else {
            self.neighbor_distance as int
        };
        let mut out: Vec<String> = Vec::new();
        let parsed = crate::codec::parse_zarr_chunk_key(key);
        match parsed {
            Some((array_name, coords)) => {
                let neighbors = crate::codec::generate_neighbor_coordinates(
                    &coords,
                    self.neighbor_distance,
                );
                let ghost nbv = crate::codec::coord_views(neighbors@);
                let n = neighbors.len();
                let mut i: usize = 0;
                while i < n
                    invariant
                        0 <= i <= n,
                        n == neighbors@.len(),
                        nbv == crate::codec::coord_views(neighbors@),
                        str_views(out@) =~~= nbv.map_values(
                            |nc: Seq<int>| spec_chunk_key(array_name@, nc),
                        ).take(i as int),
                    decreases n - i,
                {
                    let k = crate::codec::coordinates_to_zarr_key(
                        array_name.as_str(),
                        &neighbors[i],
                    );
                    out.push(k);
                    proof {
                        let mapped = nbv.map_values(
                            |nc: Seq<int>| spec_chunk_key(array_name@, nc),
                        );
                        assert(mapped[i as int] == spec_chunk_key(array_name@, nbv[i as int]));
                        assert(nbv[i as int] == int_coords(neighbors@[i as int]@));
                        assert(out@.last()@ == spec_chunk_key(array_name@, nbv[i as int]));
                        assert(mapped.take(i as int).push(mapped[i as int]) =~= mapped.take(
                            i + 1,
                        ));
                        assert(str_views(out@) =~~= mapped.take(i + 1));
                    }
                    i = i + 1;
                }
                proof {
                    let mapped = nbv.map_values(
                        |nc: Seq<int>| spec_chunk_key(array_name@, nc),
                    );
                    assert(mapped.take(n as int) =~= mapped);
                    assert(str_views(out@) =~~= spec_neighbor_warm_keys(key@, d));
                }
            },
            None => {
                let probe = SpatialLocalityTracker::new();
                match probe.parse_chunk_coordinate(key) {
                    Some(coord) => {
                        let neighbors = crate::codec::generate_neighbor_coordinates(
                            &coord.coordinates,
                            self.neighbor_distance,
                        );
                        let ghost nbv = crate::codec::coord_views(neighbors@);
                        let ghost aname = coord.array_name@;
                        let n = neighbors.len();
                        let mut i: usize = 0;
                        while i < n
                            invariant
                                0 <= i <= n,
                                n == neighbors@.len(),
                                nbv == crate::codec::coord_views(neighbors@),
                                aname == coord.array_name@,
                                str_views(out@) =~~= nbv.map_values(
                                    |nc: Seq<int>| spec_prefixed_chunk_key(aname, nc),
                                ).take(i as int),
                            decreases n - i,
                        {
                            let mut k = coord.array_name.clone();
                            proof {
                                reveal_strlit("/chunk_");
                                reveal_strlit("/");
                                reveal_strlit("chunk_");
                            }
                            k.append("/chunk_");
                            let tail = format_coordinates(&neighbors[i]);
                            k.append(tail.as_str());
                            out.push(k);
                            proof {
                                let mapped = nbv.map_values(
                                    |nc: Seq<int>| spec_prefixed_chunk_key(aname, nc),
                                );
                                assert("/chunk_"@ =~= seq!['/'] + "chunk_"@);
                                assert(nbv[i as int] == int_coords(neighbors@[i as int]@));
                                assert(out@.last()@ =~= spec_prefixed_chunk_key(
                                    aname,
                                    nbv[i as int],
                                ));
                                assert(mapped[i as int] == spec_prefixed_chunk_key(
                                    aname,
                                    nbv[i as int],
                                ));
                                assert(mapped.take(i as int).push(mapped[i as int])
                                    =~= mapped.take(i + 1));
                                assert(str_views(out@) =~~= mapped.take(i + 1));
                            }
                            i = i + 1;
                        }
                        proof {
                            let mapped = nbv.map_values(
                                |nc: Seq<int>| spec_prefixed_chunk_key(aname, nc),
                            );
                            assert(mapped.take(n as int) =~= mapped);
                            assert(str_views(out@) =~~= spec_neighbor_warm_keys(key@, d));
                        }
                    },
                    None => {
                        proof {
                            assert(str_views(out@) =~= spec_neighbor_warm_keys(key@, d));
                        }
                    },
                }
            },
        }
        let ghost all = str_views(out@);
        if out.len() > self.max_warm_keys {
            let ghost full = out@;
            out.truncate(self.max_warm_keys);
            proof {
                assert(out@ == full.subrange(0, self.max_warm_keys as int));
                assert(str_views(out@) =~= all.take(self.max_warm_keys as int));
            }
        }
        out
    }

    /// The union of the neighbor keys of every recently accessed key:
    /// strictly ascending in lexicographic order — so free of duplicates
    /// — and cut to the warm bound. Every returned key is a neighbor key
    /// of some recent key, and when nothing was cut and no single key's
    /// neighbor list exceeds the bound on its own, every neighbor key of
    /// every recent key is listed.
    pub fn generate_warming_keys(&self, context: &WarmingContext) -> (r: Vec<String>)
        ensures
            r@.len() <= self.max_warm_keys,
            forall|i: int|
                0 <= i < r@.len() ==> neighbor_warmed_key(
                    (#[trigger] r@[i])@,
                    context.recent_access@,
                    if self.neighbor_distance > i32::MAX as usize {
                        i32::MAX as int
                    } else {
                        self.neighbor_distance as int
                    },
                ),
            forall|x: int, y: int|
                0 <= x < y < r@.len() ==> spec_str_lt((#[trigger] r@[x])@, (#[trigger] r@[y])@),
            (r@.len() < self.max_warm_keys && neighbor_lists_within(
                context.recent_access@,
                if self.neighbor_distance > i32::MAX as usize {
                    i32::MAX as int
                } else {
                    self.neighbor_distance as int
                },
                self.max_warm_keys as int,
            )) ==> all_neighbors_listed(
                context.recent_access@,
                if self.neighbor_distance > i32::MAX as usize {
                    i32::MAX as int
                } else {
                    self.neighbor_distance as int
                },
                r@,
            ),
    {
        let ghost d: int = if self.neighbor_distance > i32::MAX as usize {
            i32::MAX as int
        } else {
            self.neighbor_distance as int
        };
        let mut all: Vec<String> = Vec::new();
        let n = context.recent_access.len();
        let mut t: usize = 0;
        while t < n
            invariant
                0 <= t <= n,
                n == context.recent_access@.len(),
                d == if self.neighbor_distance > i32::MAX as usize {
                    i32::MAX as int
                } else {
                    self.neighbor_distance as int
                },
                forall|i: int|
                    0 <= i < all@.len() ==> neighbor_warmed_key(
                        (#[trigger] all@[i])@,
                        context.recent_access@,
                        d,
                    ),
                neighbor_lists_within(context.recent_access@, d, self.max_warm_keys as int)
                    ==> forall|t2: int, j: int|
                    0 <= t2 < t && 0 <= j < spec_neighbor_warm_keys(
                        context.recent_access@[t2].0@,
                        d,
                    ).len() ==> listed(
                        #[trigger] spec_neighbor_warm_keys(context.recent_access@[t2].0@, d)[j],
                        all@,
                    ),
            decreases n - t,
        {
            let neighbors = self.generate_neighbors(context.recent_access[t].0.as_str());
            let ghost nkeys = spec_neighbor_warm_keys(context.recent_access@[t as int].0@, d);
            proof {
                assert(str_views(neighbors@) == if nkeys.len() <= self.max_warm_keys {
                    nkeys
                } else {
                    nkeys.take(self.max_warm_keys as int)
                });
                assert forall|i: int|
                    0 <= i < neighbors@.len() implies nkeys.contains(
                    (#[trigger] neighbors@[i])@,
                ) by {
                    assert(str_views(neighbors@)[i] == neighbors@[i]@);
                    if nkeys.len() <= self.max_warm_keys {
                        assert(nkeys[i] == neighbors@[i]@);
                    } else {
                        assert(nkeys.take(self.max_warm_keys as int)[i] == neighbors@[i]@);
                        assert(nkeys[i] == neighbors@[i]@);
                    }
                }
            }
            let m = neighbors.len();
            let mut j: usize = 0;
            while j < m
                invariant
                    0 <= j <= m,
                    0 <= t < n,
                    n == context.recent_access@.len(),
                    m == neighbors@.len(),
                    nkeys == spec_neighbor_warm_keys(context.recent_access@[t as int].0@, d),
                    forall|i: int|
                        0 <= i < neighbors@.len() ==> nkeys.contains(
                            (#[trigger] neighbors@[i])@,
                        ),
                    forall|i: int|
                        0 <= i < all@.len() ==> neighbor_warmed_key(
                            (#[trigger] all@[i])@,
                            context.recent_access@,
                            d,
                        ),
                    str_views(neighbors@) == if nkeys.len() <= self.max_warm_keys {
                        nkeys
                    } else {
                        nkeys.take(self.max_warm_keys as int)
                    },
                    neighbor_lists_within(context.recent_access@, d, self.max_warm_keys as int)
                        ==> forall|t2: int, j2: int|
                        0 <= t2 < t && 0 <= j2 < spec_neighbor_warm_keys(
                            context.recent_access@[t2].0@,
                            d,
                        ).len() ==> listed(
                            #[trigger] spec_neighbor_warm_keys(
                                context.recent_access@[t2].0@,
                                d,
                            )[j2],
                            all@,
                        ),
                    nkeys.len() <= self.max_warm_keys ==> forall|j2: int|
                        0 <= j2 < j ==> listed(#[trigger] nkeys[j2], all@),
                decreases m - j,
            {
                let ghost a0 = all@;
                let k = neighbors[j].clone();
                all.push(k);
                proof {
                    assert(all@[a0.len() as int]@ == neighbors@[j as int]@);
                    assert(nkeys.contains(all@[a0.len() as int]@));
                    assert(neighbor_warmed_key(
                        all@[a0.len() as int]@,
                        context.recent_access@,
                        d,
                    ));
                    assert(forall|i: int| 0 <= i < a0.len() ==> all@[i] == #[trigger] a0[i]);
                    assert(all@ == a0.push(all@[a0.len() as int]));
                    if neighbor_lists_within(context.recent_access@, d, self.max_warm_keys as int) {
                        assert forall|t2: int, j2: int|
                            0 <= t2 < t && 0 <= j2 < spec_neighbor_warm_keys(
                            context.recent_access@[t2].0@,
                            d,
                        ).len() implies listed(
                            #[trigger] spec_neighbor_warm_keys(
                                context.recent_access@[t2].0@,
                                d,
                            )[j2],
                            all@,
                        ) by {
                            lemma_listed_push(
                                spec_neighbor_warm_keys(
                                    context.recent_access@[t2].0@,
                                    d,
                                )[j2],
                                a0,
                                all@.last(),
                            );
                        }
                    }
                    if nkeys.len() <= self.max_warm_keys {
                        assert(str_views(neighbors@) == nkeys);
                        assert(neighbors@[j as int]@ == nkeys[j as int]);
                        assert forall|j2: int| 0 <= j2 < j + 1 implies listed(
                            #[trigger] nkeys[j2],
                            all@,
                        ) by {
                            if j2 < j as int {
                                lemma_listed_push(nkeys[j2], a0, all@.last());
                            } else {
                                assert(all@[a0.len() as int]@ == nkeys[j2]);
                            }
                        }
                    }
                }
                j = j + 1;
            }
            proof {
                if neighbor_lists_within(context.recent_access@, d, self.max_warm_keys as int) {
                    assert(nkeys.len() <= self.max_warm_keys);
                    assert forall|t2: int, j2: int|
                        0 <= t2 < t + 1 && 0 <= j2 < spec_neighbor_warm_keys(
                        context.recent_access@[t2].0@,
                        d,
                    ).len() implies listed(
                        #[trigger] spec_neighbor_warm_keys(
                            context.recent_access@[t2].0@,
                            d,
                        )[j2],
                        all@,
                    ) by {
                        if t2 == t as int {
                            assert(listed(nkeys[j2], all@));
                        }
                    }
                }
            }
            t = t + 1;
        }
        // Order lexicographically, drop duplicates, and cut to the warm
        // bound.
        let mut sorted: Vec<String> = Vec::new();
        let an = all.len();
        let mut i: usize = 0;
        while i < an
            invariant
                0 <= i <= an,
                an == all@.len(),
                forall|x: int|
                    0 <= x < all@.len() ==> neighbor_warmed_key(
                        (#[trigger] all@[x])@,
                        context.recent_access@,
                        d,
                    ),
                d == if self.neighbor_distance > i32::MAX as usize {
                    i32::MAX as int
                } else {
                    self.neighbor_distance as int
                },
                forall|x: int|
                    0 <= x < sorted@.len() ==> neighbor_warmed_key(
                        (#[trigger] sorted@[x])@,
                        context.recent_access@,
                        d,
                    ),
                forall|x: int, y: int|
                    0 <= x < y < sorted@.len() ==> spec_str_lt(
                        (#[trigger] sorted@[x])@,
                        (#[trigger] sorted@[y])@,
                    ),
                forall|x: int| 0 <= x < i ==> listed((#[trigger] all@[x])@, sorted@),
            decreases an - i,
        {
            let k = all[i].clone();
            let m = sorted.len();
            let mut p: usize = 0;
            while p < m && str_lt(&sorted[p], &k)
                invariant
                    0 <= p <= m,
                    m == sorted@.len(),
                    forall|t: int| 0 <= t < p ==> spec_str_lt((#[trigger] sorted@[t])@, k@),
                decreases m - p,
            {
                p = p + 1;
            }
            let duplicate = p < sorted.len() && sorted[p] == k;
            if !duplicate {
                proof {
                    if (p as int) < sorted@.len() {
                        lemma_str_lt_connected(k@, sorted@[p as int]@);
                        assert(spec_str_lt(k@, sorted@[p as int]@));
                    }
                }
                let ghost before = sorted@;
                sorted.insert(p, k);
                proof {
                    assert forall|x: int| 0 <= x < i + 1 implies listed(
                        (#[trigger] all@[x])@,
                        sorted@,
                    ) by {
                        if x < i as int {
                            let w = choose|w: int|
                                0 <= w < before.len() && (#[trigger] before[w])@ == all@[x]@;
                            let w2 = if w < p as int {
                                w
                            } else {
                                w + 1
                            };
                            assert(sorted@[w2] == before[w]);
                            assert(sorted@[w2]@ == all@[x]@);
                        } else {
                            assert(sorted@[p as int]@ == all@[x]@);
                        }
                    }
                    assert(sorted@[p as int]@ == all@[i as int]@);
                    assert forall|x: int|
                        0 <= x < sorted@.len() implies neighbor_warmed_key(
                        (#[trigger] sorted@[x])@,
                        context.recent_access@,
                        d,
                    ) by {
                        if x != p as int {
                            let x0 = if x < p as int {
                                x
                            } else {
                                x - 1
                            };
                            assert(sorted@[x] == before[x0]);
                        } else {
                            assert(neighbor_warmed_key(
                                all@[i as int]@,
                                context.recent_access@,
                                d,
                            ));
                        }
                    }
                    assert forall|x: int, y: int|
                        0 <= x < y < sorted@.len() implies spec_str_lt(
                        (#[trigger] sorted@[x])@,
                        (#[trigger] sorted@[y])@,
                    ) by {
                        let x0 = if x < p as int {
                            x
                        } else {
                            x - 1
                        };
                        let y0 = if y < p as int {
                            y
                        } else {
                            y - 1
                        };
                        if x == p as int {
                            assert(sorted@[y] == before[y0]);
                            if y0 == p as int {
                                assert(spec_str_lt(k@, before[p as int]@));
                            } else {
                                assert(spec_str_lt(before[p as int]@, before[y0]@));
                                lemma_str_lt_trans(k@, before[p as int]@, before[y0]@);
                            }
                        } else if y == p as int {
                            assert(sorted@[x] == before[x0]);
                            assert(spec_str_lt(before[x0]@, k@));
                        } else {
                            assert(sorted@[x] == before[x0] && sorted@[y] == before[y0]);
                        }
                    }
                }
            }
            if duplicate {
                proof {
                    assert(sorted@[p as int]@ == all@[i as int]@);
                    assert forall|x: int| 0 <= x < i + 1 implies listed(
                        (#[trigger] all@[x])@,
                        sorted@,
                    ) by {
                        if x == i as int {
                            assert(sorted@[p as int]@ == all@[x]@);
                        }
                    }
                }
            }
            i = i + 1;
        }
        if sorted.len() > self.max_warm_keys {
            let ghost full = sorted@;
            sorted.truncate(self.max_warm_keys);
            proof {
                assert(sorted@ == full.subrange(0, self.max_warm_keys as int));
                assert(forall|x: int|
                    0 <= x < sorted@.len() ==> #[trigger] sorted@[x] == full[x]);
                assert forall|x: int|
                    0 <= x < sorted@.len() implies neighbor_warmed_key(
                    (#[trigger] sorted@[x])@,
                    context.recent_access@,
                    d,
                ) by {
                    assert(sorted@[x] == full[x]);
                    assert(neighbor_warmed_key(full[x]@, context.recent_access@, d));
                }
            }
        }
        proof {
            if sorted@.len() < self.max_warm_keys && neighbor_lists_within(
                context.recent_access@,
                d,
                self.max_warm_keys as int,
            ) {
                assert forall|t2: int, j2: int|
                    0 <= t2 < context.recent_access@.len() && 0 <= j2
                        < spec_neighbor_warm_keys(
                        context.recent_access@[t2].0@,
                        d,
                    ).len() implies listed(
                    #[trigger] spec_neighbor_warm_keys(context.recent_access@[t2].0@, d)[j2],
                    sorted@,
                ) by {
                    let nk = spec_neighbor_warm_keys(context.recent_access@[t2].0@, d)[j2];
                    assert(listed(nk, all@));
                    let w = choose|w: int| 0 <= w < all@.len() && (#[trigger] all@[w])@ == nk;
                    assert(listed(all@[w]@, sorted@));
                }
            }
        }
        sorted
    }
}

/// Strict lexicographic order on the characters' code points.
pub open spec fn spec_str_lt(a: Seq<char>, b: Seq<char>) -> bool
    decreases a.len(),
{
    if b.len() == 0 {
        false
    } else if a.len() == 0 {
        true
    } else if a[0] < b[0] {
        true
    } else if a[0] > b[0] {
        false
    } else {
        spec_str_lt(a.skip(1), b.skip(1))
    }
}

proof fn lemma_str_lt_trans(a: Seq<char>, b: Seq<char>, c: Seq<char>)
    requires
        spec_str_lt(a, b),
        spec_str_lt(b, c),
    ensures
        spec_str_lt(a, c),
    decreases a.len(),
{
    if a.len() == 0 {
    } else {
        if a[0] == b[0] && b[0] == c[0] {
            lemma_str_lt_trans(a.skip(1), b.skip(1), c.skip(1));
        }
    }
}

/// Two strings that neither precedes are the same string.
proof fn lemma_str_lt_connected(a: Seq<char>, b: Seq<char>)
    ensures
        spec_str_lt(a, b) || spec_str_lt(b, a) || a == b,
    decreases a.len(),
{
    if a.len() == 0 && b.len() == 0 {
        assert(a =~= b);
    } else if a.len() > 0 && b.len() > 0 {
        if a[0] == b[0] {
            lemma_str_lt_connected(a.skip(1), b.skip(1));
            if a.skip(1) == b.skip(1) {
                assert(a.len() == b.len()) by {
                    assert(a.skip(1).len() == b.skip(1).len());
                }
                assert(a =~= b) by {
                    assert(forall|i: int| 1 <= i < a.len() ==> a[i] == a.skip(1)[i - 1]);
                    assert(forall|i: int| 1 <= i < b.len() ==> b[i] == b.skip(1)[i - 1]);
                }
            }
        }
    }
}

/// Lexicographic comparison on the characters' code points.
fn str_lt(a: &String, b: &String) -> (r: bool)
    ensures
        r == spec_str_lt(a@, b@),
{
    let asr = a.as_str();
    let bsr = b.as_str();
    let an = asr.unicode_len();
    let bn = bsr.unicode_len();
    let n = if an < bn {
        an
    } else {
        bn
    };
    let mut i: usize = 0;
    proof {
        assert(a@.skip(0) =~= a@);
        assert(b@.skip(0) =~= b@);
    }
    while i < n
        invariant
            0 <= i <= n,
            n == if an < bn {
                an
            } else {
                bn
            },
            an == asr@.len(),
            bn == bsr@.len(),
            asr@ == a@,
            bsr@ == b@,
            spec_str_lt(a@, b@) == spec_str_lt(a@.skip(i as int), b@.skip(i as int)),
        decreases n - i,
    {
        let ca = asr.get_char(i);
        let cb = bsr.get_char(i);
        proof {
            assert(a@.skip(i as int)[0] == a@[i as int]);
            assert(b@.skip(i as int)[0] == b@[i as int]);
            assert(a@.skip(i as int).skip(1) =~= a@.skip(i + 1));
            assert(b@.skip(i as int).skip(1) =~= b@.skip(i + 1));
        }
        if ca < cb {
            return true;
        }
        if ca > cb {
            return false;
        }
        i = i + 1;
    }
    proof {
        if an < bn {
            assert(a@.skip(n as int).len() == 0);
            assert(b@.skip(n as int).len() > 0);
        } else {
            assert(b@.skip(n as int).len() == 0);
        }
    }
    an < bn
}

// ---------------------------------------------------------------------------
// The strategy enum and the warmer
// ---------------------------------------------------------------------------

/// One configured warming strategy.
pub enum WarmingStrategy {
    Predictive(PredictiveWarming),
    Neighbor(NeighborWarming),
}

impl WarmingStrategy {
    /// The keys the strategy would warm for the given context, with the
    /// inner strategy's own guarantees.
    pub fn generate_warming_keys(&self, context: &WarmingContext) -> (r: Vec<String>)
        ensures
            match self {
                WarmingStrategy::Predictive(st) => {
                    &&& r@.len() <= st.max_warm_keys
                    &&& forall|i: int|
                        0 <= i < r@.len() ==> predicted_key(
                            (#[trigger] r@[i])@,
                            st.access_history@,
                            st.min_frequency_millis,
                        )
                    &&& r@.len() < st.max_warm_keys ==> forall|t: int|
                        0 <= t < st.access_history@.len() && predictive_candidate(
                            #[trigger] st.access_history@[t],
                            st.min_frequency_millis,
                        ) ==> listed(st.access_history@[t].0@, r@)
                    &&& forall|a: int, b: int|
                        0 <= a < b < r@.len() ==> spec_recent_count(
                            context.recent_access@,
                            (#[trigger] r@[a])@,
                        ) >= spec_recent_count(context.recent_access@, (#[trigger] r@[b])@)
                    &&& r@.len() == if count_qualifying(
                        st.access_history@,
                        st.min_frequency_millis,
                    ) <= st.max_warm_keys {
                        count_qualifying(st.access_history@, st.min_frequency_millis)
                    } else {
                        st.max_warm_keys as int
                    }
                },
                WarmingStrategy::Neighbor(st) => {
                    let d = if st.neighbor_distance > i32::MAX as usize {
                        i32::MAX as int
                    } else {
                        st.neighbor_distance as int
                    };
                    &&& r@.len() <= st.max_warm_keys
                    &&& forall|i: int|
                        0 <= i < r@.len() ==> neighbor_warmed_key(
                            (#[trigger] r@[i])@,
                            context.recent_access@,
                            d,
                        )
                    &&& forall|x: int, y: int|
                        0 <= x < y < r@.len() ==> spec_str_lt(
                            (#[trigger] r@[x])@,
                            (#[trigger] r@[y])@,
                        )
                    &&& (r@.len() < st.max_warm_keys && neighbor_lists_within(
                        context.recent_access@,
                        d,
                        st.max_warm_keys as int,
                    )) ==> all_neighbors_listed(context.recent_access@, d, r@)
                },
            },
    {
        match self {
            WarmingStrategy::Predictive(s) => s.generate_warming_keys(context),
            WarmingStrategy::Neighbor(s) => s.generate_warming_keys(context),
        }
    }
}

/// Coordinates the configured strategies against the cache: records
/// caller-observed accesses, builds the warming context, and stores what
/// the caller's loader brings back. The caller drives the loader itself.
pub struct CacheWarmer {
    pub cache: LruMemoryCache,
    pub strategies: Vec<WarmingStrategy>,
    pub access_tracker: Vec<(String, u64)>,
}

impl CacheWarmer {
    /// Well-formedness: the cache's own invariant, and one counter per
    /// observed key.
    pub open spec fn wf(&self) -> bool {
        &&& self.cache.wf()
        &&& ra_distinct(self.access_tracker@)
    }

    pub fn new(cache: LruMemoryCache) -> (r: Self)
        requires
            cache.wf(),
        ensures
            r.wf(),
            r.cache == cache,
            r.strategies@.len() == 0,
            r.access_tracker@.len() == 0,
    {
        CacheWarmer { cache, strategies: Vec::new(), access_tracker: Vec::new() }
    }

    /// Adds a strategy, builder style.
    pub fn add_strategy(self, strategy: WarmingStrategy) -> (r: Self)
        requires
            self.wf(),
        ensures
            r.wf(),
            r.cache == self.cache,
            r.strategies@.len() == self.strategies@.len() + 1,
            r.access_tracker@ == self.access_tracker@,
    {
        let mut s = self;
        s.strategies.push(strategy);
        s
    }

    /// Counts one observed access to a key: its counter rises by one,
    /// or a fresh counter of one is appended; other keys' counters do
    /// not move.
    pub fn record_access(&mut self, key: &String)
        requires
            old(self).wf(),
        ensures
            final(self).wf(),
            final(self).cache == old(self).cache,
            final(self).strategies@ == old(self).strategies@,
            ({
                let s = old(self).access_tracker@;
                let fe = final(self).access_tracker@;
                if appears(key@, s) {
                    let i = ra_index(s, key@);
                    fe == s.update(i, (s[i].0, crate::memory::inc64(s[i].1)))
                } else {
                    &&& fe.len() == s.len() + 1
                    &&& fe.drop_last() == s
                    &&& fe.last().0@ == key@
                    &&& fe.last().1 == 1
                }
            }),
    {
        let ghost s0 = self.access_tracker@;
        let n = self.access_tracker.len();
        let mut j: usize = 0;
        while j < n
            invariant
                0 <= j <= n,
                n == s0.len(),
                self.access_tracker@ == s0,
                s0 == old(self).access_tracker@,
                ra_distinct(s0),
                self.cache == old(self).cache,
                self.strategies@ == old(self).strategies@,
                old(self).wf(),
                forall|t: int| 0 <= t < j ==> (#[trigger] s0[t]).0@ != key@,
            decreases n - j,
        {
            if self.access_tracker[j].0 == *key {
                proof {
                    lemma_ra_index_unique(s0, key@, j as int);
                }
                let k0 = self.access_tracker[j].0.clone();
                let c = crate::memory::inc_u64(self.access_tracker[j].1);
                self.access_tracker[j] = (k0, c);
                proof {
                    assert(self.access_tracker@ =~= s0.update(
                        j as int,
                        (s0[j as int].0, crate::memory::inc64(s0[j as int].1)),
                    ));
                    let fe = self.access_tracker@;
                    assert forall|a: int, b: int|
                        0 <= a < b < fe.len() implies (#[trigger] fe[a]).0@ != (
                    #[trigger] fe[b]).0@ by {
                        assert(fe[a].0@ == s0[a].0@);
                        assert(fe[b].0@ == s0[b].0@);
                    }
                }
                return ;
            }
            j = j + 1;
        }
        proof {
            assert(!appears(key@, s0)) by {
                if appears(key@, s0) {
                    let t = choose|t: int| 0 <= t < s0.len() && (#[trigger] s0[t]).0@ == key@;
                    assert(s0[t].0@ != key@);
                }
            }
        }
        self.access_tracker.push((key.clone(), 1));
        proof {
            assert(self.access_tracker@.drop_last() =~= s0);
            let fe = self.access_tracker@;
            assert forall|a: int, b: int|
                0 <= a < b < fe.len() implies (#[trigger] fe[a]).0@ != (
            #[trigger] fe[b]).0@ by {
                if b < s0.len() {
                    assert(fe[a] == s0[a] && fe[b] == s0[b]);
                } else {
                    assert(fe[a] == s0[a]);
                    if s0[a].0@ == key@ {
                        assert(appears(key@, s0));
                    }
                }
            }
        }
    }

    /// Drops the access history.
    pub fn clear_access_history(&mut self)
        requires
            old(self).wf(),
        ensures
            final(self).wf(),
            final(self).cache == old(self).cache,
            final(self).strategies@ == old(self).strategies@,
            final(self).access_tracker@.len() == 0,
    {
        self.access_tracker = Vec::new();
    }

    /// The number of configured strategies.
    pub fn strategies_len(&self) -> (r: usize)
        ensures
            r == self.strategies@.len(),
    {
        self.strategies.len()
    }

    /// Builds the warming context from the tracked accesses and the
    /// cache's counters; the available capacity is estimated against a
    /// hundred-mebibyte sentinel when the cache reports no bound of its
    /// own.
    pub fn build_warming_context(&self) -> (r: WarmingContext)
        requires
            self.wf(),
        ensures
            r.recent_access@ == self.access_tracker@,
            r.hit_rate_millis == spec_hit_rate_millis(
                self.cache.spec_hits(),
                self.cache.spec_misses(),
            ),
    {
        let stats = self.cache.stats();
        let hit_rate_millis = stats.hit_rate_millis();
        let sentinel: usize = 100 * 1024 * 1024;
        let available_capacity = if stats.size_bytes <= sentinel {
            sentinel - stats.size_bytes
        } else {
            0
        };
        let mut recent: Vec<(String, u64)> = Vec::new();
        let n = self.access_tracker.len();
        let mut i: usize = 0;
        while i < n
            invariant
                0 <= i <= n,
                n == self.access_tracker@.len(),
                recent@.len() == i,
                forall|t: int| 0 <= t < i ==> #[trigger] recent@[t] == self.access_tracker@[t],
            decreases n - i,
        {
            let k = self.access_tracker[i].0.clone();
            let ghost e = self.access_tracker@[i as int];
            recent.push((k, self.access_tracker[i].1));
            proof {
                assert(recent@[i as int].0@ == e.0@ && recent@[i as int].1 == e.1);
                assert(recent@[i as int].0 == e.0);
                assert(recent@[i as int] == e);
            }
            i = i + 1;
        }
        proof {
            assert(recent@ =~= self.access_tracker@);
        }
        WarmingContext {
            recent_access: recent,
            hit_rate_millis,
            available_capacity,
            time_context: TimeContext::current(),
        }
    }

    /// The keys the indexed strategy would warm, under the current
    /// context, with that strategy's own guarantees.
    pub fn generate_for(&self, index: usize, context: &WarmingContext) -> (r: Vec<String>)
        requires
            index < self.strategies@.len(),
        ensures
            match self.strategies@[index as int] {
                WarmingStrategy::Predictive(st) => {
                    &&& r@.len() <= st.max_warm_keys
                    &&& forall|i: int|
                        0 <= i < r@.len() ==> predicted_key(
                            (#[trigger] r@[i])@,
                            st.access_history@,
                            st.min_frequency_millis,
                        )
                    &&& r@.len() < st.max_warm_keys ==> forall|t: int|
                        0 <= t < st.access_history@.len() && predictive_candidate(
                            #[trigger] st.access_history@[t],
                            st.min_frequency_millis,
                        ) ==> listed(st.access_history@[t].0@, r@)
                    &&& forall|a: int, b: int|
                        0 <= a < b < r@.len() ==> spec_recent_count(
                            context.recent_access@,
                            (#[trigger] r@[a])@,
                        ) >= spec_recent_count(context.recent_access@, (#[trigger] r@[b])@)
                    &&& r@.len() == if count_qualifying(
                        st.access_history@,
                        st.min_frequency_millis,
                    ) <= st.max_warm_keys {
                        count_qualifying(st.access_history@, st.min_frequency_millis)
                    } else {
                        st.max_warm_keys as int
                    }
                },
                WarmingStrategy::Neighbor(st) => {
                    let d = if st.neighbor_distance > i32::MAX as usize {
                        i32::MAX as int
                    } else {
                        st.neighbor_distance as int
                    };
                    &&& r@.len() <= st.max_warm_keys
                    &&& forall|i: int|
                        0 <= i < r@.len() ==> neighbor_warmed_key(
                            (#[trigger] r@[i])@,
                            context.recent_access@,
                            d,
                        )
                    &&& forall|x: int, y: int|
                        0 <= x < y < r@.len() ==> spec_str_lt(
                            (#[trigger] r@[x])@,
                            (#[trigger] r@[y])@,
                        )
                    &&& (r@.len() < st.max_warm_keys && neighbor_lists_within(
                        context.recent_access@,
                        d,
                        st.max_warm_keys as int,
                    )) ==> all_neighbors_listed(context.recent_access@, d, r@)
                },
            },
    {
        self.strategies[index].generate_warming_keys(context)
    }

    /// Whether a key still needs loading: a cached key is skipped. The
    /// lookup counts against the cache's statistics, as a lookup does.
    pub fn warm_check(&mut self, key: &String, now_ms: u64) -> (r: bool)
        requires
            old(self).wf(),
        ensures
            final(self).wf(),
            final(self).strategies@ == old(self).strategies@,
            final(self).access_tracker@ == old(self).access_tracker@,
            r == !crate::memory::has_key(
                crate::memory::live_entries(
                    old(self).cache.entries(),
                    old(self).cache.spec_ttl_ms(),
                    now_ms,
                ),
                key@,
            ),
    {
        match self.cache.get(key, now_ms) {
            Some(_) => false,
            None => true,
        }
    }

    /// Stores one loaded value; the cache's bound decides acceptance as
    /// it does for every store.
    pub fn warm_store(&mut self, key: &String, value: Vec<u8>, now_ms: u64) -> (r: Result<
        (),
        CacheError,
    >)
        requires
            old(self).wf(),
        ensures
            final(self).wf(),
            final(self).strategies@ == old(self).strategies@,
            final(self).access_tracker@ == old(self).access_tracker@,
            r is Ok <==> value@.len() <= old(self).cache.spec_max_size(),
    {
        self.cache.set(key, value, now_ms)
    }
}

/// The recent-access count recorded for a key, or zero.
fn recent_count(recent: &Vec<(String, u64)>, key: &String) -> (r: u64)
    ensures
        r == spec_recent_count(recent@, key@),
{
    let ghost s0 = recent@;
    let n = recent.len();
    let mut j: usize = 0;
    proof {
        assert(s0.skip(0) =~= s0);
    }
    while j < n
        invariant
            0 <= j <= n,
            n == s0.len(),
            recent@ == s0,
            spec_recent_count(s0, key@) == spec_recent_count(s0.skip(j as int), key@),
        decreases n - j,
    {
        proof {
            assert(s0.skip(j as int)[0] == s0[j as int]);
            assert(s0.skip(j as int).skip(1) =~= s0.skip(j + 1));
        }
        if recent[j].0 == *key {
            return recent[j].1;
        }
        j = j + 1;
    }
    proof {
        assert(s0.skip(n as int).len() == 0);
    }
    0
}

} // verus!
