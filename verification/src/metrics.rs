use vstd::prelude::*;
use vstd::string::*;
use crate::codec::int_coords;
use crate::codec::spec_parse_i32;
use crate::codec::spec_split;
use crate::codec::split_char;
use crate::codec::str_views;
use crate::codec::parse_i32;

verus! {

// ---------------------------------------------------------------------------
// Configuration and snapshots
// ---------------------------------------------------------------------------

/// Configuration for metrics collection; the snapshot interval is in
/// milliseconds.
#[derive(Debug, Clone, PartialEq)]
pub struct MetricsConfig {
    /// Bound on the number of retained performance snapshots.
    pub max_history_size: usize,
    /// Interval between automatic snapshots, in milliseconds.
    pub snapshot_interval_ms: u64,
    /// Whether per-key access patterns are tracked.
    pub track_access_patterns: bool,
    /// Whether promotion and warming efficiency is tracked.
    pub track_efficiency: bool,
}

impl Default for MetricsConfig {
    fn default() -> (r: Self)
        ensures
            r.max_history_size == 1000,
            r.snapshot_interval_ms == 60 * 1000,
            r.track_access_patterns,
            r.track_efficiency,
    {
        MetricsConfig {
            max_history_size: 1000,
            snapshot_interval_ms: 60 * 1000,
            track_access_patterns: true,
            track_efficiency: true,
        }
    }
}

/// A point-in-time performance record. Rates are in thousandths
/// (`hit_rate_millis` of `1000` means every lookup hit); response times
/// are microseconds.
#[derive(Debug, Clone, Copy)]
pub struct PerformanceSnapshot {
    pub timestamp: u64,
    pub hits: u64,
    pub misses: u64,
    pub hit_rate_millis: u64,
    pub total_size_bytes: usize,
    pub entry_count: usize,
    pub ops_per_sec_millis: u64,
    pub avg_response_time_micros: u64,
    pub memory_usage_bytes: usize,
    pub disk_usage_bytes: usize,
}

// ---------------------------------------------------------------------------
// Spatial locality
// ---------------------------------------------------------------------------

/// A parsed chunk position: the array it belongs to and its coordinates.
#[derive(Debug, Clone)]
pub struct ChunkCoordinate {
    pub array_name: String,
    pub coordinates: Vec<i32>,
}

/// The mathematical view of a chunk position.
pub open spec fn coord_view(c: ChunkCoordinate) -> (Seq<char>, Seq<int>) {
    (c.array_name@, int_coords(c.coordinates@))
}

/// How many coordinates differ between two equal-length vectors.
pub open spec fn diff_count(a: Seq<int>, b: Seq<int>, i: int) -> int
    decreases i,
{
    if i <= 0 {
        0
    } else {
        diff_count(a, b, i - 1) + if a[i - 1] != b[i - 1] {
            1int
        } else {
            0int
        }
    }
}

/// Two chunk positions are neighbors exactly when they share the array
/// name and arity, no coordinate differs by more than one, and exactly
/// one differs (by one).
pub open spec fn spec_are_neighbors(a: (Seq<char>, Seq<int>), b: (Seq<char>, Seq<int>)) -> bool {
    &&& a.0 == b.0
    &&& a.1.len() == b.1.len()
    &&& forall|i: int| 0 <= i < a.1.len() ==> -1 <= #[trigger] a.1[i] - b.1[i] <= 1
    &&& diff_count(a.1, b.1, a.1.len() as int) == 1
}

/// How many adjacent pairs among the first `i + 1` positions are
/// neighbors.
pub open spec fn pairs_upto(s: Seq<(Seq<char>, Seq<int>)>, i: int) -> int
    decreases i,
{
    if i <= 0 {
        0
    } else {
        pairs_upto(s, i - 1) + if spec_are_neighbors(s[i - 1], s[i]) {
            1int
        } else {
            0int
        }
    }
}

/// Adjacent neighbor pairs never outnumber the transitions.
pub proof fn lemma_pairs_upto_bounds(s: Seq<(Seq<char>, Seq<int>)>, i: int)
    requires
        i >= 0,
    ensures
        0 <= pairs_upto(s, i) <= i,
    decreases i,
{
    if i > 0 {
        lemma_pairs_upto_bounds(s, i - 1);
    }
}

/// Tracks which chunk positions were accessed and in what order, for the
/// spatial-locality score.
pub struct SpatialLocalityTracker {
    pub chunk_accesses: Vec<(ChunkCoordinate, u64)>,
    pub recent_sequence: Vec<ChunkCoordinate>,
}

/// The views of the recent access sequence.
pub open spec fn recent_views(v: Seq<ChunkCoordinate>) -> Seq<(Seq<char>, Seq<int>)> {
    v.map_values(|c: ChunkCoordinate| coord_view(c))
}

/// What parsing an analytics chunk key yields: the array name before the
/// single `/`, and the coordinates behind a `chunk_` prefix.
pub open spec fn spec_parse_chunk_coordinate(s: Seq<char>) -> Option<(Seq<char>, Seq<int>)> {
    let parts = spec_split(s, '/');
    if parts.len() != 2 {
        None
    } else if !(parts[1].len() >= 6 && parts[1].take(6) == "chunk_"@) {
        None
    } else {
        let segs = spec_split(parts[1].skip(6), '.');
        if forall|i: int| 0 <= i < segs.len() ==> (#[trigger] spec_parse_i32(segs[i])) is Some {
            Some((parts[0], Seq::new(segs.len(), |i: int| spec_parse_i32(segs[i]).unwrap())))
        } else {
            None
        }
    }
}

impl SpatialLocalityTracker {
    pub fn new() -> (r: Self)
        ensures
            r.chunk_accesses@ == Seq::<(ChunkCoordinate, u64)>::empty(),
            r.recent_sequence@ == Seq::<ChunkCoordinate>::empty(),
    {
        SpatialLocalityTracker { chunk_accesses: Vec::new(), recent_sequence: Vec::new() }
    }

    /// Parses a key of the form `array/chunk_c0.c1...cN-1`; any other
    /// shape is not a chunk key and is ignored by the tracker.
    pub fn parse_chunk_coordinate(&self, key: &str) -> (r: Option<ChunkCoordinate>)
        ensures
            match r {
                Some(c) => spec_parse_chunk_coordinate(key@) == Some(coord_view(c)),
                None => spec_parse_chunk_coordinate(key@) is None,
            },
    {
        let parts = split_char(key, '/');
        if parts.len() != 2 {
            return None;
        }
        let coord_part = &parts[1];
        let cs = coord_part.as_str();
        let n = cs.unicode_len();
        proof {
            reveal_strlit("chunk_");
            assert(spec_split(key@, '/').len() == 2);
            assert(spec_split(key@, '/')[1] == parts@[1]@);
        }
        if n < 6 {
            proof {
                assert(!(parts@[1]@.len() >= 6));
            }
            return None;
        }
        let ok = cs.get_char(0) == 'c' && cs.get_char(1) == 'h' && cs.get_char(2) == 'u'
            && cs.get_char(3) == 'n' && cs.get_char(4) == 'k' && cs.get_char(5) == '_';
        if !ok {
            proof {
                if parts@[1]@.take(6) == "chunk_"@ {
                    assert(parts@[1]@.take(6)[0] == parts@[1]@[0]);
                    assert(parts@[1]@.take(6)[1] == parts@[1]@[1]);
                    assert(parts@[1]@.take(6)[2] == parts@[1]@[2]);
                    assert(parts@[1]@.take(6)[3] == parts@[1]@[3]);
                    assert(parts@[1]@.take(6)[4] == parts@[1]@[4]);
                    assert(parts@[1]@.take(6)[5] == parts@[1]@[5]);
                    assert(false);
                }
            }
            return None;
        }
        proof {
            assert(parts@[1]@.take(6) =~= "chunk_"@);
        }
        let rest = cs.substring_char(6, n);
        let ghost segs_spec = spec_split(parts@[1]@.skip(6), '.');
        let segs = split_char(rest, '.');
        let mut coords: Vec<i32> = Vec::new();
        let mut j: usize = 0;
        while j < segs.len()
            invariant
                0 <= j <= segs@.len(),
                parts@.len() == 2,
                str_views(parts@) == spec_split(key@, '/'),
                parts@[1]@.len() >= 6,
                parts@[1]@.take(6) == "chunk_"@,
                segs_spec == str_views(segs@),
                segs_spec == spec_split(parts@[1]@.skip(6), '.'),
                coords@.len() == j,
                forall|i: int|
                    0 <= i < j ==> spec_parse_i32(segs_spec[i]) == Some(
                        #[trigger] coords@[i] as int,
                    ),
            decreases segs@.len() - j,
        {
            match parse_i32(segs[j].as_str()) {
                Some(v) => {
                    coords.push(v);
                },
                None => {
                    proof {
                        assert(spec_parse_i32(segs_spec[j as int]) is None);
                        assert(!(forall|i: int|
                            0 <= i < segs_spec.len() ==> (#[trigger] spec_parse_i32(
                                segs_spec[i],
                            )) is Some));
                    }
                    return None;
                },
            }
            j = j + 1;
        }
        proof {
            assert forall|i: int|
                0 <= i < segs_spec.len() implies (#[trigger] spec_parse_i32(
                segs_spec[i],
            )) is Some by {
                assert(spec_parse_i32(segs_spec[i]) == Some(coords@[i] as int));
            }
            assert(Seq::new(segs_spec.len(), |i: int| spec_parse_i32(segs_spec[i]).unwrap())
                =~= int_coords(coords@)) by {
                assert(forall|i: int|
                    0 <= i < segs_spec.len() ==> spec_parse_i32(segs_spec[i]) == Some(
                        #[trigger] coords@[i] as int,
                    ));
            }
            assert(spec_split(key@, '/')[0] == parts@[0]@);
        }
        Some(ChunkCoordinate { array_name: parts[0].clone(), coordinates: coords })
    }

    /// Whether two chunk positions are strict axis neighbors.
    pub fn are_neighbors(&self, a: &ChunkCoordinate, b: &ChunkCoordinate) -> (r: bool)
        ensures
            r == spec_are_neighbors(coord_view(*a), coord_view(*b)),
    {
        if !(a.array_name == b.array_name) {
            return false;
        }
        if a.coordinates.len() != b.coordinates.len() {
            return false;
        }
        let ghost av = int_coords(a.coordinates@);
        let ghost bv = int_coords(b.coordinates@);
        let n = a.coordinates.len();
        let mut diffs: usize = 0;
        let mut i: usize = 0;
        while i < n
            invariant
                0 <= i <= n,
                n == av.len(),
                n == bv.len(),
                av == int_coords(a.coordinates@),
                bv == int_coords(b.coordinates@),
                diffs == diff_count(av, bv, i as int),
                diffs <= i,
                forall|t: int| 0 <= t < i ==> -1 <= #[trigger] av[t] - bv[t] <= 1,
            decreases n - i,
        {
            let ca = a.coordinates[i] as i64;
            let cb = b.coordinates[i] as i64;
            let d = ca - cb;
            if d > 1 || d < -1 {
                proof {
                    assert(!(-1 <= av[i as int] - bv[i as int] <= 1));
                }
                return false;
            }
            if d != 0 {
                diffs = diffs + 1;
            }
            i = i + 1;
        }
        diffs == 1
    }

    /// Records one access: a parseable chunk key is counted and appended
    /// to the recent sequence, which keeps its last thousand entries; any
    /// other key leaves the tracker unchanged.
    pub fn record_chunk_access(&mut self, key: &str)
        ensures
            old(self).recent_sequence@.len() <= 1000 ==> final(self).recent_sequence@.len()
                <= 1000,
            match spec_parse_chunk_coordinate(key@) {
                Some(cv) => {
                    &&& recent_views(final(self).recent_sequence@) == if recent_views(
                        old(self).recent_sequence@,
                    ).len() < 1000 {
                        recent_views(old(self).recent_sequence@).push(cv)
                    } else {
                        recent_views(old(self).recent_sequence@).push(cv).skip(1)
                    }
                },
                None => {
                    &&& final(self).recent_sequence@ == old(self).recent_sequence@
                    &&& final(self).chunk_accesses@ == old(self).chunk_accesses@
                },
            },
    {
        let parsed = self.parse_chunk_coordinate(key);
        match parsed {
            None => {},
            Some(coord) => {
                let ghost cv = coord_view(coord);
                self.bump_access_count(&coord);
                let ghost before = recent_views(self.recent_sequence@);
                self.recent_sequence.push(coord);
                proof {
                    assert(recent_views(self.recent_sequence@) =~= before.push(cv));
                }
                if self.recent_sequence.len() > 1000 {
                    let ghost cur = recent_views(self.recent_sequence@);
                    self.recent_sequence.remove(0);
                    proof {
                        assert(recent_views(self.recent_sequence@) =~= cur.skip(1));
                    }
                }
            },
        }
    }

    /// Counts one access to a position in the per-position tally.
    fn bump_access_count(&mut self, coord: &ChunkCoordinate)
        ensures
            final(self).recent_sequence@ == old(self).recent_sequence@,
            final(self).chunk_accesses@.len() <= old(self).chunk_accesses@.len() + 1,
    {
        let n = self.chunk_accesses.len();
        let mut j: usize = 0;
        while j < n
            invariant
                0 <= j <= n,
                n == self.chunk_accesses@.len(),
                self.recent_sequence@ == old(self).recent_sequence@,
                self.chunk_accesses@ == old(self).chunk_accesses@,
            decreases n - j,
        {
            let same = self.coords_equal(j, coord);
            if same {
                let c0 = self.chunk_accesses[j].0.array_name.clone();
                let mut cv: Vec<i32> = Vec::new();
                let m = self.chunk_accesses[j].0.coordinates.len();
                let mut t: usize = 0;
                while t < m
                    invariant
                        0 <= t <= m,
                        j < self.chunk_accesses@.len(),
                        m == self.chunk_accesses@[j as int].0.coordinates@.len(),
                        cv@.len() == t,
                        self.recent_sequence@ == old(self).recent_sequence@,
                        self.chunk_accesses@ == old(self).chunk_accesses@,
                    decreases m - t,
                {
                    cv.push(self.chunk_accesses[j].0.coordinates[t]);
                    t = t + 1;
                }
                let count = self.chunk_accesses[j].1;
                let newc = crate::memory::inc_u64(count);
                self.chunk_accesses[j] = (
                    ChunkCoordinate { array_name: c0, coordinates: cv },
                    newc,
                );
                return ;
            }
            j = j + 1;
        }
        let c0 = coord.array_name.clone();
        let cv = coord.coordinates.clone();
        self.chunk_accesses.push((ChunkCoordinate { array_name: c0, coordinates: cv }, 1));
    }

    /// Whether the tallied position at `j` equals `coord`.
    fn coords_equal(&self, j: usize, coord: &ChunkCoordinate) -> (r: bool)
        requires
            j < self.chunk_accesses@.len(),
    {
        if !(self.chunk_accesses[j].0.array_name == coord.array_name) {
            return false;
        }
        let n = self.chunk_accesses[j].0.coordinates.len();
        if n != coord.coordinates.len() {
            return false;
        }
        let mut t: usize = 0;
        while t < n
            invariant
                0 <= t <= n,
                j < self.chunk_accesses@.len(),
                n == self.chunk_accesses@[j as int].0.coordinates@.len(),
                n == coord.coordinates@.len(),
            decreases n - t,
        {
            if self.chunk_accesses[j].0.coordinates[t] != coord.coordinates[t] {
                return false;
            }
            t = t + 1;
        }
        true
    }

    /// The number of adjacent neighbor pairs and of transitions in the
    /// recent access sequence.
    pub fn locality_counts(&self) -> (r: (u64, u64))
        requires
            self.recent_sequence@.len() <= 1000,
        ensures
            ({
                let s = recent_views(self.recent_sequence@);
                if s.len() < 2 {
                    r.0 == 0 && r.1 == 0
                } else {
                    r.0 == pairs_upto(s, s.len() - 1) && r.1 == s.len() - 1
                }
            }),
    {
        let ghost s = recent_views(self.recent_sequence@);
        let n = self.recent_sequence.len();
        if n < 2 {
            return (0, 0);
        }
        let mut events: u64 = 0;
        let mut i: usize = 1;
        while i < n
            invariant
                1 <= i <= n,
                n == s.len(),
                2 <= n <= 1000,
                s == recent_views(self.recent_sequence@),
                events == pairs_upto(s, i - 1),
                events <= i - 1,
            decreases n - i,
        {
            proof {
                lemma_pairs_upto_bounds(s, i as int);
            }
            let a = &self.recent_sequence[i - 1];
            let b = &self.recent_sequence[i];
            let nb = self.are_neighbors(a, b);
            proof {
                assert(coord_view(self.recent_sequence@[i - 1]) == s[i - 1]);
                assert(coord_view(self.recent_sequence@[i as int]) == s[i as int]);
            }
            if nb {
                events = events + 1;
            }
            i = i + 1;
        }
        (events, (n - 1) as u64)
    }

    /// The spatial-locality score in thousandths: the fraction of
    /// adjacent pairs in the recent sequence that are strict axis
    /// neighbors; `0` for fewer than two accesses. It always lies in
    /// `0..=1000`, and reaches `1000` exactly when every transition is a
    /// neighbor pair.
    pub fn calculate_locality_score_millis(&self) -> (r: u64)
        requires
            self.recent_sequence@.len() <= 1000,
        ensures
            ({
                let s = recent_views(self.recent_sequence@);
                &&& 0 <= r <= 1000
                &&& s.len() < 2 ==> r == 0
                &&& s.len() >= 2 ==> r == (pairs_upto(s, s.len() - 1) * 1000) / (s.len() - 1)
                &&& s.len() >= 2 ==> (r == 1000 <==> pairs_upto(s, s.len() - 1) == s.len() - 1)
            }),
    {
        let ghost s = recent_views(self.recent_sequence@);
        let (events, transitions) = self.locality_counts();
        if transitions == 0 {
            return 0;
        }
        proof {
            lemma_pairs_upto_bounds(s, s.len() - 1);
        }
        let r = events * 1000 / transitions;
        proof {
            let e = pairs_upto(s, s.len() - 1);
            let t = s.len() - 1;
            assert(e * 1000 <= t * 1000) by (nonlinear_arith)
                requires
                    e <= t,
            ;
            assert(e * 1000 / t <= 1000) by (nonlinear_arith)
                requires
                    t > 0,
                    e * 1000 <= t * 1000,
            ;
            assert(e * 1000 / t >= 0) by (nonlinear_arith)
                requires
                    t > 0,
                    e >= 0,
            ;
            if e == t {
                assert(t * 1000 / t == 1000) by (nonlinear_arith)
                    requires
                        t > 0,
                ;
            }
            if e < t {
                assert(e * 1000 < t * 1000) by (nonlinear_arith)
                    requires
                        e < t,
                ;
                assert(e * 1000 / t < 1000) by (nonlinear_arith)
                    requires
                        t > 0,
                        e * 1000 <= t * 1000 - 1000,
                ;
                assert(e * 1000 <= t * 1000 - 1000) by (nonlinear_arith)
                    requires
                        e < t,
                ;
            }
        }
        r
    }
}

// ---------------------------------------------------------------------------
// Per-key access patterns
// ---------------------------------------------------------------------------

/// Per-key analytics: how often the key was touched, when last, the
/// recent inter-arrival intervals (capped at one hundred), and how the
/// lookups went.
pub struct KeyAccessInfo {
    pub total_accesses: u64,
    pub last_access_ms: u64,
    pub access_intervals: Vec<u64>,
    pub cache_hits: u64,
    pub cache_misses: u64,
}

/// One recorded operation in arrival order.
pub struct TemporalAccess {
    pub timestamp_ms: u64,
    pub key: String,
    pub was_hit: bool,
    pub response_time_micros: u64,
}

pub open spec fn kf_has(s: Seq<(String, KeyAccessInfo)>, k: Seq<char>) -> bool {
    exists|i: int| 0 <= i < s.len() && (#[trigger] s[i]).0@ == k
}

pub open spec fn kf_index(s: Seq<(String, KeyAccessInfo)>, k: Seq<char>) -> int {
    choose|i: int| 0 <= i < s.len() && (#[trigger] s[i]).0@ == k
}

pub open spec fn kf_distinct(s: Seq<(String, KeyAccessInfo)>) -> bool {
    forall|i: int, j: int|
        0 <= i < j < s.len() ==> (#[trigger] s[i]).0@ != (#[trigger] s[j]).0@
}

proof fn lemma_kf_index_unique(s: Seq<(String, KeyAccessInfo)>, k: Seq<char>, i: int)
    requires
        kf_distinct(s),
        0 <= i < s.len(),
        s[i].0@ == k,
    ensures
        kf_has(s, k),
        kf_index(s, k) == i,
{
    assert(kf_has(s, k));
    let j = choose|j: int| 0 <= j < s.len() && (#[trigger] s[j]).0@ == k;
    if i < j {
        assert(s[i].0@ != s[j].0@);
    } else if j < i {
        assert(s[j].0@ != s[i].0@);
    }
}

/// Ordered by non-increasing access count.
pub open spec fn sorted_desc(s: Seq<(String, u64)>) -> bool {
    forall|a: int, b: int| 0 <= a < b < s.len() ==> (#[trigger] s[a]).1 >= (#[trigger] s[b]).1
}

/// Every listed pair is a tracked key with its exact access count.
/// The pair lists a tracked key with its exact access count.
pub open spec fn drawn_pair(p: (String, u64), kf: Seq<(String, KeyAccessInfo)>) -> bool {
    exists|t: int| 0 <= t < kf.len() && p.0@ == (#[trigger] kf[t]).0@ && p.1 == kf[t].1.total_accesses
}

pub open spec fn keys_drawn_from(s: Seq<(String, u64)>, kf: Seq<(String, KeyAccessInfo)>) -> bool {
    forall|a: int| 0 <= a < s.len() ==> drawn_pair(#[trigger] s[a], kf)
}

/// Collects per-key, temporal and spatial access patterns.
pub struct AccessPatternAnalyzer {
    pub key_frequencies: Vec<(String, KeyAccessInfo)>,
    pub temporal_patterns: Vec<TemporalAccess>,
    pub spatial_locality: SpatialLocalityTracker,
}

impl AccessPatternAnalyzer {
    pub open spec fn wf(&self) -> bool {
        &&& kf_distinct(self.key_frequencies@)
        &&& self.spatial_locality.recent_sequence@.len() <= 1000
        &&& self.temporal_patterns@.len() <= 10000
    }

    pub fn new() -> (r: Self)
        ensures
            r.wf(),
            r.key_frequencies@ == Seq::<(String, KeyAccessInfo)>::empty(),
            r.temporal_patterns@ == Seq::<TemporalAccess>::empty(),
            r.spatial_locality.recent_sequence@ == Seq::<ChunkCoordinate>::empty(),
            r.spatial_locality.chunk_accesses@ == Seq::<(ChunkCoordinate, u64)>::empty(),
    {
        AccessPatternAnalyzer {
            key_frequencies: Vec::new(),
            temporal_patterns: Vec::new(),
            spatial_locality: SpatialLocalityTracker::new(),
        }
    }

    /// Records one operation: the key's record is counted up (a fresh
    /// key starts at one), the inter-arrival interval is appended under
    /// its cap, the operation joins the bounded temporal window, and a
    /// chunk key feeds the spatial tracker.
    pub fn record_access(&mut self, key: &String, was_hit: bool, response_time_micros: u64, now_ms: u64)
        requires
            old(self).wf(),
        ensures
            final(self).wf(),
            ({
                let s = old(self).key_frequencies@;
                let fe = final(self).key_frequencies@;
                if kf_has(s, key@) {
                    let i = kf_index(s, key@);
                    let prev = s[i].1;
                    &&& fe.len() == s.len()
                    &&& forall|j: int| 0 <= j < s.len() && j != i ==> fe[j] == s[j]
                    &&& fe[i].0 == s[i].0
                    &&& fe[i].1.total_accesses == crate::memory::inc64(prev.total_accesses)
                    &&& fe[i].1.last_access_ms == now_ms
                    &&& fe[i].1.cache_hits == if was_hit {
                        crate::memory::inc64(prev.cache_hits)
                    } else {
                        prev.cache_hits
                    }
                    &&& fe[i].1.cache_misses == if was_hit {
                        prev.cache_misses
                    } else {
                        crate::memory::inc64(prev.cache_misses)
                    }
                    &&& fe[i].1.access_intervals@ == ({
                        let base = if prev.total_accesses > 0 {
                            prev.access_intervals@.push(
                                if now_ms >= prev.last_access_ms {
                                    (now_ms - prev.last_access_ms) as u64
                                } else {
                                    0u64
                                },
                            )
                        } else {
                            prev.access_intervals@
                        };
                        if base.len() > 100 {
                            base.skip(1)
                        } else {
                            base
                        }
                    })
                } else {
                    &&& fe.len() == s.len() + 1
                    &&& fe.drop_last() == s
                    &&& fe.last().0@ == key@
                    &&& fe.last().1.total_accesses == 1
                    &&& fe.last().1.last_access_ms == now_ms
                    &&& fe.last().1.access_intervals@ == Seq::<u64>::empty()
                    &&& fe.last().1.cache_hits == if was_hit {
                        1int
                    } else {
                        0int
                    }
                    &&& fe.last().1.cache_misses == if was_hit {
                        0int
                    } else {
                        1int
                    }
                }
            }),
            ({
                let t0 = old(self).temporal_patterns@;
                let t1 = final(self).temporal_patterns@;
                &&& if t0.len() < 10000 {
                    t1.len() == t0.len() + 1 && t1.drop_last() == t0
                } else {
                    t1.len() == 10000 && t1.drop_last() == t0.skip(1)
                }
                &&& t1.last().timestamp_ms == now_ms
                &&& t1.last().key@ == key@
                &&& t1.last().was_hit == was_hit
                &&& t1.last().response_time_micros == response_time_micros
            }),
            match spec_parse_chunk_coordinate(key@) {
                Some(cv) => recent_views(final(self).spatial_locality.recent_sequence@) == if
                    recent_views(old(self).spatial_locality.recent_sequence@).len() < 1000 {
                    recent_views(old(self).spatial_locality.recent_sequence@).push(cv)
                } else {
                    recent_views(old(self).spatial_locality.recent_sequence@).push(cv).skip(1)
                },
                None => final(self).spatial_locality.recent_sequence@ == old(self).spatial_locality.recent_sequence@,
            },
    {
        self.update_key_record(key, was_hit, now_ms);
        let ghost t0 = self.temporal_patterns@;
        self.temporal_patterns.push(
            TemporalAccess {
                timestamp_ms: now_ms,
                key: key.clone(),
                was_hit,
                response_time_micros,
            },
        );
        proof {
            assert(self.temporal_patterns@.drop_last() =~= t0);
        }
        if self.temporal_patterns.len() > 10000 {
            let ghost t1 = self.temporal_patterns@;
            self.temporal_patterns.remove(0);
            proof {
                assert(self.temporal_patterns@ =~= t1.skip(1));
                assert(self.temporal_patterns@.drop_last() =~= t0.skip(1));
                assert(self.temporal_patterns@.last() == t1.last());
            }
        }
        self.spatial_locality.record_chunk_access(key.as_str());
    }

    /// Updates (or creates) the key's record for one operation.
    fn update_key_record(&mut self, key: &String, was_hit: bool, now_ms: u64)
        requires
            old(self).wf(),
        ensures
            kf_distinct(final(self).key_frequencies@),
            final(self).temporal_patterns@ == old(self).temporal_patterns@,
            final(self).spatial_locality == old(self).spatial_locality,
            ({
                let s = old(self).key_frequencies@;
                let fe = final(self).key_frequencies@;
                if kf_has(s, key@) {
                    let i = kf_index(s, key@);
                    let prev = s[i].1;
                    &&& fe.len() == s.len()
                    &&& forall|j: int| 0 <= j < s.len() && j != i ==> fe[j] == s[j]
                    &&& fe[i].0 == s[i].0
                    &&& fe[i].1.total_accesses == crate::memory::inc64(prev.total_accesses)
                    &&& fe[i].1.last_access_ms == now_ms
                    &&& fe[i].1.cache_hits == if was_hit {
                        crate::memory::inc64(prev.cache_hits)
                    } else {
                        prev.cache_hits
                    }
                    &&& fe[i].1.cache_misses == if was_hit {
                        prev.cache_misses
                    } else {
                        crate::memory::inc64(prev.cache_misses)
                    }
                    &&& fe[i].1.access_intervals@ == ({
                        let base = if prev.total_accesses > 0 {
                            prev.access_intervals@.push(
                                if now_ms >= prev.last_access_ms {
                                    (now_ms - prev.last_access_ms) as u64
                                } else {
                                    0u64
                                },
                            )
                        } else {
                            prev.access_intervals@
                        };
                        if base.len() > 100 {
                            base.skip(1)
                        } else {
                            base
                        }
                    })
                } else {
                    &&& fe.len() == s.len() + 1
                    &&& fe.drop_last() == s
                    &&& fe.last().0@ == key@
                    &&& fe.last().1.total_accesses == 1
                    &&& fe.last().1.last_access_ms == now_ms
                    &&& fe.last().1.access_intervals@ == Seq::<u64>::empty()
                    &&& fe.last().1.cache_hits == if was_hit {
                        1int
                    } else {
                        0int
                    }
                    &&& fe.last().1.cache_misses == if was_hit {
                        0int
                    } else {
                        1int
                    }
                }
            }),
    {
        let ghost s0 = self.key_frequencies@;
        let n = self.key_frequencies.len();
        let mut j: usize = 0;
        while j < n
            invariant
                0 <= j <= n,
                n == s0.len(),
                self.key_frequencies@ == s0,
                s0 == old(self).key_frequencies@,
                kf_distinct(s0),
                self.temporal_patterns@ == old(self).temporal_patterns@,
                self.spatial_locality == old(self).spatial_locality,
                old(self).wf(),
                forall|t: int| 0 <= t < j ==> (#[trigger] s0[t]).0@ != key@,
            decreases n - j,
        {
            if self.key_frequencies[j].0 == *key {
                proof {
                    lemma_kf_index_unique(s0, key@, j as int);
                }
                let prev_total = self.key_frequencies[j].1.total_accesses;
                let prev_last = self.key_frequencies[j].1.last_access_ms;
                let k0 = self.key_frequencies[j].0.clone();
                let ghost prev = s0[j as int].1;
                let ghost spec_delta: u64 = if now_ms >= prev.last_access_ms {
                    (now_ms - prev.last_access_ms) as u64
                } else {
                    0u64
                };
                let ghost base = if prev.total_accesses > 0 {
                    prev.access_intervals@.push(spec_delta)
                } else {
                    prev.access_intervals@
                };
                let ghost target = if base.len() > 100 {
                    base.skip(1)
                } else {
                    base
                };
                let mut intervals: Vec<u64> = Vec::new();
                let m = self.key_frequencies[j].1.access_intervals.len();
                let mut t: usize = 0;
                while t < m
                    invariant
                        0 <= t <= m,
                        j < self.key_frequencies@.len(),
                        self.key_frequencies@ == s0,
                        m == s0[j as int].1.access_intervals@.len(),
                        intervals@ == s0[j as int].1.access_intervals@.take(t as int),
                    decreases m - t,
                {
                    intervals.push(self.key_frequencies[j].1.access_intervals[t]);
                    proof {
                        assert(intervals@ =~= s0[j as int].1.access_intervals@.take(t + 1));
                    }
                    t = t + 1;
                }
                proof {
                    assert(intervals@ =~= s0[j as int].1.access_intervals@);
                }
                if prev_total > 0 {
                    let delta = if now_ms >= prev_last {
                        now_ms - prev_last
                    } else {
                        0
                    };
                    proof {
                        assert(delta == spec_delta);
                    }
                    intervals.push(delta);
                }
                proof {
                    assert(intervals@ == base);
                }
                if intervals.len() > 100 {
                    let ghost b0 = intervals@;
                    intervals.remove(0);
                    proof {
                        assert(intervals@ =~= b0.skip(1));
                    }
                }
                proof {
                    assert(intervals@ == target);
                }
                let info = KeyAccessInfo {
                    total_accesses: crate::memory::inc_u64(prev_total),
                    last_access_ms: now_ms,
                    access_intervals: intervals,
                    cache_hits: if was_hit {
                        crate::memory::inc_u64(self.key_frequencies[j].1.cache_hits)
                    } else {
                        self.key_frequencies[j].1.cache_hits
                    },
                    cache_misses: if was_hit {
                        self.key_frequencies[j].1.cache_misses
                    } else {
                        crate::memory::inc_u64(self.key_frequencies[j].1.cache_misses)
                    },
                };
                self.key_frequencies[j] = (k0, info);
                proof {
                    assert forall|a: int, b: int|
                        0 <= a < b < self.key_frequencies@.len() implies (
                    #[trigger] self.key_frequencies@[a]).0@ != (
                    #[trigger] self.key_frequencies@[b]).0@ by {
                        assert(self.key_frequencies@[a].0@ == s0[a].0@);
                        assert(self.key_frequencies@[b].0@ == s0[b].0@);
                    }
                }
                return ;
            }
            j = j + 1;
        }
        proof {
            assert(!kf_has(s0, key@)) by {
                if kf_has(s0, key@) {
                    let t = choose|t: int|
                        0 <= t < s0.len() && (#[trigger] s0[t]).0@ == key@;
                    assert(s0[t].0@ != key@);
                }
            }
        }
        let info = KeyAccessInfo {
            total_accesses: 1,
            last_access_ms: now_ms,
            access_intervals: Vec::new(),
            cache_hits: if was_hit {
                1
            } else {
                0
            },
            cache_misses: if was_hit {
                0
            } else {
                1
            },
        };
        self.key_frequencies.push((key.clone(), info));
        proof {
            assert(self.key_frequencies@.drop_last() =~= s0);
            let fe = self.key_frequencies@;
            assert forall|a: int, b: int|
                0 <= a < b < fe.len() implies (#[trigger] fe[a]).0@ != (
            #[trigger] fe[b]).0@ by {
                if b < s0.len() {
                    assert(fe[a] == s0[a] && fe[b] == s0[b]);
                } else {
                    assert(fe[a] == s0[a]);
                    if s0[a].0@ == key@ {
                        assert(kf_has(s0, key@));
                    }
                }
            }
        }
    }

    /// The per-key statistics: total accesses and the key's hit rate in
    /// thousandths.
    pub fn get_access_statistics(&self) -> (r: Vec<(String, (u64, u64))>)
        requires
            self.wf(),
        ensures
            r@.len() == self.key_frequencies@.len(),
            forall|i: int|
                0 <= i < r@.len() ==> {
                    let e = self.key_frequencies@[i];
                    (#[trigger] r@[i]).0@ == e.0@ && r@[i].1.0 == e.1.total_accesses && r@[i].1.1
                        == crate::stats::spec_hit_rate_millis(e.1.cache_hits, e.1.cache_misses)
                },
    {
        let mut r: Vec<(String, (u64, u64))> = Vec::new();
        let n = self.key_frequencies.len();
        let mut i: usize = 0;
        while i < n
            invariant
                0 <= i <= n,
                n == self.key_frequencies@.len(),
                r@.len() == i,
                forall|t: int|
                    0 <= t < i ==> {
                        let e = self.key_frequencies@[t];
                        (#[trigger] r@[t]).0@ == e.0@ && r@[t].1.0 == e.1.total_accesses
                            && r@[t].1.1 == crate::stats::spec_hit_rate_millis(
                            e.1.cache_hits,
                            e.1.cache_misses,
                        )
                    },
            decreases n - i,
        {
            let k = self.key_frequencies[i].0.clone();
            let st = crate::stats::CacheStats {
                hits: self.key_frequencies[i].1.cache_hits,
                misses: self.key_frequencies[i].1.cache_misses,
                size_bytes: 0,
                entry_count: 0,
            };
            let rate = st.hit_rate_millis();
            r.push((k, (self.key_frequencies[i].1.total_accesses, rate)));
            i = i + 1;
        }
        r
    }

    /// The most accessed keys, best first, at most ten: each listed key
    /// is a tracked key with its exact count, the list is ordered by
    /// descending count, and it is as long as the tracked keys allow.
    pub fn most_accessed_keys(&self) -> (r: Vec<(String, u64)>)
        requires
            self.wf(),
        ensures
            r@.len() == if self.key_frequencies@.len() <= 10 {
                self.key_frequencies@.len() as int
            } else {
                10
            },
            sorted_desc(r@),
            keys_drawn_from(r@, self.key_frequencies@),
    {
        let ghost s0 = self.key_frequencies@;
        let mut sorted: Vec<(String, u64)> = Vec::new();
        let n = self.key_frequencies.len();
        let mut i: usize = 0;
        while i < n
            invariant
                0 <= i <= n,
                n == s0.len(),
                self.key_frequencies@ == s0,
                sorted@.len() == i,
                sorted_desc(sorted@),
                keys_drawn_from(sorted@, self.key_frequencies@),
            decreases n - i,
        {
            let k = self.key_frequencies[i].0.clone();
            let c = self.key_frequencies[i].1.total_accesses;
            // Find the first position whose count is smaller, keeping
            // the order stable for equal counts.
            let m = sorted.len();
            let mut p: usize = 0;
            while p < m && sorted[p].1 >= c
                invariant
                    0 <= p <= m,
                    m == sorted@.len(),
                    forall|t: int| 0 <= t < p ==> (#[trigger] sorted@[t]).1 >= c,
                decreases m - p,
            {
                p = p + 1;
            }
            let ghost before = sorted@;
            sorted.insert(p, (k, c));
            proof {
                assert(sorted@[p as int].0@ == s0[i as int].0@ && sorted@[p as int].1 == s0[
                i as int].1.total_accesses);
                assert(sorted_desc(before));
                assert forall|a: int, b: int|
                    0 <= a < b < sorted@.len() implies (#[trigger] sorted@[a]).1 >= (
                #[trigger] sorted@[b]).1 by {
                    let a0 = if a < p as int {
                        a
                    } else {
                        a - 1
                    };
                    let b0 = if b < p as int {
                        b
                    } else {
                        b - 1
                    };
                    if a == p as int {
                        assert(sorted@[b] == before[b - 1]);
                        if b - 1 >= p as int {
                            if (p as int) < m {
                                assert(before[p as int].1 < c);
                            }
                            if b - 1 > p as int {
                                assert(before[p as int].1 >= before[b - 1].1);
                            }
                        }
                    } else if b == p as int {
                        assert(sorted@[a] == before[a]);
                        assert(before[a].1 >= c);
                    } else {
                        assert(sorted@[a] == before[a0] && sorted@[b] == before[b0]);
                    }
                }
                assert(keys_drawn_from(sorted@, self.key_frequencies@)) by {
                    assert forall|a: int|
                        0 <= a < sorted@.len() implies drawn_pair(
                        #[trigger] sorted@[a],
                        self.key_frequencies@,
                    ) by {
                        if a == p as int {
                            assert(0 <= i < self.key_frequencies@.len() && sorted@[a].0@
                                == self.key_frequencies@[i as int].0@ && sorted@[a].1
                                == self.key_frequencies@[i as int].1.total_accesses);
                        } else {
                            let a0 = if a < p as int {
                                a
                            } else {
                                a - 1
                            };
                            assert(sorted@[a] == before[a0]);
                            assert(drawn_pair(before[a0], self.key_frequencies@));
                        }
                    }
                }
                assert(sorted_desc(sorted@));
            }
            i = i + 1;
        }
        let ghost full = sorted@;
        sorted.truncate(10);
        proof {
            if full.len() > 10 {
                assert(sorted@ == full.subrange(0, 10));
            }
            assert(forall|a: int| 0 <= a < sorted@.len() ==> #[trigger] sorted@[a] == full[a]);
            assert(sorted_desc(sorted@));
            assert(keys_drawn_from(sorted@, self.key_frequencies@)) by {
                assert forall|a: int|
                    0 <= a < sorted@.len() implies drawn_pair(
                    #[trigger] sorted@[a],
                    self.key_frequencies@,
                ) by {
                    assert(sorted@[a] == full[a]);
                    assert(drawn_pair(full[a], self.key_frequencies@));
                }
            }
        }
        sorted
    }

    /// The access-pattern summary: the most accessed keys, the
    /// spatial-locality score, and the (simplified) distribution label.
    pub fn analyze_patterns(&self) -> (r: AccessPatternSummary)
        requires
            self.wf(),
        ensures
            sorted_desc(r.most_accessed_keys@),
            keys_drawn_from(r.most_accessed_keys@, self.key_frequencies@),
            ({
                let s = recent_views(self.spatial_locality.recent_sequence@);
                &&& r.spatial_locality_score_millis <= 1000
                &&& s.len() < 2 ==> r.spatial_locality_score_millis == 0
                &&& s.len() >= 2 ==> r.spatial_locality_score_millis == (pairs_upto(
                    s,
                    s.len() - 1,
                ) * 1000) / (s.len() - 1)
            }),
            r.access_distribution@ == "mixed"@,
            r.temporal_hotspots@.len() == 0,
    {
        let most_accessed = self.most_accessed_keys();
        let score = self.spatial_locality.calculate_locality_score_millis();
        proof {
            reveal_strlit("mixed");
        }
        AccessPatternSummary {
            most_accessed_keys: most_accessed,
            temporal_hotspots: Vec::new(),
            spatial_locality_score_millis: score,
            access_distribution: String::from_str("mixed"),
        }
    }
}

// ---------------------------------------------------------------------------
// Efficiency tracking
// ---------------------------------------------------------------------------

/// Promotion and demotion effectiveness counters; the accuracy is in
/// thousandths.
#[derive(Debug, Clone, Copy)]
pub struct PromotionStats {
    pub promotions_executed: u64,
    pub promotions_effective: u64,
    pub demotions_executed: u64,
    pub demotions_effective: u64,
    pub promotion_accuracy_millis: u64,
}

/// Warming effectiveness counters; the rates are in thousandths.
#[derive(Debug, Clone, Copy)]
pub struct WarmingStats {
    pub warming_operations: u64,
    pub keys_warmed: u64,
    pub warming_hit_rate_millis: u64,
    pub warming_efficiency_millis: u64,
}

/// Resource utilisation; the utilisations are in thousandths.
#[derive(Debug, Clone, Copy)]
pub struct ResourceUtilization {
    pub memory_utilization_millis: u64,
    pub disk_utilization_millis: u64,
    pub cpu_time_ms: u64,
    pub io_operations: u64,
}

/// Tracks how effective promotion and warming have been.
pub struct EfficiencyTracker {
    pub promotion_stats: PromotionStats,
    pub warming_stats: WarmingStats,
    pub resource_utilization: ResourceUtilization,
}

/// The efficiency summary; rates in thousandths.
pub struct EfficiencyAnalysis {
    pub promotion_effectiveness_millis: u64,
    pub warming_effectiveness_millis: u64,
    pub resource_efficiency_millis: u64,
    pub bottleneck_analysis: Vec<String>,
}

impl EfficiencyTracker {
    pub fn new() -> (r: Self)
        ensures
            r.promotion_stats.promotions_executed == 0,
            r.promotion_stats.promotions_effective == 0,
            r.promotion_stats.promotion_accuracy_millis == 0,
            r.warming_stats.warming_operations == 0,
            r.warming_stats.keys_warmed == 0,
            r.warming_stats.warming_hit_rate_millis == 0,
            r.resource_utilization.memory_utilization_millis == 0,
            r.resource_utilization.disk_utilization_millis == 0,
            r.promotion_stats.promotions_effective <= r.promotion_stats.promotions_executed,
    {
        EfficiencyTracker {
            promotion_stats: PromotionStats {
                promotions_executed: 0,
                promotions_effective: 0,
                demotions_executed: 0,
                demotions_effective: 0,
                promotion_accuracy_millis: 0,
            },
            warming_stats: WarmingStats {
                warming_operations: 0,
                keys_warmed: 0,
                warming_hit_rate_millis: 0,
                warming_efficiency_millis: 0,
            },
            resource_utilization: ResourceUtilization {
                memory_utilization_millis: 0,
                disk_utilization_millis: 0,
                cpu_time_ms: 0,
                io_operations: 0,
            },
        }
    }

    /// Recomputes the promotion accuracy as effective over executed, in
    /// thousandths.
    pub fn update_promotion_accuracy(&mut self)
        requires
            old(self).promotion_stats.promotions_effective <= old(
                self,
            ).promotion_stats.promotions_executed,
        ensures
            final(self).promotion_stats.promotions_executed == old(self).promotion_stats.promotions_executed,
            final(self).promotion_stats.promotions_effective == old(self).promotion_stats.promotions_effective,
            final(self).promotion_stats.demotions_executed == old(
                self,
            ).promotion_stats.demotions_executed,
            final(self).promotion_stats.demotions_effective == old(
                self,
            ).promotion_stats.demotions_effective,
            final(self).warming_stats == old(self).warming_stats,
            final(self).resource_utilization == old(self).resource_utilization,
            old(self).promotion_stats.promotions_executed > 0 ==> final(self).promotion_stats.promotion_accuracy_millis == (old(self).promotion_stats.promotions_effective as int * 1000) / old(self).promotion_stats.promotions_executed as int,
            old(self).promotion_stats.promotions_executed == 0 ==> final(self).promotion_stats.promotion_accuracy_millis == old(self).promotion_stats.promotion_accuracy_millis,
    {
        if self.promotion_stats.promotions_executed > 0 {
            let acc: u128 = (self.promotion_stats.promotions_effective as u128) * 1000 / (
            self.promotion_stats.promotions_executed as u128);
            proof {
                let e = self.promotion_stats.promotions_effective as int;
                let x = self.promotion_stats.promotions_executed as int;
                assert(e * 1000 <= x * 1000) by (nonlinear_arith)
                    requires
                        e <= x,
                ;
                assert(e * 1000 / x <= 1000) by (nonlinear_arith)
                    requires
                        x >= 1,
                        e * 1000 <= x * 1000,
                ;
                assert(e * 1000 / x >= 0) by (nonlinear_arith)
                    requires
                        x >= 1,
                        e >= 0,
                ;
            }
            self.promotion_stats.promotion_accuracy_millis = acc as u64;
        }
    }

    /// The efficiency summary and its bottleneck notes.
    pub fn analyze_efficiency(&self) -> (r: EfficiencyAnalysis)
        requires
            self.resource_utilization.memory_utilization_millis <= 1000,
            self.resource_utilization.disk_utilization_millis <= 1000,
        ensures
            r.promotion_effectiveness_millis == self.promotion_stats.promotion_accuracy_millis,
            r.warming_effectiveness_millis == self.warming_stats.warming_hit_rate_millis,
            r.resource_efficiency_millis == (self.resource_utilization.memory_utilization_millis
                + self.resource_utilization.disk_utilization_millis) / 2,
    {
        let promotion_effectiveness_millis = self.promotion_stats.promotion_accuracy_millis;
        let warming_effectiveness_millis = self.warming_stats.warming_hit_rate_millis;
        let resource_efficiency_millis = (self.resource_utilization.memory_utilization_millis
            + self.resource_utilization.disk_utilization_millis) / 2;
        let mut bottlenecks: Vec<String> = Vec::new();
        if promotion_effectiveness_millis < 700 {
            bottlenecks.push(String::from_str("Low promotion accuracy"));
        }
        if warming_effectiveness_millis < 600 {
            bottlenecks.push(String::from_str("Ineffective cache warming"));
        }
        if resource_efficiency_millis > 900 {
            bottlenecks.push(String::from_str("High resource utilization"));
        }
        EfficiencyAnalysis {
            promotion_effectiveness_millis,
            warming_effectiveness_millis,
            resource_efficiency_millis,
            bottleneck_analysis: bottlenecks,
        }
    }
}

// ---------------------------------------------------------------------------
// The report
// ---------------------------------------------------------------------------

/// The aggregated performance figures; rates in thousandths, response
/// times in microseconds.
pub struct PerformanceSummary {
    pub average_hit_rate_millis: u64,
    pub peak_hit_rate_millis: u64,
    pub average_response_time_micros: u64,
    pub throughput_ops_per_sec_millis: u64,
    pub cache_size_trend: String,
}

/// The access-pattern summary.
pub struct AccessPatternSummary {
    pub most_accessed_keys: Vec<(String, u64)>,
    pub temporal_hotspots: Vec<String>,
    pub spatial_locality_score_millis: u64,
    pub access_distribution: String,
}

/// One rule-based tuning recommendation.
pub struct OptimizationRecommendation {
    pub category: String,
    pub priority: String,
    pub description: String,
    pub expected_impact: String,
}

/// The full analytics report.
pub struct CacheAnalyticsReport {
    pub generated_at_ms: u64,
    pub time_range_ms: u64,
    pub performance_summary: PerformanceSummary,
    pub access_patterns: AccessPatternSummary,
    pub efficiency_analysis: EfficiencyAnalysis,
    pub recommendations: Vec<OptimizationRecommendation>,
}

pub open spec fn sum_hit_rates(s: Seq<PerformanceSnapshot>) -> int
    decreases s.len(),
{
    if s.len() == 0 {
        0
    } else {
        s[0].hit_rate_millis + sum_hit_rates(s.skip(1))
    }
}

pub open spec fn sum_response(s: Seq<PerformanceSnapshot>) -> int
    decreases s.len(),
{
    if s.len() == 0 {
        0
    } else {
        s[0].avg_response_time_micros + sum_response(s.skip(1))
    }
}

pub open spec fn sum_ops(s: Seq<PerformanceSnapshot>) -> int
    decreases s.len(),
{
    if s.len() == 0 {
        0
    } else {
        s[0].ops_per_sec_millis + sum_ops(s.skip(1))
    }
}

pub open spec fn max_hit_rate(s: Seq<PerformanceSnapshot>) -> int
    decreases s.len(),
{
    if s.len() == 0 {
        0
    } else {
        let rest = max_hit_rate(s.skip(1));
        if s[0].hit_rate_millis >= rest {
            s[0].hit_rate_millis as int
        } else {
            rest
        }
    }
}

/// The cache-size trend over a history: growing past ten percent is
/// "increasing", shrinking past ten percent "decreasing", in between
/// "stable"; fewer than two snapshots give "unknown".
pub open spec fn spec_size_trend(s: Seq<PerformanceSnapshot>) -> Seq<char> {
    if s.len() < 2 {
        "unknown"@
    } else {
        let first = s[0].total_size_bytes as int;
        let last = s.last().total_size_bytes as int;
        if first == 0 {
            if last > 0 {
                "increasing"@
            } else {
                "stable"@
            }
        } else if last * 10 > first * 11 {
            "increasing"@
        } else if last * 10 < first * 9 {
            "decreasing"@
        } else {
            "stable"@
        }
    }
}

// ---------------------------------------------------------------------------
// The collector
// ---------------------------------------------------------------------------

/// Collects performance snapshots, access patterns and efficiency
/// counters, and produces the analytics report on demand.
pub struct MetricsCollector {
    pub performance_history: Vec<PerformanceSnapshot>,
    pub access_patterns: AccessPatternAnalyzer,
    pub efficiency_tracker: EfficiencyTracker,
    pub config: MetricsConfig,
}

impl MetricsCollector {
    pub open spec fn wf(&self) -> bool {
        &&& self.access_patterns.wf()
        &&& self.performance_history@.len() <= self.config.max_history_size
        &&& self.efficiency_tracker.resource_utilization.memory_utilization_millis <= 1000
        &&& self.efficiency_tracker.resource_utilization.disk_utilization_millis <= 1000
        &&& self.efficiency_tracker.warming_stats.warming_hit_rate_millis <= 1000
        &&& self.efficiency_tracker.promotion_stats.promotions_effective
            <= self.efficiency_tracker.promotion_stats.promotions_executed
    }

    pub fn new(config: MetricsConfig) -> (r: Self)
        ensures
            r.wf(),
            r.performance_history@ == Seq::<PerformanceSnapshot>::empty(),
            r.config == config,
            r.access_patterns.key_frequencies@ == Seq::<(String, KeyAccessInfo)>::empty(),
            r.access_patterns.temporal_patterns@ == Seq::<TemporalAccess>::empty(),
            r.access_patterns.spatial_locality.recent_sequence@ == Seq::<
                ChunkCoordinate,
            >::empty(),
            r.access_patterns.spatial_locality.chunk_accesses@ == Seq::<
                (ChunkCoordinate, u64),
            >::empty(),
            r.efficiency_tracker.promotion_stats.promotions_executed == 0,
            r.efficiency_tracker.promotion_stats.promotions_effective == 0,
            r.efficiency_tracker.promotion_stats.promotion_accuracy_millis == 0,
            r.efficiency_tracker.warming_stats.warming_operations == 0,
            r.efficiency_tracker.warming_stats.keys_warmed == 0,
            r.efficiency_tracker.warming_stats.warming_hit_rate_millis == 0,
    {
        MetricsCollector {
            performance_history: Vec::new(),
            access_patterns: AccessPatternAnalyzer::new(),
            efficiency_tracker: EfficiencyTracker::new(),
            config,
        }
    }

    /// Records one cache operation for pattern analysis, when pattern
    /// tracking is on: the key's record is counted up exactly as the
    /// analyzer transition below states; with tracking off, nothing
    /// moves.
    pub fn record_operation(&mut self, key: &String, was_hit: bool, response_time_micros: u64, now_ms: u64)
        requires
            old(self).wf(),
        ensures
            final(self).wf(),
            final(self).config == old(self).config,
            final(self).performance_history@ == old(self).performance_history@,
            final(self).efficiency_tracker == old(self).efficiency_tracker,
            !old(self).config.track_access_patterns ==> final(self).access_patterns == old(self).access_patterns,
            old(self).config.track_access_patterns ==> ({
                let s = old(self).access_patterns.key_frequencies@;
                let fe = final(self).access_patterns.key_frequencies@;
                if kf_has(s, key@) {
                    let i = kf_index(s, key@);
                    let prev = s[i].1;
                    &&& fe.len() == s.len()
                    &&& forall|j: int| 0 <= j < s.len() && j != i ==> fe[j] == s[j]
                    &&& fe[i].0 == s[i].0
                    &&& fe[i].1.total_accesses == crate::memory::inc64(prev.total_accesses)
                    &&& fe[i].1.last_access_ms == now_ms
                    &&& fe[i].1.cache_hits == if was_hit {
                        crate::memory::inc64(prev.cache_hits)
                    } else {
                        prev.cache_hits
                    }
                    &&& fe[i].1.cache_misses == if was_hit {
                        prev.cache_misses
                    } else {
                        crate::memory::inc64(prev.cache_misses)
                    }
                } else {
                    &&& fe.len() == s.len() + 1
                    &&& fe.drop_last() == s
                    &&& fe.last().0@ == key@
                    &&& fe.last().1.total_accesses == 1
                    &&& fe.last().1.cache_hits == if was_hit {
                        1int
                    } else {
                        0int
                    }
                    &&& fe.last().1.cache_misses == if was_hit {
                        0int
                    } else {
                        1int
                    }
                }
            }),
            old(self).config.track_access_patterns ==> ({
                let t0 = old(self).access_patterns.temporal_patterns@;
                let t1 = final(self).access_patterns.temporal_patterns@;
                &&& if t0.len() < 10000 {
                    t1.len() == t0.len() + 1 && t1.drop_last() == t0
                } else {
                    t1.len() == 10000 && t1.drop_last() == t0.skip(1)
                }
                &&& t1.last().timestamp_ms == now_ms
                &&& t1.last().key@ == key@
                &&& t1.last().was_hit == was_hit
                &&& t1.last().response_time_micros == response_time_micros
            }),
            old(self).config.track_access_patterns ==> match spec_parse_chunk_coordinate(key@) {
                Some(cv) => recent_views(
                    final(self).access_patterns.spatial_locality.recent_sequence@,
                ) == if recent_views(
                    old(self).access_patterns.spatial_locality.recent_sequence@,
                ).len() < 1000 {
                    recent_views(
                        old(self).access_patterns.spatial_locality.recent_sequence@,
                    ).push(cv)
                } else {
                    recent_views(
                        old(self).access_patterns.spatial_locality.recent_sequence@,
                    ).push(cv).skip(1)
                },
                None => final(self).access_patterns.spatial_locality.recent_sequence@ == old(
                    self,
                ).access_patterns.spatial_locality.recent_sequence@,
            },
    {
        if self.config.track_access_patterns {
            self.access_patterns.record_access(key, was_hit, response_time_micros, now_ms);
        }
    }

    /// Appends a snapshot, keeping the history within its bound.
    pub fn record_snapshot(&mut self, snapshot: PerformanceSnapshot)
        requires
            old(self).wf(),
        ensures
            final(self).wf(),
            final(self).config == old(self).config,
            final(self).performance_history@ == if old(self).performance_history@.len()
                < old(self).config.max_history_size {
                old(self).performance_history@.push(snapshot)
            } else if old(self).config.max_history_size > 0 {
                old(self).performance_history@.push(snapshot).skip(1)
            } else {
                old(self).performance_history@
            },
    {
        if self.config.max_history_size == 0 {
            return ;
        }
        let ghost before = self.performance_history@;
        self.performance_history.push(snapshot);
        if self.performance_history.len() > self.config.max_history_size {
            let ghost cur = self.performance_history@;
            self.performance_history.remove(0);
            proof {
                assert(self.performance_history@ =~= cur.skip(1));
            }
        }
    }

    /// Counts one promotion and whether it proved effective, when
    /// efficiency tracking is on.
    pub fn record_promotion(&mut self, was_effective: bool)
        requires
            old(self).wf(),
        ensures
            final(self).wf(),
            final(self).config == old(self).config,
            old(self).config.track_efficiency ==> {
                let p = final(self).efficiency_tracker.promotion_stats;
                let q = old(self).efficiency_tracker.promotion_stats;
                &&& p.promotions_executed == crate::memory::inc64(q.promotions_executed)
                &&& p.promotions_effective == if was_effective {
                    crate::memory::inc64(q.promotions_effective)
                } else {
                    q.promotions_effective
                }
                &&& p.promotion_accuracy_millis == (p.promotions_effective as int * 1000)
                    / p.promotions_executed as int
                &&& p.demotions_executed == q.demotions_executed
                &&& p.demotions_effective == q.demotions_effective
                &&& final(self).efficiency_tracker.warming_stats == old(
                    self,
                ).efficiency_tracker.warming_stats
                &&& final(self).efficiency_tracker.resource_utilization == old(
                    self,
                ).efficiency_tracker.resource_utilization
            },
            !old(self).config.track_efficiency ==> final(self).efficiency_tracker == old(self).efficiency_tracker,
    {
        if self.config.track_efficiency {
            self.efficiency_tracker.promotion_stats.promotions_executed =
                crate::memory::inc_u64(self.efficiency_tracker.promotion_stats.promotions_executed);
            if was_effective {
                self.efficiency_tracker.promotion_stats.promotions_effective =
                    crate::memory::inc_u64(
                    self.efficiency_tracker.promotion_stats.promotions_effective,
                );
            }
            self.efficiency_tracker.update_promotion_accuracy();
        }
    }

    /// Counts one warming run: how many keys were warmed and how many
    /// drew subsequent hits. The running warming hit rate is the mean of
    /// this run's rate and the previous aggregate, a biased average that
    /// leans toward recent runs.
    pub fn record_warming(&mut self, keys_warmed: u64, subsequent_hits: u64)
        requires
            old(self).wf(),
            subsequent_hits <= keys_warmed,
        ensures
            final(self).wf(),
            final(self).config == old(self).config,
            old(self).config.track_efficiency ==> {
                let w = final(self).efficiency_tracker.warming_stats;
                let v = old(self).efficiency_tracker.warming_stats;
                &&& w.warming_operations == crate::memory::inc64(v.warming_operations)
                &&& w.keys_warmed == crate::stats::sat_add_u64(v.keys_warmed, keys_warmed)
                &&& keys_warmed > 0 ==> w.warming_hit_rate_millis == (v.warming_hit_rate_millis
                    + (subsequent_hits as int * 1000) / keys_warmed as int) / 2
                &&& keys_warmed == 0 ==> w.warming_hit_rate_millis == v.warming_hit_rate_millis
                &&& w.warming_efficiency_millis == v.warming_efficiency_millis
                &&& final(self).efficiency_tracker.promotion_stats == old(
                    self,
                ).efficiency_tracker.promotion_stats
                &&& final(self).efficiency_tracker.resource_utilization == old(
                    self,
                ).efficiency_tracker.resource_utilization
            },
            !old(self).config.track_efficiency ==> final(self).efficiency_tracker == old(self).efficiency_tracker,
    {
        if self.config.track_efficiency {
            self.efficiency_tracker.warming_stats.warming_operations = crate::memory::inc_u64(
                self.efficiency_tracker.warming_stats.warming_operations,
            );
            let kw = self.efficiency_tracker.warming_stats.keys_warmed;
            self.efficiency_tracker.warming_stats.keys_warmed = if kw <= u64::MAX - keys_warmed {
                kw + keys_warmed
            } else {
                u64::MAX
            };
            if keys_warmed > 0 {
                let rate: u128 = (subsequent_hits as u128) * 1000 / (keys_warmed as u128);
                proof {
                    let h = subsequent_hits as int;
                    let k = keys_warmed as int;
                    assert(h * 1000 <= k * 1000) by (nonlinear_arith)
                        requires
                            h <= k,
                    ;
                    assert(h * 1000 / k <= 1000) by (nonlinear_arith)
                        requires
                            k > 0,
                            h * 1000 <= k * 1000,
                    ;
                    assert(h * 1000 / k >= 0) by (nonlinear_arith)
                        requires
                            k > 0,
                            h >= 0,
                    ;
                }
                let prev = self.efficiency_tracker.warming_stats.warming_hit_rate_millis;
                self.efficiency_tracker.warming_stats.warming_hit_rate_millis = (prev + rate
                    as u64) / 2;
            }
        }
    }

    /// The most recent snapshot, if any.
    pub fn current_metrics(&self) -> (r: Option<PerformanceSnapshot>)
        ensures
            self.performance_history@.len() == 0 <==> r is None,
            self.performance_history@.len() > 0 ==> r == Some(self.performance_history@.last()),
    {
        if self.performance_history.len() == 0 {
            None
        } else {
            Some(self.performance_history[self.performance_history.len() - 1])
        }
    }

    /// The per-key statistics of the pattern analyzer: total accesses
    /// and the key's hit rate in thousandths, one pair per tracked key.
    pub fn access_statistics(&self) -> (r: Vec<(String, (u64, u64))>)
        requires
            self.wf(),
        ensures
            r@.len() == self.access_patterns.key_frequencies@.len(),
            forall|i: int|
                0 <= i < r@.len() ==> {
                    let e = self.access_patterns.key_frequencies@[i];
                    (#[trigger] r@[i]).0@ == e.0@ && r@[i].1.0 == e.1.total_accesses && r@[i].1.1
                        == crate::stats::spec_hit_rate_millis(e.1.cache_hits, e.1.cache_misses)
                },
    {
        self.access_patterns.get_access_statistics()
    }

    /// Aggregates the history into the performance summary: mean and
    /// peak hit rate, mean response time and throughput, and the size
    /// trend; an empty history reports zeros and an unknown trend.
    fn analyze_performance(&self) -> (r: PerformanceSummary)
        requires
            self.wf(),
        ensures
            ({
                let h = self.performance_history@;
                if h.len() == 0 {
                    &&& r.average_hit_rate_millis == 0
                    &&& r.peak_hit_rate_millis == 0
                    &&& r.average_response_time_micros == 0
                    &&& r.throughput_ops_per_sec_millis == 0
                    &&& r.cache_size_trend@ == "unknown"@
                } else {
                    &&& r.average_hit_rate_millis == sum_hit_rates(h) / h.len() as int
                    &&& r.peak_hit_rate_millis == max_hit_rate(h)
                    &&& r.average_response_time_micros == sum_response(h) / h.len() as int
                    &&& r.throughput_ops_per_sec_millis == sum_ops(h) / h.len() as int
                    &&& r.cache_size_trend@ == spec_size_trend(h)
                }
            }),
    {
        let ghost h = self.performance_history@;
        let n = self.performance_history.len();
        if n == 0 {
            proof {
                reveal_strlit("unknown");
            }
            return PerformanceSummary {
                average_hit_rate_millis: 0,
                peak_hit_rate_millis: 0,
                average_response_time_micros: 0,
                throughput_ops_per_sec_millis: 0,
                cache_size_trend: String::from_str("unknown"),
            };
        }
        let mut sum_hr: u128 = 0;
        let mut sum_rt: u128 = 0;
        let mut sum_op: u128 = 0;
        let mut peak: u64 = 0;
        let mut i: usize = 0;
        proof {
            assert(h.skip(0) =~= h);
        }
        while i < n
            invariant
                0 <= i <= n,
                n == h.len(),
                self.performance_history@ == h,
                sum_hr + sum_hit_rates(h.skip(i as int)) == sum_hit_rates(h),
                sum_rt + sum_response(h.skip(i as int)) == sum_response(h),
                sum_op + sum_ops(h.skip(i as int)) == sum_ops(h),
                sum_hr <= i * 0xffffffffffffffffu64,
                sum_rt <= i * 0xffffffffffffffffu64,
                sum_op <= i * 0xffffffffffffffffu64,
                if max_hit_rate(h.skip(i as int)) >= peak {
                    max_hit_rate(h) == max_hit_rate(h.skip(i as int))
                } else {
                    max_hit_rate(h) == peak
                },
            decreases n - i,
        {
            proof {
                assert(h.skip(i as int)[0] == h[i as int]);
                assert(h.skip(i as int).skip(1) =~= h.skip(i + 1));
                assert((i + 1) * 0xffffffffffffffffu64 == i * 0xffffffffffffffffu64
                    + 0xffffffffffffffffu64) by (nonlinear_arith);
            }
            let e = self.performance_history[i];
            sum_hr = sum_hr + e.hit_rate_millis as u128;
            sum_rt = sum_rt + e.avg_response_time_micros as u128;
            sum_op = sum_op + e.ops_per_sec_millis as u128;
            if e.hit_rate_millis > peak {
                peak = e.hit_rate_millis;
            }
            i = i + 1;
        }
        proof {
            assert(h.skip(n as int) =~= Seq::<PerformanceSnapshot>::empty());
            assert(sum_hit_rates(h.skip(n as int)) == 0);
            assert(sum_response(h.skip(n as int)) == 0);
            assert(sum_ops(h.skip(n as int)) == 0);
            assert(max_hit_rate(h.skip(n as int)) == 0);
            lemma_sum_div_bounds(sum_hr as int, n as int);
            lemma_sum_div_bounds(sum_rt as int, n as int);
            lemma_sum_div_bounds(sum_op as int, n as int);
        }
        let avg_hr = (sum_hr / n as u128) as u64;
        let avg_rt = (sum_rt / n as u128) as u64;
        let avg_op = (sum_op / n as u128) as u64;
        let first = self.performance_history[0].total_size_bytes;
        let last = self.performance_history[n - 1].total_size_bytes;
        proof {
            assert(h.last() == h[n - 1]);
            reveal_strlit("unknown");
            reveal_strlit("increasing");
            reveal_strlit("decreasing");
            reveal_strlit("stable");
        }
        let trend: &'static str = if n < 2 {
            "unknown"
        } else if first == 0 {
            if last > 0 {
                "increasing"
            } else {
                "stable"
            }
        } else {
            if (last as u128) * 10 > (first as u128) * 11 {
                "increasing"
            } else if (last as u128) * 10 < (first as u128) * 9 {
                "decreasing"
            } else {
                "stable"
            }
        };
        PerformanceSummary {
            average_hit_rate_millis: avg_hr,
            peak_hit_rate_millis: peak,
            average_response_time_micros: avg_rt,
            throughput_ops_per_sec_millis: avg_op,
            cache_size_trend: String::from_str(trend),
        }
    }

    /// The rule-based recommendations: a low hit rate, a high response
    /// time, weak spatial locality and ineffective warming each add one,
    /// in that order.
    fn generate_recommendations(
        &self,
        avg_hit_rate_millis: u64,
        avg_response_micros: u64,
        spatial_score_millis: u64,
        warming_effectiveness_millis: u64,
    ) -> (r: Vec<OptimizationRecommendation>)
        ensures
            r@.map_values(|x: OptimizationRecommendation| x.category@) == (
            if avg_hit_rate_millis < 800 {
                seq!["Performance"@]
            } else {
                Seq::<Seq<char>>::empty()
            }) + (if avg_response_micros > 10000 {
                seq!["Latency"@]
            } else {
                Seq::<Seq<char>>::empty()
            }) + (if spatial_score_millis < 500 {
                seq!["Access Patterns"@]
            } else {
                Seq::<Seq<char>>::empty()
            }) + (if warming_effectiveness_millis < 600 {
                seq!["Cache Warming"@]
            } else {
                Seq::<Seq<char>>::empty()
            }),
            avg_hit_rate_millis < 800 ==> r@[0].category@ == "Performance"@ && r@[0].priority@
                == "high"@,
            forall|i: int|
                0 <= i < r@.len() && (#[trigger] r@[i]).category@ == "Performance"@
                    ==> r@[i].priority@ == "high"@,
            forall|i: int|
                0 <= i < r@.len() && (#[trigger] r@[i]).category@ == "Latency"@ ==> r@[i].priority@
                    == "medium"@,
            forall|i: int|
                0 <= i < r@.len() && (#[trigger] r@[i]).category@ == "Access Patterns"@
                    ==> r@[i].priority@ == "medium"@,
            forall|i: int|
                0 <= i < r@.len() && (#[trigger] r@[i]).category@ == "Cache Warming"@
                    ==> r@[i].priority@ == "low"@,
    {
        proof {
            reveal_strlit("Performance");
            reveal_strlit("Latency");
            reveal_strlit("Access Patterns");
            reveal_strlit("Cache Warming");
            reveal_strlit("high");
            reveal_strlit("medium");
            reveal_strlit("low");
        }
        let mut r: Vec<OptimizationRecommendation> = Vec::new();
        if avg_hit_rate_millis < 800 {
            r.push(
                OptimizationRecommendation {
                    category: String::from_str("Performance"),
                    priority: String::from_str("high"),
                    description: String::from_str(
                        "Hit rate is below 80%. Consider increasing cache size or improving warming strategies.",
                    ),
                    expected_impact: String::from_str("20-40% performance improvement"),
                },
            );
        }
        if avg_response_micros > 10000 {
            r.push(
                OptimizationRecommendation {
                    category: String::from_str("Latency"),
                    priority: String::from_str("medium"),
                    description: String::from_str(
                        "Average response time is high. Consider optimizing cache lookup algorithms or reducing serialization overhead.",
                    ),
                    expected_impact: String::from_str("30-50% latency reduction"),
                },
            );
        }
        if spatial_score_millis < 500 {
            r.push(
                OptimizationRecommendation {
                    category: String::from_str("Access Patterns"),
                    priority: String::from_str("medium"),
                    description: String::from_str(
                        "Low spatial locality detected. Consider implementing more aggressive prefetching for neighboring chunks.",
                    ),
                    expected_impact: String::from_str("15-25% hit rate improvement"),
                },
            );
        }
        if warming_effectiveness_millis < 600 {
            r.push(
                OptimizationRecommendation {
                    category: String::from_str("Cache Warming"),
                    priority: String::from_str("low"),
                    description: String::from_str(
                        "Cache warming effectiveness is low. Review warming strategies and thresholds.",
                    ),
                    expected_impact: String::from_str("10-20% cache efficiency improvement"),
                },
            );
        }
        proof {
            let cats = r@.map_values(|x: OptimizationRecommendation| x.category@);
            let e1: Seq<Seq<char>> = if avg_hit_rate_millis < 800 {
                seq!["Performance"@]
            } else {
                Seq::<Seq<char>>::empty()
            };
            let e2: Seq<Seq<char>> = if avg_response_micros > 10000 {
                seq!["Latency"@]
            } else {
                Seq::<Seq<char>>::empty()
            };
            let e3: Seq<Seq<char>> = if spatial_score_millis < 500 {
                seq!["Access Patterns"@]
            } else {
                Seq::<Seq<char>>::empty()
            };
            let e4: Seq<Seq<char>> = if warming_effectiveness_millis < 600 {
                seq!["Cache Warming"@]
            } else {
                Seq::<Seq<char>>::empty()
            };
            assert(cats =~= e1 + e2 + e3 + e4);
            assert("Performance"@ != "Latency"@) by {
                assert("Performance"@.len() == 11 && "Latency"@.len() == 7);
            }
            assert("Access Patterns"@ != "Latency"@) by {
                assert("Access Patterns"@.len() == 15 && "Latency"@.len() == 7);
            }
            assert("Cache Warming"@ != "Latency"@) by {
                assert("Cache Warming"@.len() == 13 && "Latency"@.len() == 7);
            }
            assert("Performance"@ != "Access Patterns"@) by {
                assert("Performance"@.len() == 11 && "Access Patterns"@.len() == 15);
            }
            assert("Performance"@ != "Cache Warming"@) by {
                assert("Performance"@.len() == 11 && "Cache Warming"@.len() == 13);
            }
            assert("Access Patterns"@ != "Cache Warming"@) by {
                assert("Access Patterns"@.len() == 15 && "Cache Warming"@.len() == 13);
            }
        }
        r
    }

    /// Builds the full analytics report at the given instant.
    pub fn generate_report(&self, time_range_ms: u64, now_ms: u64) -> (r: CacheAnalyticsReport)
        requires
            self.wf(),
        ensures
            r.generated_at_ms == now_ms,
            r.time_range_ms == time_range_ms,
            ({
                let h = self.performance_history@;
                h.len() > 0 ==> r.performance_summary.average_hit_rate_millis == sum_hit_rates(h)
                    / h.len() as int && r.performance_summary.peak_hit_rate_millis
                    == max_hit_rate(h) && r.performance_summary.average_response_time_micros
                    == sum_response(h) / h.len() as int
                    && r.performance_summary.throughput_ops_per_sec_millis == sum_ops(h)
                    / h.len() as int && r.performance_summary.cache_size_trend@
                    == spec_size_trend(h)
            }),
            ({
                let h = self.performance_history@;
                h.len() == 0 ==> r.performance_summary.average_hit_rate_millis == 0
                    && r.performance_summary.peak_hit_rate_millis == 0
                    && r.performance_summary.average_response_time_micros == 0
                    && r.performance_summary.throughput_ops_per_sec_millis == 0
                    && r.performance_summary.cache_size_trend@ == "unknown"@
            }),
            sorted_desc(r.access_patterns.most_accessed_keys@),
            keys_drawn_from(
                r.access_patterns.most_accessed_keys@,
                self.access_patterns.key_frequencies@,
            ),
            ({
                let s = recent_views(self.access_patterns.spatial_locality.recent_sequence@);
                &&& r.access_patterns.spatial_locality_score_millis <= 1000
                &&& s.len() < 2 ==> r.access_patterns.spatial_locality_score_millis == 0
                &&& s.len() >= 2 ==> r.access_patterns.spatial_locality_score_millis
                    == (pairs_upto(s, s.len() - 1) * 1000) / (s.len() - 1)
            }),
            r.efficiency_analysis.promotion_effectiveness_millis
                == self.efficiency_tracker.promotion_stats.promotion_accuracy_millis,
            r.efficiency_analysis.warming_effectiveness_millis
                == self.efficiency_tracker.warming_stats.warming_hit_rate_millis,
            r.recommendations@.map_values(|x: OptimizationRecommendation| x.category@) == (
            if r.performance_summary.average_hit_rate_millis < 800 {
                seq!["Performance"@]
            } else {
                Seq::<Seq<char>>::empty()
            }) + (if r.performance_summary.average_response_time_micros > 10000 {
                seq!["Latency"@]
            } else {
                Seq::<Seq<char>>::empty()
            }) + (if r.access_patterns.spatial_locality_score_millis < 500 {
                seq!["Access Patterns"@]
            } else {
                Seq::<Seq<char>>::empty()
            }) + (if r.efficiency_analysis.warming_effectiveness_millis < 600 {
                seq!["Cache Warming"@]
            } else {
                Seq::<Seq<char>>::empty()
            }),
            forall|i: int|
                0 <= i < r.recommendations@.len() && (#[trigger] r.recommendations@[i]).category@
                    == "Performance"@ ==> r.recommendations@[i].priority@ == "high"@,
            forall|i: int|
                0 <= i < r.recommendations@.len() && (#[trigger] r.recommendations@[i]).category@
                    == "Latency"@ ==> r.recommendations@[i].priority@ == "medium"@,
            forall|i: int|
                0 <= i < r.recommendations@.len() && (#[trigger] r.recommendations@[i]).category@
                    == "Access Patterns"@ ==> r.recommendations@[i].priority@ == "medium"@,
            forall|i: int|
                0 <= i < r.recommendations@.len() && (#[trigger] r.recommendations@[i]).category@
                    == "Cache Warming"@ ==> r.recommendations@[i].priority@ == "low"@,
    {
        let performance_summary = self.analyze_performance();
        let access_patterns_summary = self.access_patterns.analyze_patterns();
        let score = access_patterns_summary.spatial_locality_score_millis;
        let efficiency_analysis = self.efficiency_tracker.analyze_efficiency();
        let recommendations = self.generate_recommendations(
            performance_summary.average_hit_rate_millis,
            performance_summary.average_response_time_micros,
            score,
            efficiency_analysis.warming_effectiveness_millis,
        );
        CacheAnalyticsReport {
            generated_at_ms: now_ms,
            time_range_ms,
            performance_summary,
            access_patterns: access_patterns_summary,
            efficiency_analysis,
            recommendations,
        }
    }
}

proof fn lemma_sum_div_bounds(sum: int, n: int)
    requires
        n >= 1,
        0 <= sum <= n * 0xffffffffffffffffu64,
    ensures
        0 <= sum / n <= 0xffffffffffffffffu64,
{
    assert(sum / n <= 0xffffffffffffffffu64) by (nonlinear_arith)
        requires
            n >= 1,
            sum <= n * 0xffffffffffffffffu64,
    ;
    assert(sum / n >= 0) by (nonlinear_arith)
        requires
            n >= 1,
            sum >= 0,
    ;
}

} // verus!
