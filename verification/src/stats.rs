use vstd::prelude::*;

verus! {

/// A snapshot of a store's counters. `hits` and `misses` only ever grow;
/// `size_bytes` is the tracked byte total and `entry_count` the number of
/// live entries.
#[derive(Debug, Clone)]
pub struct CacheStats {
    pub hits: u64,
    pub misses: u64,
    pub size_bytes: usize,
    pub entry_count: usize,
}

/// The hit rate `hits / (hits + misses)` scaled to thousandths and rounded
/// down, or `0` when no operation was counted yet.
pub open spec fn spec_hit_rate_millis(hits: u64, misses: u64) -> int {
    if hits + misses == 0 {
        0
    } else {
        (hits * 1000) / (hits + misses)
    }
}

impl CacheStats {
    /// The hit rate as a ratio scaled to thousandths (`1000` means every
    /// lookup hit), rounded down; `0` before the first lookup.
    pub fn hit_rate_millis(&self) -> (r: u64)
        ensures
            r == spec_hit_rate_millis(self.hits, self.misses),
            r <= 1000,
    {
        let total: u128 = self.hits as u128 + self.misses as u128;
        if total == 0 {
            0u64
        } else {
            let r: u128 = (self.hits as u128 * 1000) / total;
            proof {
                lemma_hit_rate_bound(self.hits, self.misses);
            }
            r as u64
        }
    }
}

/// Addition on `u64` counters that stops at the top instead of wrapping.
pub open spec fn sat_add_u64(a: u64, b: u64) -> u64 {
    if a + b <= u64::MAX {
        (a + b) as u64
    } else {
        u64::MAX
    }
}

/// Addition on byte totals that stops at the top instead of wrapping.
pub open spec fn sat_add_usize(a: int, b: int) -> int {
    if a + b <= usize::MAX {
        a + b
    } else {
        usize::MAX as int
    }
}

proof fn lemma_hit_rate_bound(hits: u64, misses: u64)
    requires
        hits + misses > 0,
    ensures
        0 <= (hits * 1000) / (hits + misses) <= 1000,
{
    assert(hits * 1000 <= (hits + misses) * 1000) by (nonlinear_arith);
    assert((hits * 1000) / (hits + misses) <= 1000) by (nonlinear_arith)
        requires
            hits + misses > 0,
            hits * 1000 <= (hits + misses) * 1000,
    ;
    assert((hits * 1000) / (hits + misses) >= 0) by (nonlinear_arith)
        requires
            hits + misses > 0,
    ;
}

/// Adding one further hit to a counter pair never lowers the hit rate:
/// as exact fractions, `(h+1)/(h+m+1) >= h/(h+m)` (compared by
/// cross-multiplication). The rate strictly rises whenever at least one
/// miss was counted, and stays exactly `1` when there was none.
pub proof fn lemma_hit_rate_monotonic_in_hits(h: nat, m: nat)
    ensures
        (h + 1) * (h + m) >= h * (h + m + 1),
        m > 0 ==> (h + 1) * (h + m) > h * (h + m + 1),
        m == 0 ==> (h + 1) * (h + m) == h * (h + m + 1),
{
    assert((h + 1) * (h + m) == h * (h + m + 1) + m) by (nonlinear_arith);
}

} // verus!
