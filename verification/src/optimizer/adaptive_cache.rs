//! Cache limits that follow the observed hit ratio.
use crate::telemetry::TelemetryMetrics;
use vstd::prelude::*;

verus! {

/// The hit ratio `hits / (hits + misses)` is below 80%.
pub open spec fn hit_ratio_below_80(hits: int, misses: int) -> bool {
    hits * 5 < (hits + misses) * 4
}

/// The hit ratio `hits / (hits + misses)` is above 98%.
pub open spec fn hit_ratio_above_98(hits: int, misses: int) -> bool {
    hits * 50 > (hits + misses) * 49
}

pub open spec fn shrink_to(x: usize, step: usize, floor: usize) -> usize {
    let s = if x >= step { (x - step) as usize } else { 0usize };
    if s > floor { s } else { floor }
}

/// Limits on the number of cached inodes and extents.
pub struct AdaptiveCacheManager {
    pub max_inodes: usize,
    pub max_extents: usize,
}

impl AdaptiveCacheManager {
    pub fn new() -> (r: Self)
        ensures
            r.max_inodes == 10_000,
            r.max_extents == 20_000,
    {
        AdaptiveCacheManager { max_inodes: 10_000, max_extents: 20_000 }
    }

    /// Grows the limits when fewer than 80% of lookups hit, and shrinks them
    /// (to no less than 1000 inodes and 2000 extents) when more than 98% hit.
    pub fn tune_cache_sizes(&mut self, metrics: &TelemetryMetrics)
        requires
            metrics.cache_hits + metrics.cache_misses <= u64::MAX,
            metrics.cache_hits + metrics.cache_misses > 0 && hit_ratio_below_80(
                metrics.cache_hits as int,
                metrics.cache_misses as int,
            ) ==> old(self).max_inodes + 1000 <= usize::MAX && old(self).max_extents + 2000 <= usize::MAX,
        ensures
            ({
                let hits = metrics.cache_hits as int;
                let misses = metrics.cache_misses as int;
                if hits + misses == 0 {
                    *final(self) == *old(self)
                } else if hit_ratio_below_80(hits, misses) {
                    &&& final(self).max_inodes == old(self).max_inodes + 1000
                    &&& final(self).max_extents == old(self).max_extents + 2000
                } else if hit_ratio_above_98(hits, misses) {
                    &&& final(self).max_inodes == shrink_to(old(self).max_inodes, 500, 1000)
                    &&& final(self).max_extents == shrink_to(old(self).max_extents, 1000, 2000)
                } else {
                    *final(self) == *old(self)
                }
            }),
    {
        let hits = metrics.cache_hits;
        let misses = metrics.cache_misses;
        let total = hits + misses;
        if total > 0 {
            let h = hits as u128;
            let t = total as u128;
            if h * 5 < t * 4 {
                self.max_inodes = self.max_inodes + 1000;
                self.max_extents = self.max_extents + 2000;
            } else if h * 50 > t * 49 {
                let inodes = self.max_inodes.saturating_sub(500);
                self.max_inodes = if inodes > 1000 { inodes } else { 1000 };
                let extents = self.max_extents.saturating_sub(1000);
                self.max_extents = if extents > 2000 { extents } else { 2000 };
            }
        }
    }
}

} // verus!
