//! Tuning advice drawn from the telemetry counters.
use crate::telemetry::TelemetryMetrics;
use vstd::prelude::*;

verus! {

broadcast use vstd::string::to_string_from_display_ensures_for_str;

/// More than 1000 lookups were counted and fewer than half of them hit.
pub open spec fn cache_too_small(hits: int, misses: int) -> bool {
    hits + misses > 1000 && hits * 2 < hits + misses
}

pub struct RecommendationEngine;

impl Default for RecommendationEngine {
    fn default() -> (r: Self) {
        Self::new()
    }
}

impl RecommendationEngine {
    pub fn new() -> (r: Self) {
        RecommendationEngine
    }

    /// The advice that applies to `metrics`.
    pub fn generate_recommendations(&self, metrics: &TelemetryMetrics) -> (r: Vec<String>)
        requires
            metrics.cache_hits + metrics.cache_misses <= u64::MAX,
        ensures
            cache_too_small(metrics.cache_hits as int, metrics.cache_misses as int) ==> r@.len() == 1
                && r@[0]@ == "Increase cache size: Cache hit ratio is below 50%."@,
            !cache_too_small(metrics.cache_hits as int, metrics.cache_misses as int) ==> r@.len() == 0,
    {
        let mut recs: Vec<String> = Vec::new();
        let hits = metrics.cache_hits;
        let misses = metrics.cache_misses;
        let total = hits + misses;
        if total > 1000 {
            if (hits as u128) * 2 < total as u128 {
                recs.push("Increase cache size: Cache hit ratio is below 50%.".to_string());
            }
        }
        recs
    }
}

} // verus!
