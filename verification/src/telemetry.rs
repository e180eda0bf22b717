//! Counters of the operations the filesystem serves.
use vstd::prelude::*;

verus! {

/// Running totals of reads, writes and cache outcomes.
pub struct TelemetryMetrics {
    pub read_ops: u64,
    pub write_ops: u64,
    pub cache_hits: u64,
    pub cache_misses: u64,
}

impl TelemetryMetrics {
    /// All counters at zero.
    pub fn new() -> (r: Self)
        ensures
            r.read_ops == 0,
            r.write_ops == 0,
            r.cache_hits == 0,
            r.cache_misses == 0,
    {
        TelemetryMetrics { read_ops: 0, write_ops: 0, cache_hits: 0, cache_misses: 0 }
    }

    /// Counts one read; the counter stops at its maximum.
    pub fn record_read(&mut self)
        ensures
            *final(self) == (TelemetryMetrics { read_ops: old(self).read_ops.saturating_add(1), ..*old(self) }),
    {
        self.read_ops = self.read_ops.saturating_add(1);
    }

    /// Counts one write; the counter stops at its maximum.
    pub fn record_write(&mut self)
        ensures
            *final(self) == (TelemetryMetrics { write_ops: old(self).write_ops.saturating_add(1), ..*old(self) }),
    {
        self.write_ops = self.write_ops.saturating_add(1);
    }

    /// Counts one cache hit; the counter stops at its maximum.
    pub fn record_cache_hit(&mut self)
        ensures
            *final(self) == (TelemetryMetrics { cache_hits: old(self).cache_hits.saturating_add(1), ..*old(self) }),
    {
        self.cache_hits = self.cache_hits.saturating_add(1);
    }

    /// Counts one cache miss; the counter stops at its maximum.
    pub fn record_cache_miss(&mut self)
        ensures
            *final(self) == (TelemetryMetrics { cache_misses: old(self).cache_misses.saturating_add(1), ..*old(self) }),
    {
        self.cache_misses = self.cache_misses.saturating_add(1);
    }
}

} // verus!
