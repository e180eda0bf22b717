//! Per-CPU caches of free blocks, so that allocation rarely needs the
//! global allocator.
use std::collections::VecDeque;
use vstd::prelude::*;

verus! {

/// Number of per-CPU buckets.
pub const CPU_BUCKETS: usize = 16;

pub struct PerCpuAllocatorCache {
    caches: Vec<VecDeque<u64>>,
    cpu_count: usize,
    hits: u64,
    misses: u64,
}

impl Default for PerCpuAllocatorCache {
    fn default() -> (r: Self)
        ensures
            r.buckets() == Seq::new(CPU_BUCKETS as nat, |i: int| Seq::<u64>::empty()),
            r.hits() == 0,
            r.misses() == 0,
    {
        Self::new()
    }
}

impl PerCpuAllocatorCache {
    /// The free blocks held by each bucket, oldest first.
    pub closed spec fn buckets(self) -> Seq<Seq<u64>> {
        Seq::new(self.caches@.len(), |i: int| self.caches@[i]@)
    }

    /// Allocations served from a bucket.
    pub closed spec fn hits(self) -> u64 {
        self.hits
    }

    /// Allocations that found their bucket empty.
    pub closed spec fn misses(self) -> u64 {
        self.misses
    }

    /// The number of buckets that callers pick from.
    pub closed spec fn cpu_count(self) -> usize {
        self.cpu_count
    }

    /// Sixteen empty buckets.
    pub fn new() -> (r: Self)
        ensures
            r.buckets() == Seq::new(CPU_BUCKETS as nat, |i: int| Seq::<u64>::empty()),
            r.cpu_count() == CPU_BUCKETS,
            r.hits() == 0,
            r.misses() == 0,
    {
        let cpu_count = CPU_BUCKETS;
        let mut caches: Vec<VecDeque<u64>> = Vec::new();
        let mut i: usize = 0;
        while i < cpu_count
            invariant
                cpu_count == CPU_BUCKETS,
                i <= cpu_count,
                caches@.len() == i,
                forall|j: int| 0 <= j < i ==> (#[trigger] caches@[j])@ == Seq::<u64>::empty(),
            decreases cpu_count - i,
        {
            caches.push(VecDeque::new());
            i = i + 1;
        }
        let r = PerCpuAllocatorCache { caches, cpu_count, hits: 0, misses: 0 };
        assert(r.buckets() =~= Seq::new(CPU_BUCKETS as nat, |i: int| Seq::<u64>::empty()));
        r
    }

    /// Takes the oldest block of bucket `bucket` (the caller's CPU), if it
    /// has one; hits and misses are counted, wrapping around.
    pub fn allocate(&mut self, bucket: usize) -> (r: Option<u64>)
        requires
            bucket < old(self).buckets().len(),
        ensures
            old(self).buckets()[bucket as int].len() > 0 ==> {
                &&& r == Some(old(self).buckets()[bucket as int][0])
                &&& final(self).buckets() == old(self).buckets().update(
                    bucket as int,
                    old(self).buckets()[bucket as int].drop_first(),
                )
                &&& final(self).hits() == old(self).hits().wrapping_add(1)
                &&& final(self).misses() == old(self).misses()
            },
            final(self).cpu_count() == old(self).cpu_count(),
            old(self).buckets()[bucket as int].len() == 0 ==> {
                &&& r is None
                &&& final(self).buckets() == old(self).buckets()
                &&& final(self).hits() == old(self).hits()
                &&& final(self).misses() == old(self).misses().wrapping_add(1)
            },
    {
        let ghost before = self.buckets();
        let mut caches = Vec::new();
        std::mem::swap(&mut caches, &mut self.caches);
        let mut q = VecDeque::new();
        std::mem::swap(&mut q, &mut caches[bucket]);
        let popped = q.pop_front();
        std::mem::swap(&mut q, &mut caches[bucket]);
        let hits = match popped {
            Some(_) => self.hits.wrapping_add(1),
            None => self.hits,
        };
        let misses = match popped {
            Some(_) => self.misses,
            None => self.misses.wrapping_add(1),
        };
        *self = PerCpuAllocatorCache { caches, cpu_count: self.cpu_count, hits, misses };
        proof {
            if before[bucket as int].len() > 0 {
                assert(self.buckets() =~= before.update(bucket as int, before[bucket as int].drop_first()));
            } else {
                assert(self.buckets() =~= before);
            }
        }
        popped
    }

    /// Returns `block` to bucket `bucket` (the caller's CPU), after the
    /// blocks it holds.
    pub fn free(&mut self, bucket: usize, block: u64)
        requires
            bucket < old(self).buckets().len(),
        ensures
            final(self).buckets() == old(self).buckets().update(
                bucket as int,
                old(self).buckets()[bucket as int].push(block),
            ),
            final(self).hits() == old(self).hits(),
            final(self).misses() == old(self).misses(),
            final(self).cpu_count() == old(self).cpu_count(),
    {
        let ghost before = self.buckets();
        let mut caches = Vec::new();
        std::mem::swap(&mut caches, &mut self.caches);
        let mut q = VecDeque::new();
        std::mem::swap(&mut q, &mut caches[bucket]);
        q.push_back(block);
        std::mem::swap(&mut q, &mut caches[bucket]);
        *self = PerCpuAllocatorCache { caches, cpu_count: self.cpu_count, hits: self.hits, misses: self.misses };
        proof {
            assert(self.buckets() =~= before.update(bucket as int, before[bucket as int].push(block)));
        }
    }
}

} // verus!
