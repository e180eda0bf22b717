//! The extent lists of recently used files, with whether they still have to
//! be written.
use crate::ondisk::records::Extent;
use moka::sync::Cache;
use std::sync::Arc;
use vstd::prelude::*;

verus! {

#[derive(Clone)]
pub struct CachedExtents {
    pub extents: Vec<Extent>,
    pub dirty: bool,
}

/// The entries of an extent cache, by inode number.
pub type ExtentEntries = Map<u64, Arc<CachedExtents>>;

/// What an extent cache may hold: for each inode number, the extents last
/// inserted for it and not invalidated since. The cache may have evicted
/// any of them.
pub uninterp spec fn extent_cache_entries(c: Cache<u64, Arc<CachedExtents>>) -> ExtentEntries;

/// `Cache::builder().max_capacity(capacity).build()`: an empty cache.
#[verifier::external_body]
fn extent_cache_with_capacity(capacity: u64) -> (r: Cache<u64, Arc<CachedExtents>>)
    ensures
        extent_cache_entries(r) == ExtentEntries::empty(),
{
    Cache::builder().max_capacity(capacity).build()
}

/// `Cache::get`: a handle on the extents cached for `key`, if the cache
/// still holds them; what it returns is what was last inserted for `key`.
#[verifier::external_body]
fn extent_cache_get(c: &Cache<u64, Arc<CachedExtents>>, key: &u64) -> (r: Option<Arc<CachedExtents>>)
    ensures
        r matches Some(e) ==> extent_cache_entries(*c).contains_key(*key) && extent_cache_entries(*c)[*key] == e,
{
    c.get(key)
}

/// `Cache::insert`: caches `value` for `key`, replacing what was cached.
#[verifier::external_body]
fn extent_cache_insert(c: &mut Cache<u64, Arc<CachedExtents>>, key: u64, value: Arc<CachedExtents>)
    ensures
        extent_cache_entries(*final(c)) == extent_cache_entries(*old(c)).insert(key, value),
{
    c.insert(key, value)
}

/// `Cache::invalidate`: drops what is cached for `key`.
#[verifier::external_body]
fn extent_cache_invalidate(c: &mut Cache<u64, Arc<CachedExtents>>, key: &u64)
    ensures
        extent_cache_entries(*final(c)) == extent_cache_entries(*old(c)).remove(*key),
{
    c.invalidate(key)
}

pub struct ExtentCache {
    cache: Cache<u64, Arc<CachedExtents>>,
}

impl ExtentCache {
    /// For each inode number, the extents last inserted and not removed
    /// since: what the cache may still hold.
    pub closed spec fn entries(&self) -> ExtentEntries {
        extent_cache_entries(self.cache)
    }

    /// A cache of the extents of at most `capacity` files.
    pub fn new(capacity: u64) -> (r: Self)
        ensures
            r.entries() == ExtentEntries::empty(),
    {
        ExtentCache { cache: extent_cache_with_capacity(capacity) }
    }

    /// The cached extents of inode `ino`, if they are still cached: those
    /// last inserted for it and not removed since.
    pub fn get(&self, ino: u64) -> (r: Option<Arc<CachedExtents>>)
        ensures
            r matches Some(e) ==> self.entries().contains_key(ino) && self.entries()[ino] == e,
    {
        extent_cache_get(&self.cache, &ino)
    }

    /// Caches `extents` as those of inode `ino`.
    pub fn insert(&mut self, ino: u64, extents: Vec<Extent>, dirty: bool)
        ensures
            final(self).entries().dom() == old(self).entries().dom().insert(ino),
            final(self).entries()[ino].extents@ == extents@,
            final(self).entries()[ino].dirty == dirty,
            forall|k: u64| k != ino ==> #[trigger] final(self).entries().contains_key(k) ==> final(self).entries()[k]
                == old(self).entries()[k],
    {
        let ghost ex = extents@;
        let v = Arc::new(CachedExtents { extents, dirty });
        extent_cache_insert(&mut self.cache, ino, v);
    }

    /// Marks the cached extents of inode `ino`, if they are still cached,
    /// as to be written.
    pub fn mark_dirty(&mut self, ino: u64)
        ensures
            final(self).entries() == old(self).entries() || {
                &&& old(self).entries().contains_key(ino)
                &&& final(self).entries().dom() == old(self).entries().dom()
                &&& final(self).entries()[ino].extents@ == old(self).entries()[ino].extents@
                &&& final(self).entries()[ino].dirty
                &&& forall|k: u64| k != ino ==> #[trigger] final(self).entries().contains_key(k) ==> final(self).entries()[k]
                    == old(self).entries()[k]
            },
    {
        if let Some(ce) = extent_cache_get(&self.cache, &ino) {
            let extents = ce.extents.clone();
            let new_ce = CachedExtents { extents, dirty: true };
            extent_cache_insert(&mut self.cache, ino, Arc::new(new_ce));
        }
    }

    /// Drops the extents of inode `ino` from the cache.
    pub fn remove(&mut self, ino: u64)
        ensures
            final(self).entries() == old(self).entries().remove(ino),
    {
        extent_cache_invalidate(&mut self.cache, &ino);
    }
}

} // verus!
