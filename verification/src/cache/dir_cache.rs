//! Recently looked-up directory entries, keyed by parent and name.
use moka::sync::Cache;
use vstd::prelude::*;

verus! {

broadcast use vstd::string::to_string_from_display_ensures_for_str;

#[derive(Clone, Copy)]
pub struct CachedDirEntry {
    pub ino: u64,
    pub file_type: u8,
}

/// A directory entry's key: the parent's inode number and the name.
pub type DirKey = (u64, String);

/// The entries of a directory-entry cache, by parent and name.
pub type DirEntries = Map<(u64, Seq<char>), CachedDirEntry>;

/// What a directory-entry cache may hold: for each key, the entry last
/// inserted for it and not invalidated since. The cache may have evicted
/// any of them.
pub uninterp spec fn dir_cache_entries(c: Cache<DirKey, CachedDirEntry>) -> DirEntries;

/// `Cache::builder().max_capacity(capacity).build()`: an empty cache.
#[verifier::external_body]
fn dir_cache_with_capacity(capacity: u64) -> (r: Cache<DirKey, CachedDirEntry>)
    ensures
        dir_cache_entries(r) == DirEntries::empty(),
{
    Cache::builder().max_capacity(capacity).build()
}

/// `Cache::get`: a copy of the entry cached for `key`, if the cache still
/// holds one; what it returns is the entry last inserted for `key`.
#[verifier::external_body]
fn dir_cache_get(c: &Cache<DirKey, CachedDirEntry>, key: &DirKey) -> (r: Option<CachedDirEntry>)
    ensures
        r matches Some(e) ==> dir_cache_entries(*c).contains_key(key@) && dir_cache_entries(*c)[key@] == e,
{
    c.get(key)
}

/// `Cache::insert`: caches `value` for `key`, replacing what was cached.
#[verifier::external_body]
fn dir_cache_insert(c: &mut Cache<DirKey, CachedDirEntry>, key: DirKey, value: CachedDirEntry)
    ensures
        dir_cache_entries(*final(c)) == dir_cache_entries(*old(c)).insert(key@, value),
{
    c.insert(key, value)
}

/// `Cache::invalidate`: drops what is cached for `key`.
#[verifier::external_body]
fn dir_cache_invalidate(c: &mut Cache<DirKey, CachedDirEntry>, key: &DirKey)
    ensures
        dir_cache_entries(*final(c)) == dir_cache_entries(*old(c)).remove(key@),
{
    c.invalidate(key)
}

pub struct DirCache {
    cache: Cache<DirKey, CachedDirEntry>,
}

impl DirCache {
    /// For each parent and name, the entry last inserted and not removed
    /// since: what the cache may still hold.
    pub closed spec fn entries(&self) -> DirEntries {
        dir_cache_entries(self.cache)
    }

    /// A cache of at most `capacity` entries.
    pub fn new(capacity: u64) -> (r: Self)
        ensures
            r.entries() == DirEntries::empty(),
    {
        DirCache { cache: dir_cache_with_capacity(capacity) }
    }

    /// The cached entry `name` of directory `parent_ino`, if it is still
    /// cached: the one last inserted for them and not removed since.
    pub fn get(&self, parent_ino: u64, name: &str) -> (r: Option<CachedDirEntry>)
        ensures
            r matches Some(e) ==> self.entries().contains_key((parent_ino, name@)) && self.entries()[(parent_ino, name@)]
                == e,
    {
        let key = (parent_ino, name.to_string());
        assert(key@ == (parent_ino, name@));
        dir_cache_get(&self.cache, &key)
    }

    /// Caches entry `name` of directory `parent_ino`.
    pub fn insert(&mut self, parent_ino: u64, name: &str, ino: u64, file_type: u8)
        ensures
            final(self).entries() == old(self).entries().insert((parent_ino, name@), CachedDirEntry { ino, file_type }),
    {
        let key = (parent_ino, name.to_string());
        assert(key@ == (parent_ino, name@));
        dir_cache_insert(&mut self.cache, key, CachedDirEntry { ino, file_type });
    }

    /// Drops entry `name` of directory `parent_ino` from the cache.
    pub fn remove(&mut self, parent_ino: u64, name: &str)
        ensures
            final(self).entries() == old(self).entries().remove((parent_ino, name@)),
    {
        let key = (parent_ino, name.to_string());
        assert(key@ == (parent_ino, name@));
        dir_cache_invalidate(&mut self.cache, &key);
    }
}

} // verus!
