//! Recently used inodes, with whether they still have to be written.
use crate::ondisk::records::Inode;
use moka::sync::Cache;
use vstd::prelude::*;

verus! {

#[derive(Clone, Copy)]
pub struct CachedInode {
    pub inode: Inode,
    pub dirty: bool,
}

/// The entries of an inode cache, by inode number.
pub type InodeEntries = Map<u64, CachedInode>;

/// What an inode cache may hold: for each inode number, the record last
/// inserted for it and not invalidated since. The cache may have evicted
/// any of them.
pub uninterp spec fn inode_cache_entries(c: Cache<u64, CachedInode>) -> InodeEntries;

/// `Cache::builder().max_capacity(capacity).build()`: an empty cache.
#[verifier::external_body]
fn inode_cache_with_capacity(capacity: u64) -> (r: Cache<u64, CachedInode>)
    ensures
        inode_cache_entries(r) == InodeEntries::empty(),
{
    Cache::builder().max_capacity(capacity).build()
}

/// `Cache::get`: a copy of the record cached for `key`, if the cache still
/// holds one; what it returns is the record last inserted for `key`.
#[verifier::external_body]
fn inode_cache_get(c: &Cache<u64, CachedInode>, key: &u64) -> (r: Option<CachedInode>)
    ensures
        r matches Some(e) ==> inode_cache_entries(*c).contains_key(*key) && inode_cache_entries(*c)[*key] == e,
{
    c.get(key)
}

/// `Cache::insert`: caches `value` for `key`, replacing what was cached.
#[verifier::external_body]
fn inode_cache_insert(c: &mut Cache<u64, CachedInode>, key: u64, value: CachedInode)
    ensures
        inode_cache_entries(*final(c)) == inode_cache_entries(*old(c)).insert(key, value),
{
    c.insert(key, value)
}

/// `Cache::invalidate`: drops what is cached for `key`.
#[verifier::external_body]
fn inode_cache_invalidate(c: &mut Cache<u64, CachedInode>, key: &u64)
    ensures
        inode_cache_entries(*final(c)) == inode_cache_entries(*old(c)).remove(*key),
{
    c.invalidate(key)
}

pub struct InodeCache {
    cache: Cache<u64, CachedInode>,
}

impl InodeCache {
    /// For each inode number, the record last inserted and not removed
    /// since: what the cache may still hold.
    pub closed spec fn entries(&self) -> InodeEntries {
        inode_cache_entries(self.cache)
    }

    /// A cache of at most `capacity` inodes.
    pub fn new(capacity: u64) -> (r: Self)
        ensures
            r.entries() == InodeEntries::empty(),
    {
        InodeCache { cache: inode_cache_with_capacity(capacity) }
    }

    /// The cached inode `ino`, if it is still cached: the one last inserted
    /// for it and not removed since.
    pub fn get(&self, ino: u64) -> (r: Option<Inode>)
        ensures
            r matches Some(i) ==> self.entries().contains_key(ino) && self.entries()[ino].inode == i,
    {
        match inode_cache_get(&self.cache, &ino) {
            Some(ci) => Some(ci.inode),
            None => None,
        }
    }

    /// Caches `inode` as inode `ino`.
    pub fn insert(&mut self, ino: u64, inode: Inode, dirty: bool)
        ensures
            final(self).entries() == old(self).entries().insert(ino, CachedInode { inode, dirty }),
    {
        inode_cache_insert(&mut self.cache, ino, CachedInode { inode, dirty });
    }

    /// Marks the cached inode `ino`, if it is still cached, as to be
    /// written.
    pub fn mark_dirty(&mut self, ino: u64)
        ensures
            final(self).entries() == old(self).entries() || (old(self).entries().contains_key(ino) && final(self).entries()
                == old(self).entries().insert(ino, CachedInode { dirty: true, ..old(self).entries()[ino] })),
    {
        if let Some(ci) = inode_cache_get(&self.cache, &ino) {
            let mut ci = ci;
            ci.dirty = true;
            inode_cache_insert(&mut self.cache, ino, ci);
        }
    }

    /// Drops inode `ino` from the cache.
    pub fn remove(&mut self, ino: u64)
        ensures
            final(self).entries() == old(self).entries().remove(ino),
    {
        inode_cache_invalidate(&mut self.cache, &ino);
    }
}

} // verus!
