//! Recently read tree nodes, by block.
use crate::btree::node::BTreeNodeData;
use moka::sync::Cache;
use std::sync::Arc;
use vstd::prelude::*;

verus! {

/// The entries of a node cache, by block.
pub type NodeEntries = Map<u64, Arc<BTreeNodeData>>;

/// What a node cache may hold: for each block, the node last inserted for
/// it and not invalidated since. The cache may have evicted any of them.
pub uninterp spec fn node_cache_entries(c: Cache<u64, Arc<BTreeNodeData>>) -> NodeEntries;

/// `Cache::builder().max_capacity(capacity).build()`: an empty cache.
#[verifier::external_body]
fn node_cache_with_capacity(capacity: u64) -> (r: Cache<u64, Arc<BTreeNodeData>>)
    ensures
        node_cache_entries(r) == NodeEntries::empty(),
{
    Cache::builder().max_capacity(capacity).build()
}

/// `Cache::get`: a handle on the node cached for `key`, if the cache still
/// holds one; what it returns is the node last inserted for `key`.
#[verifier::external_body]
fn node_cache_get(c: &Cache<u64, Arc<BTreeNodeData>>, key: &u64) -> (r: Option<Arc<BTreeNodeData>>)
    ensures
        r matches Some(e) ==> node_cache_entries(*c).contains_key(*key) && node_cache_entries(*c)[*key] == e,
{
    c.get(key)
}

/// `Cache::insert`: caches `value` for `key`, replacing what was cached.
#[verifier::external_body]
fn node_cache_insert(c: &mut Cache<u64, Arc<BTreeNodeData>>, key: u64, value: Arc<BTreeNodeData>)
    ensures
        node_cache_entries(*final(c)) == node_cache_entries(*old(c)).insert(key, value),
{
    c.insert(key, value)
}

/// `Cache::invalidate`: drops what is cached for `key`.
#[verifier::external_body]
fn node_cache_invalidate(c: &mut Cache<u64, Arc<BTreeNodeData>>, key: &u64)
    ensures
        node_cache_entries(*final(c)) == node_cache_entries(*old(c)).remove(*key),
{
    c.invalidate(key)
}

pub struct NodeCache {
    cache: Cache<u64, Arc<BTreeNodeData>>,
}

impl NodeCache {
    /// For each block, the node last inserted and not removed since: what
    /// the cache may still hold.
    pub closed spec fn entries(&self) -> NodeEntries {
        node_cache_entries(self.cache)
    }

    /// A cache of at most `capacity` nodes.
    pub fn new(capacity: u64) -> (r: Self)
        ensures
            r.entries() == NodeEntries::empty(),
    {
        NodeCache { cache: node_cache_with_capacity(capacity) }
    }

    /// The cached node of `block`, if it is still cached: the one last
    /// inserted for it and not removed since.
    pub fn get(&self, block: u64) -> (r: Option<Arc<BTreeNodeData>>)
        ensures
            r matches Some(n) ==> self.entries().contains_key(block) && self.entries()[block] == n,
    {
        node_cache_get(&self.cache, &block)
    }

    /// Caches `node` as the node of `block`.
    pub fn insert(&mut self, block: u64, node: BTreeNodeData)
        ensures
            final(self).entries().dom() == old(self).entries().dom().insert(block),
            final(self).entries()[block].header == node.header,
            final(self).entries()[block].payload@ == node.payload@,
            forall|k: u64| k != block ==> #[trigger] final(self).entries().contains_key(k) ==> final(self).entries()[k]
                == old(self).entries()[k],
    {
        let ghost n = node;
        node_cache_insert(&mut self.cache, block, Arc::new(node));
    }

    /// Drops the node of `block` from the cache.
    pub fn invalidate(&mut self, block: u64)
        ensures
            final(self).entries() == old(self).entries().remove(block),
    {
        node_cache_invalidate(&mut self.cache, &block);
    }
}

} // verus!
