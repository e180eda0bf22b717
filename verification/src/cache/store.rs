//! The `moka` cache that every cache of this module keeps its entries in.
use moka::sync::Cache;
use vstd::prelude::*;

verus! {

#[verifier::external_type_specification]
#[verifier::external_body]
#[verifier::reject_recursive_types(K)]
#[verifier::reject_recursive_types(V)]
#[verifier::reject_recursive_types(S)]
pub struct ExMokaCache<K, V, S>(Cache<K, V, S>);

} // verus!
