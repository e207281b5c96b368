//! The shared store: plain keys, hash keys and set keys, each a sharded
//! concurrent map. Every connection holds a handle to the same store, so
//! what a read returns depends on what other connections wrote: the
//! contracts here say only what holds of every outcome.
use vstd::prelude::*;
use dashmap::{DashMap, DashSet};
use std::sync::Arc;
use crate::frame::RespFrame;

verus! {

#[verifier::external_type_specification]
#[verifier::external_body]
#[verifier::reject_recursive_types(K)]
#[verifier::reject_recursive_types(V)]
#[verifier::reject_recursive_types(S)]
pub struct ExDashMap<K, V, S>(DashMap<K, V, S>);

#[verifier::external_type_specification]
#[verifier::external_body]
#[verifier::reject_recursive_types(K)]
#[verifier::reject_recursive_types(S)]
pub struct ExDashSet<K, S>(DashSet<K, S>);

/// Relies on `DashMap::new`: an empty map.
#[verifier::external_body]
fn new_map<V>() -> DashMap<String, V> {
    DashMap::new()
}

/// Relies on `DashMap::get`: a copy of the value under `key`, if any.
#[verifier::external_body]
fn map_get(m: &DashMap<String, RespFrame>, key: &str) -> Option<RespFrame> {
    m.get(key).map(|v| v.value().clone())
}

/// Relies on `DashMap::insert`: `key` now maps to `value`.
#[verifier::external_body]
fn map_insert(m: &DashMap<String, RespFrame>, key: String, value: RespFrame) {
    m.insert(key, value);
}

/// Relies on `DashMap::get`, on the outer map then on the field map.
#[verifier::external_body]
fn hash_get(m: &DashMap<String, DashMap<String, RespFrame>>, key: &str, field: &str) -> Option<
    RespFrame,
> {
    m.get(key).and_then(|inner| inner.get(field).map(|v| v.value().clone()))
}

/// Relies on `DashMap::entry(..).or_default()` and `DashMap::insert`: the
/// field map is made on first use, and the field set while the key's shard
/// is locked.
#[verifier::external_body]
fn hash_set(m: &DashMap<String, DashMap<String, RespFrame>>, key: String, field: String, value: RespFrame) {
    m.entry(key).or_default().insert(field, value);
}

/// Relies on `DashMap::get` and `DashMap`'s `Clone`: the field map is
/// copied while the key's shard is locked against writers, then its entries
/// are handed out.
#[verifier::external_body]
fn hash_entries(m: &DashMap<String, DashMap<String, RespFrame>>, key: &str) -> Option<
    Vec<(String, RespFrame)>,
> {
    m.get(key).map(|inner| inner.value().clone().into_iter().collect())
}

/// Relies on `DashMap::entry(..).or_default()` and `DashSet::insert`, which
/// returns whether the member was absent.
#[verifier::external_body]
fn set_add(m: &DashMap<String, DashSet<String>>, key: String, member: String) -> bool {
    m.entry(key).or_default().insert(member)
}

/// Relies on `DashMap::get` and `DashSet::contains`: `None` when the key
/// has no set.
#[verifier::external_body]
fn set_contains(m: &DashMap<String, DashSet<String>>, key: &str, member: &str) -> Option<bool> {
    m.get(key).map(|s| s.contains(member))
}

/// The count that SADD adds for one member: 1 when the store took it as new.
pub fn added_count(inserted: bool) -> (r: usize)
    ensures
        r == if inserted { 1usize } else { 0usize },
{
    if inserted {
        1
    } else {
        0
    }
}

/// Membership from the store's answer: a key without a set holds nothing.
pub fn member_of(answer: Option<bool>) -> (r: bool)
    ensures
        r == match answer {
            Some(b) => b,
            None => false,
        },
{
    match answer {
        Some(b) => b,
        None => false,
    }
}

/// The three stores. Their keyspaces are disjoint.
#[derive(Debug)]
pub struct BackendInner {
    map: DashMap<String, RespFrame>,
    hmap: DashMap<String, DashMap<String, RespFrame>>,
    hset: DashMap<String, DashSet<String>>,
}

/// A cheaply cloned handle to the shared store.
#[derive(Debug, Clone)]
pub struct Backend(Arc<BackendInner>);

impl Backend {
    /// An empty store.
    pub fn new() -> Backend {
        Backend(Arc::new(BackendInner { map: new_map(), hmap: new_map(), hset: new_map() }))
    }

    /// The value of a plain key.
    pub fn get(&self, key: &str) -> Option<RespFrame> {
        map_get(&self.0.map, key)
    }

    /// Sets a plain key, overwriting what it held.
    pub fn set(&self, key: String, value: RespFrame) {
        map_insert(&self.0.map, key, value)
    }

    /// The value of a field of a hash key.
    pub fn hget(&self, key: &str, field: &str) -> Option<RespFrame> {
        hash_get(&self.0.hmap, key, field)
    }

    /// Sets a field of a hash key, making the hash on its first field.
    pub fn hset(&self, key: String, field: String, value: RespFrame) {
        hash_set(&self.0.hmap, key, field, value)
    }

    /// A snapshot of the fields of a hash key, in no set order.
    pub fn hgetall(&self, key: &str) -> Option<Vec<(String, RespFrame)>> {
        hash_entries(&self.0.hmap, key)
    }

    /// Adds a member to a set key: 1 when it was new, 0 when it was there.
    pub fn sadd(&self, key: String, member: String) -> (r: usize)
        ensures
            r <= 1,
    {
        added_count(set_add(&self.0.hset, key, member))
    }

    /// Whether a set key holds a member.
    pub fn sismember(&self, key: &str, member: &str) -> bool {
        member_of(set_contains(&self.0.hset, key, member))
    }
}

} // verus!
