//! An adapter over a sharded concurrent map.
use vstd::prelude::*;
use ::dashmap::DashMap;
use crate::adapters::{bumped, Adapter};

verus! {

/// The sharded map of the `dashmap` crate, carried opaquely.
#[verifier::external_type_specification]
#[verifier::external_body]
#[verifier::reject_recursive_types(K)]
#[verifier::reject_recursive_types(V)]
#[verifier::reject_recursive_types(S)]
pub struct ExDashMap<K, V, S>(::dashmap::DashMap<K, V, S>);

/// What a `DashMap` of `u64` keys and values holds.
pub uninterp spec fn dashmap_contents(m: DashMap<u64, u64>) -> Map<u64, u64>;

/// A trusted call of `DashMap::with_capacity`: the new map holds nothing.
#[verifier::external_body]
fn dashmap_with_capacity(capacity: usize) -> (fresh: DashMap<u64, u64>)
    ensures
        dashmap_contents(fresh) =~= Map::empty(),
{
    DashMap::with_capacity(capacity)
}

/// A trusted call of `DashMap::get`, copying the value out: the value of `key`
/// when the map holds it, `None` otherwise.
#[verifier::external_body]
fn dashmap_get(m: &DashMap<u64, u64>, key: &u64) -> (r: Option<u64>)
    ensures
        r == if dashmap_contents(*m).contains_key(*key) {
            Some(dashmap_contents(*m)[*key])
        } else {
            None::<u64>
        },
{
    m.get(key).map(|entry| *entry)
}

/// A trusted call of `DashMap::insert`: the map then maps `key` to `value`, and
/// the old value of `key` comes back when there was one.
#[verifier::external_body]
fn dashmap_insert(m: &mut DashMap<u64, u64>, key: u64, value: u64) -> (r: Option<u64>)
    ensures
        dashmap_contents(*final(m)) == dashmap_contents(*old(m)).insert(key, value),
        r == if dashmap_contents(*old(m)).contains_key(key) {
            Some(dashmap_contents(*old(m))[key])
        } else {
            None::<u64>
        },
{
    m.insert(key, value)
}

/// A trusted call of `DashMap::remove`: the map then no longer holds `key`, and
/// the removed key and value come back when there were some.
#[verifier::external_body]
fn dashmap_remove(m: &mut DashMap<u64, u64>, key: &u64) -> (r: Option<(u64, u64)>)
    ensures
        dashmap_contents(*final(m)) == dashmap_contents(*old(m)).remove(*key),
        r == if dashmap_contents(*old(m)).contains_key(*key) {
            Some((*key, dashmap_contents(*old(m))[*key]))
        } else {
            None
        },
{
    m.remove(key)
}

/// What a `DashMap` of `u128` keys and values holds.
pub uninterp spec fn dashmap128_contents(m: DashMap<u128, u128>) -> Map<u128, u128>;

/// A trusted call of `DashMap::get`, copying the value out: the value of `key`
/// when the map holds it, `None` otherwise.
#[verifier::external_body]
pub(crate) fn dashmap128_get(m: &DashMap<u128, u128>, key: &u128) -> (r: Option<u128>)
    ensures
        r == if dashmap128_contents(*m).contains_key(*key) {
            Some(dashmap128_contents(*m)[*key])
        } else {
            None::<u128>
        },
{
    m.get(key).map(|entry| *entry)
}

/// A trusted call of `DashMap::insert`: the map then maps `key` to `value`, and
/// the old value of `key` comes back when there was one.
#[verifier::external_body]
pub(crate) fn dashmap128_insert(m: &mut DashMap<u128, u128>, key: u128, value: u128) -> (r: Option<u128>)
    ensures
        dashmap128_contents(*final(m)) == dashmap128_contents(*old(m)).insert(key, value),
        r == if dashmap128_contents(*old(m)).contains_key(key) {
            Some(dashmap128_contents(*old(m))[key])
        } else {
            None::<u128>
        },
{
    m.insert(key, value)
}

/// A trusted call of `DashMap::remove`: the map then no longer holds `key`, and
/// the removed key and value come back when there were some.
#[verifier::external_body]
pub(crate) fn dashmap128_remove(m: &mut DashMap<u128, u128>, key: &u128) -> (r: Option<(u128, u128)>)
    ensures
        dashmap128_contents(*final(m)) == dashmap128_contents(*old(m)).remove(*key),
        r == if dashmap128_contents(*old(m)).contains_key(*key) {
            Some((*key, dashmap128_contents(*old(m))[*key]))
        } else {
            None
        },
{
    m.remove(key)
}

/// A trusted call of `DashMap::clear`: the map then holds nothing.
#[verifier::external_body]
pub(crate) fn dashmap128_clear(m: &mut DashMap<u128, u128>)
    ensures
        dashmap128_contents(*final(m)) =~= Map::empty(),
{
    m.clear()
}

/// One `DashMap` holding every key.
pub struct DashMapAdapter {
    map: DashMap<u64, u64>,
}

impl View for DashMapAdapter {
    type V = Map<u64, u64>;

    closed spec fn view(&self) -> Map<u64, u64> {
        dashmap_contents(self.map)
    }
}

impl DashMapAdapter {
    /// An empty adapter with room for `capacity` keys.
    pub fn create_with_capacity(capacity: usize) -> (a: Self)
        ensures
            a@ == Map::<u64, u64>::empty(),
    {
        DashMapAdapter { map: dashmap_with_capacity(capacity) }
    }
}

impl Adapter for DashMapAdapter {
    open spec fn inv(&self) -> bool {
        true
    }

    open spec fn admits_key(key: u64) -> bool {
        true
    }

    open spec fn admits_value(value: u64) -> bool {
        true
    }

    fn accepts_key(&self, key: &u64) -> (r: bool) {
        true
    }

    fn accepts_value(&self, value: u64) -> (r: bool) {
        true
    }

    fn value(&self, key: &u64) -> (r: Option<u64>) {
        dashmap_get(&self.map, key)
    }

    fn get(&mut self, key: &u64) -> (r: bool) {
        dashmap_get(&self.map, key).is_some()
    }

    fn insert(&mut self, key: &u64, value: u64) -> (r: bool) {
        dashmap_insert(&mut self.map, *key, value).is_none()
    }

    fn remove(&mut self, key: &u64) -> (r: bool) {
        dashmap_remove(&mut self.map, key).is_some()
    }

    fn update(&mut self, key: &u64) -> (r: bool) {
        match dashmap_get(&self.map, key) {
            Some(v) => {
                dashmap_insert(&mut self.map, *key, v + 1);
                true
            },
            None => false,
        }
    }
}

} // verus!
